//! The cache of `getblock` responses.

use pivx_bridge::block_cache::BlockCache;
use pivx_bridge::json::Json;

fn text(s: &str) -> Json {
    Json::Text(s.to_string())
}

fn object(fields: Vec<(&str, Json)>) -> Json {
    Json::Object(fields.into_iter().map(|(k, v)| (k.to_string(), v)).collect())
}

fn make_block(height: u32, hash: &str) -> Json {
    object(vec![
        ("hash", text(hash)),
        ("height", Json::PosInt(height as u64)),
        ("confirmations", Json::PosInt(100)),
        ("nextblockhash", text("next_placeholder")),
        ("tx", Json::Array(vec![text("txid1"), text("txid2")])),
        ("time", Json::PosInt(1700000000u64 + height as u64)),
    ])
}

#[test]
fn insert_and_get_rehydrates() {
    let mut cache = BlockCache::new(10);
    let block = make_block(500, "abc123");
    cache.insert("abc123", 1, &block);

    let got = cache.get("abc123", 1, 600).unwrap();
    assert_eq!(got.get("confirmations"), Some(&Json::PosInt(101)));
    assert!(got.get("nextblockhash").is_none());

    let block2 = make_block(501, "def456");
    cache.insert("def456", 1, &block2);
    let got = cache.get("abc123", 1, 600).unwrap();
    assert_eq!(got.get("nextblockhash"), Some(&text("def456")));
    assert_eq!(got.get("tx").unwrap().as_array().unwrap().len(), 2);
}

#[test]
fn miss_returns_none() {
    let mut cache = BlockCache::new(10);
    assert!(cache.get("nonexistent", 1, 100).is_none());
    assert_eq!(cache.misses, 1);
}

#[test]
fn evicts_lowest_height() {
    let mut cache = BlockCache::new(3);
    cache.insert("a", 1, &make_block(100, "a"));
    cache.insert("b", 1, &make_block(200, "b"));
    cache.insert("c", 1, &make_block(300, "c"));
    cache.insert("d", 1, &make_block(400, "d"));
    assert!(cache.get("a", 1, 500).is_none());
    assert!(cache.get("b", 1, 500).is_some());
    assert!(cache.get("d", 1, 500).is_some());
}

#[test]
fn reorg_detection_and_invalidation() {
    let mut cache = BlockCache::new(10);
    cache.insert("aaa", 1, &make_block(98, "aaa"));
    cache.insert("bbb", 1, &make_block(99, "bbb"));
    cache.insert("ccc", 1, &make_block(100, "ccc"));

    assert!(cache.detect_reorg(100, "different_parent"));
    assert!(!cache.detect_reorg(100, "bbb"));

    cache.invalidate_from(99);
    assert!(cache.get("aaa", 1, 200).is_some());
    assert!(cache.get("bbb", 1, 200).is_none());
    assert!(cache.get("ccc", 1, 200).is_none());
}

#[test]
fn duplicate_insert_is_noop() {
    let mut cache = BlockCache::new(10);
    cache.insert("abc", 1, &make_block(100, "abc"));
    cache.insert("abc", 1, &make_block(100, "abc"));
    assert_eq!(cache.entries.len(), 1);
}

#[test]
fn verbosity_fallback() {
    let mut cache = BlockCache::new(10);
    let block = make_block(100, "abc");

    // Insert at v2 only
    cache.insert("abc", 2, &block);
    assert_eq!(cache.entries.len(), 1);

    // v2 lookup: direct hit
    assert!(cache.get("abc", 2, 200).is_some());
    // v1 lookup: falls back to v2 (superset)
    assert!(cache.get("abc", 1, 200).is_some());
    // v0 lookup: no fallback (v0 is hex, not JSON)
    assert!(cache.get("abc", 0, 200).is_none());
}

#[test]
fn hex_never_falls_back_to_json() {
    let mut cache = BlockCache::new(10);
    cache.insert("abc", 1, &make_block(100, "abc"));
    assert!(cache.get("abc", 0, 200).is_none());
    assert!(cache.get("abc", 2, 200).is_some());
    assert!(cache.get("abc", 7, 200).is_some());
    assert_eq!(cache.stats(), (2, 1, 1));
}

#[test]
fn first_insert_wins() {
    let mut cache = BlockCache::new(10);
    cache.insert("abc", 1, &make_block(100, "abc"));
    cache.insert("abc", 1, &make_block(200, "abc"));
    assert_eq!(cache.get("abc", 1, 200).unwrap().number_field("height"), Some(100));
    assert_eq!(cache.hash_for_height(200), None);
}

#[test]
fn confirmations_never_fall_below_one() {
    let mut cache = BlockCache::new(10);
    cache.insert("abc", 1, &make_block(500, "abc"));
    assert_eq!(cache.get("abc", 1, 400).unwrap().number_field("confirmations"), Some(1));
    cache.insert("genesis", 1, &make_block(0, "genesis"));
    assert_eq!(
        cache.get("genesis", 1, u32::MAX).unwrap().number_field("confirmations"),
        Some(1 << 32)
    );
    cache.insert("last", 1, &make_block(u32::MAX, "last"));
    assert!(cache.get("last", 1, 0).unwrap().get("nextblockhash").is_none());
}

#[test]
fn responses_that_are_no_objects_are_kept_as_they_are() {
    let mut cache = BlockCache::new(10);
    cache.insert("hex", 0, &text("0300"));
    assert_eq!(cache.get("hex", 0, 5), Some(text("0300")));
    // Without a height it counts as the lowest
    assert_eq!(cache.hash_for_height(0), Some("hex"));
}

#[test]
fn a_full_cache_evicts_whatever_is_lowest() {
    // Of an unusual verbosity too
    let mut cache = BlockCache::new(1);
    cache.insert("a", 3, &make_block(5, "a"));
    cache.insert("b", 1, &make_block(6, "b"));
    assert!(cache.get("a", 3, 10).is_none());
    assert!(cache.get("b", 1, 10).is_some());
    assert_eq!(cache.entries.len(), 1);
    assert_eq!(cache.hash_for_height(5), None);

}

#[test]
fn of_two_blocks_of_one_height_the_later_goes_first() {
    let mut cache = BlockCache::new(2);
    cache.insert("x", 1, &make_block(5, "x"));
    cache.insert("y", 1, &make_block(5, "y"));
    cache.insert("z", 1, &make_block(6, "z"));
    assert!(cache.get("x", 1, 10).is_some());
    assert!(cache.get("y", 1, 10).is_none());
    assert!(cache.get("z", 1, 10).is_some());
    assert_eq!(cache.hash_for_height(5), None);

    // What is left of the lowest height goes next
    cache.insert("w", 1, &make_block(7, "w"));
    assert!(cache.get("x", 1, 10).is_none());
    assert!(cache.get("z", 1, 10).is_some());
    assert!(cache.get("w", 1, 10).is_some());
}

#[test]
fn an_evicted_block_goes_with_all_its_responses() {
    let mut cache = BlockCache::new(3);
    cache.insert("y", 1, &make_block(5, "y"));
    cache.insert("y", 4, &make_block(9, "y"));
    cache.insert("x", 1, &make_block(7, "x"));
    cache.insert("z", 1, &make_block(8, "z"));
    assert!(cache.get("y", 1, 10).is_none());
    assert!(cache.get("y", 4, 10).is_none());
    assert!(cache.get("x", 1, 10).is_some());
    assert!(cache.get("z", 1, 10).is_some());
}

#[test]
fn a_cache_without_room_keeps_nothing() {
    let mut cache = BlockCache::new(0);
    cache.keep("a", 1, &make_block(100, "a"));
    assert_eq!(cache.entries.len(), 0);
    assert!(cache.get("a", 1, 200).is_none());

    let mut cache = BlockCache::new(1);
    cache.keep("a", 1, &make_block(100, "a"));
    assert!(cache.get("a", 1, 200).is_some());
}

#[test]
fn invalidation_goes_by_the_height_of_each_response() {
    let mut cache = BlockCache::new(10);
    cache.insert("x", 1, &make_block(5, "x"));
    cache.insert("y", 1, &make_block(5, "y"));
    cache.insert("y", 3, &make_block(5, "y"));
    cache.insert("z", 1, &make_block(4, "z"));
    cache.invalidate_from(5);
    assert!(cache.get("x", 1, 10).is_none());
    assert!(cache.get("y", 1, 10).is_none());
    assert!(cache.get("y", 3, 10).is_none());
    assert!(cache.get("z", 1, 10).is_some());
    assert_eq!(cache.hash_for_height(5), None);
    assert_eq!(cache.hash_for_height(4), Some("z"));

    // Once more changes nothing
    cache.invalidate_from(5);
    assert_eq!(cache.entries.len(), 1);
}

#[test]
fn eviction_takes_all_of_the_lowest_block() {
    let mut cache = BlockCache::new(3);
    cache.insert("a", 1, &make_block(100, "a"));
    cache.insert("a", 2, &make_block(100, "a"));
    cache.insert("b", 1, &make_block(200, "b"));
    cache.insert("c", 1, &make_block(50, "c"));
    assert!(cache.get("a", 1, 500).is_none());
    assert!(cache.get("a", 2, 500).is_none());
    assert_eq!(cache.entries.len(), 2);
    assert_eq!(cache.hash_for_height(50), Some("c"));
    assert_eq!(cache.hash_for_height(100), None);
    assert!(!cache.detect_reorg(101, "anything"));
    assert!(!cache.detect_reorg(0, "anything"));
}
