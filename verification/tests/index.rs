//! The shield block index.

use pivx_bridge::index::{IndexEntry, ScanCursor, ShieldIndex};

#[test]
fn new_index_is_empty() {
    let idx = ShieldIndex::new();
    assert!(idx.entries.is_empty());
    assert!(idx.shield_heights.is_empty());
    assert_eq!(idx.last_height(), None);
}

#[test]
fn add_block_tracks_height_and_offset() {
    let mut idx = ShieldIndex::new();
    idx.add(2700501, 0);
    idx.add(2700510, 1234);
    assert_eq!(idx.shield_heights, vec![2700501, 2700510]);
    assert_eq!(idx.entries[0].block, 2700501);
    assert_eq!(idx.entries[0].i, 0);
    assert_eq!(idx.entries[1].i, 1234);
}

#[test]
fn add_duplicate_height_ignored() {
    let mut idx = ShieldIndex::new();
    idx.add(100, 0);
    idx.add(100, 999);
    assert_eq!(idx.shield_heights.len(), 1);
    assert_eq!(idx.entries[0].i, 0); // first one wins
}

#[test]
fn heights_from_filters_correctly() {
    let mut idx = ShieldIndex::new();
    for h in [100, 200, 300, 400, 500] {
        idx.add(h, 0);
    }
    assert_eq!(idx.heights_from(250), vec![300, 400, 500]);
    assert_eq!(idx.heights_from(100), vec![100, 200, 300, 400, 500]);
    assert_eq!(idx.heights_from(600), Vec::<u32>::new());
}

#[test]
fn offset_for_height() {
    let mut idx = ShieldIndex::new();
    idx.add(100, 0);
    idx.add(200, 500);
    idx.add(300, 1200);

    assert_eq!(idx.offset_for_height(100), Some(0));
    assert_eq!(idx.offset_for_height(200), Some(500));
    assert_eq!(idx.offset_for_height(150), Some(500)); // next >= 150
    assert_eq!(idx.offset_for_height(400), None);
}

#[test]
fn byte_length_between() {
    let mut idx = ShieldIndex::new();
    idx.add(100, 0);
    idx.add(200, 500);
    idx.add(300, 1200);

    let total = 2000u64;
    // From block 100 to 200: offset 0 to first block > 200 (300 at offset 1200)
    assert_eq!(idx.byte_length_between(100, 200, total), 1200);
    // From block 200 to 300: offset 500 to end (no block > 300)
    assert_eq!(idx.byte_length_between(200, 300, total), 1500);
    // From block 100 to 300: full file
    assert_eq!(idx.byte_length_between(100, 300, total), 2000);
}

#[test]
fn byte_length_of_nothing() {
    let mut idx = ShieldIndex::new();
    idx.add(100, 0);
    idx.add(200, 500);
    assert_eq!(idx.byte_length_between(300, 400, 2000), 0);
    // The range ends before it starts
    assert_eq!(idx.byte_length_between(200, 50, 2000), 0);
    assert_eq!(idx.offset_after(u32::MAX, 2000), 2000);
    assert_eq!(idx.offset_after(100, 2000), 500);
}

#[test]
fn save_and_load_roundtrip() {
    let mut idx = ShieldIndex::new();
    idx.add(2700501, 0);
    idx.add(2700510, 5000);

    let loaded = ShieldIndex::from_entries(idx.entries.clone());

    assert_eq!(loaded.shield_heights, vec![2700501, 2700510]);
    assert_eq!(loaded.entries[0].block, 2700501);
    assert_eq!(loaded.entries[1].i, 5000);
}

#[test]
fn remove_from_drops_the_fork_and_above() {
    let entries = vec![
        IndexEntry { block: 100, i: 0 },
        IndexEntry { block: 200, i: 10 },
        IndexEntry { block: 300, i: 30 },
    ];
    let mut idx = ShieldIndex::from_entries(entries.clone());
    idx.remove_from(200);
    assert_eq!(idx.shield_heights, vec![100]);
    assert_eq!(idx.entries, vec![entries[0]]);
    assert!(idx.contains(100) && !idx.contains(200));

    let mut idx = ShieldIndex::from_entries(entries);
    idx.remove_from(301);
    assert_eq!(idx.shield_heights, vec![100, 200, 300]);
    idx.remove_from(0);
    assert!(idx.entries.is_empty());
    assert_eq!(idx.last_height(), None);
}

#[test]
fn cursor_starts_at_nothing() {
    let cursor = ScanCursor::default();
    assert_eq!(cursor.last_scanned_height, 0);
    assert_eq!(cursor.last_scanned_hash, "");
}
