//! What the HTTP interface answers.

use pivx_bridge::api::{
    self, pivxcompat_to_compact, HashCache, ShieldDataLengthQuery, ShieldDataQuery, StreamFormat,
};
use pivx_bridge::index::ShieldIndex;
use pivx_bridge::scanner::{self, ShieldBlock, ShieldTx};
use pivx_bridge::stream;

/// A raw transaction with so many spends and outputs.
fn raw_tx(spends: u8, outputs: u8, seed: u8) -> Vec<u8> {
    let mut tx = vec![3, 0, 0, 0, 0, 0, 0, 0, 0, 0, 1];
    tx.extend([0u8; 8]);
    tx.push(spends);
    tx.extend(vec![seed; 384 * spends as usize]);
    tx.push(outputs);
    tx.extend(vec![seed.wrapping_add(1); 948 * outputs as usize]);
    tx.extend([9u8; 64]);
    tx
}

fn block(height: u32, raws: &[Vec<u8>]) -> ShieldBlock {
    ShieldBlock {
        height,
        time: 1_600_000_000 + height,
        txs: raws
            .iter()
            .map(|raw| ShieldTx {
                raw: raw.clone(),
                compact: scanner::parse_sapling_tx(raw).unwrap(),
            })
            .collect(),
    }
}

/// Three blocks in the shape of the first three of the mainnet stream: one
/// transaction, several, one.
fn three_blocks() -> Vec<ShieldBlock> {
    vec![
        block(2_700_501, &[raw_tx(0, 1, 1)]),
        block(2_700_510, &[raw_tx(1, 2, 2), raw_tx(2, 1, 3)]),
        block(2_700_520, &[raw_tx(3, 3, 4)]),
    ]
}

fn shield_slice() -> Vec<u8> {
    stream::encode_shield_stream(&three_blocks(), StreamFormat::PivxCompat)
}

fn parse_block_heights(data: &[u8], footer_len: usize) -> Vec<u32> {
    let mut heights = Vec::new();
    let mut pos = 0;
    while pos + 4 <= data.len() {
        let pkt_len = u32::from_le_bytes([data[pos], data[pos + 1], data[pos + 2], data[pos + 3]]) as usize;
        let pkt_end = pos + 4 + pkt_len;
        if pkt_end > data.len() || pkt_len == 0 {
            break;
        }
        if data[pos + 4] == 0x5d && pkt_len == footer_len {
            heights.push(u32::from_le_bytes([data[pos + 5], data[pos + 6], data[pos + 7], data[pos + 8]]));
        }
        pos = pkt_end;
    }
    heights
}

fn count_tx_packets(data: &[u8], pkt_type: u8) -> usize {
    let mut count = 0;
    let mut pos = 0;
    while pos + 4 <= data.len() {
        let pkt_len = u32::from_le_bytes([data[pos], data[pos + 1], data[pos + 2], data[pos + 3]]) as usize;
        let pkt_end = pos + 4 + pkt_len;
        if pkt_end > data.len() || pkt_len == 0 {
            break;
        }
        if data[pos + 4] == pkt_type {
            count += 1;
        }
        pos = pkt_end;
    }
    count
}

/// The store of some blocks: their index and their stream.
fn store(blocks: &[ShieldBlock]) -> (ShieldIndex, Vec<u8>) {
    let mut index = ShieldIndex::new();
    let mut buffer = Vec::new();
    for b in blocks {
        index.add(b.height, buffer.len() as u64);
        stream::encode_pivx_compat(&mut buffer, b);
    }
    (index, buffer)
}

#[test]
fn pivxcompat_to_compact_golden_vector() {
    let slice = shield_slice();
    let compact = pivxcompat_to_compact(&slice, StreamFormat::Compact);

    // Source has 3 blocks with PivxCompat footers (9 bytes)
    let src_heights = parse_block_heights(&slice, 9);
    assert_eq!(src_heights.len(), 3, "golden vector should have 3 blocks");

    // Compact output should have 3 blocks with compact headers (5 bytes)
    let dst_heights = parse_block_heights(&compact, 5);
    assert_eq!(dst_heights, src_heights, "compact must preserve block heights");

    // Compact should have 0x04 tx packets, not 0x03
    assert_eq!(count_tx_packets(&slice, 0x03), count_tx_packets(&compact, 0x04),
        "compact must have same number of txs as source");
    assert_eq!(count_tx_packets(&compact, 0x03), 0,
        "compact must not contain raw tx packets");

    // Compact should be smaller
    assert!(compact.len() < slice.len(),
        "compact ({}) should be smaller than pivxcompat ({})", compact.len(), slice.len());
}

#[test]
fn pivxcompat_to_compactplus_golden_vector() {
    let slice = shield_slice();
    let compact = pivxcompat_to_compact(&slice, StreamFormat::Compact);
    let compact_plus = pivxcompat_to_compact(&slice, StreamFormat::CompactPlus);

    // CompactPlus should be even smaller (strips cv + out_ciphertext)
    assert!(compact_plus.len() < compact.len(),
        "compact+ ({}) should be smaller than compact ({})", compact_plus.len(), compact.len());

    // Same block heights
    let cp_heights = parse_block_heights(&compact_plus, 5);
    let src_heights = parse_block_heights(&slice, 9);
    assert_eq!(cp_heights, src_heights);

    // 0x05 packets
    assert_eq!(count_tx_packets(&compact_plus, 0x05), count_tx_packets(&slice, 0x03));
    assert_eq!(count_tx_packets(&compact_plus, 0x04), 0);
}

#[test]
fn derived_compact_streams_are_the_encoded_ones() {
    let blocks = three_blocks();
    for format in [StreamFormat::Compact, StreamFormat::CompactPlus] {
        assert_eq!(
            pivxcompat_to_compact(&shield_slice(), format),
            stream::encode_shield_stream(&blocks, format)
        );
    }
}

#[test]
fn derived_compact_streams_stop_at_broken_packets() {
    let slice = shield_slice();
    let whole = pivxcompat_to_compact(&slice, StreamFormat::Compact);

    // Incomplete packets, and transactions without a footer, are left out
    let mut cut = slice.clone();
    cut.extend([200, 0, 0, 0, 1]);
    assert_eq!(pivxcompat_to_compact(&cut, StreamFormat::Compact), whole);
    let mut pending = slice.clone();
    pending.extend([4, 0, 0, 0, 3, 0, 0, 0]);
    assert_eq!(pivxcompat_to_compact(&pending, StreamFormat::Compact), whole);

    // An empty packet ends the stream
    let mut empty = slice.clone();
    empty.extend([0, 0, 0, 0]);
    empty.extend(&slice);
    assert_eq!(pivxcompat_to_compact(&empty, StreamFormat::Compact), whole);

    // A raw transaction that cannot be parsed leaves its block empty
    let odd = ShieldBlock {
        height: 7,
        time: 8,
        txs: vec![ShieldTx { raw: vec![3, 0], compact: None }],
    };
    let odd = stream::encode_shield_stream(&[odd], StreamFormat::PivxCompat);
    assert_eq!(
        pivxcompat_to_compact(&odd, StreamFormat::CompactPlus),
        vec![5, 0, 0, 0, 0x5d, 7, 0, 0, 0]
    );
}

#[test]
fn shield_data_is_served_from_a_block_on() {
    let blocks = three_blocks();
    let (index, buffer) = store(&blocks);
    let get = |start_block: Option<u32>, format: StreamFormat| {
        api::get_shield_data(&index, &buffer, &ShieldDataQuery { start_block, format })
    };

    let all = get(None, StreamFormat::PivxCompat);
    assert_eq!(all.body, buffer);
    assert_eq!(all.content_length, buffer.len() as u64);
    assert_eq!(all.content_type, "application/octet-stream");

    for format in [StreamFormat::PivxCompat, StreamFormat::Compact, StreamFormat::CompactPlus] {
        assert_eq!(get(Some(0), format).body, stream::encode_shield_stream(&blocks, format));
        assert_eq!(
            get(Some(2_700_502), format).body,
            stream::encode_shield_stream(&blocks[1..], format)
        );
        assert_eq!(
            get(Some(2_700_520), format).body,
            stream::encode_shield_stream(&blocks[2..], format)
        );
        let none = get(Some(2_700_521), format);
        assert!(none.body.is_empty());
        assert_eq!(none.content_length, 0);
    }

    // An index that points behind the buffer serves nothing
    let late = api::get_shield_data(
        &index,
        &Vec::new(),
        &ShieldDataQuery { start_block: None, format: StreamFormat::Compact },
    );
    assert!(late.body.is_empty());
}

#[test]
fn shield_data_length_is_that_of_the_data() {
    let blocks = three_blocks();
    let (index, buffer) = store(&blocks);
    let length = |start_block, end_block, format| {
        api::get_shield_data_length(
            &index,
            &buffer,
            &ShieldDataLengthQuery { start_block, end_block, format },
        )
    };
    for format in [StreamFormat::PivxCompat, StreamFormat::Compact, StreamFormat::CompactPlus] {
        let len = |from: usize, to: usize| {
            stream::encode_shield_stream(&blocks[from..to], format).len().to_string()
        };
        assert_eq!(length(None, None, format), len(0, 3));
        assert_eq!(length(Some(2_700_510), None, format), len(1, 3));
        assert_eq!(length(None, Some(2_700_519), format), len(0, 2));
        assert_eq!(length(Some(2_700_502), Some(2_700_510), format), len(1, 2));
        assert_eq!(length(Some(2_700_521), None, format), "0");
        assert_eq!(length(Some(2_700_520), Some(2_700_500), format), "0");
    }
    assert_eq!(length(None, None, StreamFormat::PivxCompat), buffer.len().to_string());
}

#[test]
fn shield_blocks_are_listed() {
    let (index, _) = store(&three_blocks());
    assert_eq!(api::get_shield_blocks(&index), vec![2_700_501, 2_700_510, 2_700_520]);
}

#[test]
fn block_count_is_passed_on() {
    assert_eq!(api::get_block_count(Ok(5_361_234)).ok(), Some("5361234".to_string()));
    assert_eq!(api::get_block_count(Ok(0)).ok(), Some("0".to_string()));
    assert_eq!(
        api::get_block_count(Ok(u64::MAX)).ok(),
        Some("18446744073709551615".to_string())
    );
    let error = api::get_block_count(Err("down".to_string())).err().unwrap();
    assert_eq!((error.status, error.message.as_str()), (502, "node error: down"));
}

#[test]
fn raw_transactions_are_checked_before_broadcast() {
    assert_eq!(api::send_raw_transaction(" 0300\n").ok(), Some("0300".to_string()));
    let error = api::send_raw_transaction(" \t\n").err().unwrap();
    assert_eq!((error.status, error.message.as_str()), (400, "empty transaction hex"));
    let fits = "0".repeat(10_000_000);
    assert!(api::send_raw_transaction(&fits).is_ok());
    let error = api::send_raw_transaction(&format!("{fits}0")).err().unwrap();
    assert_eq!((error.status, error.message.as_str()), (413, "transaction too large"));

    assert_eq!(api::broadcast_reply(Ok("id".to_string())).ok(), Some("id".to_string()));
    let error = api::broadcast_reply(Err("bad-txns".to_string())).err().unwrap();
    assert_eq!((error.status, error.message.as_str()), (400, "bad-txns"));
}

#[test]
fn hash_cache_drops_the_least_recently_used() {
    let mut cache = HashCache::new(2);
    cache.insert(1, "a".to_string());
    cache.insert(2, "b".to_string());
    cache.insert(1, "other".to_string());
    // The lookup makes 2 the one that was used least recently
    assert_eq!(cache.get(1), Some("a"));
    cache.insert(3, "c".to_string());
    assert_eq!(cache.get(2), None);
    assert_eq!(cache.get(1), Some("a"));
    assert_eq!(cache.get(3), Some("c"));
    cache.insert(2, "d".to_string());
    assert_eq!(cache.get(1), None);
    assert_eq!(cache.get(3), Some("c"));
    assert_eq!(cache.get(2), Some("d"));
}

#[test]
fn hash_cache_without_lookups_drops_the_oldest() {
    let mut cache = HashCache::new(2);
    cache.insert(1, "a".to_string());
    cache.insert(2, "b".to_string());
    // What is missed renews nothing
    assert_eq!(cache.get(9), None);
    cache.insert(3, "c".to_string());
    assert_eq!(cache.get(1), None);
    assert_eq!(cache.get(2), Some("b"));
}

#[test]
fn hash_cache_without_room_holds_the_last() {
    let mut cache = HashCache::new(0);
    cache.insert(1, "a".to_string());
    assert_eq!(cache.get(1), Some("a"));
    cache.insert(2, "b".to_string());
    assert_eq!(cache.get(1), None);
    assert_eq!(cache.get(2), Some("b"));
}

#[test]
fn the_default_format_is_the_compatible_one() {
    assert_eq!(StreamFormat::default(), StreamFormat::PivxCompat);
}
