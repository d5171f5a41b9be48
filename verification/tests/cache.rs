//! The binary cache file: what is appended and what survives.

use pivx_bridge::api::StreamFormat;
use pivx_bridge::cache::{append_blocks, find_last_footer, recover_cache};
use pivx_bridge::index::ShieldIndex;
use pivx_bridge::scanner::{ShieldBlock, ShieldTx};
use pivx_bridge::stream;

fn make_block(height: u32, time: u32) -> ShieldBlock {
    ShieldBlock {
        height,
        time,
        txs: vec![ShieldTx {
            raw: vec![0x03, 0x00, 0x0a, 0x00, 0xDE, 0xAD],
            compact: None,
        }],
    }
}

/// Append to a file held in memory; the entries of what was appended.
fn append(file: &mut Vec<u8>, blocks: &[ShieldBlock]) -> Vec<(u32, u64, u64)> {
    let append = append_blocks(file.len() as u64, blocks).unwrap();
    for chunk in &append.chunks {
        file.extend_from_slice(chunk);
    }
    append.entries
}

#[test]
fn find_last_footer_in_valid_stream() {
    let block = make_block(100, 1000);
    let stream = stream::encode_shield_stream(&[block], StreamFormat::PivxCompat);
    let end = find_last_footer(&stream).unwrap();
    assert_eq!(end, stream.len());
}

#[test]
fn find_last_footer_truncated_stream() {
    let block = make_block(100, 1000);
    let mut stream = stream::encode_shield_stream(&[block], StreamFormat::PivxCompat);
    let good_len = stream.len();

    // Append garbage (simulates crash mid-write of next block)
    stream.extend_from_slice(&[0x06, 0x00, 0x00, 0x00, 0x03, 0x00]);

    let end = find_last_footer(&stream).unwrap();
    assert_eq!(end, good_len, "should find footer before the garbage");
}

#[test]
fn find_last_footer_multi_block() {
    let blocks = vec![make_block(100, 1000), make_block(200, 2000)];
    let stream = stream::encode_shield_stream(&blocks, StreamFormat::PivxCompat);
    let end = find_last_footer(&stream).unwrap();
    assert_eq!(end, stream.len());
}

#[test]
fn find_last_footer_empty() {
    assert!(find_last_footer(&[]).is_none());
}

#[test]
fn recover_cache_truncates_garbage() {
    let block = make_block(500, 9999);
    let stream = stream::encode_shield_stream(&[block], StreamFormat::PivxCompat);
    let good_len = stream.len();

    // Good data + garbage
    let mut data = stream;
    data.extend_from_slice(&[0xFF; 50]);

    let recovery = recover_cache(&data).unwrap();
    assert_eq!(recovery.height, 500);
    assert_eq!(recovery.keep, good_len);
}

#[test]
fn nothing_is_recovered_without_a_footer() {
    assert!(recover_cache(&[]).is_none());
    assert!(recover_cache(&[0xFF; 50]).is_none());
    assert!(recover_cache(&[1, 0, 0, 0, 0x5d]).is_none());
    // A packet of nine bytes that is not marked as a block
    assert!(recover_cache(&[9, 0, 0, 0, 1, 2, 3, 4, 5, 6, 7, 8, 9]).is_none());
}

#[test]
fn append_and_read_roundtrip() {
    let mut file = Vec::new();
    let block = make_block(100, 1000);
    let entries = append(&mut file, &[block]);
    assert_eq!(entries.len(), 1);
    assert_eq!(entries[0].0, 100); // height
    assert_eq!(entries[0].1, 0);   // offset
    assert!(entries[0].2 > 0);     // length

    assert_eq!(file.len(), entries[0].2 as usize);
}

#[test]
fn append_refuses_offsets_that_do_not_fit() {
    let blocks = [make_block(100, 1000)];
    assert!(append_blocks(u64::MAX - 23, &blocks).is_some());
    assert!(append_blocks(u64::MAX - 22, &blocks).is_none());
    assert!(append_blocks(u64::MAX, &[]).is_some());
}

/// append → truncate → re-append: the final file size matches exactly what the
/// index reports, so there is no orphan tail.
#[test]
fn reorg_truncates_cache_no_orphan_bytes() {
    let mut file = Vec::new();
    let mut index = ShieldIndex::new();

    // Phase 1: append 3 blocks on the first chain
    let blocks_a = vec![
        make_block(100, 1000),
        make_block(200, 2000),
        make_block(300, 3000),
    ];
    let entries_a = append(&mut file, &blocks_a);
    for (h, off, _len) in &entries_a {
        index.add(*h, *off);
    }
    let pre_reorg_size = file.len() as u64;
    assert_eq!(pre_reorg_size, entries_a.iter().map(|e| e.2).sum::<u64>());

    // Phase 2: a reorg at height 250. Heights >= 250 are orphaned.
    let fork_height = 250u32;
    let truncate_offset = index.offset_for_height(fork_height).unwrap();
    file.truncate(truncate_offset as usize);
    index.remove_from(fork_height);

    // Cache + index now agree: only blocks 100 and 200 remain.
    assert_eq!(file.len() as u64, truncate_offset);
    assert_eq!(index.shield_heights, vec![100, 200]);

    // Phase 3: replay forward on the new chain. New block at
    // height 300 (different time → different bytes) must land at
    // the truncated offset, NOT after the orphaned tail.
    let blocks_b = vec![make_block(300, 9999)];
    let entries_b = append(&mut file, &blocks_b);
    assert_eq!(entries_b.len(), 1);
    assert_eq!(entries_b[0].0, 300);
    assert_eq!(
        entries_b[0].1, truncate_offset,
        "new block must start at truncate point, not orphan tail",
    );
    index.add(entries_b[0].0, entries_b[0].1);

    // Final invariant: file size = sum of entry lengths in the index.
    let final_size = file.len() as u64;
    let total_block_a_kept: u64 = entries_a.iter()
        .filter(|e| e.0 < fork_height)
        .map(|e| e.2)
        .sum();
    let total_block_b: u64 = entries_b.iter().map(|e| e.2).sum();
    assert_eq!(
        final_size,
        total_block_a_kept + total_block_b,
        "shield.bin contains orphan bytes — reorg handler regressed",
    );

    // And the new block 300's bytes are the new chain's bytes.
    let last = find_last_footer(&file).unwrap();
    // Footer payload: [0x5d][height:4LE][time:4LE], at last - 9
    let footer_start = last - 9;
    let height = u32::from_le_bytes([
        file[footer_start + 1], file[footer_start + 2],
        file[footer_start + 3], file[footer_start + 4],
    ]);
    let time = u32::from_le_bytes([
        file[footer_start + 5], file[footer_start + 6],
        file[footer_start + 7], file[footer_start + 8],
    ]);
    assert_eq!(height, 300);
    assert_eq!(time, 9999, "wrong block 300 — orphan bytes leaked through");
}
