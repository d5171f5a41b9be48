//! The wire format of the shield stream.

use pivx_bridge::api::{self, StreamFormat};
use pivx_bridge::scanner::{self, CompactOutput, CompactTx, ShieldBlock, ShieldTx};
use pivx_bridge::stream::{
    encode_block_header, encode_compact, encode_compact_plus, encode_compact_plus_tx,
    encode_compact_tx, encode_pivx_compat, encode_shield_stream, packet_len_at,
    write_compact_size, PACKET_TYPE_COMPACT_TX,
};

fn make_fake_tx(raw: Vec<u8>) -> ShieldTx {
    ShieldTx { raw, compact: None }
}

fn make_fake_tx_with_compact(raw: Vec<u8>, compact: CompactTx) -> ShieldTx {
    ShieldTx { raw, compact: Some(compact) }
}

fn make_block(height: u32, time: u32, txs: Vec<ShieldTx>) -> ShieldBlock {
    ShieldBlock { height, time, txs }
}

fn make_output() -> CompactOutput {
    CompactOutput {
        cv: [0u8; 32],
        cmu: [1u8; 32],
        epk: [2u8; 32],
        enc_ciphertext: [3u8; 580],
        out_ciphertext: [4u8; 80],
    }
}

// -- PIVX-compat binary protocol --

#[test]
fn pivx_compat_no_type_prefix_on_raw_tx() {
    // The raw tx bytes should NOT have an extra 0x03 prefix
    let raw = vec![0x03, 0x00, 0x00, 0x00, 0xDE, 0xAD];
    let block = make_block(100, 1000, vec![make_fake_tx(raw.clone())]);
    let stream = encode_shield_stream(&[block], StreamFormat::PivxCompat);

    // First 4 bytes = length prefix = raw.len() (no +1 for type byte)
    let len = u32::from_le_bytes([stream[0], stream[1], stream[2], stream[3]]);
    assert_eq!(len as usize, raw.len(), "length prefix should equal raw tx length, no extra type byte");

    // Next bytes = raw tx (starting with natural 0x03 version)
    assert_eq!(&stream[4..4 + raw.len()], &raw[..]);
}

#[test]
fn pivx_compat_footer_after_txs() {
    let raw = vec![0x03, 0x00, 0x00, 0x00];
    let block = make_block(2700501, 1700000000, vec![make_fake_tx(raw.clone())]);
    let stream = encode_shield_stream(&[block], StreamFormat::PivxCompat);

    // Skip the tx packet: 4 (length) + raw.len()
    let footer_start = 4 + raw.len();

    // Footer: length prefix = 9
    let footer_len = u32::from_le_bytes([
        stream[footer_start], stream[footer_start + 1],
        stream[footer_start + 2], stream[footer_start + 3],
    ]);
    assert_eq!(footer_len, 9);

    // Footer type = 0x5d
    assert_eq!(stream[footer_start + 4], 0x5d);

    // Footer height
    let height = u32::from_le_bytes([
        stream[footer_start + 5], stream[footer_start + 6],
        stream[footer_start + 7], stream[footer_start + 8],
    ]);
    assert_eq!(height, 2700501);

    // Footer time
    let time = u32::from_le_bytes([
        stream[footer_start + 9], stream[footer_start + 10],
        stream[footer_start + 11], stream[footer_start + 12],
    ]);
    assert_eq!(time, 1700000000);
}

#[test]
fn pivx_compat_multi_tx_then_footer() {
    let tx1 = vec![0x03, 0x00, 0x00, 0x00, 0x01];
    let tx2 = vec![0x03, 0x00, 0x00, 0x00, 0x02, 0x03];
    let block = make_block(500, 999, vec![
        make_fake_tx(tx1.clone()),
        make_fake_tx(tx2.clone()),
    ]);
    let stream = encode_shield_stream(&[block], StreamFormat::PivxCompat);

    let mut pos = 0;

    // Packet 1: tx1
    let len1 = u32::from_le_bytes(stream[pos..pos + 4].try_into().unwrap()) as usize;
    assert_eq!(len1, tx1.len());
    assert_eq!(&stream[pos + 4..pos + 4 + len1], &tx1[..]);
    pos += 4 + len1;

    // Packet 2: tx2
    let len2 = u32::from_le_bytes(stream[pos..pos + 4].try_into().unwrap()) as usize;
    assert_eq!(len2, tx2.len());
    assert_eq!(&stream[pos + 4..pos + 4 + len2], &tx2[..]);
    pos += 4 + len2;

    // Packet 3: footer
    let footer_len = u32::from_le_bytes(stream[pos..pos + 4].try_into().unwrap());
    assert_eq!(footer_len, 9);
    assert_eq!(stream[pos + 4], 0x5d);
}

#[test]
fn pivx_compat_multi_block_ordering() {
    let block1 = make_block(100, 1000, vec![make_fake_tx(vec![0x03, 0x00, 0x00, 0x00])]);
    let block2 = make_block(200, 2000, vec![make_fake_tx(vec![0x03, 0x00, 0x00, 0x00])]);
    let stream = encode_shield_stream(&[block1, block2], StreamFormat::PivxCompat);

    // Find both footers
    let mut footers = Vec::new();
    let mut pos = 0;
    while pos < stream.len() {
        let len = u32::from_le_bytes(stream[pos..pos + 4].try_into().unwrap()) as usize;
        if stream[pos + 4] == 0x5d {
            let height = u32::from_le_bytes(stream[pos + 5..pos + 9].try_into().unwrap());
            let time = u32::from_le_bytes(stream[pos + 9..pos + 13].try_into().unwrap());
            footers.push((height, time));
        }
        pos += 4 + len;
    }

    assert_eq!(footers, vec![(100, 1000), (200, 2000)]);
}

#[test]
fn pivx_compat_empty_block() {
    let block = make_block(100, 1000, vec![]);
    let stream = encode_shield_stream(&[block], StreamFormat::PivxCompat);
    // Just the footer: 4 (length prefix) + 9 (payload) = 13 bytes
    assert_eq!(stream.len(), 13);
    assert_eq!(stream[4], 0x5d);
}

// -- Compact formats --

#[test]
fn compact_header_before_txs() {
    let compact = CompactTx { nullifiers: vec![[0xAA; 32]], outputs: vec![make_output()] };
    let block = make_block(500, 999, vec![
        make_fake_tx_with_compact(vec![0x03, 0x00, 0x00, 0x00], compact),
    ]);
    let stream = encode_shield_stream(&[block], StreamFormat::Compact);

    // First packet: block header (5 bytes: type + height)
    let len = u32::from_le_bytes(stream[0..4].try_into().unwrap());
    assert_eq!(len, 5);
    assert_eq!(stream[4], 0x5d); // block marker
    let height = u32::from_le_bytes(stream[5..9].try_into().unwrap());
    assert_eq!(height, 500);

    // Second packet: compact tx (type 0x04)
    let pos = 9;
    let tx_len = u32::from_le_bytes(stream[pos..pos + 4].try_into().unwrap()) as usize;
    assert_eq!(stream[pos + 4], 0x04); // compact type
    assert_eq!(stream[pos + 5], 1);    // 1 spend
    assert_eq!(stream[pos + 6], 1);    // 1 output
    // Total: 1 (type) + 2 (counts) + 32 (nullifier) + 32+32+32+580+80 (output) = 791
    assert_eq!(tx_len, 791);
}

#[test]
fn compact_plus_no_out_ciphertext() {
    let compact = CompactTx { nullifiers: vec![], outputs: vec![make_output()] };
    let block = make_block(500, 999, vec![
        make_fake_tx_with_compact(vec![0x03, 0x00, 0x00, 0x00], compact),
    ]);

    let compact_stream = encode_shield_stream(&[block.clone()], StreamFormat::Compact);
    let plus_stream = encode_shield_stream(&[block], StreamFormat::CompactPlus);

    // CompactPlus should be smaller (no cv or out_ciphertext: -112 bytes per output)
    assert!(plus_stream.len() < compact_stream.len());
    let diff = compact_stream.len() - plus_stream.len();
    assert_eq!(diff, 112); // cv(32) + out_ciphertext(80) stripped

    // CompactPlus type byte should be 0x05
    // Skip header (9 bytes), then length prefix (4), then type byte
    assert_eq!(plus_stream[9 + 4], 0x05);
}

#[test]
fn compact_output_size_math() {
    // Verify the documented size savings
    let full_output = 32 + 32 + 32 + 580 + 80 + 192; // 948
    let compact_output = 32 + 32 + 32 + 580 + 80; // 756 (cv + cmu + epk + enc + out_ct)
    let compact_plus_output = 32 + 32 + 580; // 644 (cmu + epk + enc only)
    assert_eq!(full_output, 948);
    assert_eq!(compact_output, 756);
    assert_eq!(compact_plus_output, 644);
}

#[test]
fn write_compact_size_matches_reader() {
    // Round-trip against the canonical decoder for the boundary values.
    for n in [0usize, 1, 252, 253, 1000, 65535, 65536, 821] {
        let mut buf = Vec::new();
        write_compact_size(&mut buf, n);
        let (decoded, _) = scanner::read_compact_size(&buf, 0).unwrap();
        assert_eq!(decoded, n, "compact size round-trip for {n}");
    }
    // <253 must stay a single byte.
    let mut one = Vec::new();
    write_compact_size(&mut one, 200);
    assert_eq!(one, vec![200u8]);
}

#[test]
fn compact_tx_encodes_large_counts_as_varint() {
    // A tx with >255 spends must NOT truncate the count:
    // the count is a CompactSize and decodes back to the true value.
    let compact = CompactTx { nullifiers: vec![[7u8; 32]; 300], outputs: vec![] };
    let mut stream = Vec::new();
    encode_compact_tx(&mut stream, &compact, &[]);

    // [len:4][type:1][nSpends:CompactSize][nOutputs:CompactSize][nullifiers..]
    let len = u32::from_le_bytes([stream[0], stream[1], stream[2], stream[3]]) as usize;
    assert_eq!(stream.len(), 4 + len, "length prefix must be exact");
    assert_eq!(stream[4], PACKET_TYPE_COMPACT_TX);
    let (n_spends, c1) = scanner::read_compact_size(&stream, 5).unwrap();
    let (n_outputs, _) = scanner::read_compact_size(&stream, 5 + c1).unwrap();
    assert_eq!(n_spends, 300, "300 spends must round-trip (not 300 % 256 = 44)");
    assert_eq!(n_outputs, 0);
    assert_eq!(len, 1 + 3 + 1 + 300 * 32, "type + CompactSize(300)=3 + CompactSize(0)=1 + 300 nullifiers");
}

#[test]
fn compact_sizes_have_exact_bytes() {
    for (n, expected) in [
        (252usize, vec![252u8]),
        (253, vec![253, 253, 0]),
        (65535, vec![253, 0xff, 0xff]),
        (65536, vec![254, 0, 0, 1, 0]),
    ] {
        let mut buf = vec![9u8];
        write_compact_size(&mut buf, n);
        assert_eq!(buf[0], 9);
        assert_eq!(&buf[1..], &expected[..]);
    }
    let mut large = Vec::new();
    write_compact_size(&mut large, 0x1_0000_0000);
    assert_eq!(large, vec![255, 0, 0, 0, 0, 1, 0, 0, 0]);
    assert_eq!(scanner::read_compact_size(&large, 0).unwrap(), (0x1_0000_0000, 9));
}

#[test]
fn the_proxy_packets_are_the_stream_packets() {
    let compact = CompactTx { nullifiers: vec![[7u8; 32]; 300], outputs: vec![make_output()] };
    let mut a = Vec::new();
    let mut b = Vec::new();
    api::encode_compact_packet(&mut a, &compact, StreamFormat::Compact);
    encode_compact_tx(&mut b, &compact, &[1, 2, 3]);
    assert_eq!(a, b);

    let mut a = Vec::new();
    let mut b = Vec::new();
    api::encode_compact_packet(&mut a, &compact, StreamFormat::CompactPlus);
    encode_compact_plus_tx(&mut b, &compact);
    assert_eq!(a, b);
    assert_eq!(b.len(), 4 + 1 + 3 + 1 + 300 * 32 + 644);
}

#[test]
fn single_block_encoders_append() {
    let compact = CompactTx { nullifiers: vec![[1u8; 32]], outputs: vec![] };
    let block = make_block(0x01020304, 5, vec![
        make_fake_tx_with_compact(vec![3, 0, 0, 0], compact),
        make_fake_tx(vec![3, 0, 0, 0, 1]),
    ]);

    let mut stream = vec![0xEE];
    encode_block_header(&mut stream, 0x01020304);
    assert_eq!(stream, vec![0xEE, 5, 0, 0, 0, 0x5d, 4, 3, 2, 1]);

    let mut compat = vec![0xEE];
    encode_pivx_compat(&mut compat, &block);
    assert_eq!(
        compat,
        vec![
            0xEE, 4, 0, 0, 0, 3, 0, 0, 0, 5, 0, 0, 0, 3, 0, 0, 0, 1, 9, 0, 0, 0, 0x5d, 4, 3, 2, 1,
            5, 0, 0, 0,
        ]
    );

    // Only the transaction with compact data shows up in the compact formats
    let mut plain = Vec::new();
    encode_compact(&mut plain, &block);
    assert_eq!(plain.len(), 9 + 4 + 3 + 32);
    let mut plus = Vec::new();
    encode_compact_plus(&mut plus, &block);
    assert_eq!(plus.len(), 9 + 4 + 3 + 32);
    assert_eq!((plain[13], plus[13]), (4, 5));
}

#[test]
fn packets_are_measured() {
    let data = [2u8, 0, 0, 0, 7, 8, 3, 0, 0, 0, 1];
    assert_eq!(packet_len_at(&data, 0), Some(2));
    assert_eq!(packet_len_at(&data, 6), None);
    assert_eq!(packet_len_at(&data, 11), None);
    assert_eq!(packet_len_at(&[0, 0, 0, 0], 0), Some(0));
}
