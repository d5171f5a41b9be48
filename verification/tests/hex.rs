//! Hex decoding.

use pivx_bridge::hex::{decode_inner, hex_decode};

#[test]
fn decode_valid() {
    assert_eq!(hex_decode("deadbeef"), Some(vec![0xDE, 0xAD, 0xBE, 0xEF]));
    assert_eq!(hex_decode("0300"), Some(vec![0x03, 0x00]));
    assert_eq!(hex_decode(""), Some(vec![]));
}

#[test]
fn decode_odd_length() {
    assert_eq!(hex_decode("abc"), None);
}

#[test]
fn decode_uppercase() {
    assert_eq!(hex_decode("DEADBEEF"), hex_decode("deadbeef"));
}

#[test]
fn decode_real_mainnet_tx() {
    // As many digits as the transaction in mainnet block 5361234 has
    let hex = format!("{}{}", "03000000", "5a".repeat(1831));
    let bytes = hex_decode(hex.trim()).unwrap();
    assert_eq!(bytes.len(), 1835);
    assert_eq!(&bytes[..4], &[0x03, 0x00, 0x00, 0x00]); // PIVX Sapling header
    assert!(bytes[4..].iter().all(|&b| b == 0x5a));
}

#[test]
fn decode_short_input() {
    assert_eq!(hex_decode("ff"), Some(vec![0xFF]));
    assert_eq!(hex_decode("0102"), Some(vec![0x01, 0x02]));
}

#[test]
fn decode_counts_other_characters_as_zero() {
    assert_eq!(hex_decode("g1zZ"), Some(vec![0x01, 0x00]));
    // Two bytes of one character: a pair of digits that are none
    assert_eq!(hex_decode("é"), Some(vec![0x00]));
    assert_eq!(decode_inner(b"0f", 1), vec![0x0f]);
}

#[test]
fn decode_inner_stops_where_it_is_told() {
    assert_eq!(decode_inner(b"deadbeef", 2), vec![0xde, 0xad]);
    assert_eq!(decode_inner(b"abc", 1), vec![0xab]);
    assert_eq!(decode_inner(b"ff", 0), Vec::<u8>::new());
}

#[test]
fn decode_every_digit() {
    assert_eq!(
        hex_decode("0123456789abcdefABCDEF"),
        Some(vec![0x01, 0x23, 0x45, 0x67, 0x89, 0xab, 0xcd, 0xef, 0xAB, 0xCD, 0xEF])
    );
}
