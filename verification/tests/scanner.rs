//! The parser of raw transactions, and what a block yields.

use pivx_bridge::hex;
use pivx_bridge::json::Json;
use pivx_bridge::scanner::{
    parse_sapling_descs, parse_sapling_tx, raw_txs_to_ask, read_compact_size, scan_block_inner,
    ScanError, OUTPUT_DESC_SIZE, SAPLING_HEADER, SPEND_DESC_SIZE,
};

fn text(s: &str) -> Json {
    Json::Text(s.to_string())
}

fn object(fields: Vec<(&str, Json)>) -> Json {
    Json::Object(fields.into_iter().map(|(k, v)| (k.to_string(), v)).collect())
}

fn to_hex(bytes: &[u8]) -> String {
    bytes.iter().map(|b| format!("{b:02x}")).collect()
}

/// A transaction laid out as the one in mainnet block 5361234: no inputs, one
/// pay-to-public-key-hash output, two spends, one shielded output, valueBalance
/// 13000000.
fn mainnet_shaped_tx() -> Vec<u8> {
    let mut tx = Vec::new();
    tx.extend_from_slice(&SAPLING_HEADER);
    tx.push(0);
    tx.push(1);
    tx.extend(13_000_000u64.to_le_bytes());
    tx.push(25);
    tx.extend([0x76, 0xa9, 0x14]);
    tx.extend([0x51; 20]);
    tx.extend([0x88, 0xac]);
    tx.extend([0u8; 4]);
    tx.push(0x01);
    tx.extend(13_000_000i64.to_le_bytes());
    tx.push(2);
    for spend in 0..2u8 {
        let mut desc = [0u8; SPEND_DESC_SIZE];
        for (i, b) in desc.iter_mut().enumerate() {
            *b = (i as u8).wrapping_mul(7).wrapping_add(spend);
        }
        tx.extend(desc);
    }
    tx.push(1);
    let mut desc = [0u8; OUTPUT_DESC_SIZE];
    for (i, b) in desc.iter_mut().enumerate() {
        *b = (i as u8).wrapping_mul(3).wrapping_add(1);
    }
    tx.extend(desc);
    tx.extend([0x99; 64]);
    tx
}

#[test]
fn read_compact_size_single_byte() {
    let data = [42u8];
    let (val, consumed) = read_compact_size(&data, 0).unwrap();
    assert_eq!(val, 42);
    assert_eq!(consumed, 1);
}

#[test]
fn read_compact_size_two_byte() {
    let data = [253u8, 0x00, 0x01]; // 256
    let (val, consumed) = read_compact_size(&data, 0).unwrap();
    assert_eq!(val, 256);
    assert_eq!(consumed, 3);
}

#[test]
fn read_compact_size_four_byte() {
    let data = [254u8, 0x01, 0x00, 0x01, 0x00]; // 65537
    let (val, consumed) = read_compact_size(&data, 0).unwrap();
    assert_eq!(val, 65537);
    assert_eq!(consumed, 5);
}

#[test]
fn read_compact_size_past_end() {
    let data = [];
    assert!(read_compact_size(&data, 0).is_err());
}

#[test]
fn sapling_header_correct() {
    // PIVX: nVersion=3 (i16 LE) + nType=0 (i16 LE)
    assert_eq!(SAPLING_HEADER, [0x03, 0x00, 0x00, 0x00]);
}

#[test]
fn spend_output_sizes_match_pivx_core() {
    // From PIVX Core: SpendDescriptionV4 and OutputDescriptionV4
    // cv(32) + anchor(32) + nullifier(32) + rk(32) + zkproof(192) + spendAuthSig(64)
    assert_eq!(SPEND_DESC_SIZE, 32 + 32 + 32 + 32 + 192 + 64);
    // cv(32) + cmu(32) + epk(32) + encCiphertext(580) + outCiphertext(80) + zkproof(192)
    assert_eq!(OUTPUT_DESC_SIZE, 32 + 32 + 32 + 580 + 80 + 192);
}

#[test]
fn parse_no_sapling_data() {
    // v3 tx with no Optional<SaplingTxData> — ends after nLockTime
    let mut tx = Vec::new();
    tx.extend_from_slice(&SAPLING_HEADER);
    tx.push(0); // vin = 0
    tx.push(0); // vout = 0
    tx.extend([0u8; 4]); // nLockTime

    let result = parse_sapling_tx(&tx).unwrap();
    assert!(result.is_none());
}

#[test]
fn parse_discriminant_absent() {
    // Optional<SaplingTxData> discriminant = 0x00 (absent)
    let mut tx = Vec::new();
    tx.extend_from_slice(&SAPLING_HEADER);
    tx.push(0); // vin = 0
    tx.push(0); // vout = 0
    tx.extend([0u8; 4]); // nLockTime
    tx.push(0x00); // discriminant = absent

    let result = parse_sapling_tx(&tx).unwrap();
    assert!(result.is_none());
}

#[test]
fn parse_discriminant_present_empty() {
    // Optional<SaplingTxData> present but 0 spends, 0 outputs
    let mut tx = Vec::new();
    tx.extend_from_slice(&SAPLING_HEADER);
    tx.push(0); // vin = 0
    tx.push(0); // vout = 0
    tx.extend([0u8; 4]); // nLockTime
    tx.push(0x01); // discriminant = present
    tx.extend([0u8; 8]); // valueBalance = 0
    tx.push(0); // nSpends = 0
    tx.push(0); // nOutputs = 0

    let result = parse_sapling_tx(&tx).unwrap();
    assert!(result.is_none());
}

#[test]
fn parse_real_mainnet_tx() {
    // 2 spends, 1 output, valueBalance = 13000000 sat
    let hex = to_hex(&mainnet_shaped_tx());
    let tx_bytes = hex::hex_decode(hex.trim()).expect("valid hex");

    // Verify header
    assert_eq!(&tx_bytes[..4], &SAPLING_HEADER);
    assert_eq!(tx_bytes.len(), 1835);

    // Parse
    let result = parse_sapling_tx(&tx_bytes).unwrap();
    assert!(result.is_some(), "should find Sapling data");

    let compact = result.unwrap();
    assert_eq!(compact.nullifiers.len(), 2, "2 spends → 2 nullifiers");
    assert_eq!(compact.outputs.len(), 1, "1 shielded output");

    // Verify nullifiers are non-zero
    assert!(compact.nullifiers[0].iter().any(|&b| b != 0));
    assert!(compact.nullifiers[1].iter().any(|&b| b != 0));

    // Verify output fields are non-zero
    let out = &compact.outputs[0];
    assert!(out.cv.iter().any(|&b| b != 0));
    assert!(out.cmu.iter().any(|&b| b != 0));
    assert!(out.epk.iter().any(|&b| b != 0));
    assert!(out.enc_ciphertext.iter().any(|&b| b != 0));
    assert!(out.out_ciphertext.iter().any(|&b| b != 0));

    // And exactly where the fields come from
    let spends = 4 + 1 + 1 + 34 + 4 + 1 + 8 + 1;
    assert_eq!(&compact.nullifiers[1][..], &tx_bytes[spends + 384 + 64..spends + 384 + 96]);
    let output = spends + 2 * 384 + 1;
    assert_eq!(&out.enc_ciphertext[..], &tx_bytes[output + 96..output + 676]);
    assert_eq!(&out.out_ciphertext[..], &tx_bytes[output + 676..output + 756]);
}

#[test]
fn parse_with_transparent_vout() {
    // Synthetic tx: vin=0, vout=1 (P2PKH), then Sapling with 0 spends + 1 output
    let mut tx = Vec::new();
    tx.extend_from_slice(&SAPLING_HEADER);
    tx.push(0); // vin = 0
    tx.push(1); // vout = 1
    // vout[0]: value=1 PIV (100000000 sat)
    tx.extend(100_000_000u64.to_le_bytes());
    // P2PKH script: OP_DUP OP_HASH160 <20 bytes> OP_EQUALVERIFY OP_CHECKSIG
    tx.push(25); // script length
    tx.push(0x76);
    tx.push(0xa9);
    tx.push(0x14);
    tx.extend([0xAA; 20]); // dummy pubkey hash
    tx.push(0x88);
    tx.push(0xac);
    // nLockTime
    tx.extend([0u8; 4]);
    // discriminant = present
    tx.push(0x01);
    // valueBalance
    tx.extend(50_000_000i64.to_le_bytes());
    // 0 spends
    tx.push(0);
    // 1 output (948 bytes of dummy data)
    tx.push(1);
    let mut output_desc = vec![0u8; OUTPUT_DESC_SIZE];
    // cv
    output_desc[0] = 0x11;
    // cmu
    output_desc[32] = 0x22;
    // epk
    output_desc[64] = 0x33;
    // enc_ciphertext starts at 96
    output_desc[96] = 0x44;
    // out_ciphertext starts at 676
    output_desc[676] = 0x55;
    tx.extend_from_slice(&output_desc);

    let result = parse_sapling_tx(&tx).unwrap();
    assert!(result.is_some());

    let compact = result.unwrap();
    assert_eq!(compact.nullifiers.len(), 0);
    assert_eq!(compact.outputs.len(), 1);
    assert_eq!(compact.outputs[0].cv[0], 0x11);
    assert_eq!(compact.outputs[0].cmu[0], 0x22);
    assert_eq!(compact.outputs[0].epk[0], 0x33);
    assert_eq!(compact.outputs[0].enc_ciphertext[0], 0x44);
    assert_eq!(compact.outputs[0].out_ciphertext[0], 0x55);
}

#[test]
fn every_parse_error_has_its_message() {
    let error = |tx: &[u8]| parse_sapling_tx(tx).unwrap_err();

    assert_eq!(error(&[]), "read past end");
    assert_eq!(error(&[3, 0, 0, 0]), "read past end");
    assert_eq!(error(&[3, 0, 0, 0, 253, 1]), "truncated varint");
    // An input whose script runs past the end, also one of absurd length
    let mut vin = vec![3, 0, 0, 0, 1];
    vin.extend([0u8; 36]);
    vin.push(50);
    assert_eq!(error(&vin), "truncated vin");
    vin.pop();
    vin.extend([0xff; 9]);
    assert_eq!(error(&vin), "truncated vin");
    // An output whose script runs past the end
    let mut vout = vec![3, 0, 0, 0, 0, 1];
    vout.extend([0u8; 8]);
    vout.push(5);
    assert_eq!(error(&vout), "truncated vout");

    assert_eq!(parse_sapling_descs(&[1, 0, 0], 0).unwrap_err(), "truncated spend");
    assert_eq!(parse_sapling_descs(&[0, 1, 0], 0).unwrap_err(), "truncated output");
    let mut spend = vec![1u8];
    spend.extend([0u8; SPEND_DESC_SIZE]);
    assert_eq!(parse_sapling_descs(&spend, 0).unwrap_err(), "read past end");
}

#[test]
fn transparent_inputs_are_skipped() {
    let mut tx = vec![3, 0, 0, 0, 2];
    for script in [0usize, 3] {
        tx.extend([0xAB; 36]);
        tx.push(script as u8);
        tx.extend(vec![0xCD; script]);
        tx.extend([0xff; 4]);
    }
    tx.push(0);
    tx.extend([0u8; 4]);
    tx.push(1);
    tx.extend([0u8; 8]);
    tx.push(1);
    let mut spend = [0u8; SPEND_DESC_SIZE];
    spend[64] = 0x77;
    tx.extend(spend);
    tx.push(0);
    let compact = parse_sapling_tx(&tx).unwrap().unwrap();
    assert_eq!(compact.nullifiers.len(), 1);
    assert_eq!(compact.nullifiers[0][0], 0x77);
    assert!(compact.outputs.is_empty());

    // Cut within the value balance: no shielded data
    let cut = 5 + (36 + 1 + 4) + (36 + 1 + 3 + 4) + 1 + 4 + 1 + 7;
    assert!(parse_sapling_tx(&tx[..cut]).unwrap().is_none());
}

#[test]
fn blocks_yield_their_shield_transactions() {
    let raw = mainnet_shaped_tx();
    let block = object(vec![
        ("time", Json::PosInt(1_700_000_000)),
        ("tx", Json::Array(vec![
            object(vec![("hex", text(&to_hex(&raw))), ("txid", text("a"))]),
            text("named"),
            text("refused"),
            object(vec![("txid", text("no hex"))]),
            object(vec![("hex", text("0300000"))]),
            object(vec![("hex", text("0400000000"))]),
            object(vec![("hex", text("03000000000000000000"))]),
        ])),
    ]);

    let ids = raw_txs_to_ask(&block);
    assert_eq!(ids, vec![None, Some("named".to_string()), Some("refused".to_string()), None, None, None, None]);

    let replies = vec![None, Some(text(&to_hex(&raw))), None];
    let found = scan_block_inner(&block, &replies, 42).unwrap().unwrap();
    assert_eq!(found.height, 42);
    assert_eq!(found.time, 1_700_000_000);
    assert_eq!(found.txs.len(), 2);
    assert_eq!(found.txs[0].raw, raw);
    assert_eq!(found.txs[1].compact.as_ref().unwrap().nullifiers.len(), 2);

    // Without shield transactions there is no shield block
    let plain = object(vec![("tx", Json::Array(vec![text("named")]))]);
    assert!(scan_block_inner(&plain, &vec![], 42).unwrap().is_none());
}

#[test]
fn blocks_without_transactions_are_errors() {
    for block in [object(vec![]), object(vec![("tx", text("x"))]), Json::Null] {
        let error = scan_block_inner(&block, &vec![], 1).unwrap_err();
        assert_eq!(error.message(), "scanner parse error: missing 'tx' array in block");
        assert!(raw_txs_to_ask(&block).is_empty());
    }
    let error = ScanError::Rpc("down".to_string());
    assert_eq!(error.message(), "scanner RPC error: down");
}
