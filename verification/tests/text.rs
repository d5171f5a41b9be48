//! Text, JSON values and configuration.

use pivx_bridge::bytes::{push_u64_le, read_u64_le};
use pivx_bridge::config::Config;
use pivx_bridge::json::Json;
use pivx_bridge::text::{decimal, is_empty, parse_i64, same, split, trim};

#[test]
fn trimming_is_that_of_strings() {
    for s in [
        "", " ", "a", " a ", "\t\n\u{b}\u{c}\r a b \u{85}", "\u{a0}x\u{1680}", "\u{2000}y\u{200a}",
        "\u{2028}\u{2029}z\u{202f}\u{205f}\u{3000}", "\u{200b}w\u{200b}", "\u{feff}v",
        "\u{1c}u\u{1f}", "\u{180e}t",
    ] {
        assert_eq!(trim(s), s.trim());
    }
}

#[test]
fn splitting_is_that_of_strings() {
    for s in ["", ",", "a", "a,b", ",a,,b,", "é,ü"] {
        let expected: Vec<String> = s.split(',').map(String::from).collect();
        assert_eq!(split(s, ','), expected);
    }
}

#[test]
fn integers_parse_as_those_of_strings() {
    for s in [
        "", "0", "-0", "+0", "007", "42", "-42", "+42", "+", "-", "--1", "+-1", "1 ", " 1", "1_0",
        "0x1", "9223372036854775807", "9223372036854775808", "-9223372036854775808",
        "-9223372036854775809", "18446744073709551616", "99999999999999999999999999", "१",
        "1.5", "a",
    ] {
        assert_eq!(parse_i64(s), s.parse::<i64>().ok(), "{s}");
    }
}

#[test]
fn numbers_are_written_in_decimal() {
    for n in [0u64, 7, 10, 99, 100, 1_000_000, u32::MAX as u64, u64::MAX] {
        assert_eq!(decimal(n), n.to_string());
    }
}

#[test]
fn strings_are_compared() {
    assert!(same("", ""));
    assert!(same("abc", "abc"));
    assert!(!same("abc", "abd"));
    assert!(!same("abc", "ab"));
    assert!(is_empty(""));
    assert!(!is_empty(" "));
}

#[test]
fn eight_bytes_are_little_endian() {
    let mut buf = Vec::new();
    push_u64_le(&mut buf, 0x0102030405060708);
    assert_eq!(buf, 0x0102030405060708u64.to_le_bytes().to_vec());
    assert_eq!(read_u64_le(&buf, 0), 0x0102030405060708);
}

#[test]
fn objects_are_set_and_unset() {
    let mut json = Json::Object(vec![("a".to_string(), Json::Null)]);
    json.set("b", Json::PosInt(1));
    json.set("a", Json::Bool(true));
    assert_eq!(json.get("a"), Some(&Json::Bool(true)));
    assert_eq!(json.number_field("b"), Some(1));
    json.unset("a");
    json.unset("missing");
    assert_eq!(json, Json::Object(vec![("b".to_string(), Json::PosInt(1))]));

    // Of two fields with one name the first counts, and both go
    let mut double = Json::Object(vec![
        ("a".to_string(), Json::PosInt(1)),
        ("a".to_string(), Json::PosInt(2)),
    ]);
    assert_eq!(double.number_field("a"), Some(1));
    double.unset("a");
    assert_eq!(double, Json::Object(vec![]));

    // Anything else is left alone
    let mut other = Json::Array(vec![Json::NegInt(-1), Json::Float(0)]);
    other.set("a", Json::Null);
    other.unset("a");
    assert_eq!(other, Json::Array(vec![Json::NegInt(-1), Json::Float(0)]));
    assert!(other.get("a").is_none());
    assert!(Json::Null.is_null() && !other.is_null());
}

#[test]
fn clones_are_the_same() {
    let json = Json::Object(vec![
        ("a".to_string(), Json::Array(vec![Json::Null, Json::Text("x".to_string())])),
        ("b".to_string(), Json::Object(vec![("c".to_string(), Json::Float(1))])),
    ]);
    assert_eq!(json.clone(), json);
}

#[test]
fn allowed_methods_are_trimmed() {
    let config = Config { allowed_rpcs: " getblock ,getblockhash,, x y ".to_string(), ..Config::default() };
    assert_eq!(config.allowed_rpc_set(), vec!["getblock", "getblockhash", "", "x y"]);
}

#[test]
fn defaults_are_those_of_the_documentation() {
    let config = Config::default();
    assert_eq!(config.rpc_url, "http://127.0.0.1:51473");
    assert_eq!((config.rpc_user.as_str(), config.rpc_pass.as_str()), ("rpc", "rpc"));
    assert_eq!(config.zmq_url, "tcp://127.0.0.1:28332");
    assert_eq!(config.port, 3000);
    assert_eq!(config.sapling_height, 2_700_501);
    assert!(!config.no_compression && config.testnet_rpc_url.is_none());
    assert_eq!(
        config.allowed_rpc_set(),
        vec![
            "getblockcount", "getblockhash", "getblock", "getrawtransaction", "sendrawtransaction",
            "getmasternodecount", "listmasternodes", "getbudgetprojection", "getbudgetinfo",
            "getbudgetvotes",
        ]
    );
}
