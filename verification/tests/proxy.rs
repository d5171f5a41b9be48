//! The RPC proxy and its filters.

use pivx_bridge::api::HashCache;
use pivx_bridge::block_cache::BlockCache;
use pivx_bridge::jq::{apply_jq, is_keyed, is_plain, tell, JqError};
use pivx_bridge::json::Json;
use pivx_bridge::proxy::{
    self, jq_value, param_pieces, parse_params, ProxyAction, ProxyCall, ProxyEvent, ProxyPhase,
    ProxyQuery,
};
use serde_json::Value;

fn text(s: &str) -> Json {
    Json::Text(s.to_string())
}

fn object(fields: Vec<(&str, Json)>) -> Json {
    Json::Object(fields.into_iter().map(|(k, v)| (k.to_string(), v)).collect())
}

/// For each piece the bits of the finite double that it spells.
fn floats(raw: &str) -> Vec<Option<u64>> {
    param_pieces(raw)
        .iter()
        .map(|s| s.parse::<f64>().ok().filter(|f| f.is_finite()).map(f64::to_bits))
        .collect()
}

fn params(raw: &str) -> Vec<Json> {
    parse_params(raw, &floats(raw))
}

fn value(text: &str) -> Value {
    serde_json::from_str(text).unwrap()
}

/// Apply a filter to a value: the only output, or the array of all.
fn jq(input: &str, expr: &str) -> Result<Value, String> {
    let outputs = apply_jq(&value(input).to_string(), expr).unwrap()?;
    let mut values: Vec<Value> = outputs.iter().map(|o| value(o)).collect();
    if values.len() == 1 {
        Ok(values.remove(0))
    } else {
        Ok(Value::Array(values))
    }
}

#[test]
fn parse_params_empty() {
    assert_eq!(params(""), Vec::<Json>::new());
}

#[test]
fn parse_params_types() {
    let params = params("42,3.14,true,hello");
    assert_eq!(params[0], Json::PosInt(42));
    assert_eq!(params[1], Json::Float(3.14f64.to_bits()));
    assert_eq!(params[2], Json::Bool(true));
    assert_eq!(params[3], text("hello"));
}

#[test]
fn parse_params_edge_cases() {
    assert_eq!(params(" -7 , +8,false"), vec![Json::NegInt(-7), Json::PosInt(8), Json::Bool(false)]);
    // Spaces alone are one empty text, and so is each side of a comma
    assert_eq!(params(" "), vec![text("")]);
    assert_eq!(params(","), vec![text(""), text("")]);
    // What is too large for an integer is a float; what is not finite is a text
    assert_eq!(params("9223372036854775807"), vec![Json::PosInt(i64::MAX as u64)]);
    assert_eq!(params("-9223372036854775808"), vec![Json::NegInt(i64::MIN)]);
    assert_eq!(
        params("9223372036854775808"),
        vec![Json::Float(9223372036854775808f64.to_bits())]
    );
    assert_eq!(params("inf,NaN,True"), vec![text("inf"), text("NaN"), text("True")]);
    // Floats that were not worked out do not matter
    assert_eq!(parse_params("1.5", &vec![]), vec![text("1.5")]);
}

#[test]
fn jq_identity() {
    let v = r#"{"a": 1}"#;
    assert_eq!(jq(v, ".").unwrap(), value(v));
}

#[test]
fn jq_field_access() {
    let v = r#"{"name": "test", "value": 42}"#;
    assert_eq!(jq(v, ".name").unwrap(), value("\"test\""));
    assert_eq!(jq(v, ".value").unwrap(), value("42"));
}

#[test]
fn jq_nested_field() {
    let v = r#"{"a": {"b": {"c": 99}}}"#;
    assert_eq!(jq(v, ".a.b.c").unwrap(), value("99"));
}

#[test]
fn jq_pipe() {
    let v = r#"{"data": [1, 2, 3]}"#;
    assert_eq!(jq(v, ".data | .[]").unwrap(), value("[1, 2, 3]"));
}

#[test]
fn jq_object_construction() {
    let v = r#"{"name": "Alice", "age": 30, "extra": "skip"}"#;
    assert_eq!(jq(v, "{name, age}").unwrap(), value(r#"{"name": "Alice", "age": 30}"#));
}

#[test]
fn jq_complex_assignment() {
    // The expression that wallets use
    let v = r#"{"tx": [{"hex": "abc", "txid": "123", "extra": true}]}"#;
    let result = jq(v, ". | .txs = [.tx[] | { hex: .hex, txid: .txid}] | del(.tx)").unwrap();
    assert_eq!(result, value(r#"{"txs": [{"hex": "abc", "txid": "123"}]}"#));
}

/// The outputs of a filter that is plain.
fn outputs(input: &str, expr: &str) -> Vec<String> {
    apply_jq(input, expr).unwrap().unwrap()
}

#[test]
fn jq_outputs_come_in_order() {
    assert_eq!(outputs("[3,1,2]", ".[]"), vec!["3", "1", "2"]);
    assert_eq!(outputs("[3,1,2]", "first, last, .[1:]"), vec!["3", "2", "[1,2]"]);
    assert_eq!(outputs("{}", "empty"), Vec::<String>::new());
    let blocks = r#"[{"now": 1, "ok": true}, {"now": 2, "ok": false}]"#;
    assert_eq!(outputs(blocks, "map(select(.ok) | .now)"), vec!["[1]"]);
    assert_eq!(outputs(blocks, ".[] | {now, length: .ok}"), vec![
        r#"{"now":1,"length":true}"#,
        r#"{"now":2,"length":false}"#,
    ]);
    assert_eq!(outputs(blocks, "map(del(.ok)) | .[0].now |= tostring"), vec![
        r#"[{"now":"1"},{"now":2}]"#,
    ]);
    assert_eq!(outputs("[1, null]", "map(values)"), vec!["[1]"]);
    assert_eq!(
        outputs(r#"[{"t": "x", "n": 1}, {"t": "y", "n": 7}]"#, ".[] | select(.t == \"y\") | .n > 5"),
        vec!["true"]
    );
    assert_eq!(
        outputs("{\"a b\": 1}", "{\"c d\": .\"a b\", e: \"f | g\"}"),
        vec![r#"{"c d":1,"e":"f | g"}"#]
    );
    assert_eq!(outputs("1", "error(\"no\")?, \"é\""), vec!["\"é\""]);
    assert_eq!(outputs("[1, null]", ".[1] == null and (.[0] != 1 | not)"), vec!["true"]);
    assert_eq!(outputs("{\"a\":[{\"b\":[7]}]}", ".a[0].b[0]?, .c?"), vec!["7", "null"]);
}

#[test]
fn only_plain_filters_are_run() {
    for plain in [
        "",
        ".",
        ".name",
        ".a.b.c",
        ".data | .[]",
        "{name, age}",
        ". | .txs = [.tx[] | { hex: .hex, txid: .txid}] | del(.tx)",
        // A field and a key may have any name
        ".now",
        "{now, env: .env}",
        // A text may hold anything but a backslash
        "select(.type == \"x\")",
        "\"now | é # [ ( ..\"",
        "{\"a b\": .c, now}",
        ".\"now\" > 1",
        // What is no filter at all is for jaq to say
        "(",
        "map",
        "]",
    ] {
        assert!(is_plain(plain), "{plain}");
        assert!(apply_jq("{}", plain).is_some(), "{plain}");
    }
    // As long as it may be, and too long
    let pipes = ".|".repeat(127);
    let nested = format!("{}.{}", "(".repeat(127), ")".repeat(127));
    assert_eq!(outputs("7", &nested), vec!["7"]);
    assert_eq!(outputs("7", &format!("{pipes}. ")), vec!["7"]);
    assert!(apply_jq("7", &format!("{pipes} . ")).is_none());
    for other in [
        // The clock, the environment, the time zones
        "now", ". | now", "[., now]", "env", "$ENV", "localtime", "gmtime", "mktime",
        // Names that stand where a key or a field does not
        "{a: now}", "{a: [1, now]}", ". now", ".[now:2]", "1now", "a::now",
        // Without end
        "repeat(.)", "recurse", "..", ".. |= [.]", "[.[] | while(true; .)]",
        "def f: f; f", "range(9)", "until(false; .)",
        // Past the range of a number, or by an order that is not total
        "length", "implode", "sort", ". * 2", ". - 1", ". + .",
        // Keys that are no text
        "{(.a): 1}", ".[.a] = 1", ".[\"a\"] = 1", "\"a\"[.b]",
        // Names behind a text, and texts that are put together
        "{\"a\" now}", "\"a\" | now", "\"\\(now)\"", "\"\\n\"",
        // Other characters
        ".é", ".a # b", "@json",
    ] {
        assert!(!is_plain(other), "{other}");
        assert!(apply_jq("{}", other).is_none(), "{other}");
    }
}

#[test]
fn only_texts_with_texts_as_keys_are_filtered() {
    for keyed in [
        "",
        "1",
        r#"{"a": {"b" : [1, "x:y # z", "\\"]}, "c\"": 2}"#,
        // What is no JSON at all is for jaq to say
        "{",
    ] {
        assert!(is_keyed(keyed.as_bytes()), "{keyed}");
        assert!(apply_jq(keyed, ".").is_some(), "{keyed}");
    }
    let deep = |n: usize| format!("{}{}", "[".repeat(n), "]".repeat(n));
    assert!(is_keyed(deep(128).as_bytes()));
    assert_eq!(outputs(&deep(128), "."), vec![deep(128)]);
    assert!(!is_keyed(deep(130).as_bytes()));
    assert!(apply_jq(&deep(130), ".").is_none());
    // Brackets in a text do not nest
    assert!(is_keyed(format!("\"{}\"", "[".repeat(500)).as_bytes()));
    for other in ["{1: 2}", "{NaN: 1}", r#"{{"a": 1}: 2}"#, "[1] # x", r#"{"a" "b" 1: 2}"#] {
        assert!(!is_keyed(other.as_bytes()), "{other}");
        assert!(apply_jq(other, ".").is_none(), "{other}");
    }
}

#[test]
fn jq_errors_say_what_failed() {
    let error = |input: &str, expr: &str| apply_jq(input, expr).unwrap().unwrap_err();
    assert!(error("{", ".").starts_with("jq input: "));
    assert!(error("{}", "(").starts_with("jq parse: "));
    assert!(error("{}", "map").starts_with("jq compile: "));
    assert!(error("{}", "error").starts_with("jq eval: "));
    // The first failure ends it
    assert!(error("{}", "1, error").starts_with("jq eval: "));

    let told = |e: JqError| tell(Err(e)).unwrap_err();
    assert_eq!(told(JqError::Input("a".to_string())), "jq input: a");
    assert_eq!(told(JqError::Parse("b".to_string())), "jq parse: b");
    assert_eq!(told(JqError::Compile("c".to_string())), "jq compile: c");
    assert_eq!(told(JqError::Eval("d".to_string())), "jq eval: d");
    assert_eq!(tell(Ok(vec!["1".to_string()])), Ok(vec!["1".to_string()]));
}

#[test]
fn jq_values_are_put_together() {
    assert_eq!(jq_value(vec![Ok(text("a"))]), Ok(text("a")));
    assert_eq!(jq_value(vec![]), Ok(Json::Array(vec![])));
    assert_eq!(
        jq_value(vec![Ok(Json::Null), Ok(Json::Bool(true))]),
        Ok(Json::Array(vec![Json::Null, Json::Bool(true)]))
    );
    assert_eq!(
        jq_value(vec![Ok(Json::Null), Err("x".to_string()), Err("y".to_string())]),
        Err("jq output: x".to_string())
    );
}

fn call(method: &str, raw: &str) -> ProxyCall {
    filtered(method, raw, None)
}

fn filtered(method: &str, raw: &str, filter: Option<&str>) -> ProxyCall {
    ProxyCall {
        method: method.to_string(),
        params: params(raw),
        filter: filter.map(str::to_string),
        phase: ProxyPhase::Start,
    }
}

/// What a call does first, on a chain of a hundred blocks.
fn start(call: &mut ProxyCall, hashes: &mut HashCache, blocks: &mut BlockCache) -> ProxyAction {
    call.step(hashes, blocks, 100, ProxyEvent::Nothing)
}

/// What a call does once the node has replied.
fn replied(
    call: &mut ProxyCall,
    hashes: &mut HashCache,
    blocks: &mut BlockCache,
    reply: Result<Json, &str>,
) -> ProxyAction {
    assert!(matches!(start(call, hashes, blocks), ProxyAction::Ask(_, _)));
    call.step(hashes, blocks, 100, ProxyEvent::Reply(reply.map_err(str::to_string)))
}

fn answer(action: ProxyAction) -> Result<Json, (u16, String)> {
    match action {
        ProxyAction::Answer(answer) => answer.map_err(|e| (e.status, e.message)),
        _ => panic!("the call is answered"),
    }
}

#[test]
fn only_allowed_methods_are_admitted() {
    let allowed = vec!["getblock".to_string(), "getblockhash".to_string()];
    let query = ProxyQuery { params: Some("5,true".to_string()), filter: Some(".".to_string()) };
    let admitted = proxy::rpc_proxy(&allowed, "getblock", &query, &vec![]).ok().unwrap();
    assert_eq!(admitted.method, "getblock");
    assert_eq!(admitted.params, vec![Json::PosInt(5), Json::Bool(true)]);
    assert_eq!(admitted.filter, Some(".".to_string()));

    let error = proxy::rpc_proxy(&allowed, "stop", &query, &vec![]).err().unwrap();
    assert_eq!(error.status, 403);
    assert_eq!(error.message, "RPC method 'stop' not allowed");
    assert!(proxy::rpc_proxy(&allowed, "getbloc", &ProxyQuery::default(), &vec![]).is_err());
    let bare = proxy::rpc_proxy(&allowed, "getblockhash", &ProxyQuery::default(), &vec![]);
    assert!(bare.ok().unwrap().params.is_empty());
}

#[test]
fn hashes_are_served_from_the_cache() {
    let mut hashes = HashCache::new(10);
    let mut blocks = BlockCache::new(10);
    let mut asked = call("getblockhash", "77");
    match start(&mut asked, &mut hashes, &mut blocks) {
        ProxyAction::Ask(method, params) => {
            assert_eq!(method, "getblockhash");
            assert_eq!(params, vec![Json::PosInt(77)]);
        }
        _ => panic!("the node is asked"),
    }
    let action = asked.step(&mut hashes, &mut blocks, 100, ProxyEvent::Reply(Ok(text("h77"))));
    assert_eq!(answer(action), Ok(text("h77")));

    let action = start(&mut call("getblockhash", "77"), &mut hashes, &mut blocks);
    assert_eq!(answer(action), Ok(text("h77")));
    // Another method does not look there
    let action = start(&mut call("getblockcount", "77"), &mut hashes, &mut blocks);
    assert!(matches!(action, ProxyAction::Ask(_, _)));
}

#[test]
fn blocks_are_served_from_the_cache() {
    let mut hashes = HashCache::new(10);
    let mut blocks = BlockCache::new(10);
    let block = object(vec![
        ("hash", text("abc")),
        ("height", Json::PosInt(50)),
        ("confirmations", Json::PosInt(1)),
    ]);
    let mut asked = call("getblock", "abc");
    let action = replied(&mut asked, &mut hashes, &mut blocks, Ok(block.clone()));
    assert_eq!(answer(action), Ok(block));
    assert_eq!(hashes.get(50), Some("abc"));

    // By hash, and by height
    for raw in ["abc", "50", "abc,1", "50,2"] {
        let found = answer(start(&mut call("getblock", raw), &mut hashes, &mut blocks)).unwrap();
        assert_eq!(found.number_field("confirmations"), Some(51));
    }
    for raw in ["abd", "51", "abc,0", "true", ""] {
        let action = start(&mut call("getblock", raw), &mut hashes, &mut blocks);
        assert!(matches!(action, ProxyAction::Ask(_, _)));
    }
}

#[test]
fn replies_without_height_and_hash_are_not_cached() {
    let mut hashes = HashCache::new(10);
    let mut blocks = BlockCache::new(10);
    let mut raw = call("getblock", "abc,0");
    let action = replied(&mut raw, &mut hashes, &mut blocks, Ok(text("0300")));
    assert_eq!(answer(action), Ok(text("0300")));
    assert_eq!(blocks.entries.len(), 0);
    let mut odd = call("getblockhash", "x");
    let action = replied(&mut odd, &mut hashes, &mut blocks, Ok(text("h")));
    assert!(answer(action).is_ok());
    let mut far = call("getblockhash", "7");
    let action = replied(&mut far, &mut hashes, &mut blocks, Err("Block height out of range"));
    assert_eq!(answer(action), Err((502, "Block height out of range".to_string())));
    assert_eq!(hashes.get(7), None);
}

#[test]
fn a_block_cache_without_room_serves_nothing() {
    let mut hashes = HashCache::new(10);
    let mut blocks = BlockCache::new(0);
    let block = object(vec![("hash", text("abc")), ("height", Json::PosInt(50))]);
    let mut asked = call("getblock", "abc");
    let action = replied(&mut asked, &mut hashes, &mut blocks, Ok(block.clone()));
    assert_eq!(answer(action), Ok(block));
    let action = start(&mut call("getblock", "abc"), &mut hashes, &mut blocks);
    assert!(matches!(action, ProxyAction::Ask(_, _)));
}

#[test]
fn replies_go_through_the_filter() {
    let mut hashes = HashCache::new(10);
    let mut blocks = BlockCache::new(10);
    let mut asked = filtered("getinfo", "", Some(".version"));
    let info = object(vec![("version", Json::PosInt(5))]);
    match replied(&mut asked, &mut hashes, &mut blocks, Ok(info.clone())) {
        ProxyAction::Filter(value, filter) => {
            assert_eq!(value, info);
            assert_eq!(filter, ".version");
        }
        _ => panic!("the reply is filtered"),
    }
    let filtered_to = ProxyEvent::Filtered(Ok(Json::PosInt(5)));
    let action = asked.step(&mut hashes, &mut blocks, 100, filtered_to);
    assert_eq!(answer(action), Ok(Json::PosInt(5)));

    let mut wrong = filtered("getinfo", "", Some("("));
    replied(&mut wrong, &mut hashes, &mut blocks, Ok(Json::Null));
    let failed = ProxyEvent::Filtered(Err("jq parse: z".to_string()));
    let action = wrong.step(&mut hashes, &mut blocks, 100, failed);
    assert_eq!(answer(action), Err((400, "jq filter error: jq parse: z".to_string())));

    // An empty filter is none
    let mut none = filtered("getinfo", "", Some(""));
    let action = replied(&mut none, &mut hashes, &mut blocks, Ok(Json::Null));
    assert_eq!(answer(action), Ok(Json::Null));
}

#[test]
fn what_is_cached_goes_through_the_filter() {
    let mut hashes = HashCache::new(10);
    let mut blocks = BlockCache::new(10);
    hashes.insert(7, "ab".to_string());
    let mut asked = filtered("getblockhash", "7", Some("length"));
    match start(&mut asked, &mut hashes, &mut blocks) {
        ProxyAction::Filter(value, filter) => {
            assert_eq!(value, text("ab"));
            assert_eq!(filter, "length");
        }
        _ => panic!("the hash is filtered"),
    }
    let two = ProxyEvent::Filtered(Ok(Json::PosInt(2)));
    let action = asked.step(&mut hashes, &mut blocks, 100, two);
    assert_eq!(answer(action), Ok(Json::PosInt(2)));

    let block = object(vec![("hash", text("abc")), ("height", Json::PosInt(50))]);
    blocks.insert("abc", 1, &block);
    let mut asked = filtered("getblock", "abc", Some(".hash"));
    match start(&mut asked, &mut hashes, &mut blocks) {
        ProxyAction::Filter(value, _) => assert_eq!(value.number_field("confirmations"), Some(51)),
        _ => panic!("the block is filtered"),
    }
}

#[test]
fn long_filters_are_refused_unless_the_result_is_cached() {
    let mut hashes = HashCache::new(10);
    let mut blocks = BlockCache::new(10);
    let fits = ".".repeat(10_000);
    let long = format!("{fits}.");
    let mut asked = filtered("getinfo", "", Some(&fits));
    let action = replied(&mut asked, &mut hashes, &mut blocks, Ok(Json::Null));
    assert!(matches!(action, ProxyAction::Filter(_, filter) if filter == fits));
    let mut asked = filtered("getinfo", "", Some(&long));
    let action = replied(&mut asked, &mut hashes, &mut blocks, Ok(Json::Null));
    assert_eq!(answer(action), Err((400, "filter expression too long".to_string())));

    hashes.insert(7, "ab".to_string());
    let mut asked = filtered("getblockhash", "7", Some(&long));
    let action = start(&mut asked, &mut hashes, &mut blocks);
    assert!(matches!(action, ProxyAction::Filter(_, filter) if filter == long));
}
