//! Requests to the node and the meaning of its responses.

use pivx_bridge::json::Json;
use pivx_bridge::rpc::{
    base64_encode, block_count_reply, block_hash_reply, broadcast_reply, call, RpcClient,
    RpcResponse,
};

fn text(s: &str) -> Json {
    Json::Text(s.to_string())
}

fn object(fields: Vec<(&str, Json)>) -> Json {
    Json::Object(fields.into_iter().map(|(k, v)| (k.to_string(), v)).collect())
}

#[test]
fn base64_has_the_known_vectors() {
    for (plain, encoded) in [
        ("", ""),
        ("f", "Zg=="),
        ("fo", "Zm8="),
        ("foo", "Zm9v"),
        ("foob", "Zm9vYg=="),
        ("fooba", "Zm9vYmE="),
        ("foobar", "Zm9vYmFy"),
        ("rpc:rpc", "cnBjOnJwYw=="),
        ("~~~???>>>", "fn5+Pz8/Pj4+"),
        ("é", "w6k="),
    ] {
        assert_eq!(base64_encode(plain), encoded);
    }
}

#[test]
fn requests_are_json_rpc_calls() {
    let client = RpcClient::new("http://127.0.0.1:51473", "rpc", "rpc");
    assert_eq!((client.url(), client.user(), client.pass()), ("http://127.0.0.1:51473", "rpc", "rpc"));

    let request = client.get_block("abc", 2);
    assert_eq!(request.url, "http://127.0.0.1:51473");
    assert_eq!(request.authorization, "Basic cnBjOnJwYw==");
    assert_eq!(request.content_type, "application/json");
    assert_eq!(request.body.get("jsonrpc"), Some(&text("1.0")));
    assert_eq!(request.body.get("id"), Some(&text("pivx-bridge")));
    assert_eq!(request.body.get("method"), Some(&text("getblock")));
    assert_eq!(
        request.body.get("params"),
        Some(&Json::Array(vec![text("abc"), Json::PosInt(2)]))
    );

    let calls = vec![
        (client.get_block_count(), "getblockcount", vec![]),
        (client.get_block_hash(7), "getblockhash", vec![Json::PosInt(7)]),
        (
            client.get_raw_transaction("id", false),
            "getrawtransaction",
            vec![text("id"), Json::Bool(false)],
        ),
        (client.send_raw_transaction("03"), "sendrawtransaction", vec![text("03")]),
        (client.proxy_call("m", &vec![Json::Null]), "m", vec![Json::Null]),
    ];
    for (request, method, params) in calls {
        assert_eq!(request.body.get("method"), Some(&text(method)));
        assert_eq!(request.body.get("params"), Some(&Json::Array(params)));
    }
}

#[test]
fn bodies_hold_a_result_or_an_error() {
    let body = |fields| call(RpcResponse::Body(object(fields)));
    assert_eq!(body(vec![("result", Json::PosInt(5)), ("error", Json::Null)]), Ok(Json::PosInt(5)));
    assert_eq!(body(vec![("result", Json::PosInt(5))]), Ok(Json::PosInt(5)));
    assert_eq!(body(vec![]), Ok(Json::Null));
    assert_eq!(
        body(vec![("error", object(vec![("message", text("no such method"))]))]),
        Err("no such method".to_string())
    );
    assert_eq!(
        body(vec![("error", object(vec![("code", Json::NegInt(-1))]))]),
        Err("unknown RPC error".to_string())
    );
    assert_eq!(body(vec![("error", Json::Bool(false))]), Err("unknown RPC error".to_string()));
    assert_eq!(
        call(RpcResponse::BadBody("EOF".to_string())),
        Err("JSON parse error: EOF".to_string())
    );
}

#[test]
fn error_statuses_tell_what_the_node_said() {
    let status = |json| call(RpcResponse::Status(500, "text".to_string(), json));
    assert_eq!(
        status(Some(object(vec![("error", object(vec![("message", text("bad height"))]))]))),
        Err("bad height".to_string())
    );
    assert_eq!(status(Some(object(vec![("error", Json::Null)]))), Err("HTTP 500: text".to_string()));
    assert_eq!(status(None), Err("HTTP 500: text".to_string()));
    assert_eq!(
        call(RpcResponse::Transport("refused".to_string())),
        Err("connection error: refused".to_string())
    );
}

#[test]
fn replies_have_the_type_that_is_asked_for() {
    assert_eq!(block_count_reply(Ok(Json::PosInt(9))), Ok(9));
    assert_eq!(block_count_reply(Ok(text("9"))), Err("getblockcount: not a number".to_string()));
    assert_eq!(block_count_reply(Err("e".to_string())), Err("e".to_string()));
    assert_eq!(block_hash_reply(Ok(text("h"))), Ok("h".to_string()));
    assert_eq!(block_hash_reply(Ok(Json::Null)), Err("getblockhash: not a string".to_string()));
    assert_eq!(broadcast_reply(Ok(text("id"))), Ok("id".to_string()));
    assert_eq!(
        broadcast_reply(Ok(Json::Null)),
        Err("sendrawtransaction: unexpected response".to_string())
    );
}
