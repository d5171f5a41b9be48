//! JSON-RPC 1.0: the requests that go to the node, and what its responses mean.

use vstd::prelude::*;
use crate::json;
use crate::json::{Json, JsonModel};
use crate::text;

verus! {

// ---------------------------------------------------------------------------
// Base64
// ---------------------------------------------------------------------------

/// The base64 character for a value of six bits.
pub open spec fn base64_char(n: int) -> char {
    if n < 26 {
        (65 + n) as char
    } else if n < 52 {
        (71 + n) as char
    } else if n < 62 {
        (n - 4) as char
    } else if n == 62 {
        '+'
    } else {
        '/'
    }
}

/// `bytes` in base64: four characters for every three bytes, with padding.
pub open spec fn base64_of(bytes: Seq<u8>) -> Seq<char>
    decreases bytes.len(),
{
    if bytes.len() == 0 {
        Seq::empty()
    } else {
        let b0 = bytes[0] as int;
        let b1 = if bytes.len() > 1 {
            bytes[1] as int
        } else {
            0
        };
        let b2 = if bytes.len() > 2 {
            bytes[2] as int
        } else {
            0
        };
        let group = seq![
            base64_char(b0 / 4),
            base64_char(b0 % 4 * 16 + b1 / 16),
            if bytes.len() > 1 {
                base64_char(b1 % 16 * 4 + b2 / 64)
            } else {
                '='
            },
            if bytes.len() > 2 {
                base64_char(b2 % 64)
            } else {
                '='
            },
        ];
        group + base64_of(
            if bytes.len() > 3 {
                bytes.skip(3)
            } else {
                Seq::empty()
            },
        )
    }
}

/// The base64 character for a value of six bits.
fn base64_digit(n: u8) -> (c: char)
    requires
        n < 64,
    ensures
        c == base64_char(n as int),
{
    if n < 26 {
        (65 + n) as char
    } else if n < 52 {
        (71 + n) as char
    } else if n < 62 {
        (n - 4) as char
    } else if n == 62 {
        '+'
    } else {
        '/'
    }
}

/// Minimal base64 encoder.
pub fn base64_encode(input: &str) -> (out: String)
    ensures
        out@ == base64_of(vstd::utf8::encode_utf8(input@)),
{
    let bytes = input.as_bytes();
    let n: usize = bytes.len();
    let mut out = String::new();
    let mut k: usize = 0;
    assert(bytes@.skip(0) =~= bytes@);
    assert(out@ + base64_of(bytes@.skip(0)) =~= base64_of(bytes@));
    while k < n
        invariant
            k <= n == bytes@.len(),
            out@ + base64_of(bytes@.skip(k as int)) == base64_of(bytes@),
        decreases n - k,
    {
        let ghost rest = bytes@.skip(k as int);
        let ghost before = out@;
        let left: usize = n - k;
        let b0: u8 = bytes[k];
        let b1: u8 = if left > 1 {
            bytes[k + 1]
        } else {
            0
        };
        let b2: u8 = if left > 2 {
            bytes[k + 2]
        } else {
            0
        };
        out.push(base64_digit(b0 / 4));
        out.push(base64_digit(b0 % 4 * 16 + b1 / 16));
        if left > 1 {
            out.push(base64_digit(b1 % 16 * 4 + b2 / 64));
        } else {
            out.push('=');
        }
        if left > 2 {
            out.push(base64_digit(b2 % 64));
        } else {
            out.push('=');
        }
        let next: usize = if left > 3 {
            k + 3
        } else {
            n
        };
        proof {
            let after = if rest.len() > 3 {
                rest.skip(3)
            } else {
                Seq::empty()
            };
            assert(after =~= bytes@.skip(next as int));
            assert(out@ + base64_of(after) =~= before + base64_of(rest));
        }
        k = next;
    }
    assert(bytes@.skip(k as int) =~= Seq::empty());
    assert(out@ + base64_of(bytes@.skip(k as int)) =~= out@);
    out
}

// ---------------------------------------------------------------------------
// Requests
// ---------------------------------------------------------------------------

/// Where the node is and how to log in there.
pub struct RpcClient {
    url: String,
    user: String,
    pass: String,
}

/// An HTTP request to the node.
pub struct RpcRequest {
    /// Where to send it.
    pub url: String,
    /// Value of the `Authorization` header.
    pub authorization: String,
    /// Value of the `Content-Type` header.
    pub content_type: String,
    /// The body, to be sent as text.
    pub body: Json,
}

/// The body of a request: a JSON-RPC 1.0 call.
pub open spec fn request_body(method: Seq<char>, params: Seq<JsonModel>) -> JsonModel {
    JsonModel::Object(
        Map::empty().insert("jsonrpc"@, JsonModel::Text("1.0"@)).insert(
            "id"@,
            JsonModel::Text("pivx-bridge"@),
        ).insert("method"@, JsonModel::Text(method)).insert("params"@, JsonModel::Array(params)),
    )
}

impl RpcClient {
    /// Where the node is.
    pub closed spec fn spec_url(&self) -> Seq<char> {
        self.url@
    }

    /// The name to log in with.
    pub closed spec fn spec_user(&self) -> Seq<char> {
        self.user@
    }

    /// The password to log in with.
    pub closed spec fn spec_pass(&self) -> Seq<char> {
        self.pass@
    }

    /// A client for the node at `url`.
    pub fn new(url: &str, user: &str, pass: &str) -> (client: RpcClient)
        ensures
            client.spec_url() == url@,
            client.spec_user() == user@,
            client.spec_pass() == pass@,
    {
        RpcClient { url: url.to_owned(), user: user.to_owned(), pass: pass.to_owned() }
    }

    /// Where the node is.
    pub fn url(&self) -> (r: &str)
        ensures
            r@ == self.spec_url(),
    {
        self.url.as_str()
    }

    /// The name to log in with.
    pub fn user(&self) -> (r: &str)
        ensures
            r@ == self.spec_user(),
    {
        self.user.as_str()
    }

    /// The password to log in with.
    pub fn pass(&self) -> (r: &str)
        ensures
            r@ == self.spec_pass(),
    {
        self.pass.as_str()
    }

    /// Whether `request` goes to the node, logged in, with a JSON body.
    pub open spec fn addresses(&self, request: RpcRequest) -> bool {
        &&& request.url@ == self.spec_url()
        &&& request.authorization@ == "Basic "@ + base64_of(
            vstd::utf8::encode_utf8(self.spec_user() + ":"@ + self.spec_pass()),
        )
        &&& request.content_type@ == "application/json"@
    }

    /// The request that calls `method` with `params`.
    fn request(&self, method: &str, params: Vec<Json>) -> (r: RpcRequest)
        ensures
            self.addresses(r),
            r.body@ == request_body(method@, json::item_models(params@)),
    {
        let login = text::join3(self.user.as_str(), ":", self.pass.as_str());
        let token = base64_encode(login.as_str());
        let mut body = Json::Object(Vec::new());
        assert(body@ == JsonModel::Object(Map::empty()));
        body.set("jsonrpc", Json::Text("1.0".to_string()));
        body.set("id", Json::Text("pivx-bridge".to_string()));
        body.set("method", Json::Text(method.to_owned()));
        body.set("params", Json::Array(params));
        RpcRequest {
            url: self.url.clone(),
            authorization: text::join2("Basic ", token.as_str()),
            content_type: "application/json".to_string(),
            body,
        }
    }

    /// The request for the height of the chain.
    pub fn get_block_count(&self) -> (r: RpcRequest)
        ensures
            self.addresses(r),
            r.body@ == request_body("getblockcount"@, Seq::empty()),
    {
        self.request("getblockcount", Vec::new())
    }

    /// The request for the hash of the block at `height`.
    pub fn get_block_hash(&self, height: u32) -> (r: RpcRequest)
        ensures
            self.addresses(r),
            r.body@ == request_body("getblockhash"@, seq![JsonModel::PosInt(height as u64)]),
    {
        let mut params: Vec<Json> = Vec::new();
        params.push(Json::PosInt(height as u64));
        proof {
            json::lemma_item_models(params@);
            assert(json::item_models(params@) =~= seq![JsonModel::PosInt(height as u64)]);
        }
        self.request("getblockhash", params)
    }

    /// The request for the block with a hash.
    pub fn get_block(&self, hash: &str, verbosity: u32) -> (r: RpcRequest)
        ensures
            self.addresses(r),
            r.body@ == request_body(
                "getblock"@,
                seq![JsonModel::Text(hash@), JsonModel::PosInt(verbosity as u64)],
            ),
    {
        let mut params: Vec<Json> = Vec::new();
        params.push(Json::Text(hash.to_owned()));
        params.push(Json::PosInt(verbosity as u64));
        proof {
            json::lemma_item_models(params@);
            assert(json::item_models(params@) =~= seq![
                JsonModel::Text(hash@),
                JsonModel::PosInt(verbosity as u64),
            ]);
        }
        self.request("getblock", params)
    }

    /// The request for the raw transaction with an id.
    pub fn get_raw_transaction(&self, txid: &str, verbose: bool) -> (r: RpcRequest)
        ensures
            self.addresses(r),
            r.body@ == request_body(
                "getrawtransaction"@,
                seq![JsonModel::Text(txid@), JsonModel::Bool(verbose)],
            ),
    {
        let mut params: Vec<Json> = Vec::new();
        params.push(Json::Text(txid.to_owned()));
        params.push(Json::Bool(verbose));
        proof {
            json::lemma_item_models(params@);
            assert(json::item_models(params@) =~= seq![
                JsonModel::Text(txid@),
                JsonModel::Bool(verbose),
            ]);
        }
        self.request("getrawtransaction", params)
    }

    /// The request that broadcasts a transaction.
    pub fn send_raw_transaction(&self, hex: &str) -> (r: RpcRequest)
        ensures
            self.addresses(r),
            r.body@ == request_body("sendrawtransaction"@, seq![JsonModel::Text(hex@)]),
    {
        let mut params: Vec<Json> = Vec::new();
        params.push(Json::Text(hex.to_owned()));
        proof {
            json::lemma_item_models(params@);
            assert(json::item_models(params@) =~= seq![JsonModel::Text(hex@)]);
        }
        self.request("sendrawtransaction", params)
    }

    /// The request for any method, for the proxy endpoint.
    pub fn proxy_call(&self, method: &str, params: &Vec<Json>) -> (r: RpcRequest)
        ensures
            self.addresses(r),
            r.body@ == request_body(method@, json::item_models(params@)),
    {
        self.request(method, clone_items(params))
    }
}

/// Values of their own that are the same.
pub fn clone_items(items: &Vec<Json>) -> (r: Vec<Json>)
    ensures
        json::item_models(r@) == json::item_models(items@),
{
    let mut r: Vec<Json> = Vec::new();
    let mut k: usize = 0;
    assert(items@.take(0) =~= r@);
    while k < items.len()
        invariant
            k <= items@.len(),
            json::item_models(r@) == json::item_models(items@.take(k as int)),
        decreases items@.len() - k,
    {
        let copy = items[k].clone();
        proof {
            json::lemma_item_models_push(r@, copy);
            json::lemma_item_models_push(items@.take(k as int), items@[k as int]);
            assert(items@.take(k + 1) =~= items@.take(k as int).push(items@[k as int]));
        }
        r.push(copy);
        k = k + 1;
    }
    assert(items@.take(k as int) =~= items@);
    r
}

// ---------------------------------------------------------------------------
// Responses
// ---------------------------------------------------------------------------

/// What came back over HTTP.
pub enum RpcResponse {
    /// A reply whose body is JSON.
    Body(Json),
    /// A reply whose body is no JSON, and why.
    BadBody(String),
    /// An error status, the body, and the JSON that the body is, if it is any.
    Status(u16, String, Option<Json>),
    /// No reply, and why.
    Transport(String),
}

/// What an `RpcResponse` says.
pub enum ResponseModel {
    Body(JsonModel),
    BadBody(Seq<char>),
    Status(u16, Seq<char>, Option<JsonModel>),
    Transport(Seq<char>),
}

impl View for RpcResponse {
    type V = ResponseModel;

    open spec fn view(&self) -> ResponseModel {
        match self {
            RpcResponse::Body(json) => ResponseModel::Body(json@),
            RpcResponse::BadBody(e) => ResponseModel::BadBody(e@),
            RpcResponse::Status(code, body, Some(json)) => ResponseModel::Status(
                *code,
                body@,
                Some(json@),
            ),
            RpcResponse::Status(code, body, None) => ResponseModel::Status(*code, body@, None),
            RpcResponse::Transport(e) => ResponseModel::Transport(e@),
        }
    }
}

/// The message of an RPC error, if it has one.
pub open spec fn error_message(error: JsonModel) -> Option<Seq<char>> {
    error.text_field("message"@)
}

/// What a response means: the result of the call, or what went wrong.
pub open spec fn meaning(response: ResponseModel) -> Result<JsonModel, Seq<char>> {
    match response {
        ResponseModel::Body(json) => match json.field("error"@) {
            Some(error) if error != JsonModel::Null => Err(
                match error_message(error) {
                    Some(message) => message,
                    None => "unknown RPC error"@,
                },
            ),
            _ => Ok(
                match json.field("result"@) {
                    Some(result) => result,
                    None => JsonModel::Null,
                },
            ),
        },
        ResponseModel::BadBody(e) => Err("JSON parse error: "@ + e),
        ResponseModel::Status(code, body, json) => {
            let message = match json {
                Some(json) => match json.field("error"@) {
                    Some(error) => error_message(error),
                    None => None,
                },
                None => None,
            };
            match message {
                Some(message) => Err(message),
                None => Err("HTTP "@ + text::decimal_of(code as nat) + ": "@ + body),
            }
        },
        ResponseModel::Transport(e) => Err("connection error: "@ + e),
    }
}

/// The model of a result.
pub open spec fn outcome(result: Result<Json, String>) -> Result<JsonModel, Seq<char>> {
    match result {
        Ok(json) => Ok(json@),
        Err(e) => Err(e@),
    }
}

/// What a response means: the "result" field, or what went wrong.
pub fn call(response: RpcResponse) -> (r: Result<Json, String>)
    ensures
        outcome(r) == meaning(response@),
{
    match response {
        RpcResponse::Body(json) => {
            if let Some(error) = json.get("error") {
                if !error.is_null() {
                    return match error.text_field("message") {
                        Some(message) => Err(message.to_owned()),
                        None => Err("unknown RPC error".to_string()),
                    };
                }
            }
            match json.get("result") {
                Some(result) => Ok(result.clone()),
                None => Ok(Json::Null),
            }
        },
        RpcResponse::BadBody(e) => Err(text::join2("JSON parse error: ", e.as_str())),
        RpcResponse::Status(code, body, json) => {
            if let Some(json) = &json {
                if let Some(error) = json.get("error") {
                    if let Some(message) = error.text_field("message") {
                        return Err(message.to_owned());
                    }
                }
            }
            let number = text::decimal(code as u64);
            let mut message = text::join3("HTTP ", number.as_str(), ": ");
            message.append(body.as_str());
            Err(message)
        },
        RpcResponse::Transport(e) => Err(text::join2("connection error: ", e.as_str())),
    }
}

/// The number that a call yields.
fn number_or(reply: Result<Json, String>, otherwise: &str) -> (r: Result<u64, String>)
    ensures
        match (outcome(reply), r) {
            (Ok(json), Ok(n)) => json.number() == Some(n),
            (Ok(json), Err(e)) => json.number() is None && e@ == otherwise@,
            (Err(e), Err(f)) => f@ == e,
            _ => false,
        },
{
    match reply {
        Ok(json) => match json.as_u64() {
            Some(n) => Ok(n),
            None => Err(otherwise.to_owned()),
        },
        Err(e) => Err(e),
    }
}

/// The text that a call yields.
fn text_or(reply: Result<Json, String>, otherwise: &str) -> (r: Result<String, String>)
    ensures
        match (outcome(reply), r) {
            (Ok(json), Ok(s)) => json.text() == Some(s@),
            (Ok(json), Err(e)) => json.text() is None && e@ == otherwise@,
            (Err(e), Err(f)) => f@ == e,
            _ => false,
        },
{
    match reply {
        Ok(json) => match json.as_str() {
            Some(s) => Ok(s.to_owned()),
            None => Err(otherwise.to_owned()),
        },
        Err(e) => Err(e),
    }
}

/// The height of the chain, out of what the call for it yielded.
pub fn block_count_reply(reply: Result<Json, String>) -> (r: Result<u64, String>)
    ensures
        match (outcome(reply), r) {
            (Ok(json), Ok(n)) => json.number() == Some(n),
            (Ok(json), Err(e)) => json.number() is None && e@ == "getblockcount: not a number"@,
            (Err(e), Err(f)) => f@ == e,
            _ => false,
        },
{
    number_or(reply, "getblockcount: not a number")
}

/// The hash of a block, out of what the call for it yielded.
pub fn block_hash_reply(reply: Result<Json, String>) -> (r: Result<String, String>)
    ensures
        match (outcome(reply), r) {
            (Ok(json), Ok(s)) => json.text() == Some(s@),
            (Ok(json), Err(e)) => json.text() is None && e@ == "getblockhash: not a string"@,
            (Err(e), Err(f)) => f@ == e,
            _ => false,
        },
{
    text_or(reply, "getblockhash: not a string")
}

/// The id of a transaction that was broadcast, out of what the call yielded.
pub fn broadcast_reply(reply: Result<Json, String>) -> (r: Result<String, String>)
    ensures
        match (outcome(reply), r) {
            (Ok(json), Ok(s)) => json.text() == Some(s@),
            (Ok(json), Err(e)) => json.text() is None && e@
                == "sendrawtransaction: unexpected response"@,
            (Err(e), Err(f)) => f@ == e,
            _ => false,
        },
{
    text_or(reply, "sendrawtransaction: unexpected response")
}

// ---------------------------------------------------------------------------
// Laws
// ---------------------------------------------------------------------------

/// The six bits that a base64 character stands for; less than none for any other.
pub open spec fn six_bits(c: char) -> int {
    if 'A' <= c && c <= 'Z' {
        c as int - 'A' as int
    } else if 'a' <= c && c <= 'z' {
        26 + (c as int - 'a' as int)
    } else if '0' <= c && c <= '9' {
        52 + (c as int - '0' as int)
    } else if c == '+' {
        62
    } else if c == '/' {
        63
    } else {
        -1
    }
}

/// Each six bits have a character of their own.
proof fn lemma_six_bits(n: int)
    requires
        0 <= n < 64,
    ensures
        six_bits(base64_char(n)) == n,
{
}

/// Base64 reads back: the characters of each group of four hold the bytes of a group of
/// three, six bits each, the highest first. Where bytes are missing at the end, an equals
/// sign stands for each of them, and there is none anywhere else.
pub proof fn law_base64_reads_back(bytes: Seq<u8>, group: int)
    requires
        0 <= group,
        3 * group < bytes.len(),
    ensures
        ({
            let s = base64_of(bytes);
            let first = six_bits(s[4 * group]);
            let second = six_bits(s[4 * group + 1]);
            let third = six_bits(s[4 * group + 2]);
            let fourth = six_bits(s[4 * group + 3]);
            &&& s.len() == (bytes.len() + 2) / 3 * 4
            &&& 0 <= first < 64 && 0 <= second < 64
            &&& bytes[3 * group] == first * 4 + second / 16
            &&& if 3 * group + 1 < bytes.len() {
                &&& 0 <= third < 64
                &&& bytes[3 * group + 1] == second % 16 * 16 + third / 4
            } else {
                &&& second % 16 == 0
                &&& s[4 * group + 2] == '='
            }
            &&& if 3 * group + 2 < bytes.len() {
                &&& 0 <= fourth < 64
                &&& bytes[3 * group + 2] == third % 4 * 64 + fourth
            } else {
                &&& 3 * group + 1 < bytes.len() ==> third % 4 == 0
                &&& s[4 * group + 3] == '='
            }
        }),
    decreases bytes.len(),
{
    let s = base64_of(bytes);
    let b0 = bytes[0] as int;
    let b1 = if bytes.len() > 1 {
        bytes[1] as int
    } else {
        0
    };
    let b2 = if bytes.len() > 2 {
        bytes[2] as int
    } else {
        0
    };
    lemma_six_bits(b0 / 4);
    lemma_six_bits(b0 % 4 * 16 + b1 / 16);
    lemma_six_bits(b1 % 16 * 4 + b2 / 64);
    lemma_six_bits(b2 % 64);
    let rest = if bytes.len() > 3 {
        bytes.skip(3)
    } else {
        Seq::empty()
    };
    assert(s.len() == 4 + base64_of(rest).len());
    if bytes.len() > 3 {
        if group > 0 {
            law_base64_reads_back(rest, group - 1);
            assert(bytes[3 * group] == rest[3 * (group - 1)]);
            assert(s[4 * group] == base64_of(rest)[4 * (group - 1)]);
            assert(s[4 * group + 1] == base64_of(rest)[4 * (group - 1) + 1]);
            assert(s[4 * group + 2] == base64_of(rest)[4 * (group - 1) + 2]);
            assert(s[4 * group + 3] == base64_of(rest)[4 * (group - 1) + 3]);
        } else {
            law_base64_reads_back(rest, 0);
        }
    } else {
        assert(base64_of(rest).len() == 0);
    }
}

/// A request goes to the address of the node, as JSON, with the name and the password
/// that were given, with a colon between, in base64.
pub proof fn law_requests_are_logged_in(client: RpcClient, request: RpcRequest)
    requires
        client.addresses(request),
    ensures
        request.url@ == client.spec_url(),
        request.content_type@ == "application/json"@,
        request.authorization@ == seq!['B', 'a', 's', 'i', 'c', ' '] + base64_of(
            vstd::utf8::encode_utf8(client.spec_user() + seq![':'] + client.spec_pass()),
        ),
{
    reveal_strlit("Basic ");
    reveal_strlit(":");
    assert("Basic "@ =~= seq!['B', 'a', 's', 'i', 'c', ' ']);
    assert(":"@ =~= seq![':']);
}

/// The body of a request says which version of the protocol it is in, who asks, what is
/// called and with which parameters, and nothing else.
pub proof fn law_request_says_what_is_called(
    method: Seq<char>,
    params: Seq<JsonModel>,
    name: Seq<char>,
)
    ensures
        request_body(method, params).field("jsonrpc"@) == Some(JsonModel::Text("1.0"@)),
        request_body(method, params).field("id"@) == Some(JsonModel::Text("pivx-bridge"@)),
        request_body(method, params).field("method"@) == Some(JsonModel::Text(method)),
        request_body(method, params).field("params"@) == Some(JsonModel::Array(params)),
        name != "jsonrpc"@ && name != "id"@ && name != "method"@ && name != "params"@
            ==> request_body(method, params).field(name) is None,
{
    reveal_strlit("jsonrpc");
    reveal_strlit("id");
    reveal_strlit("method");
    reveal_strlit("params");
    assert("jsonrpc"@[0] == 'j' && "id"@[0] == 'i' && "method"@[0] == 'm' && "params"@[0] == 'p');
}

/// A call succeeds exactly where a body came back that tells of no error, and its result
/// is then the one that the body gives. An error that the node tells of is passed on in
/// its own words, whatever the status.
pub proof fn law_what_came_back(json: JsonModel, code: u16, body: Seq<char>, words: Seq<char>)
    ensures
        json.field("error"@) is None || json.field("error"@) == Some(JsonModel::Null) ==> meaning(
            ResponseModel::Body(json),
        ) == Ok::<JsonModel, Seq<char>>(
            if json.field("result"@) is Some {
                json.field("result"@)->0
            } else {
                JsonModel::Null
            },
        ),
        json.field("error"@) is Some && json.field("error"@) != Some(JsonModel::Null) ==> meaning(
            ResponseModel::Body(json),
        ) is Err,
        json.field("error"@) is Some && json.field("error"@)->0.field("message"@) == Some(
            JsonModel::Text(words),
        ) ==> meaning(ResponseModel::Body(json)) == Err::<JsonModel, Seq<char>>(words) && meaning(
            ResponseModel::Status(code, body, Some(json)),
        ) == Err::<JsonModel, Seq<char>>(words),
        meaning(ResponseModel::Status(code, body, Some(json))) is Err,
        meaning(ResponseModel::Status(code, body, None)) is Err,
        json.field("error"@) is None ==> meaning(ResponseModel::Status(code, body, Some(json)))
            == meaning(ResponseModel::Status(code, body, None)),
        meaning(ResponseModel::BadBody(words)) is Err,
        meaning(ResponseModel::Transport(words)) is Err,
{
}

} // verus!
