//! RPC proxy: forwards allowed RPC calls to the node, with optional jq filtering.
//!
//! A call that is admitted goes through a sequence of steps: it is answered out of
//! the caches where that is possible, otherwise what the node replied is taken in,
//! and at last the filter is applied.

use vstd::prelude::*;
use crate::api::{HashCache, HashCacheModel, HttpError};
use crate::block_cache;
use crate::block_cache::{BlockCache, CacheModel};
use crate::config;
use crate::json;
use crate::json::{Json, JsonModel};
use crate::rpc;
use crate::scanner;
use crate::text;

verus! {

/// The query of a proxied call.
pub struct ProxyQuery {
    /// Comma-separated RPC parameters. Numbers and booleans are type-coerced.
    pub params: Option<String>,
    /// jq filter expression applied to the RPC result.
    pub filter: Option<String>,
}

impl Default for ProxyQuery {
    fn default() -> (query: ProxyQuery)
        ensures
            query.params is None,
            query.filter is None,
    {
        ProxyQuery { params: None, filter: None }
    }
}

// ---------------------------------------------------------------------------
// Parameters
// ---------------------------------------------------------------------------

/// The texts of the parameters: the pieces between the commas, trimmed. An empty
/// list has none.
pub open spec fn param_texts(raw: Seq<char>) -> Seq<Seq<char>> {
    if raw.len() == 0 {
        Seq::empty()
    } else {
        config::all_trimmed(text::pieces(raw, ','))
    }
}

/// The texts of the parameters.
pub fn param_pieces(raw: &str) -> (r: Vec<String>)
    ensures
        text::texts(r@) == param_texts(raw@),
{
    let mut trimmed: Vec<String> = Vec::new();
    if text::is_empty(raw) {
        assert(text::texts(trimmed@) =~= param_texts(raw@));
        return trimmed;
    }
    let pieces = text::split(raw, ',');
    let mut k: usize = 0;
    while k < pieces.len()
        invariant
            k <= pieces@.len(),
            trimmed@.len() == k,
            forall|j: int| 0 <= j < k ==> (#[trigger] trimmed@[j])@ == text::trimmed(pieces@[j]@),
        decreases pieces@.len() - k,
    {
        trimmed.push(text::trim(pieces[k].as_str()));
        k = k + 1;
    }
    proof {
        let expected = param_texts(raw@);
        assert(text::texts(pieces@) == text::pieces(raw@, ','));
        assert forall|j: int| 0 <= j < k implies text::texts(trimmed@)[j] == expected[j] by {
            assert(text::texts(pieces@)[j] == pieces@[j]@);
        }
        assert(text::texts(trimmed@) =~= expected);
    }
    trimmed
}

/// The value that the text of a parameter stands for: an integer, else a float,
/// else a boolean, else the text itself. `float` are the bits of the double that
/// the text spells, if it spells a finite one.
pub open spec fn coerced(s: Seq<char>, float: Option<u64>) -> JsonModel {
    match text::integer_value(s) {
        Some(n) if i64::MIN <= n <= i64::MAX => if n >= 0 {
            JsonModel::PosInt(n as u64)
        } else {
            JsonModel::NegInt(n as i64)
        },
        _ => match float {
            Some(bits) => JsonModel::Float(bits),
            None => if s == "true"@ {
                JsonModel::Bool(true)
            } else if s == "false"@ {
                JsonModel::Bool(false)
            } else {
                JsonModel::Text(s)
            },
        },
    }
}

/// The value that the text of a parameter stands for.
pub fn coerce(s: &str, float: Option<u64>) -> (r: Json)
    ensures
        r@ == coerced(s@, float),
{
    if let Some(n) = text::parse_i64(s) {
        return if n >= 0 {
            Json::PosInt(n as u64)
        } else {
            Json::NegInt(n)
        };
    }
    if let Some(bits) = float {
        return Json::Float(bits);
    }
    if text::same(s, "true") {
        Json::Bool(true)
    } else if text::same(s, "false") {
        Json::Bool(false)
    } else {
        Json::Text(s.to_owned())
    }
}

/// The float at `k`, if there is one.
pub open spec fn float_at(floats: Seq<Option<u64>>, k: int) -> Option<u64> {
    if 0 <= k < floats.len() {
        floats[k]
    } else {
        None
    }
}

/// The values of all parameters.
pub open spec fn params_of(raw: Seq<char>, floats: Seq<Option<u64>>) -> Seq<JsonModel> {
    Seq::new(
        param_texts(raw).len(),
        |k: int| coerced(param_texts(raw)[k], float_at(floats, k)),
    )
}

/// Parse comma-separated parameters with type coercion. `floats` holds for each
/// piece the bits of the double that it spells, if it spells a finite one.
pub fn parse_params(raw: &str, floats: &Vec<Option<u64>>) -> (r: Vec<Json>)
    ensures
        json::item_models(r@) == params_of(raw@, floats@),
{
    let pieces = param_pieces(raw);
    let mut params: Vec<Json> = Vec::new();
    let mut k: usize = 0;
    while k < pieces.len()
        invariant
            k <= pieces@.len(),
            params@.len() == k,
            text::texts(pieces@) == param_texts(raw@),
            forall|j: int|
                0 <= j < k ==> (#[trigger] params@[j])@ == coerced(
                    pieces@[j]@,
                    float_at(floats@, j),
                ),
        decreases pieces@.len() - k,
    {
        let float: Option<u64> = if k < floats.len() {
            floats[k]
        } else {
            None
        };
        params.push(coerce(pieces[k].as_str(), float));
        k = k + 1;
    }
    proof {
        json::lemma_item_models(params@);
        let expected = params_of(raw@, floats@);
        assert forall|j: int| 0 <= j < k implies json::item_models(params@)[j] == expected[j] by {
            assert(text::texts(pieces@)[j] == pieces@[j]@);
        }
        assert(json::item_models(params@) =~= expected);
    }
    params
}

// ---------------------------------------------------------------------------
// Admission
// ---------------------------------------------------------------------------

/// How far a call has come.
#[derive(Clone, Copy, PartialEq, Eq, Structural)]
pub enum ProxyPhase {
    /// Nothing was done.
    Start,
    /// The node was asked.
    Asked,
    /// The filter is being applied.
    Filtering,
    /// All is done.
    Finished,
}

/// A call that was admitted.
pub struct ProxyCall {
    /// The method of the node.
    pub method: String,
    /// Its parameters.
    pub params: Vec<Json>,
    /// The filter to apply to the result.
    pub filter: Option<String>,
    /// How far the call has come.
    pub phase: ProxyPhase,
}

/// What a `ProxyCall` asks for, and how far it has come.
#[verifier::ext_equal]
pub struct CallModel {
    pub method: Seq<char>,
    pub params: Seq<JsonModel>,
    pub filter: Option<Seq<char>>,
    pub phase: ProxyPhase,
}

impl View for ProxyCall {
    type V = CallModel;

    open spec fn view(&self) -> CallModel {
        CallModel {
            method: self.method@,
            params: json::item_models(self.params@),
            filter: scanner::text_of(self.filter),
            phase: self.phase,
        }
    }
}

/// Whether `method` is one of `allowed`.
fn is_allowed(allowed: &Vec<String>, method: &str) -> (r: bool)
    ensures
        r == text::texts(allowed@).contains(method@),
{
    let mut k: usize = 0;
    while k < allowed.len()
        invariant
            k <= allowed@.len(),
            forall|j: int| 0 <= j < k ==> (#[trigger] allowed@[j])@ != method@,
        decreases allowed@.len() - k,
    {
        if text::same(allowed[k].as_str(), method) {
            assert(text::texts(allowed@)[k as int] == method@);
            return true;
        }
        k = k + 1;
    }
    proof {
        if text::texts(allowed@).contains(method@) {
            let j = choose|j: int|
                0 <= j < text::texts(allowed@).len() && text::texts(allowed@)[j] == method@;
            assert(allowed@[j]@ == method@);
        }
    }
    false
}

/// Admit a call of `method`, unless the method is not allowed. `floats` are those
/// of its parameters.
pub fn rpc_proxy(
    allowed: &Vec<String>,
    method: &str,
    query: &ProxyQuery,
    floats: &Vec<Option<u64>>,
) -> (r: Result<ProxyCall, HttpError>)
    ensures
        match r {
            Ok(call) => {
                &&& text::texts(allowed@).contains(method@)
                &&& call@ == (CallModel {
                    method: method@,
                    params: params_of(
                        match query.params {
                            Some(raw) => raw@,
                            None => Seq::empty(),
                        },
                        floats@,
                    ),
                    filter: scanner::text_of(query.filter),
                    phase: ProxyPhase::Start,
                })
            },
            Err(error) => {
                &&& !text::texts(allowed@).contains(method@)
                &&& error.status == 403
                &&& error.message@ == "RPC method '"@ + method@ + "' not allowed"@
            },
        },
{
    if !is_allowed(allowed, method) {
        return Err(
            HttpError {
                status: 403,
                message: text::join3("RPC method '", method, "' not allowed"),
            },
        );
    }
    let params = match &query.params {
        Some(raw) => parse_params(raw.as_str(), floats),
        None => {
            let none: Vec<Json> = Vec::new();
            assert(json::item_models(none@) =~= params_of(Seq::empty(), floats@));
            none
        },
    };
    let filter = match &query.filter {
        Some(expr) => Some(expr.clone()),
        None => None,
    };
    Ok(ProxyCall { method: method.to_owned(), params, filter, phase: ProxyPhase::Start })
}

// ---------------------------------------------------------------------------
// The caches
// ---------------------------------------------------------------------------

impl CallModel {
    /// The first parameter as a height.
    pub open spec fn height(self) -> Option<u32> {
        if self.params.len() > 0 {
            match self.params[0].number() {
                Some(n) => Some(n as u32),
                None => None,
            }
        } else {
            None
        }
    }

    /// The second parameter as a verbosity; without one, the transactions of a
    /// block are only named.
    pub open spec fn verbosity(self) -> u8 {
        if self.params.len() > 1 {
            match self.params[1].number() {
                Some(n) => n as u8,
                None => 1,
            }
        } else {
            1
        }
    }

    /// The hash of the block that is asked for: given itself, or by a height that
    /// is cached.
    pub open spec fn block_hash(self, blocks: CacheModel) -> Option<Seq<char>> {
        if self.params.len() == 0 {
            None
        } else {
            match self.params[0].text() {
                Some(hash) => Some(hash),
                None => match self.height() {
                    Some(h) => if blocks.hashes.contains_key(h) {
                        Some(blocks.hashes[h])
                    } else {
                        None
                    },
                    None => None,
                },
            }
        }
    }

    /// The hash that the caches have for this call.
    pub open spec fn cached_hash(self, hashes: HashCacheModel) -> Option<Seq<char>> {
        match self.height() {
            Some(h) => if self.method == "getblockhash"@ && hashes.hashes.contains_key(h) {
                Some(hashes.hashes[h])
            } else {
                None
            },
            None => None,
        }
    }

    /// The hash cache after the hash was looked up there, if this call does so.
    pub open spec fn hashes_looked_up(self, hashes: HashCacheModel) -> HashCacheModel {
        match self.height() {
            Some(h) => if self.method == "getblockhash"@ {
                hashes.used(h)
            } else {
                hashes
            },
            None => hashes,
        }
    }

    /// What the caches have for this call: a hash or a block.
    pub open spec fn cached(
        self,
        hashes: HashCacheModel,
        blocks: CacheModel,
        chain_height: u32,
    ) -> Option<JsonModel> {
        match self.cached_hash(hashes) {
            Some(hash) => Some(JsonModel::Text(hash)),
            None => self.cached_block(blocks, chain_height),
        }
    }

    /// Whether this call asks for a block that can be looked up by its hash.
    pub open spec fn looks_up(self, blocks: CacheModel) -> bool {
        self.method == "getblock"@ && self.block_hash(blocks) is Some
    }

    /// The block that the caches have for this call.
    pub open spec fn cached_block(self, blocks: CacheModel, chain_height: u32) -> Option<JsonModel> {
        if self.method == "getblock"@ {
            match self.block_hash(blocks) {
                Some(hash) => blocks.answer(hash, self.verbosity(), chain_height),
                None => None,
            }
        } else {
            None
        }
    }

    /// The hash cache after the node replied `result`.
    pub open spec fn hashes_after(self, hashes: HashCacheModel, result: JsonModel) -> HashCacheModel {
        if self.method == "getblockhash"@ {
            match (self.height(), result.text()) {
                (Some(h), Some(hash)) => hashes.inserted(h, hash),
                _ => hashes,
            }
        } else if self.method == "getblock"@ {
            match (result.number_field("height"@), result.text_field("hash"@)) {
                (Some(h), Some(hash)) => hashes.inserted(h as u32, hash),
                _ => hashes,
            }
        } else {
            hashes
        }
    }

    /// The block cache after the node replied `result`.
    pub open spec fn blocks_after(self, blocks: CacheModel, result: JsonModel) -> CacheModel {
        if self.method == "getblock"@ {
            match (result.number_field("height"@), result.text_field("hash"@)) {
                (Some(_), Some(hash)) => blocks.kept(hash, self.verbosity(), result),
                _ => blocks,
            }
        } else {
            blocks
        }
    }
}

impl ProxyCall {
    /// The first parameter as a height.
    fn height(&self) -> (r: Option<u32>)
        ensures
            r == self@.height(),
    {
        proof {
            json::lemma_item_models(self.params@);
        }
        if self.params.len() > 0 {
            match self.params[0].as_u64() {
                Some(n) => Some(n as u32),
                None => None,
            }
        } else {
            None
        }
    }

    /// The second parameter as a verbosity.
    fn verbosity(&self) -> (r: u8)
        ensures
            r == self@.verbosity(),
    {
        proof {
            json::lemma_item_models(self.params@);
        }
        if self.params.len() > 1 {
            match self.params[1].as_u64() {
                Some(n) => n as u8,
                None => 1,
            }
        } else {
            1
        }
    }

    /// The hash of the block that is asked for.
    fn block_hash(&self, blocks: &BlockCache) -> (r: Option<String>)
        ensures
            scanner::text_of(r) == self@.block_hash(blocks@),
    {
        proof {
            json::lemma_item_models(self.params@);
        }
        if self.params.len() == 0 {
            return None;
        }
        if let Some(hash) = self.params[0].as_str() {
            return Some(hash.to_owned());
        }
        match self.height() {
            Some(h) => match blocks.hash_for_height(h) {
                Some(hash) => Some(hash.to_owned()),
                None => None,
            },
            None => None,
        }
    }

    /// Look for the answer in the caches.
    fn lookup(&self, hashes: &mut HashCache, blocks: &mut BlockCache, chain_height: u32) -> (r:
        Option<Json>)
        requires
            old(hashes).wf(),
            old(blocks).wf(),
        ensures
            final(hashes).wf(),
            final(hashes)@ == self@.hashes_looked_up(old(hashes)@),
            final(blocks).wf(),
            final(blocks)@ == old(blocks)@,
            match (r, self@.cached(old(hashes)@, old(blocks)@, chain_height)) {
                (Some(value), Some(expected)) => value@ == expected,
                (None, None) => true,
                _ => false,
            },
            (final(blocks).hits, final(blocks).misses) == (if self@.looks_up(old(blocks)@) {
                block_cache::tallied(*old(blocks), r is Some)
            } else {
                (old(blocks).hits, old(blocks).misses)
            }),
    {
        proof {
            reveal_strlit("getblockhash");
            reveal_strlit("getblock");
            assert("getblock"@.len() < "getblockhash"@.len());
        }
        if text::same(self.method.as_str(), "getblockhash") {
            if let Some(h) = self.height() {
                if let Some(hash) = hashes.get(h) {
                    return Some(Json::Text(hash.to_owned()));
                }
            }
        }
        if text::same(self.method.as_str(), "getblock") {
            if let Some(hash) = self.block_hash(blocks) {
                return blocks.get(hash.as_str(), self.verbosity(), chain_height);
            }
        }
        None
    }

    /// Let the caches keep the hashes and blocks that the node replied.
    fn receive(&self, result: &Json, hashes: &mut HashCache, blocks: &mut BlockCache)
        requires
            old(hashes).wf(),
            old(blocks).wf(),
        ensures
            final(hashes).wf(),
            final(blocks).wf(),
            final(blocks).hits == old(blocks).hits,
            final(blocks).misses == old(blocks).misses,
            final(hashes)@ == self@.hashes_after(old(hashes)@, result@),
            final(blocks)@ == self@.blocks_after(old(blocks)@, result@),
    {
        proof {
            reveal_strlit("getblockhash");
            reveal_strlit("getblock");
            assert("getblock"@.len() < "getblockhash"@.len());
        }
        if text::same(self.method.as_str(), "getblockhash") {
            if let Some(h) = self.height() {
                if let Some(hash) = result.as_str() {
                    hashes.insert(h, hash.to_owned());
                }
            }
        } else if text::same(self.method.as_str(), "getblock") {
            if let Some(h) = result.number_field("height") {
                if let Some(hash) = result.text_field("hash") {
                    hashes.insert(h as u32, hash.to_owned());
                    blocks.keep(hash, self.verbosity(), result);
                }
            }
        }
    }
}

/// A hash that the node replied is served from then on: the same call finds it in
/// the cache, or the hash that was there before.
pub proof fn law_replied_hash_is_served(call: CallModel, hashes: HashCacheModel, result: JsonModel)
    requires
        call.method == "getblockhash"@,
        call.height() is Some,
        result.text() is Some,
    ensures
        call.cached_hash(call.hashes_after(hashes, result)) == Some(
            match call.cached_hash(hashes) {
                Some(known) => known,
                None => result.text()->0,
            },
        ),
{
}

/// A block that the node replied is served from then on, unless the cache can hold
/// nothing at all: a call for it by its hash finds it in the cache.
pub proof fn law_replied_block_is_served(
    call: CallModel,
    blocks: CacheModel,
    result: JsonModel,
    chain_height: u32,
)
    requires
        call.method == "getblock"@,
        result.number_field("height"@) is Some,
        result.text_field("hash"@) is Some,
        call.params.len() > 0,
        call.params[0].text() == result.text_field("hash"@),
        blocks.capacity > 0,
    ensures
        call.cached_block(call.blocks_after(blocks, result), chain_height) is Some,
{
    let hash = result.text_field("hash"@)->0;
    if !blocks.entries.contains_key((hash, call.verbosity())) {
        block_cache::law_inserted_is_found(blocks, hash, call.verbosity(), result, chain_height);
    }
}

// ---------------------------------------------------------------------------
// The filter
// ---------------------------------------------------------------------------

/// The longest filter that is accepted, in bytes.
pub const MAX_FILTER: usize = 10_000;

impl CallModel {
    /// The filter to apply: one that is there and not empty.
    pub open spec fn filter_expr(self) -> Option<Seq<char>> {
        match self.filter {
            Some(expr) => if expr.len() > 0 {
                Some(expr)
            } else {
                None
            },
            None => None,
        }
    }

    /// Whether the filter is longer than what is accepted.
    pub open spec fn filter_too_long(self) -> bool {
        match self.filter_expr() {
            Some(expr) => vstd::utf8::encode_utf8(expr).len() > MAX_FILTER,
            None => false,
        }
    }
}

/// The values of outputs that are all JSON.
pub open spec fn values_of(outputs: Seq<Result<Json, String>>) -> Seq<JsonModel> {
    Seq::new(outputs.len(), |k: int| outputs[k]->Ok_0@)
}

/// The value that a filter yields: its output if there is exactly one, otherwise
/// the array of all. An output that is no JSON is an error.
pub fn jq_value(outputs: Vec<Result<Json, String>>) -> (r: Result<Json, String>)
    ensures
        match r {
            Err(e) => exists|k: int|
                #![trigger outputs@[k]]
                0 <= k < outputs@.len() && outputs@[k] is Err && e@ == "jq output: "@
                    + outputs@[k]->Err_0@ && forall|j: int|
                    0 <= j < k ==> (#[trigger] outputs@[j]) is Ok,
            Ok(value) => {
                &&& forall|k: int| 0 <= k < outputs@.len() ==> (#[trigger] outputs@[k]) is Ok
                &&& value@ == (if outputs@.len() == 1 {
                    values_of(outputs@)[0]
                } else {
                    JsonModel::Array(values_of(outputs@))
                })
            },
        },
{
    let mut values: Vec<Json> = Vec::new();
    let mut k: usize = 0;
    while k < outputs.len()
        invariant
            k <= outputs@.len(),
            values@.len() == k,
            forall|j: int|
                0 <= j < k ==> (#[trigger] outputs@[j]) is Ok && values@[j]@ == outputs@[j]->Ok_0@,
        decreases outputs@.len() - k,
    {
        match &outputs[k] {
            Ok(value) => {
                values.push(value.clone());
            },
            Err(e) => {
                return Err(text::join2("jq output: ", e.as_str()));
            },
        }
        k = k + 1;
    }
    proof {
        json::lemma_item_models(values@);
        assert(json::item_models(values@) =~= values_of(outputs@));
    }
    if values.len() == 1 {
        Ok(values[0].clone())
    } else {
        Ok(Json::Array(values))
    }
}

// ---------------------------------------------------------------------------
// The steps of a call
// ---------------------------------------------------------------------------

/// What came of the last request.
pub enum ProxyEvent {
    /// Nothing was requested.
    Nothing,
    /// What the node replied, or what went wrong.
    Reply(Result<Json, String>),
    /// What the filter yielded, or what went wrong.
    Filtered(Result<Json, String>),
}

/// What to do next.
pub enum ProxyAction {
    /// Call a method of the node with these parameters.
    Ask(String, Vec<Json>),
    /// Apply a filter to a value.
    Filter(Json, String),
    /// Nothing more: this is the answer.
    Answer(Result<Json, HttpError>),
}

/// What a `ProxyEvent` says.
#[verifier::ext_equal]
pub enum ProxyEventModel {
    Nothing,
    Reply(Result<JsonModel, Seq<char>>),
    Filtered(Result<JsonModel, Seq<char>>),
}

/// What a `ProxyAction` says; an error is its status code and its message.
#[verifier::ext_equal]
pub enum ProxyActionModel {
    Ask(Seq<char>, Seq<JsonModel>),
    Filter(JsonModel, Seq<char>),
    Answer(Result<JsonModel, (u16, Seq<char>)>),
}

/// What a value, or the reason why there is none, says.
pub open spec fn value_model(result: Result<Json, String>) -> Result<JsonModel, Seq<char>> {
    match result {
        Ok(value) => Ok(value@),
        Err(e) => Err(e@),
    }
}

impl View for ProxyEvent {
    type V = ProxyEventModel;

    open spec fn view(&self) -> ProxyEventModel {
        match self {
            ProxyEvent::Nothing => ProxyEventModel::Nothing,
            ProxyEvent::Reply(result) => ProxyEventModel::Reply(value_model(*result)),
            ProxyEvent::Filtered(result) => ProxyEventModel::Filtered(value_model(*result)),
        }
    }
}

impl View for ProxyAction {
    type V = ProxyActionModel;

    open spec fn view(&self) -> ProxyActionModel {
        match self {
            ProxyAction::Ask(method, params) => ProxyActionModel::Ask(
                method@,
                json::item_models(params@),
            ),
            ProxyAction::Filter(value, expr) => ProxyActionModel::Filter(value@, expr@),
            ProxyAction::Answer(Ok(value)) => ProxyActionModel::Answer(Ok(value@)),
            ProxyAction::Answer(Err(e)) => ProxyActionModel::Answer(Err((e.status, e.message@))),
        }
    }
}

/// All there is after a step.
#[verifier::ext_equal]
pub struct AfterProxy {
    pub call: CallModel,
    pub hashes: HashCacheModel,
    pub blocks: CacheModel,
    pub action: ProxyActionModel,
}

impl CallModel {
    /// The call in another phase.
    pub open spec fn at(self, phase: ProxyPhase) -> CallModel {
        CallModel { phase, ..self }
    }

    /// Whether `event` is what the call waits for.
    pub open spec fn expects(self, event: ProxyEventModel) -> bool {
        match self.phase {
            ProxyPhase::Start => event is Nothing,
            ProxyPhase::Asked => event is Reply,
            ProxyPhase::Filtering => event is Filtered,
            ProxyPhase::Finished => false,
        }
    }

    /// The result is there: without a filter it is the answer, otherwise the filter
    /// is to be applied to it. A filter that is too long is refused, unless the
    /// result is a cached one.
    pub open spec fn with_result(self, result: JsonModel, cached: bool) -> (
        CallModel,
        ProxyActionModel,
    ) {
        match self.filter_expr() {
            None => (self.at(ProxyPhase::Finished), ProxyActionModel::Answer(Ok(result))),
            Some(expr) => if !cached && self.filter_too_long() {
                (
                    self.at(ProxyPhase::Finished),
                    ProxyActionModel::Answer(Err((400, "filter expression too long"@))),
                )
            } else {
                (self.at(ProxyPhase::Filtering), ProxyActionModel::Filter(result, expr))
            },
        }
    }

    /// One step of a call.
    ///
    /// What the caches have is the result, whether a hash or a block; otherwise it
    /// is what the node replied, which the caches then keep. The filter is applied
    /// to either.
    pub open spec fn next(
        self,
        hashes: HashCacheModel,
        blocks: CacheModel,
        chain_height: u32,
        event: ProxyEventModel,
    ) -> AfterProxy {
        match (self.phase, event) {
            (ProxyPhase::Start, _) => {
                let looked_up = self.hashes_looked_up(hashes);
                match self.cached(hashes, blocks, chain_height) {
                    Some(result) => AfterProxy {
                        call: self.with_result(result, true).0,
                        hashes: looked_up,
                        blocks,
                        action: self.with_result(result, true).1,
                    },
                    None => AfterProxy {
                        call: self.at(ProxyPhase::Asked),
                        hashes: looked_up,
                        blocks,
                        action: ProxyActionModel::Ask(self.method, self.params),
                    },
                }
            },
            (ProxyPhase::Asked, ProxyEventModel::Reply(Ok(result))) => AfterProxy {
                call: self.with_result(result, false).0,
                hashes: self.hashes_after(hashes, result),
                blocks: self.blocks_after(blocks, result),
                action: self.with_result(result, false).1,
            },
            (ProxyPhase::Asked, ProxyEventModel::Reply(Err(e))) => AfterProxy {
                call: self.at(ProxyPhase::Finished),
                hashes,
                blocks,
                action: ProxyActionModel::Answer(Err((502, e))),
            },
            (ProxyPhase::Filtering, ProxyEventModel::Filtered(Ok(value))) => AfterProxy {
                call: self.at(ProxyPhase::Finished),
                hashes,
                blocks,
                action: ProxyActionModel::Answer(Ok(value)),
            },
            (ProxyPhase::Filtering, ProxyEventModel::Filtered(Err(e))) => AfterProxy {
                call: self.at(ProxyPhase::Finished),
                hashes,
                blocks,
                action: ProxyActionModel::Answer(Err((400, "jq filter error: "@ + e))),
            },
            _ => AfterProxy {
                call: self,
                hashes,
                blocks,
                action: ProxyActionModel::Ask(self.method, self.params),
            },
        }
    }
}

impl ProxyCall {
    /// Go on with the result: to the answer, or to the filter.
    fn with_result(&mut self, result: Json, cached: bool) -> (action: ProxyAction)
        ensures
            (final(self)@, action@) == old(self)@.with_result(result@, cached),
    {
        self.phase = ProxyPhase::Finished;
        if let Some(expr) = &self.filter {
            if !text::is_empty(expr.as_str()) {
                if !cached && expr.as_str().as_bytes().len() > MAX_FILTER {
                    return ProxyAction::Answer(
                        Err(
                            HttpError {
                                status: 400,
                                message: "filter expression too long".to_string(),
                            },
                        ),
                    );
                }
                let expr = expr.clone();
                self.phase = ProxyPhase::Filtering;
                return ProxyAction::Filter(result, expr);
            }
        }
        ProxyAction::Answer(Ok(result))
    }

    /// Take one step.
    pub fn step(
        &mut self,
        hashes: &mut HashCache,
        blocks: &mut BlockCache,
        chain_height: u32,
        event: ProxyEvent,
    ) -> (action: ProxyAction)
        requires
            old(hashes).wf(),
            old(blocks).wf(),
            old(self)@.expects(event@),
        ensures
            final(hashes).wf(),
            final(blocks).wf(),
            old(self)@.next(old(hashes)@, old(blocks)@, chain_height, event@) == (AfterProxy {
                call: final(self)@,
                hashes: final(hashes)@,
                blocks: final(blocks)@,
                action: action@,
            }),
            (final(blocks).hits, final(blocks).misses) == (if old(self).phase == ProxyPhase::Start
                && old(self)@.looks_up(old(blocks)@) {
                block_cache::tallied(
                    *old(blocks),
                    old(self)@.cached_block(old(blocks)@, chain_height) is Some,
                )
            } else {
                (old(blocks).hits, old(blocks).misses)
            }),
    {
        match event {
            ProxyEvent::Nothing => {
                proof {
                    reveal_strlit("getblockhash");
                    reveal_strlit("getblock");
                    assert("getblock"@.len() < "getblockhash"@.len());
                }
                match self.lookup(hashes, blocks, chain_height) {
                    Some(result) => self.with_result(result, true),
                    None => {
                        self.phase = ProxyPhase::Asked;
                        ProxyAction::Ask(self.method.clone(), rpc::clone_items(&self.params))
                    },
                }
            },
            ProxyEvent::Reply(Ok(result)) => {
                self.receive(&result, hashes, blocks);
                self.with_result(result, false)
            },
            ProxyEvent::Reply(Err(e)) => {
                self.phase = ProxyPhase::Finished;
                ProxyAction::Answer(Err(HttpError { status: 502, message: e }))
            },
            ProxyEvent::Filtered(Ok(value)) => {
                self.phase = ProxyPhase::Finished;
                ProxyAction::Answer(Ok(value))
            },
            ProxyEvent::Filtered(Err(e)) => {
                self.phase = ProxyPhase::Finished;
                ProxyAction::Answer(
                    Err(
                        HttpError {
                            status: 400,
                            message: text::join2("jq filter error: ", e.as_str()),
                        },
                    ),
                )
            },
        }
    }
}

/// What comes back for a request, where the node replies `reply` and a filter yields
/// what `filter` says.
pub open spec fn event_for(
    action: ProxyActionModel,
    reply: Result<JsonModel, Seq<char>>,
    filter: spec_fn(JsonModel, Seq<char>) -> Result<JsonModel, Seq<char>>,
) -> ProxyEventModel {
    match action {
        ProxyActionModel::Ask(_, _) => ProxyEventModel::Reply(reply),
        ProxyActionModel::Filter(value, expr) => ProxyEventModel::Filtered(filter(value, expr)),
        ProxyActionModel::Answer(_) => ProxyEventModel::Nothing,
    }
}

/// The answer to a call that waits for `event`, after at most `steps` steps.
pub open spec fn proxy_run(
    call: CallModel,
    hashes: HashCacheModel,
    blocks: CacheModel,
    chain_height: u32,
    event: ProxyEventModel,
    reply: Result<JsonModel, Seq<char>>,
    filter: spec_fn(JsonModel, Seq<char>) -> Result<JsonModel, Seq<char>>,
    steps: nat,
) -> Option<Result<JsonModel, (u16, Seq<char>)>>
    decreases steps,
{
    if steps == 0 {
        None
    } else {
        let after = call.next(hashes, blocks, chain_height, event);
        match after.action {
            ProxyActionModel::Answer(answer) => Some(answer),
            action => proxy_run(
                after.call,
                after.hashes,
                after.blocks,
                chain_height,
                event_for(action, reply, filter),
                reply,
                filter,
                (steps - 1) as nat,
            ),
        }
    }
}

/// What a result comes to: itself without a filter, otherwise what the filter makes
/// of it.
pub open spec fn filtered_answer(
    call: CallModel,
    result: JsonModel,
    cached: bool,
    filter: spec_fn(JsonModel, Seq<char>) -> Result<JsonModel, Seq<char>>,
) -> Result<JsonModel, (u16, Seq<char>)> {
    match call.filter_expr() {
        None => Ok(result),
        Some(expr) => if !cached && call.filter_too_long() {
            Err((400, "filter expression too long"@))
        } else {
            match filter(result, expr) {
                Ok(value) => Ok(value),
                Err(e) => Err((400, "jq filter error: "@ + e)),
            }
        },
    }
}

/// Which answer a call gets, in at most three steps: what the caches have, or else
/// what the node replied, and of either what the filter makes of it.
pub proof fn law_call_is_answered(
    call: CallModel,
    hashes: HashCacheModel,
    blocks: CacheModel,
    chain_height: u32,
    reply: Result<JsonModel, Seq<char>>,
    filter: spec_fn(JsonModel, Seq<char>) -> Result<JsonModel, Seq<char>>,
)
    requires
        call.phase == ProxyPhase::Start,
    ensures
        proxy_run(
            call,
            hashes,
            blocks,
            chain_height,
            ProxyEventModel::Nothing,
            reply,
            filter,
            3,
        ) == Some(
            match call.cached(hashes, blocks, chain_height) {
                Some(result) => filtered_answer(call, result, true, filter),
                None => match reply {
                    Ok(result) => filtered_answer(call, result, false, filter),
                    Err(e) => Err((502, e)),
                },
            },
        ),
{
    reveal_with_fuel(proxy_run, 4);
}

/// A block that the node replied is served from the cache as it was. The same call,
/// and one for the height of the block in place of its hash, is then answered without
/// asking the node: with the fields of the reply and no others, but for the
/// confirmations, which are those of the chain as it is now, and the successor, which
/// is the one that is known now. So it is where the block was not cached before and
/// the cache can hold something. The reply itself is answered as it is.
pub proof fn law_replied_block_is_served_as_it_was(
    call: CallModel,
    hashes: HashCacheModel,
    blocks: CacheModel,
    fields: Map<Seq<char>, JsonModel>,
    hash: Seq<char>,
    height: u32,
    then_height: u32,
    now_height: u32,
)
    requires
        call.method == "getblock"@,
        call.params.len() > 0,
        call.params[0] == JsonModel::Text(hash) || call.params[0] == JsonModel::PosInt(
            height as u64,
        ),
        call.filter is None,
        call.phase == ProxyPhase::Asked,
        fields.contains_key("hash"@),
        fields["hash"@] == JsonModel::Text(hash),
        fields.contains_key("height"@),
        fields["height"@] == JsonModel::PosInt(height as u64),
        !blocks.entries.contains_key((hash, call.verbosity())),
        blocks.capacity > 0,
    ensures
        ({
            let reply = JsonModel::Object(fields);
            let first = call.next(
                hashes,
                blocks,
                then_height,
                ProxyEventModel::Reply(Ok(reply)),
            );
            let again = call.at(ProxyPhase::Start).next(
                first.hashes,
                first.blocks,
                now_height,
                ProxyEventModel::Nothing,
            );
            &&& first.action == ProxyActionModel::Answer(Ok(reply))
            &&& again.action matches ProxyActionModel::Answer(Ok(JsonModel::Object(served)))
            &&& forall|name: Seq<char>|
                name != "confirmations"@ && name != "nextblockhash"@ ==> (
                #[trigger] served.contains_key(name) <==> fields.contains_key(name))
            &&& forall|name: Seq<char>|
                name != "confirmations"@ && name != "nextblockhash"@ && fields.contains_key(name)
                    ==> #[trigger] served[name] == fields[name]
            &&& served.contains_key("confirmations"@)
            &&& served["confirmations"@] == JsonModel::PosInt(
                if now_height < height {
                    1
                } else {
                    (now_height - height + 1) as u64
                },
            )
            &&& served.contains_key("nextblockhash"@) <==> height < u32::MAX
                && first.blocks.hashes.contains_key((height + 1) as u32)
            &&& served.contains_key("nextblockhash"@) ==> served["nextblockhash"@]
                == JsonModel::Text(first.blocks.hashes[(height + 1) as u32])
            &&& again.blocks == first.blocks
        }),
{
    let reply = JsonModel::Object(fields);
    reveal_strlit("getblockhash");
    reveal_strlit("getblock");
    assert("getblock"@.len() < "getblockhash"@.len());
    assert(reply.number_field("height"@) == Some(height as u64));
    assert(reply.text_field("hash"@) == Some(hash));
    assert(block_cache::height_of(reply) == height);
    let v = call.verbosity();
    block_cache::law_inserted_is_found(blocks, hash, v, reply, now_height);
    let after = blocks.inserted(hash, v, reply);
    let first = call.next(hashes, blocks, then_height, ProxyEventModel::Reply(Ok(reply)));
    assert(first.blocks == after);
    let restarted = call.at(ProxyPhase::Start);
    assert(restarted.block_hash(after) == Some(hash));
    assert(restarted.verbosity() == v);
    let r = after.answer(hash, v, now_height)->0;
    let again = restarted.next(first.hashes, after, now_height, ProxyEventModel::Nothing);
    assert(again.action == ProxyActionModel::Answer(Ok(r)));
    let served = r->Object_0;
    assert forall|name: Seq<char>|
        name != "confirmations"@ && name != "nextblockhash"@ implies (#[trigger] served.contains_key(
        name,
    ) <==> fields.contains_key(name)) by {
        assert(r.field(name) == reply.field(name));
    }
    assert forall|name: Seq<char>|
        name != "confirmations"@ && name != "nextblockhash"@ && fields.contains_key(
            name,
        ) implies #[trigger] served[name] == fields[name] by {
        assert(r.field(name) == reply.field(name));
    }
    assert(r.field("confirmations"@) is Some);
    assert(r.field("nextblockhash"@) == (match after.successor(height) {
        Some(next) => Some(JsonModel::Text(next)),
        None => None,
    }));
}

/// A hash that the node replied is served from the cache: the same call is then
/// answered with that hash without asking the node, where no other hash was cached for
/// the height.
pub proof fn law_replied_hash_is_served_as_it_was(
    call: CallModel,
    hashes: HashCacheModel,
    blocks: CacheModel,
    hash: Seq<char>,
    height: u32,
    then_height: u32,
    now_height: u32,
)
    requires
        call.method == "getblockhash"@,
        call.params.len() > 0,
        call.params[0] == JsonModel::PosInt(height as u64),
        call.filter is None,
        call.phase == ProxyPhase::Asked,
        !hashes.hashes.contains_key(height),
    ensures
        ({
            let reply = JsonModel::Text(hash);
            let first = call.next(
                hashes,
                blocks,
                then_height,
                ProxyEventModel::Reply(Ok(reply)),
            );
            let again = call.at(ProxyPhase::Start).next(
                first.hashes,
                first.blocks,
                now_height,
                ProxyEventModel::Nothing,
            );
            &&& first.action == ProxyActionModel::Answer(Ok(reply))
            &&& first.blocks == blocks
            &&& again.action == ProxyActionModel::Answer(Ok(reply))
        }),
{
}

/// Any other call goes to the node with its method and its parameters as they are, is
/// answered with what the node replied, and leaves the caches as they were.
pub proof fn law_other_calls_go_to_the_node(
    call: CallModel,
    hashes: HashCacheModel,
    blocks: CacheModel,
    chain_height: u32,
    reply: Result<JsonModel, Seq<char>>,
)
    requires
        call.method != "getblock"@,
        call.method != "getblockhash"@,
        call.filter is None,
        call.phase == ProxyPhase::Start,
    ensures
        ({
            let asked = call.next(hashes, blocks, chain_height, ProxyEventModel::Nothing);
            let answered = asked.call.next(
                asked.hashes,
                asked.blocks,
                chain_height,
                ProxyEventModel::Reply(reply),
            );
            &&& asked.action == ProxyActionModel::Ask(call.method, call.params)
            &&& answered.hashes == hashes
            &&& answered.blocks == blocks
            &&& answered.action == ProxyActionModel::Answer(
                match reply {
                    Ok(value) => Ok(value),
                    Err(e) => Err((502, e)),
                },
            )
        }),
{
}

/// A filter is applied to the result itself, and what it yields is the answer. One
/// that fails is the fault of the client.
pub proof fn law_filter_is_applied_to_the_reply(
    call: CallModel,
    hashes: HashCacheModel,
    blocks: CacheModel,
    chain_height: u32,
    result: JsonModel,
    expr: Seq<char>,
    yielded: Result<JsonModel, Seq<char>>,
)
    requires
        call.phase == ProxyPhase::Asked,
        call.filter == Some(expr),
        expr.len() > 0,
        vstd::utf8::encode_utf8(expr).len() <= 10_000,
    ensures
        ({
            let filtering = call.next(
                hashes,
                blocks,
                chain_height,
                ProxyEventModel::Reply(Ok(result)),
            );
            let answered = filtering.call.next(
                filtering.hashes,
                filtering.blocks,
                chain_height,
                ProxyEventModel::Filtered(yielded),
            );
            &&& filtering.action == ProxyActionModel::Filter(result, expr)
            &&& answered.action matches ProxyActionModel::Answer(answer)
            &&& yielded matches Ok(value) ==> answer == Ok::<JsonModel, (u16, Seq<char>)>(value)
            &&& yielded is Err ==> (answer matches Err((status, _)) && status == 400)
        }),
{
}

/// A decimal number is passed on as that number, and one behind a minus as its
/// negative, as far as 64 bits with a sign hold it. `true` and `false` are passed on as
/// such. Text that spells none of these, nor a float, is passed on as it is.
pub proof fn law_parameters_are_read(n: nat, s: Seq<char>, float: Option<u64>, bits: u64)
    ensures
        n <= i64::MAX ==> coerced(text::decimal_of(n), float) == JsonModel::PosInt(n as u64),
        0 < n <= i64::MAX + 1 ==> coerced(seq!['-'] + text::decimal_of(n), float)
            == JsonModel::NegInt((0 - n) as i64),
        n > i64::MAX ==> coerced(text::decimal_of(n), None) == JsonModel::Text(text::decimal_of(n)),
        n > i64::MAX ==> coerced(text::decimal_of(n), Some(bits)) == JsonModel::Float(bits),
        coerced("true"@, None) == JsonModel::Bool(true),
        coerced("false"@, None) == JsonModel::Bool(false),
        text::integer_value(s) is None ==> coerced(s, Some(bits)) == JsonModel::Float(bits),
        text::integer_value(s) is None && s != "true"@ && s != "false"@ ==> coerced(s, None)
            == JsonModel::Text(s),
{
    text::law_decimal_reads_back(n);
    text::law_signs(text::decimal_of(n));
    reveal_strlit("true");
    reveal_strlit("false");
    let spelled = text::decimal_of(n);
    assert('0' <= spelled[0] && spelled[0] <= '9');
    assert("true"@[0] == 't' && "false"@[0] == 'f');
    text::law_digits_are_decimal("true"@, '0');
    text::law_digits_are_decimal("false"@, '0');
    text::law_signs("true"@);
    text::law_signs("false"@);
}

/// Parameters between commas are passed on in their order, each as what it spells
/// without the white space around it. Nothing at all is no parameter.
pub proof fn law_parameters_keep_their_order(parts: Seq<Seq<char>>, floats: Seq<Option<u64>>)
    requires
        parts.len() > 0,
        forall|k: int| 0 <= k < parts.len() ==> !(#[trigger] parts[k]).contains(','),
    ensures
        ({
            let raw = text::joined(parts, ',');
            let params = params_of(raw, floats);
            &&& raw.len() == 0 ==> params.len() == 0
            &&& raw.len() > 0 ==> params.len() == parts.len()
            &&& raw.len() > 0 ==> forall|k: int|
                0 <= k < parts.len() ==> #[trigger] params[k] == coerced(
                    text::trimmed(parts[k]),
                    if k < floats.len() {
                        floats[k]
                    } else {
                        None
                    },
                )
        }),
{
    text::law_joined_splits_again(parts, ',');
}

/// What the parameters of a call mean: the first is the height, where it is a number,
/// and the second is the verbosity, where it is one. Without the latter the
/// transactions are only named.
pub proof fn law_what_parameters_mean(call: CallModel, h: u32, v: u8)
    ensures
        call.params.len() > 0 && call.params[0] == JsonModel::PosInt(h as u64) ==> call.height()
            == Some(h),
        call.params.len() == 0 || call.params[0] !is PosInt ==> call.height() is None,
        call.params.len() > 1 && call.params[1] == JsonModel::PosInt(v as u64) ==> call.verbosity()
            == v,
        call.params.len() < 2 || call.params[1] !is PosInt ==> call.verbosity() == 1,
{
}

/// A call that the caches can answer does not go to the node: one for a hash that is
/// cached, and one for a block, by its hash or by a height whose hash is cached. Any
/// other goes there with its method and its parameters as they are.
pub proof fn law_what_is_cached_is_not_asked_for(
    call: CallModel,
    hashes: HashCacheModel,
    blocks: CacheModel,
    chain_height: u32,
)
    requires
        call.phase == ProxyPhase::Start,
        call.filter is None,
        call.params.len() > 0,
    ensures
        ({
            let after = call.next(hashes, blocks, chain_height, ProxyEventModel::Nothing);
            let served = match call.params[0] {
                JsonModel::PosInt(n) => if call.method == "getblockhash"@
                    && hashes.hashes.contains_key(n as u32) {
                    Some(JsonModel::Text(hashes.hashes[n as u32]))
                } else if call.method == "getblock"@ && blocks.hashes.contains_key(n as u32) {
                    blocks.answer(blocks.hashes[n as u32], call.verbosity(), chain_height)
                } else {
                    None
                },
                JsonModel::Text(hash) => if call.method == "getblock"@ {
                    blocks.answer(hash, call.verbosity(), chain_height)
                } else {
                    None
                },
                _ => None,
            };
            &&& after.blocks == blocks
            &&& after.hashes.hashes == hashes.hashes
            &&& after.action == (match served {
                Some(value) => ProxyActionModel::Answer(Ok(value)),
                None => ProxyActionModel::Ask(call.method, call.params),
            })
        }),
{
    reveal_strlit("getblockhash");
    reveal_strlit("getblock");
    assert("getblock"@.len() < "getblockhash"@.len());
}

/// An empty filter is none, and one of more than ten thousand bytes is refused as the
/// fault of the client, without being applied.
pub proof fn law_filter_length(
    call: CallModel,
    hashes: HashCacheModel,
    blocks: CacheModel,
    chain_height: u32,
    result: JsonModel,
    expr: Seq<char>,
)
    requires
        call.phase == ProxyPhase::Asked,
        call.filter == Some(expr),
    ensures
        ({
            let after = call.next(
                hashes,
                blocks,
                chain_height,
                ProxyEventModel::Reply(Ok(result)),
            );
            &&& expr.len() == 0 ==> after.action == ProxyActionModel::Answer(Ok(result))
            &&& expr.len() > 0 && vstd::utf8::encode_utf8(expr).len() > 10_000 ==> (
            after.action matches ProxyActionModel::Answer(Err((status, _))) && status == 400)
        }),
{
}

/// A filter is applied to what the caches have just as to what the node replies.
pub proof fn law_filter_is_applied_to_what_is_cached(
    call: CallModel,
    hashes: HashCacheModel,
    blocks: CacheModel,
    chain_height: u32,
    expr: Seq<char>,
)
    requires
        call.phase == ProxyPhase::Start,
        call.filter == Some(expr),
        expr.len() > 0,
    ensures
        ({
            let bare = CallModel { filter: None, ..call };
            let unfiltered = bare.next(hashes, blocks, chain_height, ProxyEventModel::Nothing);
            let after = call.next(hashes, blocks, chain_height, ProxyEventModel::Nothing);
            &&& unfiltered.action matches ProxyActionModel::Answer(Ok(value)) ==> after.action
                == ProxyActionModel::Filter(value, expr)
            &&& unfiltered.action is Ask ==> after.action == unfiltered.action
            &&& unfiltered.action is Ask || unfiltered.action is Answer
        }),
{
}

/// A block that the node replied makes its hash known: a later call for the hash at its
/// height is answered without asking the node, with the hash of that block, unless another
/// was known there before. A reply that lacks its height or its hash, as one in hex does,
/// leaves both caches as they were.
pub proof fn law_replied_block_makes_its_hash_known(
    call: CallModel,
    later: CallModel,
    hashes: HashCacheModel,
    blocks: CacheModel,
    result: JsonModel,
    hash: Seq<char>,
    height: u32,
    then_height: u32,
    now_height: u32,
)
    requires
        call.method == "getblock"@,
        call.phase == ProxyPhase::Asked,
        later.method == "getblockhash"@,
        later.params.len() > 0,
        later.params[0] == JsonModel::PosInt(height as u64),
        later.filter is None,
        later.phase == ProxyPhase::Start,
    ensures
        ({
            let replied = call.next(
                hashes,
                blocks,
                then_height,
                ProxyEventModel::Reply(Ok(result)),
            );
            let asked = later.next(
                replied.hashes,
                replied.blocks,
                now_height,
                ProxyEventModel::Nothing,
            );
            let whole = result.field("hash"@) == Some(JsonModel::Text(hash)) && result.field(
                "height"@,
            ) == Some(JsonModel::PosInt(height as u64));
            let lacking = result.field("hash"@) is None || result.field("hash"@)->0 !is Text
                || result.field("height"@) is None || result.field("height"@)->0 !is PosInt;
            &&& whole && !hashes.hashes.contains_key(height) ==> asked.action
                == ProxyActionModel::Answer(Ok(JsonModel::Text(hash)))
            &&& whole && hashes.hashes.contains_key(height) ==> asked.action
                == ProxyActionModel::Answer(Ok(JsonModel::Text(hashes.hashes[height])))
            &&& lacking ==> replied.hashes == hashes && replied.blocks == blocks
        }),
{
    reveal_strlit("getblockhash");
    reveal_strlit("getblock");
    assert("getblock"@.len() < "getblockhash"@.len());
}

/// A hash that the node replied makes no block known, and a call that failed makes nothing
/// known at all.
pub proof fn law_only_replies_are_kept(
    call: CallModel,
    hashes: HashCacheModel,
    blocks: CacheModel,
    chain_height: u32,
    result: JsonModel,
    e: Seq<char>,
)
    requires
        call.phase == ProxyPhase::Asked,
    ensures
        ({
            let replied = call.next(
                hashes,
                blocks,
                chain_height,
                ProxyEventModel::Reply(Ok(result)),
            );
            let failed = call.next(hashes, blocks, chain_height, ProxyEventModel::Reply(Err(e)));
            &&& call.method == "getblockhash"@ ==> replied.blocks == blocks
            &&& call.method == "getblockhash"@ && (result !is Text || call.params.len() == 0
                || call.params[0] !is PosInt) ==> replied.hashes == hashes
            &&& failed.hashes == hashes && failed.blocks == blocks
            &&& failed.action == ProxyActionModel::Answer(Err((502, e)))
        }),
{
    reveal_strlit("getblockhash");
    reveal_strlit("getblock");
    assert("getblock"@.len() < "getblockhash"@.len());
}

} // verus!
