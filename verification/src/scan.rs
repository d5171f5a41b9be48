//! Scanning blocks with the help of the node.
//!
//! A scan is a sequence of steps. Each step takes what the node replied to the
//! last request, if there was one, and says what to do next. Blocks that are in
//! the block cache are not asked for; those that are fetched are put there.

use vstd::prelude::*;
use crate::block_cache;
use crate::block_cache::{BlockCache, CacheModel};
use crate::json::{Json, JsonModel};
use crate::scanner;
use crate::scanner::{BlockModel, ScanError, ScanFault, ShieldBlock};
use crate::stream;
use crate::text;

verus! {

/// What a scan asks of the node.
pub enum Request {
    /// The hash of the block at a height.
    BlockHash(u32),
    /// The block with a hash, with its transactions in full.
    Block(String),
    /// The raw transaction for each id that is given.
    RawTxs(Vec<Option<String>>),
}

/// What the node replied.
pub enum Reply {
    /// Nothing was asked.
    Nothing,
    /// A hash, or what went wrong.
    BlockHash(Result<String, String>),
    /// A block, or what went wrong.
    Block(Result<Json, String>),
    /// For each id what came back, if anything did.
    RawTxs(Vec<Option<Json>>),
}

/// What a `Request` says.
#[verifier::ext_equal]
pub enum RequestModel {
    BlockHash(u32),
    Block(Seq<char>),
    RawTxs(Seq<Option<Seq<char>>>),
}

/// What a `Reply` says.
#[verifier::ext_equal]
pub enum ReplyModel {
    Nothing,
    BlockHash(Result<Seq<char>, Seq<char>>),
    Block(Result<JsonModel, Seq<char>>),
    RawTxs(Seq<Option<JsonModel>>),
}

impl View for Request {
    type V = RequestModel;

    open spec fn view(&self) -> RequestModel {
        match self {
            Request::BlockHash(height) => RequestModel::BlockHash(*height),
            Request::Block(hash) => RequestModel::Block(hash@),
            Request::RawTxs(ids) => RequestModel::RawTxs(scanner::id_models(ids@)),
        }
    }
}

impl View for Reply {
    type V = ReplyModel;

    open spec fn view(&self) -> ReplyModel {
        match self {
            Reply::Nothing => ReplyModel::Nothing,
            Reply::BlockHash(Ok(hash)) => ReplyModel::BlockHash(Ok(hash@)),
            Reply::BlockHash(Err(e)) => ReplyModel::BlockHash(Err(e@)),
            Reply::Block(Ok(json)) => ReplyModel::Block(Ok(json@)),
            Reply::Block(Err(e)) => ReplyModel::Block(Err(e@)),
            Reply::RawTxs(values) => ReplyModel::RawTxs(scanner::reply_models(values@)),
        }
    }
}

/// The transactions that a block only names, to be asked for.
pub open spec fn txs_request(block: JsonModel) -> RequestModel {
    RequestModel::RawTxs(
        match scanner::block_items(block) {
            Some(items) => scanner::named_txs(items),
            None => Seq::empty(),
        },
    )
}

/// Why the hash of a block could not be had.
pub open spec fn hash_fault(height: u32, e: Seq<char>) -> ScanFault {
    ScanFault::Rpc("getblockhash("@ + text::decimal_of(height as nat) + "): "@ + e)
}

/// Why a block could not be had.
pub open spec fn block_fault(hash: Seq<char>, e: Seq<char>) -> ScanFault {
    ScanFault::Rpc("getblock("@ + hash + "): "@ + e)
}

/// Why the hash of a block could not be had.
fn hash_error(height: u32, e: &str) -> (r: ScanError)
    ensures
        r@ == hash_fault(height, e@),
{
    let number = text::decimal(height as u64);
    let mut message = text::join3("getblockhash(", number.as_str(), "): ");
    message.append(e);
    ScanError::Rpc(message)
}

/// Why a block could not be had.
fn block_error(hash: &str, e: &str) -> (r: ScanError)
    ensures
        r@ == block_fault(hash@, e@),
{
    let mut message = text::join3("getblock(", hash, "): ");
    message.append(e);
    ScanError::Rpc(message)
}

// ---------------------------------------------------------------------------
// One block
// ---------------------------------------------------------------------------

/// How far the scan of one block has come.
pub enum BlockPhase {
    /// Nothing was done.
    Start,
    /// The hash was asked for.
    AskedHash,
    /// The hash is known.
    Fetch(String),
    /// The block was asked for.
    AskedBlock(String),
    /// The block is known; transactions were asked for.
    AskedTxs(Json),
    /// All is done.
    Finished,
}

/// The scan of one block.
pub struct BlockScan {
    /// Height of the block.
    pub height: u32,
    /// Height of the chain.
    pub chain_height: u32,
    /// How far the scan has come.
    pub phase: BlockPhase,
}

/// What to do next.
pub enum BlockStep {
    /// Take the next step, with no reply.
    Continue,
    /// Ask the node and take the next step with its reply.
    Ask(Request),
    /// Nothing more: this is the result.
    Done(Result<Option<ShieldBlock>, ScanError>),
}

/// What a `BlockPhase` says.
#[verifier::ext_equal]
pub enum BlockPhaseModel {
    Start,
    AskedHash,
    Fetch(Seq<char>),
    AskedBlock(Seq<char>),
    AskedTxs(JsonModel),
    Finished,
}

/// What a `BlockStep` says.
#[verifier::ext_equal]
pub enum BlockStepModel {
    Continue,
    Ask(RequestModel),
    Done(Result<Option<BlockModel>, ScanFault>),
}

impl View for BlockPhase {
    type V = BlockPhaseModel;

    open spec fn view(&self) -> BlockPhaseModel {
        match self {
            BlockPhase::Start => BlockPhaseModel::Start,
            BlockPhase::AskedHash => BlockPhaseModel::AskedHash,
            BlockPhase::Fetch(hash) => BlockPhaseModel::Fetch(hash@),
            BlockPhase::AskedBlock(hash) => BlockPhaseModel::AskedBlock(hash@),
            BlockPhase::AskedTxs(json) => BlockPhaseModel::AskedTxs(json@),
            BlockPhase::Finished => BlockPhaseModel::Finished,
        }
    }
}

impl View for BlockStep {
    type V = BlockStepModel;

    open spec fn view(&self) -> BlockStepModel {
        match self {
            BlockStep::Continue => BlockStepModel::Continue,
            BlockStep::Ask(request) => BlockStepModel::Ask(request@),
            BlockStep::Done(result) => BlockStepModel::Done(scanner::result_model(*result)),
        }
    }
}

/// The height that a block itself gives, or the one it was looked up by.
pub open spec fn own_height(block: JsonModel, height: u32) -> u32 {
    match block.number_field("height"@) {
        Some(h) => h as u32,
        None => height,
    }
}

/// Whether `reply` is what the scan of a block waits for.
pub open spec fn block_expects(phase: BlockPhaseModel, reply: ReplyModel) -> bool {
    match phase {
        BlockPhaseModel::Start => reply is Nothing,
        BlockPhaseModel::AskedHash => reply is BlockHash,
        BlockPhaseModel::Fetch(_) => reply is Nothing,
        BlockPhaseModel::AskedBlock(_) => reply is Block,
        BlockPhaseModel::AskedTxs(_) => reply is RawTxs,
        BlockPhaseModel::Finished => false,
    }
}

/// One step of the scan of a block: the next phase, the cache, and what to do.
///
/// The hash is that of the cache, or else the node's. The block is that of the
/// cache, or else the node's, which the cache then keeps. Any failure of the node
/// is the result of the scan.
pub open spec fn block_next(
    height: u32,
    chain_height: u32,
    phase: BlockPhaseModel,
    cache: CacheModel,
    reply: ReplyModel,
) -> (BlockPhaseModel, CacheModel, BlockStepModel) {
    match (phase, reply) {
        (BlockPhaseModel::Start, _) => if cache.hashes.contains_key(height) {
            (BlockPhaseModel::Fetch(cache.hashes[height]), cache, BlockStepModel::Continue)
        } else {
            (
                BlockPhaseModel::AskedHash,
                cache,
                BlockStepModel::Ask(RequestModel::BlockHash(height)),
            )
        },
        (BlockPhaseModel::AskedHash, ReplyModel::BlockHash(Ok(hash))) => (
            BlockPhaseModel::Fetch(hash),
            cache,
            BlockStepModel::Continue,
        ),
        (BlockPhaseModel::AskedHash, ReplyModel::BlockHash(Err(e))) => (
            BlockPhaseModel::Finished,
            cache,
            BlockStepModel::Done(Err(hash_fault(height, e))),
        ),
        (BlockPhaseModel::Fetch(hash), _) => match cache.answer(hash, 2, chain_height) {
            Some(block) => (
                BlockPhaseModel::AskedTxs(block),
                cache,
                BlockStepModel::Ask(txs_request(block)),
            ),
            None => (
                BlockPhaseModel::AskedBlock(hash),
                cache,
                BlockStepModel::Ask(RequestModel::Block(hash)),
            ),
        },
        (BlockPhaseModel::AskedBlock(hash), ReplyModel::Block(Ok(block))) => (
            BlockPhaseModel::AskedTxs(block),
            cache.kept(hash, 2, block),
            BlockStepModel::Ask(txs_request(block)),
        ),
        (BlockPhaseModel::AskedBlock(hash), ReplyModel::Block(Err(e))) => (
            BlockPhaseModel::Finished,
            cache,
            BlockStepModel::Done(Err(block_fault(hash, e))),
        ),
        (BlockPhaseModel::AskedTxs(block), ReplyModel::RawTxs(replies)) => (
            BlockPhaseModel::Finished,
            cache,
            BlockStepModel::Done(scanner::scanned(block, replies, own_height(block, height))),
        ),
        _ => (BlockPhaseModel::Finished, cache, BlockStepModel::Continue),
    }
}

/// Scan a single block by height, using the block cache.
pub fn scan_block(height: u32, chain_height: u32) -> (scan: BlockScan)
    ensures
        scan.height == height,
        scan.chain_height == chain_height,
        scan.phase@ == BlockPhaseModel::Start,
{
    BlockScan { height, chain_height, phase: BlockPhase::Start }
}

impl BlockScan {
    /// Take one step.
    pub fn step(&mut self, cache: &mut BlockCache, reply: Reply) -> (r: BlockStep)
        requires
            old(cache).wf(),
            block_expects(old(self).phase@, reply@),
        ensures
            final(cache).wf(),
            final(self).height == old(self).height,
            final(self).chain_height == old(self).chain_height,
            (final(self).phase@, final(cache)@, r@) == block_next(
                old(self).height,
                old(self).chain_height,
                old(self).phase@,
                old(cache)@,
                reply@,
            ),
            (final(cache).hits, final(cache).misses) == (match old(self).phase@ {
                BlockPhaseModel::Fetch(hash) => block_cache::tallied(
                    *old(cache),
                    old(cache)@.answer(hash, 2, old(self).chain_height) is Some,
                ),
                _ => (old(cache).hits, old(cache).misses),
            }),
    {
        let mut phase: BlockPhase = BlockPhase::Finished;
        std::mem::swap(&mut phase, &mut self.phase);
        match (phase, reply) {
            (BlockPhase::Start, _) => {
                match cache.hash_for_height(self.height) {
                    Some(hash) => {
                        self.phase = BlockPhase::Fetch(hash.to_owned());
                        BlockStep::Continue
                    },
                    None => {
                        self.phase = BlockPhase::AskedHash;
                        BlockStep::Ask(Request::BlockHash(self.height))
                    },
                }
            },
            (BlockPhase::AskedHash, Reply::BlockHash(Ok(hash))) => {
                self.phase = BlockPhase::Fetch(hash);
                BlockStep::Continue
            },
            (BlockPhase::AskedHash, Reply::BlockHash(Err(e))) => {
                BlockStep::Done(Err(hash_error(self.height, e.as_str())))
            },
            (BlockPhase::Fetch(hash), _) => {
                match cache.get(hash.as_str(), 2, self.chain_height) {
                    Some(block) => {
                        let ids = scanner::raw_txs_to_ask(&block);
                        self.phase = BlockPhase::AskedTxs(block);
                        BlockStep::Ask(Request::RawTxs(ids))
                    },
                    None => {
                        self.phase = BlockPhase::AskedBlock(hash.clone());
                        BlockStep::Ask(Request::Block(hash))
                    },
                }
            },
            (BlockPhase::AskedBlock(hash), Reply::Block(Ok(block))) => {
                cache.keep(hash.as_str(), 2, &block);
                let ids = scanner::raw_txs_to_ask(&block);
                self.phase = BlockPhase::AskedTxs(block);
                BlockStep::Ask(Request::RawTxs(ids))
            },
            (BlockPhase::AskedBlock(hash), Reply::Block(Err(e))) => {
                BlockStep::Done(Err(block_error(hash.as_str(), e.as_str())))
            },
            (BlockPhase::AskedTxs(block), Reply::RawTxs(replies)) => {
                let height: u32 = match block.number_field("height") {
                    Some(h) => h as u32,
                    None => self.height,
                };
                BlockStep::Done(scanner::scan_block_inner(&block, &replies, height))
            },
            _ => BlockStep::Continue,
        }
    }
}

/// The reply that the node gives in a phase, where these are its replies to each
/// kind of request.
pub open spec fn reply_in(
    phase: BlockPhaseModel,
    hash: Result<Seq<char>, Seq<char>>,
    block: Result<JsonModel, Seq<char>>,
    txs: Seq<Option<JsonModel>>,
) -> ReplyModel {
    match phase {
        BlockPhaseModel::AskedHash => ReplyModel::BlockHash(hash),
        BlockPhaseModel::AskedBlock(_) => ReplyModel::Block(block),
        BlockPhaseModel::AskedTxs(_) => ReplyModel::RawTxs(txs),
        _ => ReplyModel::Nothing,
    }
}

/// The result of a scan that is at `phase`, after at most `steps` steps.
pub open spec fn block_run(
    height: u32,
    chain_height: u32,
    phase: BlockPhaseModel,
    cache: CacheModel,
    hash: Result<Seq<char>, Seq<char>>,
    block: Result<JsonModel, Seq<char>>,
    txs: Seq<Option<JsonModel>>,
    steps: nat,
) -> Option<Result<Option<BlockModel>, ScanFault>>
    decreases steps,
{
    if steps == 0 {
        None
    } else {
        let after = block_next(
            height,
            chain_height,
            phase,
            cache,
            reply_in(phase, hash, block, txs),
        );
        match after.2 {
            BlockStepModel::Done(result) => Some(result),
            _ => block_run(
                height,
                chain_height,
                after.0,
                after.1,
                hash,
                block,
                txs,
                (steps - 1) as nat,
            ),
        }
    }
}

/// What scanning a block comes to, in at most five steps: the hash is the cached
/// one or else the node's, the block is the cached one or else the node's, and the
/// result is what that block yields, or what the node failed at.
pub proof fn law_block_scan_result(
    height: u32,
    chain_height: u32,
    cache: CacheModel,
    hash: Result<Seq<char>, Seq<char>>,
    block: Result<JsonModel, Seq<char>>,
    txs: Seq<Option<JsonModel>>,
)
    ensures
        block_run(height, chain_height, BlockPhaseModel::Start, cache, hash, block, txs, 5) == Some(
            match if cache.hashes.contains_key(height) {
                Ok(cache.hashes[height])
            } else {
                hash
            } {
                Err(e) => Err(hash_fault(height, e)),
                Ok(h) => match cache.answer(h, 2, chain_height) {
                    Some(b) => scanner::scanned(b, txs, own_height(b, height)),
                    None => match block {
                        Err(e) => Err(block_fault(h, e)),
                        Ok(b) => scanner::scanned(b, txs, own_height(b, height)),
                    },
                },
            },
        ),
{
    reveal_with_fuel(block_run, 6);
}

// ---------------------------------------------------------------------------
// A range of blocks
// ---------------------------------------------------------------------------

/// How far the scan of a range has come.
pub enum RangePhase {
    /// Nothing was done.
    Start,
    /// The first hash was asked for.
    AskedFirst,
    /// The hash of the block at hand is known.
    Fetch(String),
    /// The block at hand was asked for.
    AskedBlock(String),
    /// The block at hand is known; transactions were asked for.
    AskedTxs(Json),
    /// The block at hand is done; the hash of the next one was asked for.
    AskedNext,
    /// The block at hand could not be had; the hash of the next one was asked for.
    AskedSkip,
    /// The range could not be entered.
    Failed,
    /// All is done.
    Finished,
}

/// The scan of a range of blocks, chained by `nextblockhash`.
pub struct RangeScan {
    /// First height of the range.
    pub start: u32,
    /// Last height of the range.
    pub end: u32,
    /// Height of the chain.
    pub chain_height: u32,
    /// Height of the block at hand.
    pub height: u32,
    /// The shield blocks found.
    pub found: Vec<ShieldBlock>,
    /// The first height of the range whose block could not be scanned, if any.
    pub missed: Option<u32>,
    /// How far the scan has come.
    pub phase: RangePhase,
}

/// What to do next.
pub enum RangeStep {
    /// Take the next step, with no reply.
    Continue,
    /// Ask the node and take the next step with its reply.
    Ask(Request),
    /// Nothing more: these are the shield blocks that were found in the range.
    Done(Vec<ShieldBlock>),
    /// Nothing more: the range could not be entered.
    Failed(ScanError),
}

/// What a `RangePhase` says.
#[verifier::ext_equal]
pub enum RangePhaseModel {
    Start,
    AskedFirst,
    Fetch(Seq<char>),
    AskedBlock(Seq<char>),
    AskedTxs(JsonModel),
    AskedNext,
    AskedSkip,
    Failed,
    Finished,
}

/// What a `RangeStep` says.
#[verifier::ext_equal]
pub enum RangeStepModel {
    Continue,
    Ask(RequestModel),
    Done(Seq<BlockModel>),
    Failed(ScanFault),
}

/// What a `RangeScan` is at.
#[verifier::ext_equal]
pub struct RangeModel {
    pub start: u32,
    pub end: u32,
    pub chain_height: u32,
    pub height: u32,
    pub found: Seq<BlockModel>,
    pub missed: Option<u32>,
    pub phase: RangePhaseModel,
}

impl View for RangePhase {
    type V = RangePhaseModel;

    open spec fn view(&self) -> RangePhaseModel {
        match self {
            RangePhase::Start => RangePhaseModel::Start,
            RangePhase::AskedFirst => RangePhaseModel::AskedFirst,
            RangePhase::Fetch(hash) => RangePhaseModel::Fetch(hash@),
            RangePhase::AskedBlock(hash) => RangePhaseModel::AskedBlock(hash@),
            RangePhase::AskedTxs(json) => RangePhaseModel::AskedTxs(json@),
            RangePhase::AskedNext => RangePhaseModel::AskedNext,
            RangePhase::AskedSkip => RangePhaseModel::AskedSkip,
            RangePhase::Failed => RangePhaseModel::Failed,
            RangePhase::Finished => RangePhaseModel::Finished,
        }
    }
}

impl View for RangeScan {
    type V = RangeModel;

    open spec fn view(&self) -> RangeModel {
        RangeModel {
            start: self.start,
            end: self.end,
            chain_height: self.chain_height,
            height: self.height,
            found: stream::models(self.found@),
            missed: self.missed,
            phase: self.phase@,
        }
    }
}

impl View for RangeStep {
    type V = RangeStepModel;

    open spec fn view(&self) -> RangeStepModel {
        match self {
            RangeStep::Continue => RangeStepModel::Continue,
            RangeStep::Ask(request) => RangeStepModel::Ask(request@),
            RangeStep::Done(blocks) => RangeStepModel::Done(stream::models(blocks@)),
            RangeStep::Failed(e) => RangeStepModel::Failed(e@),
        }
    }
}

impl RangeModel {
    /// Whether `reply` is what the scan waits for.
    pub open spec fn expects(self, reply: ReplyModel) -> bool {
        match self.phase {
            RangePhaseModel::Start => reply is Nothing,
            RangePhaseModel::AskedFirst => reply is BlockHash,
            RangePhaseModel::Fetch(_) => reply is Nothing,
            RangePhaseModel::AskedBlock(_) => reply is Block,
            RangePhaseModel::AskedTxs(_) => reply is RawTxs,
            RangePhaseModel::AskedNext => reply is BlockHash,
            RangePhaseModel::AskedSkip => reply is BlockHash,
            RangePhaseModel::Failed => false,
            RangePhaseModel::Finished => false,
        }
    }

    /// The scan in another phase.
    pub open spec fn at(self, phase: RangePhaseModel) -> RangeModel {
        RangeModel { phase, ..self }
    }

    /// The scan at the next height, whose hash is known.
    pub open spec fn at_next(self, hash: Seq<char>) -> RangeModel {
        RangeModel {
            height: (self.height + 1) as u32,
            phase: RangePhaseModel::Fetch(hash),
            ..self
        }
    }

    /// The scan after the block at `h` could not be scanned.
    pub open spec fn missing(self, h: u32) -> RangeModel {
        match self.missed {
            Some(_) => self,
            None => RangeModel { missed: Some(h), ..self },
        }
    }

    /// The end of the scan, with what was found.
    pub open spec fn finish(self) -> (RangeModel, RangeStepModel) {
        (
            RangeModel { found: Seq::empty(), phase: RangePhaseModel::Finished, ..self },
            RangeStepModel::Done(self.found),
        )
    }

    /// The scan with what the block at hand yielded. A block that cannot be
    /// scanned is left out, and noted.
    pub open spec fn with_result(
        self,
        result: Result<Option<BlockModel>, ScanFault>,
    ) -> RangeModel {
        match result {
            Ok(Some(block)) => RangeModel { found: self.found.push(block), ..self },
            Ok(None) => self,
            Err(_) => self.missing(self.height),
        }
    }

    /// On to the next block: by the successor that the block names, or else by the
    /// hash that the cache knows, or else by asking.
    pub open spec fn advanced(self, block: JsonModel, cache: CacheModel) -> (
        RangeModel,
        RangeStepModel,
    ) {
        if self.height >= self.end {
            self.finish()
        } else {
            let next = (self.height + 1) as u32;
            match block.text_field("nextblockhash"@) {
                Some(hash) => (self.at_next(hash), RangeStepModel::Continue),
                None => if cache.hashes.contains_key(next) {
                    (self.at_next(cache.hashes[next]), RangeStepModel::Continue)
                } else {
                    (
                        self.at(RangePhaseModel::AskedNext),
                        RangeStepModel::Ask(RequestModel::BlockHash(next)),
                    )
                },
            }
        }
    }

    /// One step of the scan: where it is then, the cache, and what to do.
    ///
    /// Only the first hash is indispensable. A block that cannot be had is passed
    /// over; where the hash of a later block cannot be had, the scan ends with what
    /// it found. Either way the first height that is left out is noted.
    pub open spec fn next(self, cache: CacheModel, reply: ReplyModel) -> (
        RangeModel,
        CacheModel,
        RangeStepModel,
    ) {
        match (self.phase, reply) {
            (RangePhaseModel::Start, _) => if cache.hashes.contains_key(self.start) {
                (
                    self.at(RangePhaseModel::Fetch(cache.hashes[self.start])),
                    cache,
                    RangeStepModel::Continue,
                )
            } else {
                (
                    self.at(RangePhaseModel::AskedFirst),
                    cache,
                    RangeStepModel::Ask(RequestModel::BlockHash(self.start)),
                )
            },
            (RangePhaseModel::AskedFirst, ReplyModel::BlockHash(Ok(hash))) => (
                self.at(RangePhaseModel::Fetch(hash)),
                cache,
                RangeStepModel::Continue,
            ),
            (RangePhaseModel::AskedFirst, ReplyModel::BlockHash(Err(e))) => (
                self.at(RangePhaseModel::Failed),
                cache,
                RangeStepModel::Failed(hash_fault(self.start, e)),
            ),
            (RangePhaseModel::Fetch(hash), _) => if self.height > self.end {
                (self.finish().0, cache, self.finish().1)
            } else {
                match cache.answer(hash, 2, self.chain_height) {
                    Some(block) => (
                        self.at(RangePhaseModel::AskedTxs(block)),
                        cache,
                        RangeStepModel::Ask(txs_request(block)),
                    ),
                    None => (
                        self.at(RangePhaseModel::AskedBlock(hash)),
                        cache,
                        RangeStepModel::Ask(RequestModel::Block(hash)),
                    ),
                }
            },
            (RangePhaseModel::AskedBlock(hash), ReplyModel::Block(Ok(block))) => (
                self.at(RangePhaseModel::AskedTxs(block)),
                cache.kept(hash, 2, block),
                RangeStepModel::Ask(txs_request(block)),
            ),
            (RangePhaseModel::AskedBlock(_), ReplyModel::Block(Err(_))) => if self.height
                == u32::MAX {
                (self.missing(self.height).finish().0, cache, self.finish().1)
            } else {
                (
                    self.missing(self.height).at(RangePhaseModel::AskedSkip),
                    cache,
                    RangeStepModel::Ask(RequestModel::BlockHash((self.height + 1) as u32)),
                )
            },
            (RangePhaseModel::AskedTxs(block), ReplyModel::RawTxs(replies)) => {
                let after = self.with_result(
                    scanner::scanned(block, replies, self.height),
                ).advanced(block, cache);
                (after.0, cache, after.1)
            },
            (RangePhaseModel::AskedNext, ReplyModel::BlockHash(Ok(hash))) => (
                self.at_next(hash),
                cache,
                RangeStepModel::Continue,
            ),
            (RangePhaseModel::AskedSkip, ReplyModel::BlockHash(Ok(hash))) => (
                self.at_next(hash),
                cache,
                RangeStepModel::Continue,
            ),
            (RangePhaseModel::AskedNext, _) => (
                self.missing((self.height + 1) as u32).finish().0,
                cache,
                self.finish().1,
            ),
            (RangePhaseModel::AskedSkip, _) => (self.finish().0, cache, self.finish().1),
            _ => (self.at(RangePhaseModel::Finished), cache, RangeStepModel::Continue),
        }
    }

    /// How many blocks the range has; one that ends before it starts counts as one.
    pub open spec fn total(self) -> int {
        if self.start <= self.end {
            self.end - self.start + 1
        } else {
            1
        }
    }

    /// The progress to report, if any, as the number of blocks that are done and
    /// that of all: when a block is begun, and when all is done.
    pub open spec fn progress(self) -> Option<(int, int)> {
        match self.phase {
            RangePhaseModel::Fetch(_) => if self.height <= self.end {
                Some((self.height - self.start, self.total()))
            } else {
                None
            },
            RangePhaseModel::Finished => Some((self.total(), self.total())),
            _ => None,
        }
    }

    /// Whether the scan is one that can come about: what it found lies in the
    /// range in ascending order and before the block at hand, unless that is done
    /// already; where it asks for the next hash, there is a next height; and what is
    /// left out lies in the range.
    pub open spec fn sound(self) -> bool {
        &&& ascending_within(
            self.found,
            self.start as int,
            if self.phase is AskedNext {
                self.height + 1
            } else {
                self.height as int
            },
        )
        &&& self.start <= self.height
        &&& self.phase is AskedNext ==> self.height < self.end
        &&& self.phase is AskedSkip ==> self.height < u32::MAX && self.height <= self.end
            && self.missed is Some
        &&& self.phase is AskedBlock ==> self.height <= self.end
        &&& self.phase is AskedTxs ==> self.height <= self.end
        &&& ascending_within(self.found, self.start as int, self.end + 1)
        &&& self.missed matches Some(h) ==> self.start <= h <= self.end
    }
}

/// Whether the heights of `blocks` ascend from `low` on and stay below `high`.
pub open spec fn ascending_within(blocks: Seq<BlockModel>, low: int, high: int) -> bool {
    &&& forall|j: int, k: int|
        0 <= j < k < blocks.len() ==> (#[trigger] blocks[j]).height < (#[trigger] blocks[k]).height
    &&& forall|k: int| 0 <= k < blocks.len() ==> low <= (#[trigger] blocks[k]).height < high
}

/// A scan stays sound, and what it ends with lies in its range in ascending order.
pub proof fn law_range_scan_ascends(m: RangeModel, cache: CacheModel, reply: ReplyModel)
    requires
        m.sound(),
        m.expects(reply),
    ensures
        m.next(cache, reply).0.sound(),
        m.next(cache, reply).2 matches RangeStepModel::Done(blocks) ==> ascending_within(
            blocks,
            m.start as int,
            m.end + 1,
        ),
{
    if let (RangePhaseModel::AskedTxs(block), ReplyModel::RawTxs(replies)) = (m.phase, reply) {
        let result = scanner::scanned(block, replies, m.height);
        let w = m.with_result(result);
        if let Ok(Some(b)) = result {
            assert(b.height == m.height);
            assert(w.found == m.found.push(b));
        }
        assert(ascending_within(w.found, m.start as int, m.height + 1));
        assert(ascending_within(w.found, m.start as int, m.end + 1));
    }
}

/// Progress is reported once for every block that is begun, counting up by one, and
/// once at the end, where it is complete.
pub proof fn law_progress_counts_up(m: RangeModel, cache: CacheModel, reply: ReplyModel)
    requires
        m.sound(),
        m.expects(reply),
    ensures
        ({
            let after = m.next(cache, reply).0;
            let step = m.next(cache, reply).2;
            &&& after.total() == m.total()
            &&& step is Done <==> after.progress() == Some((m.total(), m.total()))
            &&& step !is Done ==> (after.progress() matches Some((done, _)) ==> done == (
            if m.phase is Start || m.phase is AskedFirst {
                m.height - m.start
            } else {
                m.height - m.start + 1
            }))
            &&& m.phase is Fetch && step !is Done ==> after.progress() is None
        }),
{
}

/// Nothing is left out unnoticed. What was noted first stays. A height is noted only
/// where the node failed on it or its block cannot be scanned. Where none is noted,
/// the scan leaves a height only when its block was scanned, and it ends only behind
/// the last one.
pub proof fn law_nothing_is_left_out_unnoticed(m: RangeModel, cache: CacheModel, reply: ReplyModel)
    requires
        m.sound(),
        m.expects(reply),
    ensures
        ({
            let after = m.next(cache, reply).0;
            let step = m.next(cache, reply).2;
            &&& m.missed is Some ==> after.missed == m.missed
            &&& m.missed is None ==> (after.missed matches Some(h) ==> match m.phase {
                RangePhaseModel::AskedBlock(_) => h == m.height && reply->Block_0 is Err,
                RangePhaseModel::AskedTxs(block) => h == m.height && scanner::scanned(
                    block,
                    reply->RawTxs_0,
                    m.height,
                ) is Err,
                RangePhaseModel::AskedNext => h == m.height + 1 && reply->BlockHash_0 is Err,
                _ => false,
            })
            &&& after.missed is None && after.height != m.height ==> match m.phase {
                RangePhaseModel::AskedTxs(block) => scanner::scanned(
                    block,
                    reply->RawTxs_0,
                    m.height,
                ) is Ok,
                phase => phase is AskedNext,
            }
            &&& after.missed is None && after.phase is AskedNext ==> (m.phase matches
                RangePhaseModel::AskedTxs(block) && scanner::scanned(
                block,
                reply->RawTxs_0,
                m.height,
            ) is Ok)
            &&& step is Done && after.missed is None ==> m.height >= m.end
        }),
{
}

/// The scan of a range that was not begun.
pub open spec fn fresh(start: u32, end: u32, chain_height: u32) -> RangeModel {
    RangeModel {
        start,
        end,
        chain_height,
        height: start,
        found: Seq::empty(),
        missed: None,
        phase: RangePhaseModel::Start,
    }
}

/// Scan a range of blocks by chaining via `nextblockhash`.
pub fn scan_range(start: u32, end: u32, chain_height: u32) -> (scan: RangeScan)
    ensures
        scan@ == fresh(start, end, chain_height),
        scan@.sound(),
{
    let scan = RangeScan {
        start,
        end,
        chain_height,
        height: start,
        found: Vec::new(),
        missed: None,
        phase: RangePhase::Start,
    };
    assert(stream::models(scan.found@) =~= Seq::empty());
    scan
}

impl RangeScan {
    /// The progress to report after a step, if any: how many blocks are done, and how
    /// many there are in all.
    pub fn progress(&self) -> (r: Option<(u64, u64)>)
        requires
            self@.sound(),
        ensures
            match (r, self@.progress()) {
                (Some((done, total)), Some((d, t))) => done == d && total == t,
                (None, None) => true,
                _ => false,
            },
    {
        let total: u64 = if self.start <= self.end {
            (self.end - self.start) as u64 + 1
        } else {
            1
        };
        match &self.phase {
            RangePhase::Fetch(_) => {
                if self.height <= self.end {
                    Some(((self.height - self.start) as u64, total))
                } else {
                    None
                }
            },
            RangePhase::Finished => Some((total, total)),
            _ => None,
        }
    }

    /// Note that the block at `h` could not be scanned.
    fn miss(&mut self, h: u32)
        ensures
            final(self)@ == old(self)@.missing(h),
    {
        if self.missed.is_none() {
            self.missed = Some(h);
        }
    }

    /// End the scan with what was found.
    fn finish(&mut self) -> (r: RangeStep)
        ensures
            (final(self)@, r@) == old(self)@.finish(),
    {
        let mut found: Vec<ShieldBlock> = Vec::new();
        std::mem::swap(&mut found, &mut self.found);
        self.phase = RangePhase::Finished;
        assert(stream::models(self.found@) =~= Seq::empty());
        RangeStep::Done(found)
    }

    /// Go on to the next block, whose hash is known.
    fn to_next(&mut self, hash: String) -> (r: RangeStep)
        requires
            old(self).height < u32::MAX,
        ensures
            final(self)@ == old(self)@.at_next(hash@),
            r@ == RangeStepModel::Continue,
    {
        self.height = self.height + 1;
        self.phase = RangePhase::Fetch(hash);
        RangeStep::Continue
    }

    /// Go on from `block`, which is done.
    fn advance(&mut self, block: &Json, cache: &BlockCache) -> (r: RangeStep)
        ensures
            (final(self)@, r@) == old(self)@.advanced(block@, cache@),
    {
        if self.height >= self.end {
            return self.finish();
        }
        if let Some(hash) = block.text_field("nextblockhash") {
            return self.to_next(hash.to_owned());
        }
        match cache.hash_for_height(self.height + 1) {
            Some(hash) => self.to_next(hash.to_owned()),
            None => {
                self.phase = RangePhase::AskedNext;
                RangeStep::Ask(Request::BlockHash(self.height + 1))
            },
        }
    }

    /// Take one step.
    pub fn step(&mut self, cache: &mut BlockCache, reply: Reply) -> (r: RangeStep)
        requires
            old(cache).wf(),
            old(self)@.sound(),
            old(self)@.expects(reply@),
        ensures
            final(cache).wf(),
            final(self)@.sound(),
            (final(self)@, final(cache)@, r@) == old(self)@.next(old(cache)@, reply@),
            (final(cache).hits, final(cache).misses) == (match old(self)@.phase {
                RangePhaseModel::Fetch(hash) if old(self)@.height <= old(self)@.end =>
                    block_cache::tallied(
                    *old(cache),
                    old(cache)@.answer(hash, 2, old(self)@.chain_height) is Some,
                ),
                _ => (old(cache).hits, old(cache).misses),
            }),
    {
        proof {
            law_range_scan_ascends(self@, cache@, reply@);
        }
        let ghost before = self@;
        let mut phase: RangePhase = RangePhase::Finished;
        std::mem::swap(&mut phase, &mut self.phase);
        match (phase, reply) {
            (RangePhase::Start, _) => {
                match cache.hash_for_height(self.start) {
                    Some(hash) => {
                        self.phase = RangePhase::Fetch(hash.to_owned());
                        RangeStep::Continue
                    },
                    None => {
                        self.phase = RangePhase::AskedFirst;
                        RangeStep::Ask(Request::BlockHash(self.start))
                    },
                }
            },
            (RangePhase::AskedFirst, Reply::BlockHash(Ok(hash))) => {
                self.phase = RangePhase::Fetch(hash);
                RangeStep::Continue
            },
            (RangePhase::AskedFirst, Reply::BlockHash(Err(e))) => {
                self.phase = RangePhase::Failed;
                RangeStep::Failed(hash_error(self.start, e.as_str()))
            },
            (RangePhase::Fetch(hash), _) => {
                if self.height > self.end {
                    return self.finish();
                }
                match cache.get(hash.as_str(), 2, self.chain_height) {
                    Some(block) => {
                        let ids = scanner::raw_txs_to_ask(&block);
                        self.phase = RangePhase::AskedTxs(block);
                        RangeStep::Ask(Request::RawTxs(ids))
                    },
                    None => {
                        self.phase = RangePhase::AskedBlock(hash.clone());
                        RangeStep::Ask(Request::Block(hash))
                    },
                }
            },
            (RangePhase::AskedBlock(hash), Reply::Block(Ok(block))) => {
                cache.keep(hash.as_str(), 2, &block);
                let ids = scanner::raw_txs_to_ask(&block);
                self.phase = RangePhase::AskedTxs(block);
                RangeStep::Ask(Request::RawTxs(ids))
            },
            (RangePhase::AskedBlock(_), Reply::Block(Err(_))) => {
                self.miss(self.height);
                if self.height == u32::MAX {
                    return self.finish();
                }
                self.phase = RangePhase::AskedSkip;
                RangeStep::Ask(Request::BlockHash(self.height + 1))
            },
            (RangePhase::AskedTxs(block), Reply::RawTxs(replies)) => {
                match scanner::scan_block_inner(&block, &replies, self.height) {
                    Ok(Some(shield)) => {
                        let ghost found = self.found@;
                        self.found.push(shield);
                        assert(stream::models(self.found@) =~= stream::models(found).push(shield@));
                    },
                    Ok(None) => {},
                    Err(_) => self.miss(self.height),
                }
                proof {
                    let result = scanner::scanned(block@, scanner::reply_models(replies@), before.height);
                    assert(self@ == before.with_result(result).at(RangePhaseModel::Finished));
                }
                self.advance(&block, cache)
            },
            (RangePhase::AskedNext, Reply::BlockHash(Ok(hash))) => self.to_next(hash),
            (RangePhase::AskedSkip, Reply::BlockHash(Ok(hash))) => self.to_next(hash),
            (RangePhase::AskedNext, _) => {
                self.miss(self.height + 1);
                self.finish()
            },
            (RangePhase::AskedSkip, _) => self.finish(),
            _ => RangeStep::Continue,
        }
    }
}

// ---------------------------------------------------------------------------
// What a whole range comes to
// ---------------------------------------------------------------------------

/// A node that answers every request: the hash at each height, the block with each
/// hash, and the raw transactions for each list of ids.
pub struct NodeModel {
    pub hash: spec_fn(u32) -> Seq<char>,
    pub block: spec_fn(Seq<char>) -> JsonModel,
    pub txs: spec_fn(Seq<Option<Seq<char>>>) -> Seq<Option<JsonModel>>,
}

impl NodeModel {
    /// The block at a height.
    pub open spec fn at(self, h: u32) -> JsonModel {
        (self.block)((self.hash)(h))
    }

    /// What the node replies to a request.
    pub open spec fn reply(self, request: RequestModel) -> ReplyModel {
        match request {
            RequestModel::BlockHash(h) => ReplyModel::BlockHash(Ok((self.hash)(h))),
            RequestModel::Block(hash) => ReplyModel::Block(Ok((self.block)(hash))),
            RequestModel::RawTxs(ids) => ReplyModel::RawTxs((self.txs)(ids)),
        }
    }

    /// The raw transactions that the node has for a block.
    pub open spec fn raw(self, block: JsonModel) -> Seq<Option<JsonModel>> {
        match txs_request(block) {
            RequestModel::RawTxs(ids) => (self.txs)(ids),
            _ => Seq::empty(),
        }
    }

    /// What the block at a height yields.
    pub open spec fn yields(self, h: u32) -> Result<Option<BlockModel>, ScanFault> {
        scanner::scanned(self.at(h), self.raw(self.at(h)), h)
    }

    /// The shield blocks from one height to another.
    pub open spec fn shield_blocks(self, from: int, to: u32) -> Seq<BlockModel>
        decreases to - from + 1,
    {
        if from > to || from < 0 {
            Seq::empty()
        } else {
            let rest = self.shield_blocks(from + 1, to);
            match self.yields(from as u32) {
                Ok(Some(block)) => seq![block] + rest,
                _ => rest,
            }
        }
    }

    /// The first height from one to another whose block cannot be scanned.
    pub open spec fn unreadable(self, from: int, to: u32) -> Option<u32>
        decreases to - from + 1,
    {
        if from > to || from < 0 {
            None
        } else if self.yields(from as u32) is Err {
            Some(from as u32)
        } else {
            self.unreadable(from + 1, to)
        }
    }

    /// Whether the blocks from one height to another are a chain: each gives its own
    /// height, and names no successor but the next one.
    pub open spec fn chained(self, from: u32, to: u32) -> bool {
        forall|h: u32|
            from <= h <= to ==> {
                &&& block_cache::height_of(#[trigger] self.at(h)) == h
                &&& h < to ==> (self.at(h).text_field("nextblockhash"@) matches Some(next) ==> next
                    == (self.hash)((h + 1) as u32))
            }
    }

    /// Whether a response in the cache is what the node has at a height, as far as a
    /// scan looks at it.
    pub open spec fn matched(self, entry: (u32, JsonModel), h: u32) -> bool {
        &&& entry.0 == h
        &&& scanner::block_items(entry.1) == scanner::block_items(self.at(h))
        &&& entry.1.number_field("time"@) == self.at(h).number_field("time"@)
        &&& entry.1.field("nextblockhash"@) is None
    }

    /// Whether all that the cache has from one height to another is what the node has.
    pub open spec fn agrees(self, cache: CacheModel, from: u32, to: u32) -> bool {
        &&& forall|h: u32|
            from <= h <= to && #[trigger] cache.hashes.contains_key(h) ==> cache.hashes[h] == (
            self.hash)(h)
        &&& forall|h: u32, v: u8|
            from <= h <= to && #[trigger] cache.entries.contains_key(((self.hash)(h), v))
                ==> self.matched(cache.entries[((self.hash)(h), v)], h)
    }
}

/// The result of a scan that waits for `reply`, after at most `steps` steps: what was
/// found and what was left out first.
pub open spec fn range_run(
    m: RangeModel,
    cache: CacheModel,
    reply: ReplyModel,
    node: NodeModel,
    steps: nat,
) -> Option<Result<(Seq<BlockModel>, Option<u32>), ScanFault>>
    decreases steps,
{
    if steps == 0 {
        None
    } else {
        let after = m.next(cache, reply);
        match after.2 {
            RangeStepModel::Done(blocks) => Some(Ok((blocks, after.0.missed))),
            RangeStepModel::Failed(fault) => Some(Err(fault)),
            RangeStepModel::Continue => range_run(
                after.0,
                after.1,
                ReplyModel::Nothing,
                node,
                (steps - 1) as nat,
            ),
            RangeStepModel::Ask(request) => range_run(
                after.0,
                after.1,
                node.reply(request),
                node,
                (steps - 1) as nat,
            ),
        }
    }
}

/// The fields that a scan reads are not those that the cache strips.
proof fn lemma_field_names()
    ensures
        "tx"@ != "confirmations"@,
        "tx"@ != "nextblockhash"@,
        "time"@ != "confirmations"@,
        "time"@ != "nextblockhash"@,
        "confirmations"@ != "nextblockhash"@,
{
    reveal_strlit("tx");
    reveal_strlit("time");
    reveal_strlit("confirmations");
    reveal_strlit("nextblockhash");
    assert("tx"@.len() != "confirmations"@.len());
    assert("tx"@.len() != "nextblockhash"@.len());
    assert("time"@.len() != "confirmations"@.len());
    assert("time"@.len() != "nextblockhash"@.len());
    assert("confirmations"@[0] != "nextblockhash"@[0]);
}

/// A cache that agrees with the node still does so with one more block of the node.
proof fn lemma_kept_agrees(node: NodeModel, cache: CacheModel, from: u32, to: u32, h: u32)
    requires
        node.chained(from, to),
        node.agrees(cache, from, to),
        from <= h <= to,
    ensures
        node.agrees(cache.kept((node.hash)(h), 2, node.at(h)), from, to),
{
    lemma_field_names();
    let after = cache.kept((node.hash)(h), 2, node.at(h));
    let new = ((node.hash)(h), 2u8);
    assert(block_cache::height_of(node.at(h)) == h);
    assert forall|g: u32, v: u8|
        from <= g <= to && #[trigger] after.entries.contains_key(
            ((node.hash)(g), v),
        ) implies node.matched(after.entries[((node.hash)(g), v)], g) by {
        let key = ((node.hash)(g), v);
        if key == new && !cache.entries.contains_key(new) {
            assert(node.at(g) == node.at(h));
            assert(block_cache::height_of(node.at(g)) == g);
            let stripped = node.at(h).without("confirmations"@).without("nextblockhash"@);
            if cache.capacity > 0 {
                assert(after.entries[key] == (h, stripped));
            }
        } else {
            assert(cache.entries.contains_key(key));
            assert(after.entries[key] == cache.entries[key]);
        }
    }
    assert forall|g: u32|
        from <= g <= to && #[trigger] after.hashes.contains_key(g) implies after.hashes[g] == (
    node.hash)(g) by {
        if g != h {
            assert(cache.hashes.contains_key(g));
        } else if cache.entries.contains_key(new) {
            assert(cache.hashes.contains_key(g));
        }
    }
}

/// What the cache answers for a block of the node: what a scan looks at is the same,
/// and the successor, if one is named, is the next block.
proof fn lemma_answer_agrees(
    node: NodeModel,
    cache: CacheModel,
    from: u32,
    to: u32,
    h: u32,
    chain_height: u32,
)
    requires
        node.agrees(cache, from, to),
        from <= h <= to,
    ensures
        cache.answer((node.hash)(h), 2, chain_height) matches Some(b) ==> {
            &&& txs_request(b) == txs_request(node.at(h))
            &&& scanner::scanned(b, node.raw(b), h) == node.yields(h)
            &&& h < to ==> (b.text_field("nextblockhash"@) matches Some(next) ==> next == (
            node.hash)((h + 1) as u32))
        },
{
    lemma_field_names();
    let hash = (node.hash)(h);
    if let Some(b) = cache.answer(hash, 2, chain_height) {
        let v: u8 = if cache.entries.contains_key((hash, 2u8)) {
            2
        } else {
            1
        };
        assert(cache.entries.contains_key((hash, v)));
        let entry = cache.entries[(hash, v)];
        assert(node.matched(entry, h));
        assert(b == cache.rehydrated(entry.0, entry.1, chain_height));
        assert(b.field("tx"@) == entry.1.field("tx"@));
        assert(b.field("time"@) == entry.1.field("time"@));
        assert(scanner::block_items(b) == scanner::block_items(node.at(h)));
        assert(b.number_field("time"@) == node.at(h).number_field("time"@));
    }
}

/// What is left out first by a scan that will leave out `later`.
spec fn left_out(m: RangeModel, later: Option<u32>) -> Option<u32> {
    if m.missed is Some {
        m.missed
    } else {
        later
    }
}

/// The scan from a block on that is begun: what was found, and then the shield blocks
/// from there to the end. Returns how many steps it takes.
#[verifier::spinoff_prover]
#[verifier::rlimit(30)]
proof fn lemma_range_from(m: RangeModel, cache: CacheModel, node: NodeModel) -> (steps: nat)
    requires
        m.start <= m.height <= m.end,
        m.phase == RangePhaseModel::Fetch((node.hash)(m.height)),
        node.chained(m.start, m.end),
        node.agrees(cache, m.start, m.end),
    ensures
        range_run(m, cache, ReplyModel::Nothing, node, steps) == Some(
            Ok::<(Seq<BlockModel>, Option<u32>), ScanFault>(
                (
                    m.found + node.shield_blocks(m.height as int, m.end),
                    left_out(m, node.unreadable(m.height as int, m.end)),
                ),
            ),
        ),
    decreases m.end - m.height,
{
    let h = m.height;
    let hash = (node.hash)(h);
    lemma_answer_agrees(node, cache, m.start, m.end, h, m.chain_height);
    // To the transactions of the block
    let first = m.next(cache, ReplyModel::Nothing);
    let (b, c2, m2) = match cache.answer(hash, 2, m.chain_height) {
        Some(b) => (b, cache, first.0),
        None => {
            lemma_kept_agrees(node, cache, m.start, m.end, h);
            let second = first.0.next(first.1, ReplyModel::Block(Ok(node.at(h))));
            (node.at(h), second.1, second.0)
        },
    };
    assert(block_cache::height_of(node.at(h)) == h);
    assert(m2 == m.at(RangePhaseModel::AskedTxs(b)));
    assert(node.agrees(c2, m.start, m.end));
    let raw = node.raw(b);
    let w = m2.with_result(scanner::scanned(b, raw, h));
    let third = m2.next(c2, ReplyModel::RawTxs(raw));
    let rest = node.shield_blocks(h + 1, m.end);
    assert(w.found + rest =~= m.found + node.shield_blocks(h as int, m.end));
    assert(left_out(w, node.unreadable(h + 1, m.end)) == left_out(
        m,
        node.unreadable(h as int, m.end),
    )) by {
        assert(scanner::scanned(b, raw, h) == node.yields(h));
    }
    // On to the next block, or to the end
    let left: nat = if h >= m.end {
        assert(third.2 == RangeStepModel::Done(w.found));
        assert(rest =~= Seq::empty());
        assert(third.0.missed == w.missed);
        assert(w.found + rest =~= w.found);
        1
    } else {
        let next = (node.hash)((h + 1) as u32);
        let m3 = w.at_next(next);
        let k = lemma_range_from(m3, c2, node);
        let reply = ReplyModel::RawTxs(raw);
        if third.2 is Ask {
            let asked = third.0;
            assert(asked.next(c2, ReplyModel::BlockHash(Ok(next))) == (
                m3,
                c2,
                RangeStepModel::Continue,
            ));
            assert(range_run(asked, c2, ReplyModel::BlockHash(Ok(next)), node, k + 1)
                == range_run(m3, c2, ReplyModel::Nothing, node, k));
            assert(range_run(m2, c2, reply, node, k + 2) == range_run(
                asked,
                c2,
                ReplyModel::BlockHash(Ok(next)),
                node,
                k + 1,
            ));
            k + 2
        } else {
            assert(third == (m3, c2, RangeStepModel::Continue));
            assert(range_run(m2, c2, reply, node, k + 1) == range_run(
                m3,
                c2,
                ReplyModel::Nothing,
                node,
                k,
            ));
            k + 1
        }
    };
    assert(range_run(m2, c2, ReplyModel::RawTxs(raw), node, left) == Some(
        Ok::<(Seq<BlockModel>, Option<u32>), ScanFault>(
            (
                m.found + node.shield_blocks(h as int, m.end),
                left_out(m, node.unreadable(h as int, m.end)),
            ),
        ),
    ));
    if cache.answer(hash, 2, m.chain_height) is Some {
        assert(first == (m2, c2, RangeStepModel::Ask(txs_request(b))));
        assert(range_run(m, cache, ReplyModel::Nothing, node, left + 1) == range_run(
            m2,
            c2,
            ReplyModel::RawTxs(raw),
            node,
            left,
        ));
        left + 1
    } else {
        let reply = ReplyModel::Block(Ok(node.at(h)));
        assert(first.0.next(first.1, reply) == (m2, c2, RangeStepModel::Ask(txs_request(b))));
        assert(range_run(first.0, first.1, reply, node, left + 1) == range_run(
            m2,
            c2,
            ReplyModel::RawTxs(raw),
            node,
            left,
        ));
        assert(range_run(m, cache, ReplyModel::Nothing, node, left + 2) == range_run(
            first.0,
            first.1,
            reply,
            node,
            left + 1,
        ));
        left + 2
    }
}

/// Which blocks the scan of a range returns, where the node answers every request,
/// its blocks are a chain, and what the cache has of them is what the node has: all
/// the shield blocks of the range, and no others. What it leaves out first is the
/// first block that cannot be scanned, and nothing where there is none.
pub proof fn law_range_scan_finds_all(
    start: u32,
    end: u32,
    chain_height: u32,
    cache: CacheModel,
    node: NodeModel,
)
    requires
        start <= end,
        node.chained(start, end),
        node.agrees(cache, start, end),
    ensures
        exists|steps: nat| #[trigger]
            range_run(fresh(start, end, chain_height), cache, ReplyModel::Nothing, node, steps)
                == Some(
                Ok::<(Seq<BlockModel>, Option<u32>), ScanFault>(
                    (node.shield_blocks(start as int, end), node.unreadable(start as int, end)),
                ),
            ),
{
    let m = fresh(start, end, chain_height);
    let hash = (node.hash)(start);
    let entered = m.at(RangePhaseModel::Fetch(hash));
    let k = lemma_range_from(entered, cache, node);
    let all = node.shield_blocks(start as int, end);
    assert(Seq::<BlockModel>::empty() + all =~= all);
    let first = m.next(cache, ReplyModel::Nothing);
    let steps: nat = if cache.hashes.contains_key(start) {
        assert(first == (entered, cache, RangeStepModel::Continue));
        k + 1
    } else {
        let reply = ReplyModel::BlockHash(Ok(hash));
        assert(first.0.next(cache, reply) == (entered, cache, RangeStepModel::Continue));
        assert(range_run(first.0, cache, reply, node, k + 1) == range_run(
            entered,
            cache,
            ReplyModel::Nothing,
            node,
            k,
        ));
        k + 2
    };
    assert(range_run(m, cache, ReplyModel::Nothing, node, steps) == Some(
        Ok::<(Seq<BlockModel>, Option<u32>), ScanFault>(
            (all, node.unreadable(start as int, end)),
        ),
    ));
}

/// A scan that has a result keeps it, however many more steps it may take.
proof fn lemma_run_is_stable(
    m: RangeModel,
    cache: CacheModel,
    reply: ReplyModel,
    node: NodeModel,
    steps: nat,
    more: nat,
)
    requires
        range_run(m, cache, reply, node, steps) is Some,
        steps <= more,
    ensures
        range_run(m, cache, reply, node, more) == range_run(m, cache, reply, node, steps),
    decreases steps,
{
    let after = m.next(cache, reply);
    match after.2 {
        RangeStepModel::Continue => lemma_run_is_stable(
            after.0,
            after.1,
            ReplyModel::Nothing,
            node,
            (steps - 1) as nat,
            (more - 1) as nat,
        ),
        RangeStepModel::Ask(request) => lemma_run_is_stable(
            after.0,
            after.1,
            node.reply(request),
            node,
            (steps - 1) as nat,
            (more - 1) as nat,
        ),
        _ => {},
    }
}

/// Whether the scan of a range comes to `result`: what it found, and what it left out
/// first.
pub open spec fn comes_to(
    start: u32,
    end: u32,
    cache: CacheModel,
    node: NodeModel,
    result: (Seq<BlockModel>, Option<u32>),
) -> bool {
    exists|steps: nat| #[trigger]
        range_run(fresh(start, end, end), cache, ReplyModel::Nothing, node, steps) == Some(
            Ok::<(Seq<BlockModel>, Option<u32>), ScanFault>(result),
        )
}

/// A scan comes to one result only, and that is all the shield blocks of the range.
pub proof fn lemma_comes_to_all(
    start: u32,
    end: u32,
    cache: CacheModel,
    node: NodeModel,
    result: (Seq<BlockModel>, Option<u32>),
)
    requires
        start <= end,
        node.chained(start, end),
        node.agrees(cache, start, end),
        comes_to(start, end, cache, node, result),
    ensures
        result == (node.shield_blocks(start as int, end), node.unreadable(start as int, end)),
{
    law_range_scan_finds_all(start, end, end, cache, node);
    let m = fresh(start, end, end);
    let all = (node.shield_blocks(start as int, end), node.unreadable(start as int, end));
    let a = choose|steps: nat| #[trigger]
        range_run(m, cache, ReplyModel::Nothing, node, steps) == Some(
            Ok::<(Seq<BlockModel>, Option<u32>), ScanFault>(result),
        );
    let b = choose|steps: nat| #[trigger]
        range_run(m, cache, ReplyModel::Nothing, node, steps) == Some(
            Ok::<(Seq<BlockModel>, Option<u32>), ScanFault>(all),
        );
    if a <= b {
        lemma_run_is_stable(m, cache, ReplyModel::Nothing, node, a, b);
    } else {
        lemma_run_is_stable(m, cache, ReplyModel::Nothing, node, b, a);
    }
}

/// The shield blocks of a range lie in it in ascending order, and every block that
/// yields something is among them.
pub proof fn lemma_shield_blocks(node: NodeModel, from: int, to: u32)
    requires
        0 <= from,
    ensures
        ascending_within(node.shield_blocks(from, to), from, to + 1),
        forall|h: u32|
            from <= h <= to ==> ((#[trigger] node.yields(h)) matches Ok(Some(block)) ==> block.height
                == h && node.shield_blocks(from, to).contains(block)),
    decreases to - from + 1,
{
    if from <= to {
        lemma_shield_blocks(node, from + 1, to);
        let rest = node.shield_blocks(from + 1, to);
        let all = node.shield_blocks(from, to);
        if let Ok(Some(block)) = node.yields(from as u32) {
            assert(block.height == from);
            assert(all == seq![block] + rest);
            assert forall|j: int, k: int| 0 <= j < k < all.len() implies (#[trigger] all[j]).height
                < (#[trigger] all[k]).height by {
                assert(all[k] == rest[k - 1]);
                if j > 0 {
                    assert(all[j] == rest[j - 1]);
                }
            }
            assert forall|k: int| 0 <= k < all.len() implies from <= (#[trigger] all[k]).height < to
                + 1 by {
                if k > 0 {
                    assert(all[k] == rest[k - 1]);
                }
            }
            assert(all[0] == block);
            assert forall|b: BlockModel| rest.contains(b) implies #[trigger] all.contains(b) by {
                let k = choose|k: int| 0 <= k < rest.len() && rest[k] == b;
                assert(all[k + 1] == b);
            }
        }
    }
}

// ---------------------------------------------------------------------------
// What a failing node and the cache come to
// ---------------------------------------------------------------------------

/// The transactions that are asked for are those that the block only names, each in the
/// place of its item; for an item with its own hex nothing is asked, and a block without
/// a list of transactions asks for none.
pub proof fn law_named_transactions_are_asked_for(block: JsonModel, items: Seq<JsonModel>)
    ensures
        block.field("tx"@) == Some(JsonModel::Array(items)) ==> (txs_request(block) matches
            RequestModel::RawTxs(ids) && ids.len() == items.len() && forall|k: int|
            0 <= k < items.len() ==> #[trigger] ids[k] == (match items[k] {
                JsonModel::Text(id) => Some(id),
                _ => None,
            })),
        block.field("tx"@) is None ==> txs_request(block) == RequestModel::RawTxs(Seq::empty()),
{
    if block.field("tx"@) == Some(JsonModel::Array(items)) {
        let ids = scanner::named_txs(items);
        assert forall|k: int| 0 <= k < items.len() implies #[trigger] ids[k] == (match items[k] {
            JsonModel::Text(id) => Some(id),
            _ => None,
        }) by {
            scanner::law_item_is_the_transaction_that_its_hex_spells(items[k], None, Seq::empty());
        }
    }
}

/// A block that the node fails on does not end the scan of a range: it is noted as left
/// out, unless an earlier one is, and the scan goes on at the next height with what it has
/// found so far. Where the hash of the next block cannot be had, the scan ends with what
/// it has found. Where the very first hash cannot be had, the scan fails, and says at
/// which height and why.
pub proof fn law_range_scan_survives_failures(
    m: RangeModel,
    cache: CacheModel,
    why: Seq<char>,
    hash: Seq<char>,
)
    requires
        m.height < u32::MAX,
    ensures
        ({
            let failed = ReplyModel::BlockHash(Err(why));
            let next_height = (m.height + 1) as u32;
            &&& m.phase is AskedBlock ==> {
                let skipping = m.next(cache, ReplyModel::Block(Err(why)));
                let on = skipping.0.next(cache, ReplyModel::BlockHash(Ok(hash)));
                let over = skipping.0.next(cache, failed);
                &&& skipping.1 == cache
                &&& skipping.2 == RangeStepModel::Ask(RequestModel::BlockHash(next_height))
                &&& on.0 == (RangeModel {
                    height: next_height,
                    phase: RangePhaseModel::Fetch(hash),
                    missed: if m.missed is Some {
                        m.missed
                    } else {
                        Some(m.height)
                    },
                    ..m
                })
                &&& on.1 == cache
                &&& over.2 == RangeStepModel::Done(m.found)
            }
            &&& m.phase is AskedNext ==> {
                let on = m.next(cache, ReplyModel::BlockHash(Ok(hash)));
                let over = m.next(cache, failed);
                &&& on.0 == (RangeModel {
                    height: next_height,
                    phase: RangePhaseModel::Fetch(hash),
                    ..m
                })
                &&& over.2 == RangeStepModel::Done(m.found)
                &&& over.0.missed == (if m.missed is Some {
                    m.missed
                } else {
                    Some(next_height)
                })
            }
            &&& m.phase is AskedFirst ==> m.next(cache, failed).2 == RangeStepModel::Failed(
                ScanFault::Rpc(
                    "getblockhash("@ + text::decimal_of(m.start as nat) + "): "@ + why,
                ),
            )
        }),
{
}

/// A block that is fetched is kept in the cache, with its transactions in full, under the
/// hash that it was fetched by; a scan changes nothing else in the cache. So it is for one
/// block and for a range.
pub proof fn law_fetched_block_is_kept(
    m: RangeModel,
    height: u32,
    phase: BlockPhaseModel,
    cache: CacheModel,
    reply: ReplyModel,
    hash: Seq<char>,
    block: JsonModel,
)
    requires
        cache.capacity > 0,
    ensures
        ({
            let fetched = ReplyModel::Block(Ok(block));
            let kept = cache.inserted(hash, 2, block);
            &&& m.phase == RangePhaseModel::AskedBlock(hash) ==> m.next(cache, fetched).1 == kept
            &&& block_next(
                height,
                m.chain_height,
                BlockPhaseModel::AskedBlock(hash),
                cache,
                fetched,
            ).1 == kept
            &&& kept.answer(hash, 2, m.chain_height) is Some
            &&& m.expects(reply) && !(m.phase is AskedBlock && reply->Block_0 is Ok) ==> m.next(
                cache,
                reply,
            ).1 == cache
            &&& block_expects(phase, reply) && !(phase is AskedBlock && reply->Block_0 is Ok)
                ==> block_next(height, m.chain_height, phase, cache, reply).1 == cache
        }),
{
}

/// A block that gives its own height has that one when it is scanned alone; one that
/// does not has the height that it was looked up by.
pub proof fn law_own_height_counts(block: JsonModel, height: u32, own: u32)
    ensures
        block.field("height"@) == Some(JsonModel::PosInt(own as u64)) ==> own_height(block, height)
            == own,
        block.field("height"@) is None || block.field("height"@)->0 !is PosInt ==> own_height(
            block,
            height,
        ) == height,
{
}

/// What is in the cache is not asked for: not the hash of a height that is known there,
/// nor a block of which it has a response with the transactions in full or only named.
pub proof fn law_scan_asks_only_for_what_is_not_cached(
    m: RangeModel,
    cache: CacheModel,
    height: u32,
    hash: Seq<char>,
)
    requires
        m.height <= m.end,
    ensures
        ({
            let began = block_next(
                height,
                m.chain_height,
                BlockPhaseModel::Start,
                cache,
                ReplyModel::Nothing,
            );
            let fetch = block_next(
                height,
                m.chain_height,
                BlockPhaseModel::Fetch(hash),
                cache,
                ReplyModel::Nothing,
            );
            let there = cache.entries.contains_key((hash, 2)) || cache.entries.contains_key(
                (hash, 1),
            );
            &&& began.2 == (if cache.hashes.contains_key(height) {
                BlockStepModel::Continue
            } else {
                BlockStepModel::Ask(RequestModel::BlockHash(height))
            })
            &&& fetch.2 == BlockStepModel::Ask(RequestModel::Block(hash)) <==> !there
            &&& m.phase is Start ==> m.next(cache, ReplyModel::Nothing).2 == (
            if cache.hashes.contains_key(m.start) {
                RangeStepModel::Continue
            } else {
                RangeStepModel::Ask(RequestModel::BlockHash(m.start))
            })
            &&& m.phase == RangePhaseModel::Fetch(hash) ==> (m.next(cache, ReplyModel::Nothing).2
                == RangeStepModel::Ask(RequestModel::Block(hash)) <==> !there)
        }),
{
}

/// A range is followed by the links of its blocks. The successor that a block names is
/// the next one, whatever the cache knows; where it names none, it is the one that the
/// cache knows at the next height; and only where neither is known, the node is asked.
/// Behind the last block of the range nothing is followed.
pub proof fn law_blocks_are_followed_by_their_links(
    m: RangeModel,
    cache: CacheModel,
    block: JsonModel,
    replies: Seq<Option<JsonModel>>,
    next: Seq<char>,
)
    requires
        m.phase == RangePhaseModel::AskedTxs(block),
    ensures
        ({
            let (after, _, step) = m.next(cache, ReplyModel::RawTxs(replies));
            let above = (m.height + 1) as u32;
            let known = cache.hashes.contains_key(above);
            let linked = block.field("nextblockhash"@);
            &&& m.height >= m.end ==> step is Done
            &&& m.height < m.end && linked == Some(JsonModel::Text(next)) ==> after.phase
                == RangePhaseModel::Fetch(next) && after.height == above && step
                == RangeStepModel::Continue
            &&& m.height < m.end && linked is None && known ==> after.phase
                == RangePhaseModel::Fetch(cache.hashes[above]) && after.height == above && step
                == RangeStepModel::Continue
            &&& m.height < m.end && linked is None && !known ==> after.phase
                == RangePhaseModel::AskedNext && after.height == m.height && step
                == RangeStepModel::Ask(RequestModel::BlockHash(above))
        }),
{
}

} // verus!
