//! Learning of new blocks: by ZMQ as long as that works, by polling otherwise.

use vstd::prelude::*;
use crate::api::{HashCache, HashCacheModel};
use crate::json::{Json, JsonModel};
use crate::scanner;

verus! {

// ---------------------------------------------------------------------------
// ZMQ
// ---------------------------------------------------------------------------

/// Seconds to wait before subscribing again after a subscription failed.
pub const RETRY_SECONDS: u64 = 30;

/// Seconds to wait before subscribing again after a subscription ended.
pub const RECONNECT_SECONDS: u64 = 5;

/// What happened at the subscription.
#[derive(Clone, Copy, PartialEq, Eq, Structural)]
pub enum ZmqEvent {
    /// Nothing yet.
    Start,
    /// The subscription was made.
    Subscribed,
    /// The subscription was refused.
    Refused,
    /// A message came that announces a block.
    HashBlock,
    /// Another message came.
    OtherMessage,
    /// Receiving failed.
    Broken,
    /// The subscription ended.
    Ended,
    /// The new blocks were indexed.
    Indexed,
    /// The wait is over.
    Waited,
}

/// What to do next.
#[derive(Clone, Copy, PartialEq, Eq, Structural)]
pub enum ZmqAction {
    /// Subscribe.
    Subscribe,
    /// Receive the next message.
    Receive,
    /// Index the new blocks.
    Index,
    /// Wait for some seconds.
    Wait(u64),
}

/// What a step calls for.
pub struct ZmqStep {
    /// Whether ZMQ is to count as working from now on, if that changes.
    pub active: Option<bool>,
    /// What to do next.
    pub action: ZmqAction,
}

/// What to do after an event at the subscription. While ZMQ works, polling rests;
/// a failure turns polling on again.
pub fn zmq_step(event: ZmqEvent) -> (step: ZmqStep)
    ensures
        step.active == (match event {
            ZmqEvent::Subscribed => Some(true),
            ZmqEvent::Refused => Some(false),
            ZmqEvent::Broken => Some(false),
            _ => None,
        }),
        step.action == (match event {
            ZmqEvent::Start => ZmqAction::Subscribe,
            ZmqEvent::Subscribed => ZmqAction::Receive,
            ZmqEvent::Refused => ZmqAction::Wait(RETRY_SECONDS),
            ZmqEvent::HashBlock => ZmqAction::Index,
            ZmqEvent::OtherMessage => ZmqAction::Receive,
            ZmqEvent::Broken => ZmqAction::Wait(RECONNECT_SECONDS),
            ZmqEvent::Ended => ZmqAction::Wait(RECONNECT_SECONDS),
            ZmqEvent::Indexed => ZmqAction::Receive,
            ZmqEvent::Waited => ZmqAction::Subscribe,
        }),
{
    match event {
        ZmqEvent::Start => ZmqStep { active: None, action: ZmqAction::Subscribe },
        ZmqEvent::Subscribed => ZmqStep { active: Some(true), action: ZmqAction::Receive },
        ZmqEvent::Refused => ZmqStep {
            active: Some(false),
            action: ZmqAction::Wait(RETRY_SECONDS),
        },
        ZmqEvent::HashBlock => ZmqStep { active: None, action: ZmqAction::Index },
        ZmqEvent::OtherMessage => ZmqStep { active: None, action: ZmqAction::Receive },
        ZmqEvent::Broken => ZmqStep {
            active: Some(false),
            action: ZmqAction::Wait(RECONNECT_SECONDS),
        },
        ZmqEvent::Ended => ZmqStep { active: None, action: ZmqAction::Wait(RECONNECT_SECONDS) },
        ZmqEvent::Indexed => ZmqStep { active: None, action: ZmqAction::Receive },
        ZmqEvent::Waited => ZmqStep { active: None, action: ZmqAction::Subscribe },
    }
}

// ---------------------------------------------------------------------------
// Polling
// ---------------------------------------------------------------------------

/// Seconds between two polls.
pub const POLL_SECONDS: u64 = 10;

/// Whether to poll now: only where ZMQ does not work.
pub fn should_poll(zmq_active: bool) -> (r: bool)
    ensures
        r == !zmq_active,
{
    !zmq_active
}

/// How far a poll has come.
pub enum PollPhase {
    /// Nothing was done.
    Start,
    /// The hash of the last scanned block was asked for.
    AskedHash,
    /// The last scanned block, which has this hash, was asked for.
    AskedBlock(String),
    /// The height of the chain was asked for; the last scanned block and its
    /// successor have these hashes.
    AskedCount(String, String),
    /// All is done.
    Finished,
}

/// A poll for new blocks.
pub struct Poll {
    /// Height of the last scanned block.
    pub last_scanned: u32,
    /// How far the poll has come.
    pub phase: PollPhase,
}

/// What the node replied; nothing where it failed.
pub enum PollEvent {
    /// Nothing was asked.
    Nothing,
    /// A hash.
    Hash(Option<String>),
    /// A block.
    Block(Option<Json>),
    /// The height of the chain.
    Count(Option<u64>),
}

/// What to do next.
pub enum PollAction {
    /// Ask the node for the hash of the block at a height.
    AskHash(u32),
    /// Ask the node for the block with a hash, its transactions only named.
    AskBlock(String),
    /// Ask the node for the height of the chain.
    AskCount,
    /// Index the new blocks.
    Index,
    /// Nothing more.
    Done,
}

/// What a `PollPhase` says.
#[verifier::ext_equal]
pub enum PollPhaseModel {
    Start,
    AskedHash,
    AskedBlock(Seq<char>),
    AskedCount(Seq<char>, Seq<char>),
    Finished,
}

/// What a `PollEvent` says.
#[verifier::ext_equal]
pub enum PollEventModel {
    Nothing,
    Hash(Option<Seq<char>>),
    Block(Option<JsonModel>),
    Count(Option<u64>),
}

/// What a `PollAction` says.
#[verifier::ext_equal]
pub enum PollActionModel {
    AskHash(u32),
    AskBlock(Seq<char>),
    AskCount,
    Index,
    Done,
}

impl View for PollPhase {
    type V = PollPhaseModel;

    open spec fn view(&self) -> PollPhaseModel {
        match self {
            PollPhase::Start => PollPhaseModel::Start,
            PollPhase::AskedHash => PollPhaseModel::AskedHash,
            PollPhase::AskedBlock(hash) => PollPhaseModel::AskedBlock(hash@),
            PollPhase::AskedCount(hash, next) => PollPhaseModel::AskedCount(hash@, next@),
            PollPhase::Finished => PollPhaseModel::Finished,
        }
    }
}

impl View for PollEvent {
    type V = PollEventModel;

    open spec fn view(&self) -> PollEventModel {
        match self {
            PollEvent::Nothing => PollEventModel::Nothing,
            PollEvent::Hash(hash) => PollEventModel::Hash(scanner::text_of(*hash)),
            PollEvent::Block(Some(json)) => PollEventModel::Block(Some(json@)),
            PollEvent::Block(None) => PollEventModel::Block(None),
            PollEvent::Count(count) => PollEventModel::Count(*count),
        }
    }
}

impl View for PollAction {
    type V = PollActionModel;

    open spec fn view(&self) -> PollActionModel {
        match self {
            PollAction::AskHash(height) => PollActionModel::AskHash(*height),
            PollAction::AskBlock(hash) => PollActionModel::AskBlock(hash@),
            PollAction::AskCount => PollActionModel::AskCount,
            PollAction::Index => PollActionModel::Index,
            PollAction::Done => PollActionModel::Done,
        }
    }
}

/// Whether `event` is what a poll waits for.
pub open spec fn poll_expects(phase: PollPhaseModel, event: PollEventModel) -> bool {
    match phase {
        PollPhaseModel::Start => event is Nothing,
        PollPhaseModel::AskedHash => event is Hash,
        PollPhaseModel::AskedBlock(_) => event is Block,
        PollPhaseModel::AskedCount(_, _) => event is Count,
        PollPhaseModel::Finished => false,
    }
}

/// One step of a poll: the next phase, the hash cache, and what to do.
///
/// There is something to index where the last scanned block has a successor and the
/// chain is higher than it. The hashes of the two are then cached. Any failure of
/// the node ends the poll.
pub open spec fn poll_next(
    last_scanned: u32,
    phase: PollPhaseModel,
    hashes: HashCacheModel,
    event: PollEventModel,
) -> (PollPhaseModel, HashCacheModel, PollActionModel) {
    match (phase, event) {
        (PollPhaseModel::Start, _) => (
            PollPhaseModel::AskedHash,
            hashes,
            PollActionModel::AskHash(last_scanned),
        ),
        (PollPhaseModel::AskedHash, PollEventModel::Hash(Some(hash))) => (
            PollPhaseModel::AskedBlock(hash),
            hashes,
            PollActionModel::AskBlock(hash),
        ),
        (PollPhaseModel::AskedBlock(hash), PollEventModel::Block(Some(block))) => {
            match block.text_field("nextblockhash"@) {
                Some(next) => (
                    PollPhaseModel::AskedCount(hash, next),
                    hashes,
                    PollActionModel::AskCount,
                ),
                None => (PollPhaseModel::Finished, hashes, PollActionModel::Done),
            }
        },
        (PollPhaseModel::AskedCount(hash, next), PollEventModel::Count(Some(count))) => {
            if last_scanned >= count as u32 {
                (PollPhaseModel::Finished, hashes, PollActionModel::Done)
            } else {
                (
                    PollPhaseModel::Finished,
                    hashes.inserted(last_scanned, hash).inserted((last_scanned + 1) as u32, next),
                    PollActionModel::Index,
                )
            }
        },
        _ => (PollPhaseModel::Finished, hashes, PollActionModel::Done),
    }
}

/// Begin to poll for blocks above `last_scanned`.
pub fn poll_new_blocks(last_scanned: u32) -> (poll: Poll)
    ensures
        poll.last_scanned == last_scanned,
        poll.phase@ == PollPhaseModel::Start,
{
    Poll { last_scanned, phase: PollPhase::Start }
}

impl Poll {
    /// Take one step.
    pub fn step(&mut self, hashes: &mut HashCache, event: PollEvent) -> (action: PollAction)
        requires
            old(hashes).wf(),
            poll_expects(old(self).phase@, event@),
        ensures
            final(hashes).wf(),
            final(self).last_scanned == old(self).last_scanned,
            (final(self).phase@, final(hashes)@, action@) == poll_next(
                old(self).last_scanned,
                old(self).phase@,
                old(hashes)@,
                event@,
            ),
    {
        let mut phase: PollPhase = PollPhase::Finished;
        std::mem::swap(&mut phase, &mut self.phase);
        match (phase, event) {
            (PollPhase::Start, _) => {
                self.phase = PollPhase::AskedHash;
                PollAction::AskHash(self.last_scanned)
            },
            (PollPhase::AskedHash, PollEvent::Hash(Some(hash))) => {
                self.phase = PollPhase::AskedBlock(hash.clone());
                PollAction::AskBlock(hash)
            },
            (PollPhase::AskedBlock(hash), PollEvent::Block(Some(block))) => {
                match block.text_field("nextblockhash") {
                    Some(next) => {
                        self.phase = PollPhase::AskedCount(hash, next.to_owned());
                        PollAction::AskCount
                    },
                    None => PollAction::Done,
                }
            },
            (PollPhase::AskedCount(hash, next), PollEvent::Count(Some(count))) => {
                let chain_height: u32 = count as u32;
                if self.last_scanned >= chain_height {
                    return PollAction::Done;
                }
                hashes.insert(self.last_scanned, hash);
                hashes.insert(self.last_scanned + 1, next);
                PollAction::Index
            },
            _ => PollAction::Done,
        }
    }
}

// ---------------------------------------------------------------------------
// What a whole poll comes to
// ---------------------------------------------------------------------------

/// A node that a poll asks: the hash at each height, the block with each hash, and
/// the height of the chain; nothing where it fails.
pub struct PolledNode {
    pub hash: spec_fn(u32) -> Option<Seq<char>>,
    pub block: spec_fn(Seq<char>) -> Option<JsonModel>,
    pub count: Option<u64>,
}

impl PolledNode {
    /// What the node replies to a request.
    pub open spec fn reply(self, action: PollActionModel) -> PollEventModel {
        match action {
            PollActionModel::AskHash(h) => PollEventModel::Hash((self.hash)(h)),
            PollActionModel::AskBlock(hash) => PollEventModel::Block((self.block)(hash)),
            PollActionModel::AskCount => PollEventModel::Count(self.count),
            _ => PollEventModel::Nothing,
        }
    }

    /// The hash of the block at `h`, and that of its successor, if the node names
    /// both.
    pub open spec fn links(self, h: u32, hash: Seq<char>, next: Seq<char>) -> bool {
        &&& (self.hash)(h) == Some(hash)
        &&& (self.block)(hash) matches Some(JsonModel::Object(fields))
        &&& fields.contains_key("nextblockhash"@)
        &&& fields["nextblockhash"@] == JsonModel::Text(next)
    }
}

/// How a poll ends that gets `event`, within `steps` more steps: the hash cache, and
/// whether there is something to index.
pub open spec fn poll_run(
    last_scanned: u32,
    phase: PollPhaseModel,
    hashes: HashCacheModel,
    event: PollEventModel,
    node: PolledNode,
    steps: nat,
) -> Option<(HashCacheModel, bool)>
    decreases steps,
{
    let after = poll_next(last_scanned, phase, hashes, event);
    match after.2 {
        PollActionModel::Index => Some((after.1, true)),
        PollActionModel::Done => Some((after.1, false)),
        action => if steps == 0 {
            None
        } else {
            poll_run(
                last_scanned,
                after.0,
                after.1,
                node.reply(action),
                node,
                (steps - 1) as nat,
            )
        },
    }
}

/// A poll ends with something to index exactly where the last scanned block has a
/// successor and the chain is higher than that block, however much higher. Both
/// hashes are then in the cache, unless it had others for these heights, and a cache
/// with room keeps all else that it had. A poll that ends without leaves the cache as
/// it is.
pub proof fn law_poll_finds_whatever_is_new(
    last_scanned: u32,
    hashes: HashCacheModel,
    node: PolledNode,
)
    ensures
        poll_run(
            last_scanned,
            PollPhaseModel::Start,
            hashes,
            PollEventModel::Nothing,
            node,
            3,
        ) matches Some((after, index)) && {
            &&& index <==> (exists|hash: Seq<char>, next: Seq<char>| #[trigger]
                node.links(last_scanned, hash, next)) && (node.count matches Some(count)
                && last_scanned < count as u32)
            &&& !index ==> after == hashes
            &&& index ==> forall|hash: Seq<char>, next: Seq<char>| #[trigger]
                node.links(last_scanned, hash, next) ==> {
                    let above = (last_scanned + 1) as u32;
                    &&& hashes.order.len() + 2 <= hashes.capacity ==> after.hashes == map![
                        last_scanned => hash,
                        above => next,
                    ].union_prefer_right(hashes.hashes)
                    &&& after.hashes.contains_key(above)
                    &&& !hashes.hashes.contains_key(above) ==> after.hashes[above] == next
                }
        },
{
    reveal_with_fuel(poll_run, 4);
    let (after, _) = poll_run(
        last_scanned,
        PollPhaseModel::Start,
        hashes,
        PollEventModel::Nothing,
        node,
        3,
    ).unwrap();
    assert forall|hash: Seq<char>, next: Seq<char>| #[trigger]
        node.links(last_scanned, hash, next) && hashes.order.len() + 2 <= hashes.capacity && (
        node.count matches Some(count) && last_scanned < count as u32) implies after.hashes == map![
        last_scanned => hash,
        (last_scanned + 1) as u32 => next,
    ].union_prefer_right(hashes.hashes) by {
        assert(after.hashes =~= map![
            last_scanned => hash,
            (last_scanned + 1) as u32 => next,
        ].union_prefer_right(hashes.hashes));
    }
    if let Some(hash) = (node.hash)(last_scanned) {
        if let Some(block) = (node.block)(hash) {
            if let Some(next) = block.text_field("nextblockhash"@) {
                assert(node.links(last_scanned, hash, next));
            }
        }
    }
}

} // verus!
