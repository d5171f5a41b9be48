//! The indexing pass: what is done when a new block may be there.
//!
//! A pass is a sequence of steps. Each takes what came of the last request and
//! says what to save and what to do next. It checks for a chain reorganisation,
//! rewinds the store where there was one, and then takes in one block after the
//! other.

use vstd::prelude::*;
use crate::api::StreamFormat;
use crate::block_cache::{BlockCache, CacheModel};
use crate::fork;
use crate::fork::ForkSearch;
use crate::index;
use crate::index::{IndexEntry, ScanCursor, ShieldIndex};
use crate::json::{Json, JsonModel};
use crate::scanner;
use crate::scanner::{BlockModel, ScanError, ScanFault, ShieldBlock};
use crate::store;
use crate::stream;

verus! {

// ---------------------------------------------------------------------------
// The store that is served
// ---------------------------------------------------------------------------

/// Everything that is served and everything that indexing keeps.
pub struct ShieldStore {
    /// The index into the stream.
    pub index: ShieldIndex,
    /// The whole compatible stream, held in memory.
    pub buffer: Vec<u8>,
    /// How far the chain was scanned.
    pub cursor: ScanCursor,
    /// Height of the chain, as last reported.
    pub chain_height: u32,
}

/// What a `ShieldStore` holds.
#[verifier::ext_equal]
pub struct StoreModel {
    pub entries: Seq<IndexEntry>,
    pub buffer: Seq<u8>,
    pub height: u32,
    pub hash: Seq<char>,
    pub chain_height: u32,
}

impl View for ShieldStore {
    type V = StoreModel;

    open spec fn view(&self) -> StoreModel {
        StoreModel {
            entries: self.index.entries@,
            buffer: self.buffer@,
            height: self.cursor.last_scanned_height,
            hash: self.cursor.last_scanned_hash@,
            chain_height: self.chain_height,
        }
    }
}

impl StoreModel {
    /// The store after the blocks from `fork` on were cut off at `offset`.
    pub open spec fn rewound(self, fork: u32, offset: u64) -> StoreModel {
        StoreModel {
            entries: index::entries_below(self.entries, fork),
            buffer: if (offset as usize) < self.buffer.len() {
                self.buffer.take((offset as usize) as int)
            } else {
                self.buffer
            },
            height: before_fork(fork),
            hash: Seq::empty(),
            chain_height: self.chain_height,
        }
    }

    /// The store after `block` was appended, at `offset` in the file.
    pub open spec fn appended(self, block: BlockModel, offset: u64) -> StoreModel {
        StoreModel {
            entries: self.entries.push(IndexEntry { block: block.height, i: offset }),
            buffer: self.buffer + stream::block_bytes(block, StreamFormat::PivxCompat),
            ..self
        }
    }
}

/// The last height that a fork leaves.
pub open spec fn before_fork(fork: u32) -> u32 {
    if fork > 0 {
        (fork - 1) as u32
    } else {
        0
    }
}

impl ShieldStore {
    /// The list of heights agrees with the entries.
    pub open spec fn wf(&self) -> bool {
        self.index.wf()
    }

    /// Cut off the blocks from `fork` on, which start at `offset`.
    pub fn rewind(&mut self, fork: u32, offset: u64)
        requires
            old(self).wf(),
        ensures
            final(self).wf(),
            final(self)@ == old(self)@.rewound(fork, offset),
    {
        self.buffer.truncate(offset as usize);
        self.index.remove_from(fork);
        self.cursor = ScanCursor {
            last_scanned_height: fork.saturating_sub(1),
            last_scanned_hash: String::new(),
        };
    }

    /// Append `block`, which the file holds at `offset`.
    pub fn append(&mut self, block: &ShieldBlock, offset: u64)
        requires
            old(self).wf(),
            !index::heights(old(self).index.entries@).contains(block.height),
        ensures
            final(self).wf(),
            final(self)@ == old(self)@.appended(block@, offset),
    {
        stream::encode_pivx_compat(&mut self.buffer, block);
        self.index.add(block.height, offset);
    }
}

// ---------------------------------------------------------------------------
// The pass
// ---------------------------------------------------------------------------

/// How far a pass has come.
pub enum PassPhase {
    /// Nothing was done.
    Start,
    /// The height of the chain was asked for.
    AskedCount,
    /// The hash of the next block was asked for.
    AskedTip,
    /// The next block was asked for.
    AskedParent,
    /// A fork is being searched; a hash was asked for.
    Forking(ForkSearch),
    /// The file is being cut off for the fork, at the offset.
    Truncating(u32, u64),
    /// The block at the height is being scanned.
    Scanning(u32),
    /// The block at the height is being written.
    Writing(u32, ShieldBlock),
    /// The block at the height is in the index; its hash was asked for.
    AskedAdvance(u32),
    /// All blocks are done; the hash of the last one was asked for.
    AskedFinal,
    /// All is done.
    Finished,
}

/// An indexing pass.
pub struct IndexPass {
    /// How far the pass has come.
    pub phase: PassPhase,
    /// Whether the cursor moved since it was last saved.
    pub needs_persist: bool,
}

/// What came of the last request.
pub enum PassEvent {
    /// Nothing was requested.
    Nothing,
    /// The height of the chain, unless the node failed.
    Count(Option<u64>),
    /// A hash, unless the node failed.
    Hash(Option<String>),
    /// A block, unless the node failed.
    Block(Option<Json>),
    /// Whether the file was cut off.
    Truncated(bool),
    /// What a scan found.
    Scanned(Result<Option<ShieldBlock>, ScanError>),
    /// Where the block stands in the file, unless writing failed.
    Written(Option<u64>),
}

/// What to do next.
pub enum PassAction {
    /// Ask the node for the height of the chain.
    AskCount,
    /// Ask the node for the hash of the block at a height.
    AskHash(u32),
    /// Ask the node for the block with a hash, its transactions only named.
    AskBlock(String),
    /// Cut the file off at an offset.
    Truncate(u64),
    /// Scan the block at a height.
    Scan(u32),
    /// Append bytes to the file.
    Write(Vec<u8>),
    /// Nothing more.
    Done,
}

/// What a step calls for: first what to save, then what to do next.
pub struct PassStep {
    /// Whether the index is to be saved.
    pub save_index: bool,
    /// The cursor to be saved, if any.
    pub save_cursor: Option<ScanCursor>,
    /// What to do next.
    pub action: PassAction,
}

/// What a `PassPhase` says.
#[verifier::ext_equal]
pub enum PassPhaseModel {
    Start,
    AskedCount,
    AskedTip,
    AskedParent,
    Forking(ForkSearch),
    Truncating(u32, u64),
    Scanning(u32),
    Writing(u32, BlockModel),
    AskedAdvance(u32),
    AskedFinal,
    Finished,
}

/// What an `IndexPass` is at.
#[verifier::ext_equal]
pub struct PassModel {
    pub phase: PassPhaseModel,
    pub needs_persist: bool,
}

/// What a `PassEvent` says.
#[verifier::ext_equal]
pub enum PassEventModel {
    Nothing,
    Count(Option<u64>),
    Hash(Option<Seq<char>>),
    Block(Option<JsonModel>),
    Truncated(bool),
    Scanned(Result<Option<BlockModel>, ScanFault>),
    Written(Option<u64>),
}

/// What a `PassAction` says.
#[verifier::ext_equal]
pub enum PassActionModel {
    AskCount,
    AskHash(u32),
    AskBlock(Seq<char>),
    Truncate(u64),
    Scan(u32),
    Write(Seq<u8>),
    Done,
}

/// What a `PassStep` says.
#[verifier::ext_equal]
pub struct PassStepModel {
    pub save_index: bool,
    pub save_cursor: Option<(u32, Seq<char>)>,
    pub action: PassActionModel,
}

/// All there is after a step.
#[verifier::ext_equal]
pub struct AfterPass {
    pub pass: PassModel,
    pub store: StoreModel,
    pub cache: CacheModel,
    pub step: PassStepModel,
}

impl View for PassPhase {
    type V = PassPhaseModel;

    open spec fn view(&self) -> PassPhaseModel {
        match self {
            PassPhase::Start => PassPhaseModel::Start,
            PassPhase::AskedCount => PassPhaseModel::AskedCount,
            PassPhase::AskedTip => PassPhaseModel::AskedTip,
            PassPhase::AskedParent => PassPhaseModel::AskedParent,
            PassPhase::Forking(search) => PassPhaseModel::Forking(*search),
            PassPhase::Truncating(fork, offset) => PassPhaseModel::Truncating(*fork, *offset),
            PassPhase::Scanning(target) => PassPhaseModel::Scanning(*target),
            PassPhase::Writing(target, block) => PassPhaseModel::Writing(*target, block@),
            PassPhase::AskedAdvance(target) => PassPhaseModel::AskedAdvance(*target),
            PassPhase::AskedFinal => PassPhaseModel::AskedFinal,
            PassPhase::Finished => PassPhaseModel::Finished,
        }
    }
}

impl View for IndexPass {
    type V = PassModel;

    open spec fn view(&self) -> PassModel {
        PassModel { phase: self.phase@, needs_persist: self.needs_persist }
    }
}

impl View for PassEvent {
    type V = PassEventModel;

    open spec fn view(&self) -> PassEventModel {
        match self {
            PassEvent::Nothing => PassEventModel::Nothing,
            PassEvent::Count(count) => PassEventModel::Count(*count),
            PassEvent::Hash(hash) => PassEventModel::Hash(scanner::text_of(*hash)),
            PassEvent::Block(Some(json)) => PassEventModel::Block(Some(json@)),
            PassEvent::Block(None) => PassEventModel::Block(None),
            PassEvent::Truncated(done) => PassEventModel::Truncated(*done),
            PassEvent::Scanned(result) => PassEventModel::Scanned(scanner::result_model(*result)),
            PassEvent::Written(offset) => PassEventModel::Written(*offset),
        }
    }
}

impl View for PassAction {
    type V = PassActionModel;

    open spec fn view(&self) -> PassActionModel {
        match self {
            PassAction::AskCount => PassActionModel::AskCount,
            PassAction::AskHash(height) => PassActionModel::AskHash(*height),
            PassAction::AskBlock(hash) => PassActionModel::AskBlock(hash@),
            PassAction::Truncate(offset) => PassActionModel::Truncate(*offset),
            PassAction::Scan(height) => PassActionModel::Scan(*height),
            PassAction::Write(bytes) => PassActionModel::Write(bytes@),
            PassAction::Done => PassActionModel::Done,
        }
    }
}

impl View for PassStep {
    type V = PassStepModel;

    open spec fn view(&self) -> PassStepModel {
        PassStepModel {
            save_index: self.save_index,
            save_cursor: match self.save_cursor {
                Some(cursor) => Some((cursor.last_scanned_height, cursor.last_scanned_hash@)),
                None => None,
            },
            action: self.action@,
        }
    }
}

// ---------------------------------------------------------------------------
// What a step does
// ---------------------------------------------------------------------------

/// A step with nothing to save.
pub open spec fn only(action: PassActionModel) -> PassStepModel {
    PassStepModel { save_index: false, save_cursor: None, action }
}

impl PassModel {
    /// The pass in another phase.
    pub open spec fn at(self, phase: PassPhaseModel) -> PassModel {
        PassModel { phase, ..self }
    }

    /// Whether `event` is what the pass waits for.
    pub open spec fn expects(self, event: PassEventModel) -> bool {
        match self.phase {
            PassPhaseModel::Start => event is Nothing,
            PassPhaseModel::AskedCount => event is Count,
            PassPhaseModel::AskedTip => event is Hash,
            PassPhaseModel::AskedParent => event is Block,
            PassPhaseModel::Forking(_) => event is Hash,
            PassPhaseModel::Truncating(_, _) => event is Truncated,
            PassPhaseModel::Scanning(_) => event is Scanned,
            PassPhaseModel::Writing(_, _) => event is Written,
            PassPhaseModel::AskedAdvance(_) => event is Hash,
            PassPhaseModel::AskedFinal => event is Hash,
            PassPhaseModel::Finished => false,
        }
    }

    /// The end of the pass. A cursor that moved is saved first, with the hash of
    /// the block it stands on.
    pub open spec fn finish(self, store: StoreModel, cache: CacheModel) -> AfterPass {
        if self.needs_persist {
            AfterPass {
                pass: self.at(PassPhaseModel::AskedFinal),
                store,
                cache,
                step: only(PassActionModel::AskHash(store.height)),
            }
        } else {
            AfterPass {
                pass: self.at(PassPhaseModel::Finished),
                store,
                cache,
                step: only(PassActionModel::Done),
            }
        }
    }

    /// On to the block right above the cursor, if the chain has one.
    pub open spec fn proceed(self, store: StoreModel, cache: CacheModel) -> AfterPass {
        if store.height >= store.chain_height {
            self.finish(store, cache)
        } else {
            let target = (store.height + 1) as u32;
            AfterPass {
                pass: self.at(PassPhaseModel::Scanning(target)),
                store,
                cache,
                step: only(PassActionModel::Scan(target)),
            }
        }
    }

    /// The fork is known: the cache forgets the blocks from there on. Where the
    /// index has any of them, the file is to be cut off; otherwise the cursor alone
    /// moves back.
    pub open spec fn forked(self, fork: u32, store: StoreModel, cache: CacheModel) -> AfterPass {
        let forgetful = cache.invalidated(fork);
        match index::offset_from(store.entries, fork) {
            Some(offset) => AfterPass {
                pass: self.at(PassPhaseModel::Truncating(fork, offset)),
                store,
                cache: forgetful,
                step: only(PassActionModel::Truncate(offset)),
            },
            None => self.proceed(StoreModel { height: before_fork(fork), ..store }, forgetful),
        }
    }

    /// The search for the fork goes on: the next height is asked for, unless the
    /// search has come to its limit.
    pub open spec fn searched(
        self,
        search: ForkSearch,
        store: StoreModel,
        cache: CacheModel,
    ) -> AfterPass {
        if search.at > search.limit {
            AfterPass {
                pass: self.at(PassPhaseModel::Forking(search)),
                store,
                cache,
                step: only(PassActionModel::AskHash(search.at)),
            }
        } else {
            self.forked((search.limit + 1) as u32, store, cache)
        }
    }

    /// One step of a pass.
    ///
    /// The cursor moves up only by one, and only when the block right above it was
    /// scanned and, where it holds shield data, is in the index. Whatever fails,
    /// the next pass tries the same block again.
    pub open spec fn next(
        self,
        store: StoreModel,
        cache: CacheModel,
        event: PassEventModel,
    ) -> AfterPass {
        match (self.phase, event) {
            (PassPhaseModel::Start, _) => AfterPass {
                pass: self.at(PassPhaseModel::AskedCount),
                store,
                cache,
                step: only(PassActionModel::AskCount),
            },
            (PassPhaseModel::AskedCount, PassEventModel::Count(Some(count))) => {
                let informed = StoreModel { chain_height: count as u32, ..store };
                if store.height >= informed.chain_height {
                    AfterPass {
                        pass: self.at(PassPhaseModel::Finished),
                        store: informed,
                        cache,
                        step: only(PassActionModel::Done),
                    }
                } else {
                    AfterPass {
                        pass: self.at(PassPhaseModel::AskedTip),
                        store: informed,
                        cache,
                        step: only(PassActionModel::AskHash((store.height + 1) as u32)),
                    }
                }
            },
            (PassPhaseModel::AskedTip, PassEventModel::Hash(Some(hash))) => AfterPass {
                pass: self.at(PassPhaseModel::AskedParent),
                store,
                cache,
                step: only(PassActionModel::AskBlock(hash)),
            },
            (PassPhaseModel::AskedTip, _) => self.proceed(store, cache),
            (PassPhaseModel::AskedParent, PassEventModel::Block(Some(block))) => {
                match block.text_field("previousblockhash"@) {
                    Some(parent) => if cache.hashes.contains_key(store.height)
                        && cache.hashes[store.height] != parent {
                        self.searched(fork::first_search((store.height + 1) as u32), store, cache)
                    } else {
                        self.proceed(store, cache)
                    },
                    None => self.proceed(store, cache),
                }
            },
            (PassPhaseModel::AskedParent, _) => self.proceed(store, cache),
            (PassPhaseModel::Forking(search), PassEventModel::Hash(hash)) => {
                let found = match hash {
                    None => true,
                    Some(h) => cache.hashes.contains_key(search.at) && cache.hashes[search.at] == h,
                };
                if found {
                    self.forked((search.at + 1) as u32, store, cache)
                } else {
                    self.searched(
                        (ForkSearch { at: (search.at - 1) as u32, ..search }),
                        store,
                        cache,
                    )
                }
            },
            (PassPhaseModel::Truncating(fork, offset), PassEventModel::Truncated(true)) => {
                let after = self.proceed(store.rewound(fork, offset), cache);
                AfterPass {
                    step: PassStepModel {
                        save_index: true,
                        save_cursor: Some((before_fork(fork), Seq::empty())),
                        ..after.step
                    },
                    ..after
                }
            },
            (PassPhaseModel::Truncating(_, _), _) => self.proceed(store, cache),
            (PassPhaseModel::Scanning(target), PassEventModel::Scanned(Ok(None))) => {
                PassModel { needs_persist: true, ..self }.proceed(
                    StoreModel { height: target, ..store },
                    cache,
                )
            },
            (PassPhaseModel::Scanning(target), PassEventModel::Scanned(Ok(Some(block)))) => {
                if index::heights(store.entries).contains(block.height) {
                    AfterPass {
                        pass: self.at(PassPhaseModel::AskedAdvance(target)),
                        store,
                        cache,
                        step: only(PassActionModel::AskHash(target)),
                    }
                } else {
                    AfterPass {
                        pass: self.at(PassPhaseModel::Writing(target, block)),
                        store,
                        cache,
                        step: only(
                            PassActionModel::Write(
                                stream::block_bytes(block, StreamFormat::PivxCompat),
                            ),
                        ),
                    }
                }
            },
            (PassPhaseModel::Scanning(_), _) => self.finish(store, cache),
            (PassPhaseModel::Writing(target, block), PassEventModel::Written(Some(offset))) => {
                AfterPass {
                    pass: self.at(PassPhaseModel::AskedAdvance(target)),
                    store: store.appended(block, offset),
                    cache,
                    step: PassStepModel {
                        save_index: true,
                        ..only(PassActionModel::AskHash(target))
                    },
                }
            },
            (PassPhaseModel::Writing(_, _), _) => self.finish(store, cache),
            (PassPhaseModel::AskedAdvance(target), PassEventModel::Hash(hash)) => {
                let after = PassModel { needs_persist: false, ..self }.proceed(
                    StoreModel {
                        height: target,
                        hash: match hash {
                            Some(h) => h,
                            None => store.hash,
                        },
                        ..store
                    },
                    cache,
                );
                AfterPass {
                    step: PassStepModel {
                        save_cursor: Some((target, known_hash(hash))),
                        ..after.step
                    },
                    ..after
                }
            },
            (PassPhaseModel::AskedFinal, PassEventModel::Hash(hash)) => AfterPass {
                pass: self.at(PassPhaseModel::Finished),
                store: StoreModel { hash: known_hash(hash), ..store },
                cache,
                step: PassStepModel {
                    save_index: true,
                    save_cursor: Some((store.height, known_hash(hash))),
                    action: PassActionModel::Done,
                },
            },
            _ => AfterPass {
                pass: self.at(PassPhaseModel::Finished),
                store,
                cache,
                step: only(PassActionModel::Done),
            },
        }
    }

    /// Whether the pass is one that can come about with this store: it works on
    /// the block right above the cursor, a search has a height to look at, and a
    /// file that is being cut off is cut where the index says. A block that is
    /// being written is not in the index yet.
    pub open spec fn sound(self, store: StoreModel) -> bool {
        match self.phase {
            PassPhaseModel::AskedTip => store.height < store.chain_height,
            PassPhaseModel::AskedParent => store.height < store.chain_height,
            PassPhaseModel::Forking(search) => search.limit < search.at <= store.height
                && store.height < store.chain_height,
            PassPhaseModel::Truncating(fork, offset) => 1 <= fork <= store.height + 1
                && index::offset_from(store.entries, fork) == Some(offset),
            PassPhaseModel::Scanning(target) => target == store.height + 1,
            PassPhaseModel::Writing(target, block) => target == store.height + 1
                && !index::heights(store.entries).contains(block.height),
            PassPhaseModel::AskedAdvance(target) => target == store.height + 1,
            _ => true,
        }
    }
}

/// The hash, or nothing where it is not known.
pub open spec fn known_hash(hash: Option<Seq<char>>) -> Seq<char> {
    match hash {
        Some(h) => h,
        None => Seq::empty(),
    }
}

// ---------------------------------------------------------------------------
// The pass itself
// ---------------------------------------------------------------------------

/// A step with nothing to save.
fn only_step(action: PassAction) -> (step: PassStep)
    ensures
        step@ == only(action@),
{
    PassStep { save_index: false, save_cursor: None, action }
}

/// Begin a pass over the new blocks.
pub fn index_new_blocks() -> (pass: IndexPass)
    ensures
        pass@ == (PassModel { phase: PassPhaseModel::Start, needs_persist: false }),
{
    IndexPass { phase: PassPhase::Start, needs_persist: false }
}

impl IndexPass {
    /// End the pass.
    fn finish(&mut self, store: &ShieldStore, cache: &BlockCache) -> (step: PassStep)
        ensures
            old(self)@.finish(store@, cache@) == (AfterPass {
                pass: final(self)@,
                store: store@,
                cache: cache@,
                step: step@,
            }),
    {
        if self.needs_persist {
            self.phase = PassPhase::AskedFinal;
            only_step(PassAction::AskHash(store.cursor.last_scanned_height))
        } else {
            self.phase = PassPhase::Finished;
            only_step(PassAction::Done)
        }
    }

    /// Go on to the block right above the cursor.
    fn proceed(&mut self, store: &ShieldStore, cache: &BlockCache) -> (step: PassStep)
        ensures
            old(self)@.proceed(store@, cache@) == (AfterPass {
                pass: final(self)@,
                store: store@,
                cache: cache@,
                step: step@,
            }),
    {
        if store.cursor.last_scanned_height >= store.chain_height {
            self.finish(store, cache)
        } else {
            let target: u32 = store.cursor.last_scanned_height + 1;
            self.phase = PassPhase::Scanning(target);
            only_step(PassAction::Scan(target))
        }
    }

    /// Rewind to a fork that is known.
    fn forked(&mut self, fork: u32, store: &mut ShieldStore, cache: &mut BlockCache) -> (step:
        PassStep)
        requires
            old(store).wf(),
            old(cache).wf(),
        ensures
            final(store).wf(),
            final(cache).wf(),
            final(cache).hits == old(cache).hits,
            final(cache).misses == old(cache).misses,
            old(self)@.forked(fork, old(store)@, old(cache)@) == (AfterPass {
                pass: final(self)@,
                store: final(store)@,
                cache: final(cache)@,
                step: step@,
            }),
    {
        cache.invalidate_from(fork);
        match store.index.offset_for_height(fork) {
            Some(offset) => {
                self.phase = PassPhase::Truncating(fork, offset);
                only_step(PassAction::Truncate(offset))
            },
            None => {
                store.cursor.last_scanned_height = fork.saturating_sub(1);
                self.proceed(store, cache)
            },
        }
    }

    /// Go on with the search for the fork.
    fn searched(
        &mut self,
        search: ForkSearch,
        store: &mut ShieldStore,
        cache: &mut BlockCache,
    ) -> (step: PassStep)
        requires
            search.wf(),
            old(store).wf(),
            old(cache).wf(),
        ensures
            final(store).wf(),
            final(cache).wf(),
            final(cache).hits == old(cache).hits,
            final(cache).misses == old(cache).misses,
            old(self)@.searched(search, old(store)@, old(cache)@) == (AfterPass {
                pass: final(self)@,
                store: final(store)@,
                cache: final(cache)@,
                step: step@,
            }),
    {
        match search.pending() {
            Some(at) => {
                self.phase = PassPhase::Forking(search);
                only_step(PassAction::AskHash(at))
            },
            None => self.forked(search.exhausted(), store, cache),
        }
    }

    /// Take one step.
    pub fn step(
        &mut self,
        store: &mut ShieldStore,
        cache: &mut BlockCache,
        event: PassEvent,
    ) -> (step: PassStep)
        requires
            old(store).wf(),
            old(cache).wf(),
            old(self)@.expects(event@),
            old(self)@.sound(old(store)@),
        ensures
            final(store).wf(),
            final(cache).wf(),
            final(cache).hits == old(cache).hits,
            final(cache).misses == old(cache).misses,
            final(self)@.sound(final(store)@),
            old(self)@.next(old(store)@, old(cache)@, event@) == (AfterPass {
                pass: final(self)@,
                store: final(store)@,
                cache: final(cache)@,
                step: step@,
            }),
    {
        proof {
            law_pass_stays_sound(self@, store@, cache@, event@);
        }
        let ghost before = self@;
        let mut phase: PassPhase = PassPhase::Finished;
        std::mem::swap(&mut phase, &mut self.phase);
        proof {
            assert(self@ == before.at(PassPhaseModel::Finished));
            lemma_phase_is_overwritten(before, PassPhaseModel::Finished);
        }
        match (phase, event) {
            (PassPhase::Start, _) => {
                self.phase = PassPhase::AskedCount;
                only_step(PassAction::AskCount)
            },
            (PassPhase::AskedCount, PassEvent::Count(Some(count))) => {
                store.chain_height = count as u32;
                if store.cursor.last_scanned_height >= store.chain_height {
                    only_step(PassAction::Done)
                } else {
                    self.phase = PassPhase::AskedTip;
                    only_step(PassAction::AskHash(store.cursor.last_scanned_height + 1))
                }
            },
            (PassPhase::AskedTip, PassEvent::Hash(Some(hash))) => {
                self.phase = PassPhase::AskedParent;
                only_step(PassAction::AskBlock(hash))
            },
            (PassPhase::AskedTip, _) => self.proceed(store, cache),
            (PassPhase::AskedParent, PassEvent::Block(Some(block))) => {
                if let Some(parent) = block.text_field("previousblockhash") {
                    let scan_from: u32 = store.cursor.last_scanned_height + 1;
                    if cache.detect_reorg(scan_from, parent) {
                        return self.searched(fork::find_fork_point(scan_from), store, cache);
                    }
                }
                self.proceed(store, cache)
            },
            (PassPhase::AskedParent, _) => self.proceed(store, cache),
            (PassPhase::Forking(search), PassEvent::Hash(hash)) => {
                let mut search = search;
                let node = match &hash {
                    Some(h) => Some(h.as_str()),
                    None => None,
                };
                let found = search.step(cache.hash_for_height(search.at), node);
                match found {
                    Some(fork) => self.forked(fork, store, cache),
                    None => self.searched(search, store, cache),
                }
            },
            (PassPhase::Truncating(fork, offset), PassEvent::Truncated(true)) => {
                store.rewind(fork, offset);
                let mut step = self.proceed(store, cache);
                step.save_index = true;
                step.save_cursor = Some(
                    ScanCursor {
                        last_scanned_height: store.cursor.last_scanned_height,
                        last_scanned_hash: String::new(),
                    },
                );
                step
            },
            (PassPhase::Truncating(_, _), _) => self.proceed(store, cache),
            (PassPhase::Scanning(target), PassEvent::Scanned(Ok(None))) => {
                store.cursor.last_scanned_height = target;
                self.needs_persist = true;
                self.proceed(store, cache)
            },
            (PassPhase::Scanning(target), PassEvent::Scanned(Ok(Some(block)))) => {
                if store.index.contains(block.height) {
                    self.phase = PassPhase::AskedAdvance(target);
                    only_step(PassAction::AskHash(target))
                } else {
                    let mut bytes: Vec<u8> = Vec::new();
                    stream::encode_pivx_compat(&mut bytes, &block);
                    assert(bytes@ =~= stream::block_bytes(block@, StreamFormat::PivxCompat));
                    self.phase = PassPhase::Writing(target, block);
                    only_step(PassAction::Write(bytes))
                }
            },
            (PassPhase::Scanning(_), _) => self.finish(store, cache),
            (PassPhase::Writing(target, block), PassEvent::Written(Some(offset))) => {
                store.append(&block, offset);
                self.phase = PassPhase::AskedAdvance(target);
                let mut step = only_step(PassAction::AskHash(target));
                step.save_index = true;
                step
            },
            (PassPhase::Writing(_, _), _) => self.finish(store, cache),
            (PassPhase::AskedAdvance(target), PassEvent::Hash(hash)) => {
                store.cursor.last_scanned_height = target;
                let saved = match hash {
                    Some(h) => {
                        store.cursor.last_scanned_hash = h.clone();
                        h
                    },
                    None => String::new(),
                };
                self.needs_persist = false;
                let mut step = self.proceed(store, cache);
                step.save_cursor = Some(
                    ScanCursor { last_scanned_height: target, last_scanned_hash: saved },
                );
                step
            },
            (PassPhase::AskedFinal, PassEvent::Hash(hash)) => {
                let hash = match hash {
                    Some(h) => h,
                    None => String::new(),
                };
                store.cursor.last_scanned_hash = hash.clone();
                PassStep {
                    save_index: true,
                    save_cursor: Some(
                        ScanCursor {
                            last_scanned_height: store.cursor.last_scanned_height,
                            last_scanned_hash: hash,
                        },
                    ),
                    action: PassAction::Done,
                }
            },
            _ => only_step(PassAction::Done),
        }
    }
}

// ---------------------------------------------------------------------------
// Laws
// ---------------------------------------------------------------------------

/// Where a pass goes on does not depend on the phase it comes from.
proof fn lemma_phase_is_overwritten(pass: PassModel, phase: PassPhaseModel)
    ensures
        forall|store: StoreModel, cache: CacheModel| #[trigger]
            pass.at(phase).finish(store, cache) == pass.finish(store, cache),
        forall|store: StoreModel, cache: CacheModel| #[trigger]
            pass.at(phase).proceed(store, cache) == pass.proceed(store, cache),
        forall|fork: u32, store: StoreModel, cache: CacheModel| #[trigger]
            pass.at(phase).forked(fork, store, cache) == pass.forked(fork, store, cache),
        forall|search: ForkSearch, store: StoreModel, cache: CacheModel| #[trigger]
            pass.at(phase).searched(search, store, cache) == pass.searched(search, store, cache),
{
}

/// A pass that goes with its store still does so after a step.
pub proof fn law_pass_stays_sound(
    pass: PassModel,
    store: StoreModel,
    cache: CacheModel,
    event: PassEventModel,
)
    requires
        pass.sound(store),
        pass.expects(event),
    ensures
        pass.next(store, cache, event).pass.sound(pass.next(store, cache, event).store),
{
}

/// The cursor never skips a block: a step moves it up by one at most, and only
/// where the block right above it was scanned without shield data, or has been
/// taken into the index. The latter is only so where a scan of that block found
/// shield data, and the index has it then.
pub proof fn law_cursor_never_skips(
    pass: PassModel,
    store: StoreModel,
    cache: CacheModel,
    event: PassEventModel,
)
    requires
        pass.sound(store),
        pass.expects(event),
    ensures
        ({
            let after = pass.next(store, cache, event).store.height;
            &&& after <= store.height + 1
            &&& after == store.height + 1 ==> {
                ||| pass.phase == PassPhaseModel::Scanning(after) && event
                    == PassEventModel::Scanned(Ok(None))
                ||| pass.phase == PassPhaseModel::AskedAdvance(after)
            }
        }),
        ({
            let after = pass.next(store, cache, event);
            after.pass.phase matches PassPhaseModel::AskedAdvance(target) ==> {
                ||| {
                    &&& pass.phase == PassPhaseModel::Scanning(target)
                    &&& event matches PassEventModel::Scanned(Ok(Some(block)))
                    &&& index::heights(after.store.entries).contains(block.height)
                }
                ||| {
                    &&& pass.phase matches PassPhaseModel::Writing(written, block)
                    &&& written == target
                    &&& event matches PassEventModel::Written(Some(_))
                    &&& index::heights(after.store.entries).contains(block.height)
                }
            }
        }),
{
    if let (PassPhaseModel::Writing(_, block), PassEventModel::Written(Some(offset))) = (
        pass.phase,
        event,
    ) {
        let grown = store.appended(block, offset).entries;
        assert(index::heights(grown)[grown.len() - 1] == block.height);
    }
}

/// A failure moves neither the cursor nor the index nor the stream: not one of the
/// node, nor one of the file, nor one of the scan.
pub proof fn law_failure_keeps_the_cursor(
    pass: PassModel,
    store: StoreModel,
    cache: CacheModel,
    event: PassEventModel,
)
    requires
        pass.sound(store),
        pass.expects(event),
        event == PassEventModel::Count(None) || event == PassEventModel::Block(None) || event
            == PassEventModel::Truncated(false) || event == PassEventModel::Written(None) || (
        event matches PassEventModel::Scanned(result) && result is Err),
    ensures
        pass.next(store, cache, event).store.height == store.height,
        pass.next(store, cache, event).store.entries == store.entries,
        pass.next(store, cache, event).store.buffer == store.buffer,
{
}

/// The blocks that the store holds after a step, out of those that it held.
pub open spec fn blocks_after(
    pass: PassModel,
    event: PassEventModel,
    blocks: Seq<BlockModel>,
) -> Seq<BlockModel> {
    match (pass.phase, event) {
        (PassPhaseModel::Truncating(fork, _), PassEventModel::Truncated(true)) =>
            store::blocks_below(blocks, fork),
        (PassPhaseModel::Writing(_, block), PassEventModel::Written(Some(_))) => blocks.push(block),
        _ => blocks,
    }
}

/// Index and stream stay in step: where they mirror some blocks, and the file is
/// as long as the stream, they mirror them after a step without those that a fork
/// orphaned and with the one that was written. A block whose writing failed is in
/// neither.
pub proof fn law_step_keeps_mirror(
    pass: PassModel,
    store: StoreModel,
    cache: CacheModel,
    event: PassEventModel,
    blocks: Seq<BlockModel>,
)
    requires
        pass.sound(store),
        pass.expects(event),
        store::mirrors(store.entries, store.buffer, blocks),
        store.buffer.len() <= usize::MAX,
        event matches PassEventModel::Written(Some(offset)) ==> offset == store.buffer.len(),
        pass.phase matches PassPhaseModel::Writing(_, block) ==> store.entries.len() > 0
            ==> store.entries.last().block < block.height,
    ensures
        ({
            let after = pass.next(store, cache, event).store;
            store::mirrors(after.entries, after.buffer, blocks_after(pass, event, blocks))
        }),
{
    match (pass.phase, event) {
        (PassPhaseModel::Truncating(fork, offset), PassEventModel::Truncated(true)) => {
            store::law_rewind_keeps_mirror(store.entries, store.buffer, blocks, fork);
            assert(offset as usize == offset);
            if offset == store.buffer.len() {
                assert(store.buffer.take(offset as int) =~= store.buffer);
            }
        },
        (PassPhaseModel::Writing(_, block), PassEventModel::Written(Some(offset))) => {
            store::law_append_keeps_mirror(
                store.entries,
                store.buffer,
                blocks,
                block,
                (IndexEntry { block: block.height, i: offset }),
            );
        },
        _ => {},
    }
}

/// A pass that searches for a fork heads for the fork point: where the node replies
/// with what it has at the pending height, either the fork point is found, or the
/// search goes on for the same one.
pub proof fn law_search_heads_for_fork_point(
    pass: PassModel,
    store: StoreModel,
    cache: CacheModel,
    node: spec_fn(u32) -> Option<Seq<char>>,
)
    requires
        pass.sound(store),
        pass.phase is Forking,
    ensures
        ({
            let search = pass.phase->Forking_0;
            let fork = fork::fork_point(cache.hashes, node, search.at, search.limit);
            let after = pass.next(store, cache, PassEventModel::Hash(node(search.at)));
            ||| after == pass.forked(fork as u32, store, cache)
            ||| {
                &&& after.pass.phase matches PassPhaseModel::Forking(next)
                &&& next.limit == search.limit
                &&& next.at < search.at
                &&& fork::fork_point(cache.hashes, node, next.at, next.limit) == fork
            }
        }),
{
    reveal_with_fuel(fork::fork_point, 2);
}

// ---------------------------------------------------------------------------
// What a whole pass comes to
// ---------------------------------------------------------------------------

/// A node and a file that never fail: the height of the chain, the hash at each
/// height, the block with each hash, what a scan finds at each height, and where the
/// file writes a block.
pub struct WorldModel {
    pub count: u64,
    pub hash: spec_fn(u32) -> Seq<char>,
    pub block: spec_fn(Seq<char>) -> JsonModel,
    pub found: spec_fn(u32) -> Option<BlockModel>,
    pub offset: spec_fn(StoreModel) -> u64,
}

impl WorldModel {
    /// What comes of an action.
    pub open spec fn event(self, action: PassActionModel, store: StoreModel) -> PassEventModel {
        match action {
            PassActionModel::AskCount => PassEventModel::Count(Some(self.count)),
            PassActionModel::AskHash(h) => PassEventModel::Hash(Some((self.hash)(h))),
            PassActionModel::AskBlock(hash) => PassEventModel::Block(Some((self.block)(hash))),
            PassActionModel::Truncate(_) => PassEventModel::Truncated(true),
            PassActionModel::Scan(h) => PassEventModel::Scanned(Ok((self.found)(h))),
            PassActionModel::Write(_) => PassEventModel::Written(Some((self.offset)(store))),
            PassActionModel::Done => PassEventModel::Nothing,
        }
    }

    /// Whether the index has every shield block above `from` and no higher than `to`.
    pub open spec fn has_all(self, entries: Seq<IndexEntry>, from: u32, to: int) -> bool {
        forall|h: u32|
            from < h <= to ==> ((#[trigger] (self.found)(h)) matches Some(block)
                ==> index::heights(entries).contains(block.height))
    }
}

/// The store at the end of a pass that has come to `after`, within `steps` more steps.
pub open spec fn pass_run(after: AfterPass, world: WorldModel, steps: nat) -> Option<StoreModel>
    decreases steps,
{
    if after.step.action is Done {
        Some(after.store)
    } else if steps == 0 {
        None
    } else {
        pass_run(
            after.pass.next(
                after.store,
                after.cache,
                world.event(after.step.action, after.store),
            ),
            world,
            (steps - 1) as nat,
        )
    }
}

/// Whether a pass that has come to `after` ends well within `steps` more steps: with
/// the cursor at the height of the chain, and with every shield block above `from` in
/// the index.
pub open spec fn ends_well(after: AfterPass, world: WorldModel, from: u32, steps: nat) -> bool {
    &&& pass_run(after, world, steps) matches Some(end)
    &&& end.height == after.store.chain_height
    &&& world.has_all(end.entries, from, end.height as int)
}

/// A pass that is not done goes on with the next step.
proof fn lemma_goes_on(a: AfterPass, world: WorldModel, k: nat)
    requires
        a.step.action !is Done,
    ensures
        pass_run(a, world, k + 1) == pass_run(
            a.pass.next(a.store, a.cache, world.event(a.step.action, a.store)),
            world,
            k,
        ),
{
}

/// How a pass goes on does not depend on what a step saves.
proof fn lemma_saves_do_not_matter(a: AfterPass, b: AfterPass, world: WorldModel, steps: nat)
    requires
        a.pass == b.pass,
        a.store == b.store,
        a.cache == b.cache,
        a.step.action == b.step.action,
    ensures
        pass_run(a, world, steps) == pass_run(b, world, steps),
{
}

/// One more entry leaves the others where they were.
proof fn lemma_pushed_heights(entries: Seq<IndexEntry>, entry: IndexEntry)
    ensures
        index::heights(entries.push(entry)).contains(entry.block),
        forall|h: u32|
            index::heights(entries).contains(h) ==> #[trigger] index::heights(
                entries.push(entry),
            ).contains(h),
{
    let more = index::heights(entries.push(entry));
    assert(more[entries.len() as int] == entry.block);
    assert forall|h: u32| index::heights(entries).contains(h) implies #[trigger] more.contains(h) by {
        let k = choose|k: int|
            0 <= k < index::heights(entries).len() && index::heights(entries)[k] == h;
        assert(more[k] == h);
    }
}

/// A pass that passes over a block without shield data ends as one that goes on from
/// there.
proof fn lemma_empty_block(
    pass: PassModel,
    store: StoreModel,
    cache: CacheModel,
    world: WorldModel,
    k: nat,
)
    requires
        store.height < store.chain_height,
        (world.found)((store.height + 1) as u32) is None,
    ensures
        pass_run(pass.proceed(store, cache), world, k + 1) == pass_run(
            PassModel { needs_persist: true, ..pass }.proceed(
                StoreModel { height: (store.height + 1) as u32, ..store },
                cache,
            ),
            world,
            k,
        ),
{
    lemma_goes_on(pass.proceed(store, cache), world, k);
}

/// A pass that has the hash of a block that is in the index ends as one that goes on
/// from there.
proof fn lemma_advanced(
    pass: PassModel,
    store: StoreModel,
    cache: CacheModel,
    world: WorldModel,
    target: u32,
    saves: bool,
    k: nat,
)
    ensures
        pass_run(
            AfterPass {
                pass: pass.at(PassPhaseModel::AskedAdvance(target)),
                store,
                cache,
                step: PassStepModel {
                    save_index: saves,
                    ..only(PassActionModel::AskHash(target))
                },
            },
            world,
            k + 1,
        ) == pass_run(
            PassModel { needs_persist: false, ..pass }.proceed(
                StoreModel { height: target, hash: (world.hash)(target), ..store },
                cache,
            ),
            world,
            k,
        ),
{
    let a = AfterPass {
        pass: pass.at(PassPhaseModel::AskedAdvance(target)),
        store,
        cache,
        step: PassStepModel { save_index: saves, ..only(PassActionModel::AskHash(target)) },
    };
    lemma_goes_on(a, world, k);
    let event = PassEventModel::Hash(Some((world.hash)(target)));
    lemma_saves_do_not_matter(
        a.pass.next(store, cache, event),
        PassModel { needs_persist: false, ..pass }.proceed(
            StoreModel { height: target, hash: (world.hash)(target), ..store },
            cache,
        ),
        world,
        k,
    );
}

/// The store after the block above the cursor was taken in, unless the index has it.
spec fn taken_in(store: StoreModel, block: BlockModel, world: WorldModel) -> StoreModel {
    if index::heights(store.entries).contains(block.height) {
        store
    } else {
        store.appended(block, (world.offset)(store))
    }
}

/// A pass that takes in a shield block ends as one that goes on from there.
proof fn lemma_shield_block(
    pass: PassModel,
    store: StoreModel,
    cache: CacheModel,
    world: WorldModel,
    k: nat,
) -> (steps: nat)
    requires
        store.height < store.chain_height,
        (world.found)((store.height + 1) as u32) is Some,
    ensures
        ({
            let target = (store.height + 1) as u32;
            let block = (world.found)(target)->0;
            pass_run(pass.proceed(store, cache), world, steps) == pass_run(
                PassModel { needs_persist: false, ..pass }.proceed(
                    StoreModel {
                        height: target,
                        hash: (world.hash)(target),
                        ..taken_in(store, block, world)
                    },
                    cache,
                ),
                world,
                k,
            )
        }),
{
    let target = (store.height + 1) as u32;
    let block = (world.found)(target)->0;
    let a = pass.proceed(store, cache);
    let after = taken_in(store, block, world);
    if index::heights(store.entries).contains(block.height) {
        lemma_goes_on(a, world, k + 1);
        lemma_advanced(pass, after, cache, world, target, false, k);
        k + 2
    } else {
        lemma_goes_on(a, world, k + 2);
        let b = a.pass.next(store, cache, PassEventModel::Scanned(Ok(Some(block))));
        lemma_goes_on(b, world, k + 1);
        lemma_advanced(pass, after, cache, world, target, true, k);
        k + 3
    }
}

/// A pass that goes on to the block above the cursor ends well. Returns how many steps
/// it takes.
proof fn lemma_proceed_ends_well(
    pass: PassModel,
    store: StoreModel,
    cache: CacheModel,
    world: WorldModel,
    from: u32,
) -> (steps: nat)
    requires
        store.height <= store.chain_height,
        world.has_all(store.entries, from, store.height as int),
    ensures
        ends_well(pass.proceed(store, cache), world, from, steps),
    decreases store.chain_height - store.height,
{
    let a = pass.proceed(store, cache);
    if store.height >= store.chain_height {
        if pass.needs_persist {
            let hash = (world.hash)(store.height);
            let b = a.pass.next(store, cache, PassEventModel::Hash(Some(hash)));
            lemma_goes_on(a, world, 0);
            assert(pass_run(b, world, 0) == Some(b.store));
            1
        } else {
            0
        }
    } else {
        let target = (store.height + 1) as u32;
        match (world.found)(target) {
            None => {
                let moved = StoreModel { height: target, ..store };
                let next = PassModel { needs_persist: true, ..pass };
                let k = lemma_proceed_ends_well(next, moved, cache, world, from);
                lemma_empty_block(pass, store, cache, world, k);
                k + 1
            },
            Some(block) => {
                let after = taken_in(store, block, world);
                let moved = StoreModel { height: target, hash: (world.hash)(target), ..after };
                let next = PassModel { needs_persist: false, ..pass };
                if !index::heights(store.entries).contains(block.height) {
                    lemma_pushed_heights(
                        store.entries,
                        IndexEntry { block: block.height, i: (world.offset)(store) },
                    );
                }
                let k = lemma_proceed_ends_well(next, moved, cache, world, from);
                lemma_shield_block(pass, store, cache, world, k)
            },
        }
    }
}

/// A pass that rewinds to a fork at or below the block above the cursor ends well.
/// Returns how many steps it takes.
proof fn lemma_fork_ends_well(
    pass: PassModel,
    fork: u32,
    store: StoreModel,
    cache: CacheModel,
    world: WorldModel,
) -> (steps: nat)
    requires
        1 <= fork <= store.height + 1,
        store.height < store.chain_height,
    ensures
        ends_well(pass.forked(fork, store, cache), world, store.height, steps),
{
    let a = pass.forked(fork, store, cache);
    let forgetful = cache.invalidated(fork);
    let low = before_fork(fork);
    match index::offset_from(store.entries, fork) {
        Some(offset) => {
            let b = a.pass.next(store, forgetful, PassEventModel::Truncated(true));
            let rewound = store.rewound(fork, offset);
            let k = lemma_proceed_ends_well(a.pass, rewound, forgetful, world, low);
            lemma_saves_do_not_matter(b, a.pass.proceed(rewound, forgetful), world, k);
            lemma_goes_on(a, world, k);
            k + 1
        },
        None => lemma_proceed_ends_well(
            pass,
            StoreModel { height: low, ..store },
            forgetful,
            world,
            low,
        ),
    }
}

/// A pass that searches for a fork ends well. Returns how many steps it takes.
proof fn lemma_search_ends_well(
    pass: PassModel,
    search: ForkSearch,
    store: StoreModel,
    cache: CacheModel,
    world: WorldModel,
) -> (steps: nat)
    requires
        search.limit <= store.height,
        search.at <= store.height,
        store.height < store.chain_height,
    ensures
        ends_well(pass.searched(search, store, cache), world, store.height, steps),
    decreases search.at,
{
    if search.at > search.limit {
        let a = pass.searched(search, store, cache);
        lemma_phase_is_overwritten(pass, a.pass.phase);
        let hash = (world.hash)(search.at);
        let b = a.pass.next(store, cache, PassEventModel::Hash(Some(hash)));
        let k = if cache.hashes.contains_key(search.at) && cache.hashes[search.at] == hash {
            lemma_fork_ends_well(a.pass, (search.at + 1) as u32, store, cache, world)
        } else {
            lemma_search_ends_well(
                a.pass,
                (ForkSearch { at: (search.at - 1) as u32, ..search }),
                store,
                cache,
                world,
            )
        };
        lemma_goes_on(a, world, k);
        k + 1
    } else {
        lemma_fork_ends_well(pass, (search.limit + 1) as u32, store, cache, world)
    }
}

/// What a whole pass comes to where nothing fails: the cursor ends at the height of
/// the chain, and the index has every shield block above where the cursor was. Where
/// the chain is no higher than the cursor, all stays as it was.
pub proof fn law_pass_catches_up(store: StoreModel, cache: CacheModel, world: WorldModel)
    ensures
        ({
            let pass = PassModel { phase: PassPhaseModel::Start, needs_persist: false };
            let first = pass.next(store, cache, PassEventModel::Nothing);
            let informed = StoreModel { chain_height: world.count as u32, ..store };
            exists|steps: nat|
                {
                    &&& (#[trigger] pass_run(first, world, steps)) matches Some(end)
                    &&& if store.height < informed.chain_height {
                        &&& end.height == informed.chain_height
                        &&& world.has_all(end.entries, store.height, end.height as int)
                    } else {
                        end == informed
                    }
                }
        }),
{
    let pass = PassModel { phase: PassPhaseModel::Start, needs_persist: false };
    let a = pass.next(store, cache, PassEventModel::Nothing);
    let informed = StoreModel { chain_height: world.count as u32, ..store };
    let b = a.pass.next(store, cache, PassEventModel::Count(Some(world.count)));
    assert(pass_run(a, world, 1) == pass_run(b, world, 0));
    if store.height < informed.chain_height {
        let target = (store.height + 1) as u32;
        let hash = (world.hash)(target);
        let c = b.pass.next(informed, cache, PassEventModel::Hash(Some(hash)));
        let block = (world.block)(hash);
        let d = c.pass.next(informed, cache, PassEventModel::Block(Some(block)));
        let reorganised = match block.text_field("previousblockhash"@) {
            Some(parent) => cache.hashes.contains_key(store.height) && cache.hashes[store.height]
                != parent,
            None => false,
        };
        let k = if reorganised {
            lemma_search_ends_well(c.pass, fork::first_search(target), informed, cache, world)
        } else {
            lemma_proceed_ends_well(c.pass, informed, cache, world, store.height)
        };
        lemma_goes_on(c, world, k);
        lemma_goes_on(b, world, k + 1);
        lemma_goes_on(a, world, k + 2);
    }
}

// ---------------------------------------------------------------------------
// What the steps of a pass come to
// ---------------------------------------------------------------------------

/// A pass begins by asking how high the chain is, and goes on only where that is above
/// the cursor: with the block right above the cursor, whose hash it asks for, and which
/// it then asks for by that hash.
pub proof fn law_pass_looks_right_above_the_cursor(
    store: StoreModel,
    cache: CacheModel,
    persist: bool,
    count: u64,
    hash: Seq<char>,
)
    ensures
        ({
            let at = |phase: PassPhaseModel| PassModel { phase, needs_persist: persist };
            let began = at(PassPhaseModel::Start).next(store, cache, PassEventModel::Nothing);
            let counted = at(PassPhaseModel::AskedCount).next(
                store,
                cache,
                PassEventModel::Count(Some(count)),
            );
            let failed = at(PassPhaseModel::AskedCount).next(
                store,
                cache,
                PassEventModel::Count(None),
            );
            let found = at(PassPhaseModel::AskedTip).next(
                store,
                cache,
                PassEventModel::Hash(Some(hash)),
            );
            &&& began.step.action == PassActionModel::AskCount
            &&& began.store == store
            &&& counted.store == (StoreModel { chain_height: count as u32, ..store })
            &&& (count as u32) > store.height ==> counted.step.action == PassActionModel::AskHash(
                (store.height + 1) as u32,
            )
            &&& (count as u32) <= store.height ==> counted.step.action == PassActionModel::Done
            &&& failed.step.action == PassActionModel::Done
            &&& failed.store == store
            &&& found.step.action == PassActionModel::AskBlock(hash)
            &&& found.store == store
            &&& found.pass.phase == PassPhaseModel::AskedParent
        }),
{
}

/// The parent of the block right above the cursor decides. Where it is another than the
/// hash that is known at the cursor, the chain was reorganised, and a fork is searched
/// from the cursor downwards, over at most a thousand blocks. Otherwise, or where nothing
/// is known to tell, the block above the cursor is scanned.
pub proof fn law_parent_decides(
    pass: PassModel,
    store: StoreModel,
    cache: CacheModel,
    block: JsonModel,
)
    requires
        pass.phase == PassPhaseModel::AskedParent,
        0 < store.height < store.chain_height,
    ensures
        ({
            let after = pass.next(store, cache, PassEventModel::Block(Some(block)));
            let unknown = pass.next(store, cache, PassEventModel::Block(None));
            let above = (store.height + 1) as u32;
            let reorganised = block.field("previousblockhash"@) matches Some(
                JsonModel::Text(parent),
            ) && cache.hashes.contains_key(store.height) && cache.hashes[store.height] != parent;
            &&& after.store == store && after.cache == cache
            &&& !reorganised ==> after.step.action == PassActionModel::Scan(above)
                && after.pass.phase == PassPhaseModel::Scanning(above)
            &&& unknown.step.action == PassActionModel::Scan(above)
            &&& reorganised ==> {
                &&& after.step.action == PassActionModel::AskHash(store.height)
                &&& after.pass.phase matches PassPhaseModel::Forking(search)
                &&& search.at == store.height
                &&& search.limit == (if store.height >= 999 {
                    store.height - 999
                } else {
                    0
                })
            }
        }),
{
}

/// A fork is rolled back. The cache forgets what is at or above it. Where the index has
/// an entry there, the file is cut off at the first of them; then the index keeps the
/// entries before it, the stream what stands before it, and the cursor stands right below
/// the fork without a hash, and both are saved. Where the index has none, the cursor
/// alone moves.
pub proof fn law_fork_is_rolled_back(
    pass: PassModel,
    store: StoreModel,
    cache: CacheModel,
    fork: u32,
    p: int,
)
    requires
        index::ascending(index::heights(store.entries)),
        0 < fork <= store.height < store.chain_height,
        0 <= p <= store.entries.len(),
        forall|k: int| 0 <= k < p ==> (#[trigger] store.entries[k]).block < fork,
        p < store.entries.len() ==> store.entries[p].block >= fork && store.entries[p].i
            <= store.buffer.len() <= usize::MAX,
    ensures
        ({
            let cut = pass.forked(fork, store, cache);
            let done = cut.pass.next(cut.store, cut.cache, PassEventModel::Truncated(true));
            &&& cut.cache == cache.invalidated(fork)
            &&& p < store.entries.len() ==> {
                &&& cut.step.action == PassActionModel::Truncate(store.entries[p].i)
                &&& cut.store == store
                &&& done.store == (StoreModel {
                    entries: store.entries.take(p),
                    buffer: store.buffer.take(store.entries[p].i as int),
                    height: (fork - 1) as u32,
                    hash: Seq::empty(),
                    chain_height: store.chain_height,
                })
                &&& done.cache == cut.cache
                &&& done.step.save_index
                &&& done.step.save_cursor == Some(((fork - 1) as u32, Seq::<char>::empty()))
                &&& done.step.action == PassActionModel::Scan(fork)
            }
            &&& p == store.entries.len() ==> {
                &&& cut.store == (StoreModel { height: (fork - 1) as u32, ..store })
                &&& cut.step.action == PassActionModel::Scan(fork)
            }
        }),
{
    index::law_offset_from(store.entries, fork, p);
    index::law_entries_below(store.entries, fork, p);
    if p < store.entries.len() {
        let offset = store.entries[p].i;
        assert(offset as usize == offset);
        if offset == store.buffer.len() {
            assert(store.buffer.take(offset as int) =~= store.buffer);
        }
    }
}

/// A block with shield data that is not in the index yet is written to the file in the
/// format of the stream. Once it is there, it is in the index with its offset and in the
/// stream, and the index is saved; then the cursor stands on it, with the hash that the
/// node has there, and is saved with it.
pub proof fn law_shield_block_is_written(
    pass: PassModel,
    store: StoreModel,
    cache: CacheModel,
    target: u32,
    block: BlockModel,
    offset: u64,
    hash: Seq<char>,
)
    requires
        pass.phase == PassPhaseModel::Scanning(target),
        forall|k: int|
            0 <= k < store.entries.len() ==> (#[trigger] store.entries[k]).block != block.height,
    ensures
        ({
            let bytes = stream::block_bytes(block, StreamFormat::PivxCompat);
            let found = pass.next(store, cache, PassEventModel::Scanned(Ok(Some(block))));
            let written = found.pass.next(
                found.store,
                found.cache,
                PassEventModel::Written(Some(offset)),
            );
            let advanced = written.pass.next(
                written.store,
                written.cache,
                PassEventModel::Hash(Some(hash)),
            );
            let grown = StoreModel {
                entries: store.entries.push(IndexEntry { block: block.height, i: offset }),
                buffer: store.buffer + bytes,
                ..store
            };
            &&& found.step.action == PassActionModel::Write(bytes)
            &&& found.store == store
            &&& written.store == grown
            &&& written.step.save_index
            &&& written.step.action == PassActionModel::AskHash(target)
            &&& advanced.store == (StoreModel { height: target, hash, ..grown })
            &&& advanced.step.save_cursor == Some((target, hash))
            &&& target < store.chain_height ==> advanced.step.action == PassActionModel::Scan(
                (target + 1) as u32,
            )
            &&& target >= store.chain_height ==> advanced.step.action == PassActionModel::Done
        }),
{
    assert(!index::heights(store.entries).contains(block.height)) by {
        if index::heights(store.entries).contains(block.height) {
            let k = choose|k: int|
                0 <= k < store.entries.len() && index::heights(store.entries)[k] == block.height;
            assert(store.entries[k].block == block.height);
        }
    }
}

/// A block without shield data moves the cursor and nothing else. The cursor is then
/// saved at the end of the pass at the latest, with the hash that the node has there, and
/// with none where the node fails.
pub proof fn law_empty_block_moves_the_cursor(
    pass: PassModel,
    store: StoreModel,
    cache: CacheModel,
    target: u32,
    hash: Option<Seq<char>>,
)
    requires
        pass.phase == PassPhaseModel::Scanning(target),
    ensures
        ({
            let found = pass.next(store, cache, PassEventModel::Scanned(Ok(None)));
            let saved = found.pass.next(found.store, found.cache, PassEventModel::Hash(hash));
            &&& found.store == (StoreModel { height: target, ..store })
            &&& found.cache == cache
            &&& target < store.chain_height ==> found.step.action == PassActionModel::Scan(
                (target + 1) as u32,
            )
            &&& target >= store.chain_height ==> {
                &&& found.step.action == PassActionModel::AskHash(target)
                &&& saved.step.action == PassActionModel::Done
                &&& saved.step.save_index
                &&& saved.store.height == target
                &&& saved.store.hash == (if hash is Some {
                    hash->0
                } else {
                    Seq::empty()
                })
                &&& saved.store.entries == store.entries && saved.store.buffer == store.buffer
                &&& saved.step.save_cursor == Some(
                    (
                        target,
                        if hash is Some {
                            hash->0
                        } else {
                            Seq::empty()
                        },
                    ),
                )
            }
        }),
{
}

/// What changes is saved. A step that changes the index says that the index is to be
/// saved. A cursor that is saved is the one that the store has. A step that moves the
/// cursor up saves it, or leaves it to be saved; and a pass that has a cursor to save
/// does not end without saving it.
pub proof fn law_what_changes_is_saved(
    pass: PassModel,
    store: StoreModel,
    cache: CacheModel,
    event: PassEventModel,
)
    requires
        pass.expects(event),
        pass.sound(store),
        pass.needs_persist ==> pass.phase is Scanning || pass.phase is Writing
            || pass.phase is AskedAdvance || pass.phase is AskedFinal,
    ensures
        ({
            let after = pass.next(store, cache, event);
            &&& after.store.entries != store.entries ==> after.step.save_index
            &&& after.step.save_cursor matches Some((height, hash)) ==> {
                &&& height == after.store.height
                &&& match event {
                    PassEventModel::Hash(Some(h)) => hash == h && after.store.hash == h,
                    _ => hash.len() == 0,
                }
            }
            &&& after.store.height > store.height ==> after.step.save_cursor is Some
                || after.pass.needs_persist
            &&& pass.needs_persist && after.step.action is Done ==> after.step.save_cursor is Some
            &&& after.pass.needs_persist ==> after.pass.phase is Scanning
                || after.pass.phase is Writing || after.pass.phase is AskedAdvance
                || after.pass.phase is AskedFinal || after.step.save_cursor is Some
        }),
{
}

/// What a failure comes to. Where the hash of the next block or the block cannot be had,
/// nothing tells of a fork, and the block above the cursor is scanned. Where the file
/// cannot be cut off, nothing is dropped, and that block is scanned too. Where a scan or a
/// write fails, the pass ends there without another block: it asks for the hash at the
/// cursor if the cursor is still to be saved, and is done otherwise.
pub proof fn law_what_a_failure_comes_to(
    pass: PassModel,
    store: StoreModel,
    cache: CacheModel,
    fault: ScanFault,
)
    requires
        store.height < store.chain_height,
    ensures
        ({
            let above = PassActionModel::Scan((store.height + 1) as u32);
            let stop = if pass.needs_persist {
                PassActionModel::AskHash(store.height)
            } else {
                PassActionModel::Done
            };
            let no_hash = pass.next(store, cache, PassEventModel::Hash(None));
            let no_block = pass.next(store, cache, PassEventModel::Block(None));
            let no_cut = pass.next(store, cache, PassEventModel::Truncated(false));
            let no_scan = pass.next(store, cache, PassEventModel::Scanned(Err(fault)));
            let no_write = pass.next(store, cache, PassEventModel::Written(None));
            &&& pass.phase is AskedTip ==> no_hash.step.action == above && no_hash.store == store
            &&& pass.phase is AskedParent ==> no_block.step.action == above && no_block.store
                == store
            &&& pass.phase is Truncating ==> no_cut.step.action == above && no_cut.store == store
                && !no_cut.step.save_index && no_cut.step.save_cursor is None
            &&& pass.phase is Scanning ==> no_scan.step.action == stop && no_scan.store == store
            &&& pass.phase is Writing ==> no_write.step.action == stop && no_write.store == store
                && !no_write.step.save_index
        }),
{
}

/// A block that is in the index already is not written again: the cursor moves onto it,
/// and index and stream stay as they were.
pub proof fn law_indexed_block_is_not_written_again(
    pass: PassModel,
    store: StoreModel,
    cache: CacheModel,
    target: u32,
    block: BlockModel,
    k: int,
    hash: Option<Seq<char>>,
)
    requires
        pass.phase == PassPhaseModel::Scanning(target),
        0 <= k < store.entries.len(),
        store.entries[k].block == block.height,
    ensures
        ({
            let found = pass.next(store, cache, PassEventModel::Scanned(Ok(Some(block))));
            let advanced = found.pass.next(found.store, found.cache, PassEventModel::Hash(hash));
            &&& found.step.action == PassActionModel::AskHash(target)
            &&& found.store == store
            &&& advanced.store == (StoreModel {
                height: target,
                hash: if hash is Some {
                    hash->0
                } else {
                    store.hash
                },
                ..store
            })
            &&& advanced.step.save_cursor == Some(
                (
                    target,
                    if hash is Some {
                        hash->0
                    } else {
                        Seq::empty()
                    },
                ),
            )
        }),
{
    assert(index::heights(store.entries)[k] == block.height);
}

} // verus!
