//! Bringing a network up: what it is called, where it keeps its files, and how it
//! catches up with the chain before it serves.

use vstd::prelude::*;
use crate::api::StreamFormat;
use crate::block_cache::CacheModel;
use crate::cache;
use crate::config;
use crate::config::Config;
use crate::fork;
use crate::index;
use crate::index::{IndexEntry, ScanCursor, ShieldIndex};
use crate::indexer;
use crate::scan::{self, NodeModel};
use crate::scanner;
use crate::scanner::{BlockModel, ShieldBlock};
use crate::store;
use crate::stream;
use crate::text;

verus! {

// ---------------------------------------------------------------------------
// Networks
// ---------------------------------------------------------------------------

/// Network initialization parameters.
pub struct NetworkConfig {
    pub label: String,
    pub rpc_url: String,
    pub rpc_user: String,
    pub rpc_pass: String,
    pub index_path: String,
    pub cache_path: String,
    /// File that keeps the scan cursor.
    pub cursor_path: String,
    pub sapling_height: u32,
    pub allowed_rpcs: Vec<String>,
}

/// Where a network keeps its files and what it is called.
pub open spec fn named(
    network: NetworkConfig,
    label: Seq<char>,
    index_path: Seq<char>,
    cache_path: Seq<char>,
    cursor_path: Seq<char>,
) -> bool {
    &&& network.label@ == label
    &&& network.index_path@ == index_path
    &&& network.cache_path@ == cache_path
    &&& network.cursor_path@ == cursor_path
}

/// The methods that `config` allows.
pub open spec fn allowed_methods(config: Config) -> Seq<Seq<char>> {
    config::all_trimmed(text::pieces(config.allowed_rpcs@, ','))
}

/// The main network.
pub fn mainnet(config: &Config) -> (network: NetworkConfig)
    ensures
        named(
            network,
            "mainnet"@,
            "shield_index.json"@,
            "shield.bin"@,
            "shield_cursor.json"@,
        ),
        network.rpc_url@ == config.rpc_url@,
        network.rpc_user@ == config.rpc_user@,
        network.rpc_pass@ == config.rpc_pass@,
        network.sapling_height == config.sapling_height,
        text::texts(network.allowed_rpcs@) == allowed_methods(*config),
{
    NetworkConfig {
        label: "mainnet".to_string(),
        rpc_url: config.rpc_url.clone(),
        rpc_user: config.rpc_user.clone(),
        rpc_pass: config.rpc_pass.clone(),
        index_path: "shield_index.json".to_string(),
        cache_path: "shield.bin".to_string(),
        cursor_path: "shield_cursor.json".to_string(),
        sapling_height: config.sapling_height,
        allowed_rpcs: config.allowed_rpc_set(),
    }
}

/// What is configured, or else what the main network has.
pub open spec fn text_or(own: Option<String>, main: String) -> Seq<char> {
    match own {
        Some(s) => s@,
        None => main@,
    }
}

/// What is configured, or else what the main network has.
fn string_or(own: &Option<String>, main: &String) -> (r: String)
    ensures
        r@ == text_or(*own, *main),
{
    match own {
        Some(s) => s.clone(),
        None => main.clone(),
    }
}

/// The test network, if it is configured. It logs in as the main network does
/// where nothing else is said.
pub fn testnet(config: &Config) -> (network: Option<NetworkConfig>)
    ensures
        match (network, config.testnet_rpc_url) {
            (Some(network), Some(url)) => {
                &&& named(
                    network,
                    "testnet"@,
                    "shield_index.testnet.json"@,
                    "shield.testnet.bin"@,
                    "shield_cursor.testnet.json"@,
                )
                &&& network.rpc_url@ == url@
                &&& network.rpc_user@ == text_or(config.testnet_rpc_user, config.rpc_user)
                &&& network.rpc_pass@ == text_or(config.testnet_rpc_pass, config.rpc_pass)
                &&& network.sapling_height == config.sapling_height
                &&& text::texts(network.allowed_rpcs@) == allowed_methods(*config)
            },
            (None, None) => true,
            _ => false,
        },
{
    match &config.testnet_rpc_url {
        Some(url) => Some(
            NetworkConfig {
                label: "testnet".to_string(),
                rpc_url: url.clone(),
                rpc_user: string_or(&config.testnet_rpc_user, &config.rpc_user),
                rpc_pass: string_or(&config.testnet_rpc_pass, &config.rpc_pass),
                index_path: "shield_index.testnet.json".to_string(),
                cache_path: "shield.testnet.bin".to_string(),
                cursor_path: "shield_cursor.testnet.json".to_string(),
                sapling_height: config.sapling_height,
                allowed_rpcs: config.allowed_rpc_set(),
            },
        ),
        None => None,
    }
}

// ---------------------------------------------------------------------------
// Catching up
// ---------------------------------------------------------------------------

/// How far catching up has come.
pub enum StartPhase {
    /// Nothing was done.
    Start,
    /// The hash of the last scanned block was asked for.
    AskedCheck,
    /// The file is being cut off for the fork.
    Truncating(u32),
    /// A range of blocks is being scanned.
    Scanning,
    /// Blocks are being written: their entries, as in a file that was empty, and the
    /// height up to which the chain is scanned with them.
    Writing(Vec<(u32, u64, u64)>, u32),
    /// The cursor is where it ends; the hash of the block there was asked for.
    AskedHash,
    /// All is done.
    Finished,
}

/// A network that catches up with the chain.
pub struct Startup {
    /// Height from which on there is shield data.
    pub sapling_height: u32,
    /// Height of the chain.
    pub chain_height: u32,
    /// The index into the stream.
    pub index: ShieldIndex,
    /// How far the chain was scanned.
    pub cursor: ScanCursor,
    /// How far catching up has come.
    pub phase: StartPhase,
}

/// What came of the last request.
pub enum StartEvent {
    /// Nothing was requested.
    Nothing,
    /// A hash, unless the node failed.
    Hash(Option<String>),
    /// Whether the file was cut off.
    Truncated(bool),
    /// The shield blocks that were found in the range, and the first height that was
    /// left out, unless the scan failed.
    Scanned(Option<(Vec<ShieldBlock>, Option<u32>)>),
    /// How long the file was before the blocks were written, unless that failed.
    Written(Option<u64>),
}

/// What to do next.
pub enum StartAction {
    /// Ask the node for the hash of the block at a height.
    AskHash(u32),
    /// Cut the file off at an offset.
    Truncate(u64),
    /// Scan the blocks from one height to another.
    ScanRange(u32, u32),
    /// Append chunks of bytes to the file.
    Write(Vec<Vec<u8>>),
    /// Nothing more: the network can serve.
    Done,
}

/// What a step calls for: first what to save, then what to do next.
pub struct StartStep {
    /// Whether the index is to be saved.
    pub save_index: bool,
    /// Whether the cursor is to be saved.
    pub save_cursor: bool,
    /// What to do next.
    pub action: StartAction,
}

/// What a `StartPhase` says.
#[verifier::ext_equal]
pub enum StartPhaseModel {
    Start,
    AskedCheck,
    Truncating(u32),
    Scanning,
    Writing(Seq<(u32, u64, u64)>, u32),
    AskedHash,
    Finished,
}

/// What a `Startup` is at.
#[verifier::ext_equal]
pub struct StartModel {
    pub sapling_height: u32,
    pub chain_height: u32,
    pub entries: Seq<IndexEntry>,
    pub height: u32,
    pub hash: Seq<char>,
    pub phase: StartPhaseModel,
}

/// What a `StartAction` says.
#[verifier::ext_equal]
pub enum StartActionModel {
    AskHash(u32),
    Truncate(u64),
    ScanRange(u32, u32),
    Write(Seq<Seq<u8>>),
    Done,
}

/// What a `StartStep` says.
#[verifier::ext_equal]
pub struct StartStepModel {
    pub save_index: bool,
    pub save_cursor: bool,
    pub action: StartActionModel,
}

/// The bytes of each chunk.
pub open spec fn chunk_bytes(chunks: Seq<Vec<u8>>) -> Seq<Seq<u8>> {
    Seq::new(chunks.len(), |k: int| chunks[k]@)
}

impl View for StartPhase {
    type V = StartPhaseModel;

    open spec fn view(&self) -> StartPhaseModel {
        match self {
            StartPhase::Start => StartPhaseModel::Start,
            StartPhase::AskedCheck => StartPhaseModel::AskedCheck,
            StartPhase::Truncating(fork) => StartPhaseModel::Truncating(*fork),
            StartPhase::Scanning => StartPhaseModel::Scanning,
            StartPhase::Writing(entries, to) => StartPhaseModel::Writing(entries@, *to),
            StartPhase::AskedHash => StartPhaseModel::AskedHash,
            StartPhase::Finished => StartPhaseModel::Finished,
        }
    }
}

impl View for Startup {
    type V = StartModel;

    open spec fn view(&self) -> StartModel {
        StartModel {
            sapling_height: self.sapling_height,
            chain_height: self.chain_height,
            entries: self.index.entries@,
            height: self.cursor.last_scanned_height,
            hash: self.cursor.last_scanned_hash@,
            phase: self.phase@,
        }
    }
}

impl View for StartAction {
    type V = StartActionModel;

    open spec fn view(&self) -> StartActionModel {
        match self {
            StartAction::AskHash(height) => StartActionModel::AskHash(*height),
            StartAction::Truncate(offset) => StartActionModel::Truncate(*offset),
            StartAction::ScanRange(from, to) => StartActionModel::ScanRange(*from, *to),
            StartAction::Write(chunks) => StartActionModel::Write(chunk_bytes(chunks@)),
            StartAction::Done => StartActionModel::Done,
        }
    }
}

impl View for StartStep {
    type V = StartStepModel;

    open spec fn view(&self) -> StartStepModel {
        StartStepModel {
            save_index: self.save_index,
            save_cursor: self.save_cursor,
            action: self.action@,
        }
    }
}

/// The entries after `added`, moved up by `end`, were added one by one. A height
/// that is there already keeps its entry.
pub open spec fn entries_added(
    entries: Seq<IndexEntry>,
    added: Seq<(u32, u64, u64)>,
    end: u64,
) -> Seq<IndexEntry>
    decreases added.len(),
{
    if added.len() == 0 {
        entries
    } else {
        let before = entries_added(entries, added.drop_last(), end);
        if index::heights(before).contains(added.last().0) {
            before
        } else {
            before.push(
                IndexEntry { block: added.last().0, i: (end + added.last().1) as u64 },
            )
        }
    }
}

/// Whether all of `added`, moved up by `end`, have offsets of 64 bits.
pub open spec fn offsets_fit(added: Seq<(u32, u64, u64)>, end: u64) -> bool {
    forall|k: int| 0 <= k < added.len() ==> end + (#[trigger] added[k]).1 <= u64::MAX
}

impl StartModel {
    /// The same in another phase.
    pub open spec fn at(self, phase: StartPhaseModel) -> StartModel {
        StartModel { phase, ..self }
    }

    /// The height to scan from: right above what was scanned, if that reaches the
    /// shield data at all; otherwise right above the last indexed block, or else
    /// where shield data begins.
    pub open spec fn scan_from(self) -> int {
        if self.height >= self.sapling_height {
            self.height + 1
        } else if self.entries.len() > 0 {
            self.entries.last().block + 1
        } else {
            self.sapling_height as int
        }
    }

    /// Whether the last scanned block is known by its hash, so that the node can
    /// be asked whether it still has it.
    pub open spec fn can_check(self) -> bool {
        self.hash.len() > 0 && self.height > 0
    }

    /// The state with the cursor at `height`. The hash of another block is forgotten.
    pub open spec fn moved(self, height: u32) -> StartModel {
        StartModel {
            height,
            hash: if height == self.height {
                self.hash
            } else {
                Seq::empty()
            },
            ..self
        }
    }

    /// All blocks up to `height` are done: the cursor moves there, and the hash of
    /// the block there is asked for.
    pub open spec fn reached(self, height: u32) -> (StartModel, StartStepModel) {
        (
            self.moved(height).at(StartPhaseModel::AskedHash),
            StartStepModel {
                save_index: false,
                save_cursor: false,
                action: StartActionModel::AskHash(height),
            },
        )
    }

    /// On to the blocks that were not scanned yet, if there are any.
    pub open spec fn to_scan(self) -> (StartModel, StartStepModel) {
        if self.scan_from() <= self.chain_height {
            (
                self.at(StartPhaseModel::Scanning),
                StartStepModel {
                    save_index: false,
                    save_cursor: false,
                    action: StartActionModel::ScanRange(
                        self.scan_from() as u32,
                        self.chain_height,
                    ),
                },
            )
        } else {
            self.reached(self.chain_height)
        }
    }

    /// Whether a scan left out the very first block, so that nothing was scanned.
    pub open spec fn stuck(self, missed: Option<u32>) -> bool {
        missed matches Some(h) && h <= self.scan_from()
    }

    /// The height up to which the chain is scanned after a scan that left out
    /// `missed` first.
    pub open spec fn reach(self, missed: Option<u32>) -> u32 {
        match missed {
            Some(h) => if 0 < h <= self.chain_height {
                (h - 1) as u32
            } else {
                self.chain_height
            },
            None => self.chain_height,
        }
    }

    /// The blocks could not be taken in: the cursor stays right below the first of
    /// them, so that they are tried again.
    pub open spec fn held_back(self) -> (StartModel, StartStepModel) {
        (
            self.moved((self.scan_from() - 1) as u32).at(StartPhaseModel::Finished),
            StartStepModel {
                save_index: false,
                save_cursor: true,
                action: StartActionModel::Done,
            },
        )
    }

    /// The state without what stands from `fork` on.
    pub open spec fn rewound(self, fork: u32) -> StartModel {
        StartModel {
            entries: index::entries_below(self.entries, fork),
            height: indexer::before_fork(fork),
            hash: Seq::empty(),
            ..self
        }
    }

    /// The state from `fork` on is dropped, and scanning resumes there.
    pub open spec fn rolled_back(self, fork: u32) -> (StartModel, StartStepModel) {
        let after = self.rewound(fork).to_scan();
        (after.0, StartStepModel { save_index: true, save_cursor: true, ..after.1 })
    }

    /// The height from which on the state is dropped, where the last scanned block
    /// is no longer on the chain.
    pub open spec fn fork(self) -> u32 {
        (index::last_below(index::heights(self.entries), self.height) + 1) as u32
    }
}

/// What a `StartEvent` says.
#[verifier::ext_equal]
pub enum StartEventModel {
    Nothing,
    Hash(Option<Seq<char>>),
    Truncated(bool),
    Scanned(Option<(Seq<BlockModel>, Option<u32>)>),
    Written(Option<u64>),
}

impl View for StartEvent {
    type V = StartEventModel;

    open spec fn view(&self) -> StartEventModel {
        match self {
            StartEvent::Nothing => StartEventModel::Nothing,
            StartEvent::Hash(hash) => StartEventModel::Hash(scanner::text_of(*hash)),
            StartEvent::Truncated(done) => StartEventModel::Truncated(*done),
            StartEvent::Scanned(Some((blocks, missed))) => StartEventModel::Scanned(
                Some((stream::models(blocks@), *missed)),
            ),
            StartEvent::Scanned(None) => StartEventModel::Scanned(None),
            StartEvent::Written(end) => StartEventModel::Written(*end),
        }
    }
}

/// The blocks below what was left out first.
pub open spec fn blocks_before(blocks: Seq<BlockModel>, missed: Option<u32>) -> Seq<BlockModel> {
    match missed {
        Some(h) => store::blocks_below(blocks, h),
        None => blocks,
    }
}

/// The entries of `blocks` in a file that was empty.
pub open spec fn layout(blocks: Seq<BlockModel>) -> Seq<(u32, u64, u64)> {
    Seq::new(
        blocks.len(),
        |k: int|
            (
                blocks[k].height,
                stream::stream_bytes(blocks.take(k), StreamFormat::PivxCompat).len() as u64,
                stream::block_bytes(blocks[k], StreamFormat::PivxCompat).len() as u64,
            ),
    )
}

impl StartModel {
    /// Whether `event` is what is waited for.
    pub open spec fn expects(self, event: StartEventModel) -> bool {
        match self.phase {
            StartPhaseModel::Start => event is Nothing,
            StartPhaseModel::AskedCheck => event is Hash,
            StartPhaseModel::Truncating(_) => event is Truncated,
            StartPhaseModel::Scanning => event is Scanned,
            StartPhaseModel::Writing(_, _) => event is Written,
            StartPhaseModel::AskedHash => event is Hash,
            StartPhaseModel::Finished => false,
        }
    }

    /// One step of catching up.
    ///
    /// Where the node no longer has the last scanned block, everything above the
    /// last indexed block below it is dropped and scanned again. The index takes
    /// blocks in only when they are in the file, and the cursor moves past them only
    /// then. It never moves past a block that the scan left out: what was found above
    /// that is not taken in, and scanned again later.
    pub open spec fn next(self, event: StartEventModel) -> (StartModel, StartStepModel) {
        match (self.phase, event) {
            (StartPhaseModel::Start, _) => if self.can_check() {
                (
                    self.at(StartPhaseModel::AskedCheck),
                    StartStepModel {
                        save_index: false,
                        save_cursor: false,
                        action: StartActionModel::AskHash(self.height),
                    },
                )
            } else {
                self.to_scan()
            },
            (StartPhaseModel::AskedCheck, StartEventModel::Hash(Some(hash))) => if hash
                == self.hash {
                self.to_scan()
            } else {
                match index::offset_from(self.entries, self.fork()) {
                    Some(offset) => (
                        self.at(StartPhaseModel::Truncating(self.fork())),
                        StartStepModel {
                            save_index: false,
                            save_cursor: false,
                            action: StartActionModel::Truncate(offset),
                        },
                    ),
                    None => self.rolled_back(self.fork()),
                }
            },
            (StartPhaseModel::AskedCheck, _) => self.to_scan(),
            (StartPhaseModel::Truncating(fork), _) => self.rolled_back(fork),
            (StartPhaseModel::Scanning, StartEventModel::Scanned(Some((blocks, missed)))) => {
                let new = blocks_before(blocks, missed);
                if !self.stuck(missed) && stream::stream_bytes(new, StreamFormat::PivxCompat).len()
                    <= u64::MAX {
                    (
                        self.at(StartPhaseModel::Writing(layout(new), self.reach(missed))),
                        StartStepModel {
                            save_index: false,
                            save_cursor: false,
                            action: StartActionModel::Write(
                                stream::block_parts(new, StreamFormat::PivxCompat),
                            ),
                        },
                    )
                } else {
                    self.held_back()
                }
            },
            (StartPhaseModel::Scanning, _) => self.held_back(),
            (StartPhaseModel::Writing(added, to), StartEventModel::Written(Some(end))) => {
                if offsets_fit(added, end) {
                    let after = StartModel {
                        entries: entries_added(self.entries, added, end),
                        ..self
                    }.reached(to);
                    (after.0, StartStepModel { save_index: true, ..after.1 })
                } else {
                    self.held_back()
                }
            },
            (StartPhaseModel::Writing(_, _), _) => self.held_back(),
            (StartPhaseModel::AskedHash, StartEventModel::Hash(hash)) => (
                StartModel {
                    hash: match hash {
                        Some(h) => h,
                        None => self.hash,
                    },
                    phase: StartPhaseModel::Finished,
                    ..self
                },
                StartStepModel {
                    save_index: false,
                    save_cursor: true,
                    action: StartActionModel::Done,
                },
            ),
            _ => (
                self.at(StartPhaseModel::Finished),
                StartStepModel {
                    save_index: false,
                    save_cursor: false,
                    action: StartActionModel::Done,
                },
            ),
        }
    }
}

/// Begin to catch up with a chain of `count` blocks.
pub fn init_network(
    sapling_height: u32,
    count: u64,
    index: ShieldIndex,
    cursor: ScanCursor,
) -> (startup: Startup)
    requires
        index.wf(),
    ensures
        startup.index.wf(),
        startup@ == (StartModel {
            sapling_height,
            chain_height: count as u32,
            entries: index.entries@,
            height: cursor.last_scanned_height,
            hash: cursor.last_scanned_hash@,
            phase: StartPhaseModel::Start,
        }),
{
    Startup { sapling_height, chain_height: count as u32, index, cursor, phase: StartPhase::Start }
}

/// The blocks below what was left out first.
fn before_missed(blocks: Vec<ShieldBlock>, missed: Option<u32>) -> (kept: Vec<ShieldBlock>)
    ensures
        stream::models(kept@) == blocks_before(stream::models(blocks@), missed),
{
    let h: u32 = match missed {
        Some(h) => h,
        None => return blocks,
    };
    let mut kept = blocks;
    let ghost all = stream::models(kept@);
    let ghost below = |b: BlockModel| b.height < h;
    let ghost mut done: int = 0;
    let mut k: usize = 0;
    proof {
        reveal(Seq::filter);
        assert(all.take(0).filter(below) =~= Seq::empty());
    }
    while k < kept.len()
        invariant
            k <= kept@.len(),
            0 <= done <= all.len(),
            kept@.len() - k == all.len() - done,
            forall|j: int| 0 <= j < kept@.len() - k ==> (#[trigger] kept@[k + j])@ == all[done + j],
            stream::models(kept@.take(k as int)) == all.take(done).filter(below),
            below == (|b: BlockModel| b.height < h),
        decreases kept@.len() - k,
    {
        proof {
            reveal(Seq::filter);
            assert(kept@[k + 0]@ == all[done + 0]);
            assert(all.take(done + 1).drop_last() =~= all.take(done));
            assert(all.take(done + 1).last() == all[done]);
        }
        let ghost old_kept = kept@;
        if kept[k].height < h {
            k = k + 1;
            assert(stream::models(kept@.take(k as int)) =~= stream::models(
                kept@.take(k - 1),
            ).push(all[done]));
            assert forall|j: int| 0 <= j < kept@.len() - k implies (#[trigger] kept@[k + j])@
                == all[done + 1 + j] by {
                assert(kept@[(k - 1) + (j + 1)]@ == all[done + (j + 1)]);
            }
        } else {
            kept.remove(k);
            assert(kept@.take(k as int) =~= old_kept.take(k as int));
            assert forall|j: int| 0 <= j < kept@.len() - k implies (#[trigger] kept@[k + j])@
                == all[done + 1 + j] by {
                assert(old_kept[k + (j + 1)]@ == all[done + (j + 1)]);
            }
        }
        proof {
            done = done + 1;
        }
    }
    assert(kept@.take(k as int) =~= kept@);
    assert(all.take(done) =~= all);
    kept
}

/// A step with nothing to save.
fn only_step(action: StartAction) -> (step: StartStep)
    ensures
        step@ == (StartStepModel { save_index: false, save_cursor: false, action: action@ }),
{
    StartStep { save_index: false, save_cursor: false, action }
}

impl Startup {
    /// Move the cursor to `height`.
    fn move_to(&mut self, height: u32)
        requires
            old(self).index.wf(),
        ensures
            final(self).index.wf(),
            final(self)@ == old(self)@.moved(height),
    {
        if height != self.cursor.last_scanned_height {
            self.cursor = ScanCursor {
                last_scanned_height: height,
                last_scanned_hash: String::new(),
            };
            assert(self.cursor.last_scanned_hash@ =~= Seq::empty());
        }
    }

    /// Move to `height`, up to which all blocks are done.
    fn reached(&mut self, height: u32) -> (step: StartStep)
        requires
            old(self).index.wf(),
        ensures
            final(self).index.wf(),
            (final(self)@, step@) == old(self)@.reached(height),
    {
        self.move_to(height);
        self.phase = StartPhase::AskedHash;
        only_step(StartAction::AskHash(height))
    }

    /// The height to scan from.
    fn scan_from(&self) -> (from: u64)
        requires
            self.index.wf(),
        ensures
            from == self@.scan_from(),
            1 <= from <= u32::MAX + 1,
    {
        if self.cursor.last_scanned_height >= self.sapling_height {
            self.cursor.last_scanned_height as u64 + 1
        } else {
            match self.index.last_height() {
                Some(height) => height as u64 + 1,
                None => self.sapling_height as u64,
            }
        }
    }

    /// Go on to the blocks that were not scanned yet.
    fn to_scan(&mut self) -> (step: StartStep)
        requires
            old(self).index.wf(),
        ensures
            final(self).index.wf(),
            (final(self)@, step@) == old(self)@.to_scan(),
    {
        let from: u64 = self.scan_from();
        if from <= self.chain_height as u64 {
            self.phase = StartPhase::Scanning;
            only_step(StartAction::ScanRange(from as u32, self.chain_height))
        } else {
            self.reached(self.chain_height)
        }
    }

    /// Stay right below the blocks that could not be taken in.
    fn held_back(&mut self) -> (step: StartStep)
        requires
            old(self).index.wf(),
        ensures
            final(self).index.wf(),
            (final(self)@, step@) == old(self)@.held_back(),
    {
        let height: u32 = (self.scan_from() - 1) as u32;
        self.move_to(height);
        self.phase = StartPhase::Finished;
        StartStep { save_index: false, save_cursor: true, action: StartAction::Done }
    }

    /// Drop the state from `fork` on.
    fn rolled_back(&mut self, fork: u32) -> (step: StartStep)
        requires
            old(self).index.wf(),
        ensures
            final(self).index.wf(),
            (final(self)@, step@) == old(self)@.rolled_back(fork),
    {
        self.index.remove_from(fork);
        self.cursor = ScanCursor {
            last_scanned_height: fork.saturating_sub(1),
            last_scanned_hash: String::new(),
        };
        let mut step = self.to_scan();
        step.save_index = true;
        step.save_cursor = true;
        step
    }

    /// Take `added`, moved up by `end`, into the index, if the offsets fit.
    fn take_in(&mut self, added: &Vec<(u32, u64, u64)>, end: u64) -> (done: bool)
        requires
            old(self).index.wf(),
        ensures
            final(self).index.wf(),
            done == offsets_fit(added@, end),
            final(self)@ == (StartModel {
                entries: if done {
                    entries_added(old(self)@.entries, added@, end)
                } else {
                    old(self)@.entries
                },
                ..old(self)@
            }),
    {
        let mut k: usize = 0;
        while k < added.len()
            invariant
                k <= added@.len(),
                *self == *old(self),
                self.index.wf(),
                forall|j: int| 0 <= j < k ==> end + (#[trigger] added@[j]).1 <= u64::MAX,
            decreases added@.len() - k,
        {
            if added[k].1 > u64::MAX - end {
                assert(end + added@[k as int].1 > u64::MAX);
                return false;
            }
            k = k + 1;
        }
        let mut j: usize = 0;
        assert(added@.take(0) =~= Seq::empty());
        while j < added.len()
            invariant
                j <= added@.len(),
                self.index.wf(),
                offsets_fit(added@, end),
                self@ == (StartModel {
                    entries: entries_added(old(self)@.entries, added@.take(j as int), end),
                    ..old(self)@
                }),
            decreases added@.len() - j,
        {
            proof {
                let next = added@.take(j + 1);
                assert(next.drop_last() =~= added@.take(j as int));
                assert(next.last() == added@[j as int]);
                assert(end + added@[j as int].1 <= u64::MAX);
            }
            self.index.add(added[j].0, end + added[j].1);
            j = j + 1;
        }
        assert(added@.take(j as int) =~= added@);
        true
    }

    /// Take one step.
    pub fn step(&mut self, event: StartEvent) -> (step: StartStep)
        requires
            old(self).index.wf(),
            old(self)@.expects(event@),
        ensures
            final(self).index.wf(),
            (final(self)@, step@) == old(self)@.next(event@),
    {
        let mut phase: StartPhase = StartPhase::Finished;
        std::mem::swap(&mut phase, &mut self.phase);
        match (phase, event) {
            (StartPhase::Start, _) => {
                if !text::is_empty(self.cursor.last_scanned_hash.as_str())
                    && self.cursor.last_scanned_height > 0 {
                    self.phase = StartPhase::AskedCheck;
                    only_step(StartAction::AskHash(self.cursor.last_scanned_height))
                } else {
                    self.to_scan()
                }
            },
            (StartPhase::AskedCheck, StartEvent::Hash(Some(hash))) => {
                if text::same(hash.as_str(), self.cursor.last_scanned_hash.as_str()) {
                    return self.to_scan();
                }
                let fork: u32 = fork::find_fork_point_via_rpc(
                    self.cursor.last_scanned_height,
                    &self.index,
                );
                match self.index.offset_for_height(fork) {
                    Some(offset) => {
                        self.phase = StartPhase::Truncating(fork);
                        only_step(StartAction::Truncate(offset))
                    },
                    None => self.rolled_back(fork),
                }
            },
            (StartPhase::AskedCheck, _) => self.to_scan(),
            (StartPhase::Truncating(fork), _) => self.rolled_back(fork),
            (StartPhase::Scanning, StartEvent::Scanned(Some((blocks, missed)))) => {
                let mut to: u32 = self.chain_height;
                if let Some(h) = missed {
                    if h as u64 <= self.scan_from() {
                        return self.held_back();
                    }
                    if 0 < h && h <= self.chain_height {
                        to = h - 1;
                    }
                }
                let new = before_missed(blocks, missed);
                match cache::append_blocks(0, new.as_slice()) {
                    Some(append) => {
                        proof {
                            lemma_append_is_layout(append, new@);
                        }
                        self.phase = StartPhase::Writing(append.entries, to);
                        only_step(StartAction::Write(append.chunks))
                    },
                    None => self.held_back(),
                }
            },
            (StartPhase::Scanning, _) => self.held_back(),
            (StartPhase::Writing(added, to), StartEvent::Written(Some(end))) => {
                if !self.take_in(&added, end) {
                    return self.held_back();
                }
                let mut step = self.reached(to);
                step.save_index = true;
                step
            },
            (StartPhase::Writing(_, _), _) => self.held_back(),
            (StartPhase::AskedHash, StartEvent::Hash(hash)) => {
                if let Some(hash) = hash {
                    self.cursor.last_scanned_hash = hash;
                }
                StartStep { save_index: false, save_cursor: true, action: StartAction::Done }
            },
            _ => only_step(StartAction::Done),
        }
    }
}

/// What is appended to an empty file is the layout of the blocks.
proof fn lemma_append_is_layout(append: cache::Append, blocks: Seq<ShieldBlock>)
    requires
        append.entries@.len() == blocks.len(),
        append.chunks@.len() == blocks.len(),
        forall|k: int|
            0 <= k < blocks.len() ==> #[trigger] cache::lands(
                append.entries@[k],
                append.chunks@[k]@,
                0,
                blocks,
                k,
            ),
    ensures
        append.entries@ == layout(stream::models(blocks)),
        chunk_bytes(append.chunks@) == stream::block_parts(
            stream::models(blocks),
            StreamFormat::PivxCompat,
        ),
{
    let models = stream::models(blocks);
    assert forall|k: int| 0 <= k < blocks.len() implies append.entries@[k] == layout(models)[k] by {
        assert(cache::lands(append.entries@[k], append.chunks@[k]@, 0, blocks, k));
        assert(stream::models(blocks.take(k)) =~= models.take(k));
    }
    assert(append.entries@ =~= layout(models));
    assert forall|k: int| 0 <= k < blocks.len() implies chunk_bytes(append.chunks@)[k]
        == stream::block_parts(models, StreamFormat::PivxCompat)[k] by {
        assert(cache::lands(append.entries@[k], append.chunks@[k]@, 0, blocks, k));
    }
    assert(chunk_bytes(append.chunks@) =~= stream::block_parts(models, StreamFormat::PivxCompat));
}

/// The layout of blocks is that of all but the last, and the last one behind them.
proof fn lemma_layout_split(new: Seq<BlockModel>)
    requires
        new.len() > 0,
    ensures
        ({
            let format = StreamFormat::PivxCompat;
            let init = stream::stream_bytes(new.drop_last(), format);
            let last = stream::block_bytes(new.last(), format);
            &&& stream::stream_bytes(new, format) == init + last
            &&& layout(new).drop_last() == layout(new.drop_last())
            &&& layout(new).last() == (new.last().height, init.len() as u64, last.len() as u64)
        }),
{
    let format = StreamFormat::PivxCompat;
    let init = new.drop_last();
    let n = new.len() - 1;
    store::lemma_stream_split(new, n, format);
    assert(new.take(n) =~= init);
    assert(new.skip(n) =~= seq![new.last()]);
    store::lemma_stream_single(new.last(), format);
    assert forall|k: int| 0 <= k < n implies layout(new)[k] == layout(init)[k] by {
        assert(init.take(k) =~= new.take(k));
    }
    assert(layout(new).drop_last() =~= layout(init));
}

/// Taking in blocks that were appended to the file keeps index and file in step:
/// where the index mirrors some blocks in a file of `end` bytes, and the new blocks
/// are higher than those and in ascending order, it then mirrors all of them.
#[verifier::spinoff_prover]
pub proof fn law_taking_in_keeps_mirror(
    entries: Seq<IndexEntry>,
    file: Seq<u8>,
    blocks: Seq<BlockModel>,
    new: Seq<BlockModel>,
)
    requires
        store::mirrors(entries, file, blocks),
        file.len() + stream::stream_bytes(new, StreamFormat::PivxCompat).len() <= u64::MAX,
        forall|j: int, k: int|
            0 <= j < k < new.len() ==> (#[trigger] new[j]).height < (#[trigger] new[k]).height,
        entries.len() > 0 && new.len() > 0 ==> entries.last().block < new[0].height,
    ensures
        offsets_fit(layout(new), file.len() as u64),
        store::mirrors(
            entries_added(entries, layout(new), file.len() as u64),
            file + stream::stream_bytes(new, StreamFormat::PivxCompat),
            blocks + new,
        ),
        new.len() > 0 ==> entries_added(entries, layout(new), file.len() as u64).last().block
            == new.last().height,
    decreases new.len(),
{
    let format = StreamFormat::PivxCompat;
    let end = file.len() as u64;
    if new.len() == 0 {
        assert(layout(new) =~= Seq::empty());
        assert(stream::block_parts(new, format) =~= Seq::empty());
        assert(file + stream::stream_bytes(new, format) =~= file);
        assert(blocks + new =~= blocks);
    } else {
        let init = new.drop_last();
        let last = new.last();
        let n = new.len() - 1;
        lemma_layout_split(new);
        law_taking_in_keeps_mirror(entries, file, blocks, init);
        let offset = stream::stream_bytes(init, format).len();
        assert forall|k: int| 0 <= k < layout(new).len() implies end + (#[trigger] layout(
            new,
        )[k]).1 <= u64::MAX by {
            if k < n {
                assert(layout(new)[k] == layout(new).drop_last()[k]);
            }
        }
        let before = entries_added(entries, layout(init), end);
        let grown = file + stream::stream_bytes(init, format);
        if init.len() > 0 {
            assert(before.last().block == init.last().height);
            assert(new[n - 1].height < new[n].height);
        } else {
            assert(layout(init) =~= Seq::empty());
        }
        let entry = IndexEntry { block: last.height, i: (end + offset) as u64 };
        store::law_append_keeps_mirror(before, grown, blocks + init, last, entry);
        assert(grown + stream::block_bytes(last, format) =~= file + stream::stream_bytes(
            new,
            format,
        ));
        assert((blocks + init).push(last) =~= blocks + new);
    }
}

/// A restart after a reorganisation leaves no orphan bytes: where the index mirrors
/// some blocks in the file, cutting the file off where the index says and dropping
/// the entries from the fork on leaves the blocks below the fork.
pub proof fn law_rollback_keeps_mirror(
    start: StartModel,
    file: Seq<u8>,
    blocks: Seq<BlockModel>,
)
    requires
        store::mirrors(start.entries, file, blocks),
    ensures
        ({
            let kept = match index::offset_from(start.entries, start.fork()) {
                Some(offset) => file.take(offset as int),
                None => file,
            };
            store::mirrors(
                start.rolled_back(start.fork()).0.entries,
                kept,
                store::blocks_below(blocks, start.fork()),
            )
        }),
{
    store::law_rewind_keeps_mirror(start.entries, file, blocks, start.fork());
}

/// A start whose scan or whose write failed, or whose scan left out the very first
/// block, is made up for: the index is as it was, the network can serve, and the
/// cursor is right below the first block that was to be scanned, so that the next
/// pass begins there.
pub proof fn law_failed_start_is_retried(start: StartModel, event: StartEventModel)
    requires
        start.expects(event),
        match event {
            StartEventModel::Scanned(None) => true,
            StartEventModel::Scanned(Some((_, missed))) => start.stuck(missed),
            StartEventModel::Written(None) => true,
            _ => false,
        },
    ensures
        start.next(event).0.height == start.scan_from() - 1,
        start.next(event).0.entries == start.entries,
        start.next(event).0.phase is Finished,
        start.next(event).1.action is Done,
        start.next(event).1.save_cursor,
{
}

/// A scan that left out a block is resumed there: what was found below that block is
/// taken in, what was found above is not, and the cursor ends right below it.
pub proof fn law_partial_scan_is_resumed(
    start: StartModel,
    blocks: Seq<BlockModel>,
    h: u32,
    end: u64,
)
    requires
        start.phase is Scanning,
        start.scan_from() < h <= start.chain_height,
        stream::stream_bytes(store::blocks_below(blocks, h), StreamFormat::PivxCompat).len()
            <= u64::MAX,
        offsets_fit(layout(store::blocks_below(blocks, h)), end),
    ensures
        ({
            let scanned = start.next(StartEventModel::Scanned(Some((blocks, Some(h)))));
            let written = scanned.0.next(StartEventModel::Written(Some(end)));
            &&& scanned.1.action == StartActionModel::Write(
                stream::block_parts(store::blocks_below(blocks, h), StreamFormat::PivxCompat),
            )
            &&& scanned.0.height == start.height
            &&& written.0.height == h - 1
            &&& written.0.entries == entries_added(
                start.entries,
                layout(store::blocks_below(blocks, h)),
                end,
            )
            &&& written.1.action == StartActionModel::AskHash((h - 1) as u32)
        }),
{
}

/// The hash of the cursor is that of the block at its height, or not known: a step
/// that moves the cursor forgets the hash of the other block, and only the reply of
/// the node for the new height sets another one.
pub proof fn law_hash_goes_with_the_height(start: StartModel, event: StartEventModel)
    requires
        start.expects(event),
    ensures
        ({
            let after = start.next(event).0;
            &&& after.height != start.height ==> after.hash.len() == 0
            &&& after.hash != start.hash && after.hash.len() > 0 ==> start.phase is AskedHash
                && event == StartEventModel::Hash(Some(after.hash))
            &&& after.phase is AskedHash ==> start.next(event).1.action
                == StartActionModel::AskHash(after.height)
        }),
{
}

/// The cursor never moves past what was scanned and taken in: a step moves it up only
/// where no block is left to scan, if need be after the state above a fork was
/// dropped, or where the blocks of the scan, up to the first that it left out, are in
/// the file and in the index. Any other step leaves it as it is, moves it back to a
/// fork, or leaves it below the block to scan from.
pub proof fn law_start_never_skips(start: StartModel, event: StartEventModel)
    requires
        start.expects(event),
    ensures
        ({
            let after = start.next(event).0;
            ||| after.height == start.height
            ||| after.height < start.scan_from()
            ||| start.scan_from() > start.chain_height && after.height == start.chain_height
            ||| exists|fork: u32|
                #![trigger start.rewound(fork)]
                {
                    &&& after.entries == start.rewound(fork).entries
                    &&& after.height == start.rewound(fork).height || (start.rewound(
                        fork,
                    ).scan_from() > start.chain_height && after.height == start.chain_height)
                }
            ||| {
                &&& start.phase matches StartPhaseModel::Writing(added, to)
                &&& event matches StartEventModel::Written(Some(end))
                &&& offsets_fit(added, end)
                &&& after.entries == entries_added(start.entries, added, end)
                &&& after.height == to
            }
        }),
        start.next(event).0.phase matches StartPhaseModel::Writing(added, to) ==> (event matches
            StartEventModel::Scanned(Some((blocks, missed))) && added == layout(
            blocks_before(blocks, missed),
        ) && to <= start.chain_height && (missed matches Some(h) ==> to < h || h
            > start.chain_height) && (to < start.chain_height ==> missed is Some)),
{
    let fork = if let StartPhaseModel::Truncating(fork) = start.phase {
        fork
    } else {
        start.fork()
    };
    assert(start.rewound(fork).entries == index::entries_below(start.entries, fork));
}

// ---------------------------------------------------------------------------
// What a whole start comes to
// ---------------------------------------------------------------------------

/// A node and a file that never fail: the hash at each height, whether the file can
/// be cut off, what a scan of each range comes to, and how long the file is before
/// blocks are written.
pub struct StartWorld {
    pub hash: spec_fn(u32) -> Seq<char>,
    pub truncates: bool,
    pub scan: spec_fn(u32, u32) -> (Seq<BlockModel>, Option<u32>),
    pub end: u64,
}

impl StartWorld {
    /// What comes of an action.
    pub open spec fn event(self, action: StartActionModel) -> StartEventModel {
        match action {
            StartActionModel::AskHash(h) => StartEventModel::Hash(Some((self.hash)(h))),
            StartActionModel::Truncate(_) => StartEventModel::Truncated(self.truncates),
            StartActionModel::ScanRange(from, to) => StartEventModel::Scanned(
                Some((self.scan)(from, to)),
            ),
            StartActionModel::Write(_) => StartEventModel::Written(Some(self.end)),
            StartActionModel::Done => StartEventModel::Nothing,
        }
    }
}

/// The state at the end of a start that gets `event`, within `steps` more steps.
pub open spec fn start_run(
    start: StartModel,
    event: StartEventModel,
    world: StartWorld,
    steps: nat,
) -> Option<StartModel>
    decreases steps,
{
    let after = start.next(event);
    if after.1.action is Done {
        Some(after.0)
    } else if steps == 0 {
        None
    } else {
        start_run(after.0, world.event(after.1.action), world, (steps - 1) as nat)
    }
}

impl StartModel {
    /// The state from which scanning resumes: where the node has another block at the
    /// cursor, what stands from the fork on is dropped.
    pub open spec fn settled(self, hash: spec_fn(u32) -> Seq<char>) -> StartModel {
        if self.can_check() && hash(self.height) != self.hash {
            self.rewound(self.fork())
        } else {
            self
        }
    }
}

/// The index has what is taken in, and what it had.
proof fn lemma_added_heights(entries: Seq<IndexEntry>, added: Seq<(u32, u64, u64)>, end: u64)
    ensures
        forall|k: int|
            0 <= k < added.len() ==> index::heights(entries_added(entries, added, end)).contains(
                (#[trigger] added[k]).0,
            ),
        forall|h: u32| #[trigger]
            index::heights(entries).contains(h) ==> index::heights(
                entries_added(entries, added, end),
            ).contains(h),
    decreases added.len(),
{
    if added.len() > 0 {
        let init = added.drop_last();
        lemma_added_heights(entries, init, end);
        let before = entries_added(entries, init, end);
        let after = entries_added(entries, added, end);
        assert forall|h: u32| #[trigger] index::heights(before).contains(h) implies index::heights(
            after,
        ).contains(h) by {
            let k = choose|k: int|
                0 <= k < index::heights(before).len() && index::heights(before)[k] == h;
            assert(index::heights(after)[k] == h);
        }
        if !index::heights(before).contains(added.last().0) {
            assert(index::heights(after)[before.len() as int] == added.last().0);
        }
        assert forall|k: int| 0 <= k < added.len() implies index::heights(after).contains(
            (#[trigger] added[k]).0,
        ) by {
            if k < init.len() {
                assert(init[k] == added[k]);
            }
        }
    }
}

/// From the scan on: a start that has all blocks scanned and written ends at the tip.
proof fn lemma_start_from_scan(base: StartModel, world: StartWorld, new: Seq<BlockModel>)
    requires
        base.phase is Scanning,
        base.scan_from() <= base.chain_height,
        (world.scan)(base.scan_from() as u32, base.chain_height) == (new, None::<u32>),
        stream::stream_bytes(new, StreamFormat::PivxCompat).len() <= u64::MAX,
        offsets_fit(layout(new), world.end),
    ensures
        start_run(
            base,
            world.event(
                StartActionModel::ScanRange(base.scan_from() as u32, base.chain_height),
            ),
            world,
            2,
        ) == Some(
            StartModel {
                entries: entries_added(base.entries, layout(new), world.end),
                height: base.chain_height,
                hash: (world.hash)(base.chain_height),
                phase: StartPhaseModel::Finished,
                ..base
            },
        ),
{
    let a = base.next(StartEventModel::Scanned(Some((new, None))));
    let b = a.0.next(StartEventModel::Written(Some(world.end)));
    let hash = StartEventModel::Hash(Some((world.hash)(base.chain_height)));
    let c = b.0.next(hash);
    assert(c.1.action is Done);
    assert(start_run(b.0, hash, world, 0) == Some(c.0));
    assert(start_run(a.0, StartEventModel::Written(Some(world.end)), world, 1) == start_run(
        b.0,
        hash,
        world,
        0,
    ));
}

/// From where scanning resumes: to the tip.
proof fn lemma_start_from_settled(base: StartModel, world: StartWorld, new: Seq<BlockModel>)
    requires
        base.scan_from() <= base.chain_height ==> (world.scan)(
            base.scan_from() as u32,
            base.chain_height,
        ) == (new, None::<u32>),
        base.scan_from() > base.chain_height ==> new.len() == 0,
        stream::stream_bytes(new, StreamFormat::PivxCompat).len() <= u64::MAX,
        offsets_fit(layout(new), world.end),
    ensures
        base.to_scan().1.action !is Done,
        start_run(base.to_scan().0, world.event(base.to_scan().1.action), world, 2) == Some(
            StartModel {
                entries: entries_added(base.entries, layout(new), world.end),
                height: base.chain_height,
                hash: (world.hash)(base.chain_height),
                phase: StartPhaseModel::Finished,
                ..base
            },
        ),
{
    if base.scan_from() <= base.chain_height {
        lemma_start_from_scan(base.at(StartPhaseModel::Scanning), world, new);
    } else {
        assert(layout(new) =~= Seq::empty());
        let a = base.to_scan();
        assert(a.0.next(world.event(a.1.action)).1.action is Done);
    }
}

/// One more step of a start that is not done.
proof fn lemma_start_goes_on(
    start: StartModel,
    event: StartEventModel,
    world: StartWorld,
    steps: nat,
)
    requires
        start.next(event).1.action !is Done,
    ensures
        start_run(start, event, world, steps + 1) == start_run(
            start.next(event).0,
            world.event(start.next(event).1.action),
            world,
            steps,
        ),
{
}

/// A start that has an end keeps it, however many more steps it may take.
proof fn lemma_start_is_stable(
    start: StartModel,
    event: StartEventModel,
    world: StartWorld,
    steps: nat,
    more: nat,
)
    requires
        start_run(start, event, world, steps) is Some,
        steps <= more,
    ensures
        start_run(start, event, world, more) == start_run(start, event, world, steps),
    decreases steps,
{
    let after = start.next(event);
    if after.1.action !is Done {
        lemma_start_is_stable(
            after.0,
            world.event(after.1.action),
            world,
            (steps - 1) as nat,
            (more - 1) as nat,
        );
    }
}

/// A whole start: where the node answers every request, all blocks can be scanned and
/// the write succeeds, the network ends with the cursor at the height of the chain
/// and with the hash of the block there. The index then has every shield block from
/// the height to scan from up to the tip, besides all that it had. Where it mirrored
/// the file, it mirrors the file with the new blocks.
#[verifier::spinoff_prover]
pub proof fn law_start_catches_up(
    start: StartModel,
    world: StartWorld,
    node: NodeModel,
    cache: CacheModel,
    file: Seq<u8>,
    blocks: Seq<BlockModel>,
)
    requires
        start.phase is Start,
        world.hash == node.hash,
        world.end == file.len(),
        ({
            let base = start.settled(world.hash);
            let from = base.scan_from() as u32;
            let to = start.chain_height;
            base.scan_from() <= to ==> {
                &&& node.chained(from, to)
                &&& node.agrees(cache, from, to)
                &&& node.unreadable(from as int, to) is None
                &&& scan::comes_to(from, to, cache, node, (world.scan)(from, to))
                &&& file.len() + stream::stream_bytes(
                    node.shield_blocks(from as int, to),
                    StreamFormat::PivxCompat,
                ).len() <= u64::MAX
            }
        }),
    ensures
        start_run(start, StartEventModel::Nothing, world, 5) matches Some(end) && {
            let base = start.settled(world.hash);
            let new = node.shield_blocks(base.scan_from(), start.chain_height);
            &&& end.height == start.chain_height
            &&& end.hash == (world.hash)(start.chain_height)
            &&& forall|h: u32|
                base.scan_from() <= h <= start.chain_height ==> ((#[trigger] node.yields(
                    h,
                )) matches Ok(Some(_)) ==> index::heights(end.entries).contains(h))
            &&& forall|h: u32| #[trigger]
                index::heights(base.entries).contains(h) ==> index::heights(
                    end.entries,
                ).contains(h)
            &&& store::mirrors(base.entries, file, blocks) && (base.entries.len() > 0
                ==> base.entries.last().block < base.scan_from()) ==> store::mirrors(
                end.entries,
                file + stream::stream_bytes(new, StreamFormat::PivxCompat),
                blocks + new,
            )
        },
{
    let format = StreamFormat::PivxCompat;
    let base = start.settled(world.hash);
    let from = base.scan_from();
    let to = start.chain_height;
    let new = node.shield_blocks(from, to);
    if from <= to {
        scan::lemma_comes_to_all(from as u32, to, cache, node, (world.scan)(from as u32, to));
    } else {
        assert(stream::block_parts(new, format) =~= Seq::empty());
    }
    scan::lemma_shield_blocks(node, from, to);
    assert(offsets_fit(layout(new), world.end)) by {
        assert forall|k: int| 0 <= k < layout(new).len() implies world.end + (#[trigger] layout(
            new,
        )[k]).1 <= u64::MAX by {
            store::lemma_stream_split(new, k, format);
        }
    }
    lemma_start_from_settled(base, world, new);
    let entries = entries_added(base.entries, layout(new), world.end);
    lemma_added_heights(base.entries, layout(new), world.end);
    assert forall|h: u32| from <= h <= to implies ((#[trigger] node.yields(h)) matches Ok(Some(_))
        ==> index::heights(entries).contains(h)) by {
        if let Ok(Some(block)) = node.yields(h) {
            let k = choose|k: int| 0 <= k < new.len() && new[k] == block;
            assert(layout(new)[k].0 == h);
        }
    }
    if store::mirrors(base.entries, file, blocks) && (base.entries.len() > 0
        ==> base.entries.last().block < from) {
        law_taking_in_keeps_mirror(base.entries, file, blocks, new);
    }
    // To where scanning resumes
    let first = start.next(StartEventModel::Nothing);
    let scanning = base.to_scan();
    let event = world.event(scanning.1.action);
    if !start.can_check() {
        assert(first == scanning);
        lemma_start_is_stable(scanning.0, event, world, 2, 4);
        lemma_start_goes_on(start, StartEventModel::Nothing, world, 4);
    } else {
        lemma_start_goes_on(start, StartEventModel::Nothing, world, 4);
        let reply = StartEventModel::Hash(Some((world.hash)(start.height)));
        let second = first.0.next(reply);
        lemma_start_goes_on(first.0, reply, world, 3);
        if (world.hash)(start.height) == start.hash {
            assert(second.0 == scanning.0 && second.1.action == scanning.1.action);
            lemma_start_is_stable(scanning.0, event, world, 2, 3);
        } else if index::offset_from(start.entries, start.fork()) is None {
            assert(second.0 == scanning.0 && second.1.action == scanning.1.action);
            lemma_start_is_stable(scanning.0, event, world, 2, 3);
        } else {
            let cut = StartEventModel::Truncated(world.truncates);
            let third = second.0.next(cut);
            assert(third.0 == scanning.0 && third.1.action == scanning.1.action);
            lemma_start_goes_on(second.0, cut, world, 2);
        }
    }
}

// ---------------------------------------------------------------------------
// Where a start scans and what it drops
// ---------------------------------------------------------------------------

/// Where a start begins. Where the last scanned block is known by its hash, the node is
/// asked for the hash at its height. Otherwise the scan begins right above what was
/// scanned, if that reaches the height from which on there is shield data; else right
/// above the last indexed block; else at that height. It goes up to the height of the
/// chain, and where nothing is left, the cursor moves there.
pub proof fn law_where_a_start_begins(start: StartModel)
    requires
        start.phase == StartPhaseModel::Start,
    ensures
        ({
            let (after, step) = start.next(StartEventModel::Nothing);
            let from = if start.height >= start.sapling_height {
                start.height + 1
            } else if start.entries.len() > 0 {
                start.entries[start.entries.len() - 1].block + 1
            } else {
                start.sapling_height as int
            };
            &&& after.entries == start.entries
            &&& start.hash.len() > 0 && start.height > 0 ==> {
                &&& step.action == StartActionModel::AskHash(start.height)
                &&& after == (StartModel { phase: StartPhaseModel::AskedCheck, ..start })
            }
            &&& (start.hash.len() == 0 || start.height == 0) && from <= start.chain_height ==> {
                &&& step.action == StartActionModel::ScanRange(from as u32, start.chain_height)
                &&& after == (StartModel { phase: StartPhaseModel::Scanning, ..start })
            }
            &&& (start.hash.len() == 0 || start.height == 0) && from > start.chain_height ==> {
                &&& step.action == StartActionModel::AskHash(start.chain_height)
                &&& after.height == start.chain_height
            }
        }),
{
}

/// A check that the node confirms, or fails to answer, drops nothing: the start goes on as
/// it would have without one.
pub proof fn law_confirmed_cursor_is_kept(start: StartModel, hash: Option<Seq<char>>)
    requires
        start.phase == StartPhaseModel::AskedCheck,
        hash is None || hash == Some(start.hash),
    ensures
        ({
            let (after, step) = start.next(StartEventModel::Hash(hash));
            let unchecked = StartModel {
                hash: Seq::empty(),
                phase: StartPhaseModel::Start,
                ..start
            }.next(StartEventModel::Nothing);
            &&& after.entries == start.entries
            &&& step == unchecked.1
            &&& after.phase == unchecked.0.phase
            &&& after.height == unchecked.0.height
            &&& after.height == start.height ==> after.hash == start.hash
        }),
{
}

/// Where the node has another block at the height of the cursor, the start goes back to
/// the last indexed block below. What is indexed above that is dropped: the file is cut
/// off where the first of it begins, if there is any, the index keeps what stands before,
/// and the cursor stands on that block without a hash, or at the very beginning where
/// there is none. Index and cursor are saved.
#[verifier::spinoff_prover]
pub proof fn law_orphaned_cursor_is_rolled_back(
    start: StartModel,
    hash: Seq<char>,
    p: int,
    cut: bool,
)
    requires
        start.phase == StartPhaseModel::AskedCheck,
        hash != start.hash,
        index::ascending(index::heights(start.entries)),
        0 < start.height,
        0 <= p <= start.entries.len(),
        forall|k: int| 0 <= k < p ==> (#[trigger] start.entries[k]).block < start.height,
        p < start.entries.len() ==> start.entries[p].block >= start.height,
        start.sapling_height <= start.chain_height,
        start.height <= start.chain_height,
    ensures
        ({
            let (asked, first) = start.next(StartEventModel::Hash(Some(hash)));
            let (after, step) = if p < start.entries.len() {
                asked.next(StartEventModel::Truncated(cut))
            } else {
                (asked, first)
            };
            &&& p < start.entries.len() ==> first.action == StartActionModel::Truncate(
                start.entries[p].i,
            ) && asked.entries == start.entries && asked.height == start.height
            &&& after.entries == start.entries.take(p)
            &&& after.height == (if p > 0 {
                start.entries[p - 1].block
            } else {
                0
            })
            &&& after.hash.len() == 0
            &&& step.save_index && step.save_cursor
            &&& step.action == StartActionModel::ScanRange(
                (if after.height >= start.sapling_height {
                    after.height + 1
                } else if p > 0 {
                    start.entries[p - 1].block + 1
                } else {
                    start.sapling_height as int
                }) as u32,
                start.chain_height,
            )
        }),
{
    let s = index::heights(start.entries);
    assert forall|k: int| 0 <= k < p implies #[trigger] s[k] < start.height by {
        assert(start.entries[k].block < start.height);
    }
    index::law_last_below_in_order(s, start.height, p);
    let fork = start.fork();
    assert forall|k: int| 0 <= k < p implies (#[trigger] start.entries[k]).block < fork by {
        if k < p - 1 {
            assert(s[k] < s[p - 1]);
        }
    }
    index::law_offset_from(start.entries, fork, p);
    index::law_entries_below(start.entries, fork, p);
}

/// The test network logs in as it is told to, and as the main network does where nothing
/// is said.
pub proof fn law_login_falls_back(own: Option<String>, main: String)
    ensures
        own matches Some(s) ==> text_or(own, main) == s@,
        own is None ==> text_or(own, main) == main@,
{
}

/// A start ends where it reached, with the hash that the node has there, or with what was
/// known of it before where the node fails. The cursor is saved, and the index stays as it
/// was.
pub proof fn law_start_ends_where_it_reached(start: StartModel, hash: Option<Seq<char>>)
    requires
        start.phase == StartPhaseModel::AskedHash,
    ensures
        ({
            let (after, step) = start.next(StartEventModel::Hash(hash));
            &&& after == (StartModel {
                hash: if hash is Some {
                    hash->0
                } else {
                    start.hash
                },
                phase: StartPhaseModel::Finished,
                ..start
            })
            &&& step.save_cursor
            &&& step.action == StartActionModel::Done
        }),
{
}

/// Blocks that were not indexed are taken in one behind the other: what was indexed stays
/// in front, and each block is entered at the height that it has and at the place that it
/// has among the blocks, moved up by what the file held before. The index is saved.
pub proof fn law_written_blocks_are_entered(
    start: StartModel,
    added: Seq<(u32, u64, u64)>,
    to: u32,
    end: u64,
)
    requires
        start.phase == StartPhaseModel::Writing(added, to),
        forall|k: int| 0 <= k < added.len() ==> end + (#[trigger] added[k]).1 <= u64::MAX,
        forall|j: int, k: int|
            0 <= j < k < added.len() ==> (#[trigger] added[j]).0 != (#[trigger] added[k]).0,
        forall|j: int, k: int|
            0 <= j < start.entries.len() && 0 <= k < added.len() ==> (
            #[trigger] start.entries[j]).block != (#[trigger] added[k]).0,
    ensures
        ({
            let (after, step) = start.next(StartEventModel::Written(Some(end)));
            let n = start.entries.len() as int;
            &&& after.entries.len() == n + added.len()
            &&& after.entries.take(n) == start.entries
            &&& forall|k: int|
                #![trigger added[k]]
                0 <= k < added.len() ==> after.entries[n + k].block == added[k].0
                    && after.entries[n + k].i == end + added[k].1
            &&& after.height == to
            &&& step.save_index
            &&& step.action == StartActionModel::AskHash(to)
        }),
{
    assert(offsets_fit(added, end));
    lemma_entries_added(start.entries, added, end);
}

/// Entries at new heights are put behind those that are there, each in its place.
proof fn lemma_entries_added(entries: Seq<IndexEntry>, added: Seq<(u32, u64, u64)>, end: u64)
    requires
        forall|k: int| 0 <= k < added.len() ==> end + (#[trigger] added[k]).1 <= u64::MAX,
        forall|j: int, k: int|
            0 <= j < k < added.len() ==> (#[trigger] added[j]).0 != (#[trigger] added[k]).0,
        forall|j: int, k: int|
            0 <= j < entries.len() && 0 <= k < added.len() ==> (#[trigger] entries[j]).block != (
            #[trigger] added[k]).0,
    ensures
        ({
            let all = entries_added(entries, added, end);
            let n = entries.len() as int;
            &&& all.len() == n + added.len()
            &&& all.take(n) == entries
            &&& forall|k: int|
                #![trigger added[k]]
                0 <= k < added.len() ==> all[n + k].block == added[k].0 && all[n + k].i == end
                    + added[k].1
        }),
    decreases added.len(),
{
    let n = entries.len() as int;
    if added.len() == 0 {
        assert(entries.take(n) =~= entries);
    } else {
        let rest = added.drop_last();
        let last = added.len() - 1;
        lemma_entries_added(entries, rest, end);
        let before = entries_added(entries, rest, end);
        let all = entries_added(entries, added, end);
        if index::heights(before).contains(added.last().0) {
            let j = choose|j: int|
                0 <= j < before.len() && index::heights(before)[j] == added.last().0;
            if j < n {
                assert(before.take(n)[j] == entries[j]);
                assert(entries[j].block != added[last].0);
            } else {
                assert(rest[j - n] == added[j - n]);
                assert(added[j - n].0 != added[last].0);
            }
        }
        assert(end + added[last].1 <= u64::MAX);
        assert(all.take(n) =~= before.take(n));
        assert forall|k: int|
            #![trigger added[k]]
            0 <= k < added.len() implies all[n + k].block == added[k].0 && all[n + k].i == end
            + added[k].1 by {
            if k < last {
                assert(rest[k] == added[k]);
                assert(all[n + k] == before[n + k]);
            }
        }
    }
}

} // verus!
