//! Scanning, indexing and starting up, against a node that is played in memory.

use pivx_bridge::api::StreamFormat;
use pivx_bridge::block_cache::BlockCache;
use pivx_bridge::config::Config;
use pivx_bridge::fork;
use pivx_bridge::index::{IndexEntry, ScanCursor, ShieldIndex};
use pivx_bridge::indexer::{index_new_blocks, PassAction, PassEvent, ShieldStore};
use pivx_bridge::json::Json;
use pivx_bridge::network::{self, init_network, StartAction, StartEvent, Startup};
use pivx_bridge::scan::{scan_block, scan_range, BlockStep, RangeStep, Reply, Request};
use pivx_bridge::scanner::{ScanError, ShieldBlock};
use pivx_bridge::stream;

fn text(s: &str) -> Json {
    Json::Text(s.to_string())
}

fn object(fields: Vec<(&str, Json)>) -> Json {
    Json::Object(fields.into_iter().map(|(k, v)| (k.to_string(), v)).collect())
}

/// A raw transaction with one output and no spends, in hex.
fn shield_hex(seed: u8) -> String {
    let mut tx = vec![3, 0, 0, 0, 0, 0, 0, 0, 0, 0, 1];
    tx.extend([0u8; 8]);
    tx.extend([0, 1]);
    tx.extend(vec![seed; 948]);
    tx.extend([9u8; 64]);
    tx.iter().map(|b| format!("{b:02x}")).collect()
}

/// A chain whose lowest block is at height 1.
struct Node {
    /// For each block its hash and the transactions it lists.
    blocks: Vec<(String, Vec<Json>)>,
    /// Hashes of blocks that the node fails to hand out.
    broken: Vec<String>,
    /// Heights whose hash the node fails to hand out.
    silent: Vec<u32>,
    /// Whether blocks name their successor.
    chained: bool,
    /// The raw transaction behind every id.
    raw: Option<String>,
}

impl Node {
    /// A chain in which the listed heights hold a shield transaction.
    fn new(branch: &str, height: u32, shielded: &[u32]) -> Node {
        let blocks = (1..=height)
            .map(|h| {
                let txs = if shielded.contains(&h) {
                    vec![object(vec![("hex", Json::Text(shield_hex(h as u8)))])]
                } else {
                    vec![object(vec![("hex", text("01000000"))])]
                };
                (format!("{branch}{h}"), txs)
            })
            .collect();
        Node { blocks, broken: vec![], silent: vec![], chained: true, raw: None }
    }

    /// Replace the blocks from `from` on by those of another chain.
    fn reorganise(&mut self, from: u32, other: Node) {
        self.blocks.truncate(from as usize - 1);
        self.blocks.extend(other.blocks.into_iter().skip(from as usize - 1));
    }

    fn height(&self) -> u32 {
        self.blocks.len() as u32
    }

    fn hash(&self, height: u32) -> Result<String, String> {
        if self.silent.contains(&height) || height == 0 {
            return Err("Block height out of range".to_string());
        }
        match self.blocks.get(height as usize - 1) {
            Some((hash, _)) => Ok(hash.clone()),
            None => Err("Block height out of range".to_string()),
        }
    }

    fn block(&self, hash: &str) -> Result<Json, String> {
        let found = self.blocks.iter().position(|(h, _)| h == hash);
        match found {
            Some(at) if !self.broken.contains(&hash.to_string()) => {
                let mut fields = vec![
                    ("hash", text(hash)),
                    ("height", Json::PosInt(at as u64 + 1)),
                    ("time", Json::PosInt(1000 + at as u64 + 1)),
                    ("tx", Json::Array(self.blocks[at].1.clone())),
                ];
                if at > 0 {
                    fields.push(("previousblockhash", text(&self.blocks[at - 1].0)));
                }
                if self.chained && at + 1 < self.blocks.len() {
                    fields.push(("nextblockhash", text(&self.blocks[at + 1].0)));
                }
                Ok(object(fields))
            }
            _ => Err("Block not found".to_string()),
        }
    }

    fn answer(&self, request: Request) -> Reply {
        match request {
            Request::BlockHash(height) => Reply::BlockHash(self.hash(height)),
            Request::Block(hash) => Reply::Block(self.block(&hash)),
            Request::RawTxs(ids) => Reply::RawTxs(
                ids.into_iter()
                    .map(|id| id.and_then(|_| self.raw.clone()).map(Json::Text))
                    .collect(),
            ),
        }
    }

    fn scan(&self, height: u32, cache: &mut BlockCache) -> Result<Option<ShieldBlock>, ScanError> {
        let mut scan = scan_block(height, self.height());
        let mut reply = Reply::Nothing;
        loop {
            match scan.step(cache, reply) {
                BlockStep::Continue => reply = Reply::Nothing,
                BlockStep::Ask(request) => reply = self.answer(request),
                BlockStep::Done(result) => return result,
            }
        }
    }

    fn scan_range(
        &self,
        start: u32,
        end: u32,
        cache: &mut BlockCache,
    ) -> Result<Vec<ShieldBlock>, ScanError> {
        self.scan_part(start, end, cache).map(|(blocks, _)| blocks)
    }

    /// What was found in a range, and the first height that was left out.
    fn scan_part(
        &self,
        start: u32,
        end: u32,
        cache: &mut BlockCache,
    ) -> Result<(Vec<ShieldBlock>, Option<u32>), ScanError> {
        let mut scan = scan_range(start, end, self.height());
        let mut reply = Reply::Nothing;
        loop {
            match scan.step(cache, reply) {
                RangeStep::Continue => reply = Reply::Nothing,
                RangeStep::Ask(request) => reply = self.answer(request),
                RangeStep::Done(blocks) => return Ok((blocks, scan.missed)),
                RangeStep::Failed(e) => return Err(e),
            }
        }
    }
}

fn heights(blocks: &[ShieldBlock]) -> Vec<u32> {
    blocks.iter().map(|b| b.height).collect()
}

/// Everything that a network keeps: the file, what was saved, what is served.
struct Disk {
    file: Vec<u8>,
    store: ShieldStore,
    cache: BlockCache,
    saved_index: Vec<u32>,
    saved_cursor: (u32, String),
    writable: bool,
    truncatable: bool,
    scanned: Vec<u32>,
}

impl Disk {
    fn new(height: u32) -> Disk {
        Disk {
            file: vec![],
            store: ShieldStore {
                index: ShieldIndex::new(),
                buffer: vec![],
                cursor: ScanCursor { last_scanned_height: height, last_scanned_hash: String::new() },
                chain_height: 0,
            },
            cache: BlockCache::new(1000),
            saved_index: vec![],
            saved_cursor: (0, String::new()),
            writable: true,
            truncatable: true,
            scanned: vec![],
        }
    }

    /// Run one indexing pass against the node.
    fn pass(&mut self, node: &Node) {
        let mut pass = index_new_blocks();
        let mut event = PassEvent::Nothing;
        loop {
            let step = pass.step(&mut self.store, &mut self.cache, event);
            if step.save_index {
                self.saved_index = self.store.index.shield_heights.clone();
            }
            if let Some(cursor) = step.save_cursor {
                self.saved_cursor = (cursor.last_scanned_height, cursor.last_scanned_hash);
            }
            event = match step.action {
                PassAction::AskCount => {
                    PassEvent::Count(if node.height() > 0 { Some(node.height() as u64) } else { None })
                }
                PassAction::AskHash(height) => PassEvent::Hash(node.hash(height).ok()),
                PassAction::AskBlock(hash) => PassEvent::Block(node.block(&hash).ok()),
                PassAction::Truncate(offset) => {
                    if self.truncatable {
                        self.file.truncate(offset as usize);
                    }
                    PassEvent::Truncated(self.truncatable)
                }
                PassAction::Scan(height) => {
                    self.scanned.push(height);
                    PassEvent::Scanned(node.scan(height, &mut self.cache))
                }
                PassAction::Write(bytes) => {
                    let offset = self.file.len() as u64;
                    if self.writable {
                        self.file.extend(bytes);
                    }
                    PassEvent::Written(if self.writable { Some(offset) } else { None })
                }
                PassAction::Done => return,
            };
        }
    }

    fn cursor(&self) -> (u32, &str) {
        (self.store.cursor.last_scanned_height, self.store.cursor.last_scanned_hash.as_str())
    }
}

// ---------------------------------------------------------------------------
// Scanning
// ---------------------------------------------------------------------------

#[test]
fn a_block_is_scanned_and_cached() {
    let node = Node::new("a", 10, &[4]);
    let mut cache = BlockCache::new(10);
    let block = node.scan(4, &mut cache).ok().unwrap().unwrap();
    assert_eq!((block.height, block.time, block.txs.len()), (4, 1004, 1));
    assert!(node.scan(5, &mut cache).ok().unwrap().is_none());

    // What is cached is not asked for again
    let mut mute = Node::new("a", 10, &[4]);
    mute.broken = mute.blocks.iter().map(|(hash, _)| hash.clone()).collect();
    mute.silent = (1..=10).collect();
    assert_eq!(mute.scan(4, &mut cache).ok().unwrap().unwrap().height, 4);
}

#[test]
fn a_block_has_its_own_height() {
    let mut cache = BlockCache::new(10);
    let block = object(vec![
        ("height", Json::PosInt(77)),
        ("tx", Json::Array(vec![object(vec![("hex", Json::Text(shield_hex(1)))])])),
    ]);
    let mut scan = scan_block(4, 10);
    assert!(matches!(scan.step(&mut cache, Reply::Nothing), BlockStep::Ask(Request::BlockHash(4))));
    let hash = Reply::BlockHash(Ok("h".to_string()));
    assert!(matches!(scan.step(&mut cache, hash), BlockStep::Continue));
    assert!(matches!(scan.step(&mut cache, Reply::Nothing), BlockStep::Ask(Request::Block(_))));
    assert!(matches!(
        scan.step(&mut cache, Reply::Block(Ok(block))),
        BlockStep::Ask(Request::RawTxs(_))
    ));
    match scan.step(&mut cache, Reply::RawTxs(vec![None])) {
        BlockStep::Done(Ok(Some(found))) => assert_eq!((found.height, found.time), (77, 0)),
        _ => panic!("the block has a shield transaction"),
    }
}

#[test]
fn named_transactions_are_asked_for() {
    let mut node = Node::new("a", 3, &[]);
    node.blocks[1].1 = vec![text("id")];
    assert!(node.scan(2, &mut BlockCache::new(10)).ok().unwrap().is_none());
    node.raw = Some(shield_hex(5));
    let block = node.scan(2, &mut BlockCache::new(10)).ok().unwrap().unwrap();
    assert_eq!(block.txs.len(), 1);
}

#[test]
fn failed_scans_say_why() {
    let mut node = Node::new("a", 10, &[4]);
    node.broken = vec!["a4".to_string()];
    let mut cache = BlockCache::new(10);
    assert_eq!(
        node.scan(11, &mut cache).err().unwrap().message(),
        "scanner RPC error: getblockhash(11): Block height out of range"
    );
    assert_eq!(
        node.scan(4, &mut cache).err().unwrap().message(),
        "scanner RPC error: getblock(a4): Block not found"
    );
}

#[test]
fn ranges_are_chained() {
    let mut node = Node::new("a", 10, &[2, 4, 5, 9]);
    assert_eq!(heights(&node.scan_range(2, 8, &mut BlockCache::new(10)).ok().unwrap()), vec![2, 4, 5]);
    assert!(node.scan_range(6, 8, &mut BlockCache::new(10)).ok().unwrap().is_empty());
    assert!(node.scan_range(8, 6, &mut BlockCache::new(10)).ok().unwrap().is_empty());

    // Without successors, by height
    node.chained = false;
    assert_eq!(heights(&node.scan_range(1, 10, &mut BlockCache::new(10)).ok().unwrap()), vec![2, 4, 5, 9]);

    // A block that cannot be had is passed over
    node.broken = vec!["a4".to_string()];
    assert_eq!(heights(&node.scan_range(1, 10, &mut BlockCache::new(10)).ok().unwrap()), vec![2, 5, 9]);

    // Without the next hash the scan ends with what it found
    node.silent = vec![6];
    assert_eq!(heights(&node.scan_range(1, 10, &mut BlockCache::new(10)).ok().unwrap()), vec![2, 5]);
    node.silent = vec![5];
    assert_eq!(heights(&node.scan_range(1, 10, &mut BlockCache::new(10)).ok().unwrap()), vec![2]);

    // Without the first hash there is no scan
    node.silent = vec![1];
    assert_eq!(
        node.scan_range(1, 10, &mut BlockCache::new(10)).err().unwrap().message(),
        "scanner RPC error: getblockhash(1): Block height out of range"
    );
}

#[test]
fn what_a_scan_leaves_out_is_noted() {
    let mut node = Node::new("a", 10, &[2, 4, 5, 9]);
    let part = |node: &Node| {
        let (blocks, missed) = node.scan_part(1, 10, &mut BlockCache::new(10)).ok().unwrap();
        (heights(&blocks), missed)
    };
    assert_eq!(part(&node), (vec![2, 4, 5, 9], None));
    // The first block that cannot be had
    node.broken = vec!["a4".to_string(), "a7".to_string()];
    assert_eq!(part(&node), (vec![2, 5, 9], Some(4)));
    // A hash that cannot be had
    node.chained = false;
    node.broken.clear();
    node.silent = vec![6];
    assert_eq!(part(&node), (vec![2, 4, 5], Some(6)));
    // A block without transactions
    let mut cache = BlockCache::new(10);
    let bare = object(vec![("hash", text("a3")), ("height", Json::PosInt(3))]);
    cache.insert("a3", 2, &bare);
    node.silent.clear();
    let (blocks, missed) = node.scan_part(1, 10, &mut cache).ok().unwrap();
    assert_eq!((heights(&blocks), missed), (vec![2, 4, 5, 9], Some(3)));
    // Nothing is left out of nothing
    assert_eq!(node.scan_part(8, 6, &mut BlockCache::new(10)).ok().unwrap().1, None);
}

/// Every progress that a scan of the range reports.
fn progress(node: &Node, start: u32, end: u32, cache: &mut BlockCache) -> Vec<(u64, u64)> {
    let mut scan = scan_range(start, end, node.height());
    let mut reply = Reply::Nothing;
    let mut reports = vec![];
    loop {
        let step = scan.step(cache, reply);
        reports.extend(scan.progress());
        match step {
            RangeStep::Continue => reply = Reply::Nothing,
            RangeStep::Ask(request) => reply = node.answer(request),
            RangeStep::Done(_) | RangeStep::Failed(_) => return reports,
        }
    }
}

#[test]
fn progress_is_reported_for_every_block_and_at_the_end() {
    let mut node = Node::new("a", 10, &[4]);
    let mut cache = BlockCache::new(100);
    assert_eq!(progress(&node, 7, 7, &mut cache), vec![(0, 1), (1, 1)]);
    assert_eq!(progress(&node, 3, 5, &mut cache), vec![(0, 3), (1, 3), (2, 3), (3, 3)]);
    // Of cached blocks too, and of such that cannot be had
    assert_eq!(progress(&node, 3, 5, &mut cache), vec![(0, 3), (1, 3), (2, 3), (3, 3)]);
    node.broken = vec!["a9".to_string()];
    assert_eq!(progress(&node, 8, 10, &mut cache), vec![(0, 3), (1, 3), (2, 3), (3, 3)]);
    // A scan that ends early is complete, one that fails is not
    node.silent = vec![2];
    node.chained = false;
    assert_eq!(progress(&node, 1, 3, &mut BlockCache::new(10)), vec![(0, 3), (3, 3)]);
    node.silent = vec![1];
    assert!(progress(&node, 1, 3, &mut BlockCache::new(10)).is_empty());
}

#[test]
fn cached_blocks_are_followed_by_their_heights() {
    let node = Node::new("a", 10, &[2, 4]);
    let mut cache = BlockCache::new(100);
    node.scan_range(1, 10, &mut cache).ok().unwrap();
    let mut mute = Node::new("a", 10, &[]);
    mute.silent = (1..=10).collect();
    mute.broken = mute.blocks.iter().map(|(hash, _)| hash.clone()).collect();
    assert_eq!(heights(&mute.scan_range(1, 10, &mut cache).ok().unwrap()), vec![2, 4]);
}

// ---------------------------------------------------------------------------
// Forks
// ---------------------------------------------------------------------------

#[test]
fn a_fork_is_searched_downwards() {
    let mut search = fork::find_fork_point(100);
    assert_eq!((search.limit, search.at), (0, 99));
    assert_eq!(search.pending(), Some(99));
    // Differing, unknown, common
    assert_eq!(search.step(Some("a"), Some("b")), None);
    assert_eq!(search.pending(), Some(98));
    assert_eq!(search.step(None, Some("b")), None);
    assert_eq!(search.step(Some("c"), Some("c")), Some(98));

    // A failure of the node ends it
    let mut search = fork::find_fork_point(100);
    assert_eq!(search.step(Some("a"), None), Some(100));

    // So does the limit
    let mut search = fork::find_fork_point(1003);
    assert_eq!((search.limit, search.at), (3, 1002));
    for _ in 4..=1002 {
        assert!(search.pending().is_some());
        assert_eq!(search.step(None, Some("x")), None);
    }
    assert_eq!(search.pending(), None);
    assert_eq!(search.exhausted(), 4);
    assert_eq!(fork::find_fork_point(0).pending(), None);
}

#[test]
fn a_fork_without_hashes_is_above_the_last_indexed_block() {
    let index = ShieldIndex::from_entries(vec![
        IndexEntry { block: 10, i: 0 },
        IndexEntry { block: 20, i: 5 },
        IndexEntry { block: 30, i: 9 },
    ]);
    assert_eq!(fork::find_fork_point_via_rpc(25, &index), 21);
    assert_eq!(fork::find_fork_point_via_rpc(20, &index), 11);
    assert_eq!(fork::find_fork_point_via_rpc(31, &index), 31);
    assert_eq!(fork::find_fork_point_via_rpc(5, &index), 1);
}

// ---------------------------------------------------------------------------
// Indexing
// ---------------------------------------------------------------------------

#[test]
fn a_pass_takes_in_all_new_blocks() {
    let node = Node::new("a", 10, &[4, 7]);
    let mut disk = Disk::new(2);
    disk.pass(&node);
    assert_eq!(disk.scanned, (3..=10).collect::<Vec<u32>>());
    assert_eq!(disk.store.index.shield_heights, vec![4, 7]);
    assert_eq!(disk.store.buffer, disk.file);
    assert_eq!(disk.cursor(), (10, "a10"));
    assert_eq!(disk.saved_index, vec![4, 7]);
    assert_eq!(disk.saved_cursor, (10, "a10".to_string()));
    assert_eq!(disk.store.chain_height, 10);
    let blocks = node.scan_range(1, 10, &mut BlockCache::new(10)).ok().unwrap();
    assert_eq!(disk.file, stream::encode_shield_stream(&blocks, StreamFormat::PivxCompat));
    assert_eq!(disk.store.index.entries[1].i as usize, stream::encode_shield_stream(&blocks[..1], StreamFormat::PivxCompat).len());

    // Nothing is left for another pass
    disk.scanned.clear();
    disk.pass(&node);
    assert!(disk.scanned.is_empty());
}

#[test]
fn a_pass_never_skips_a_block() {
    let mut node = Node::new("a", 10, &[4, 7]);
    node.broken = vec!["a6".to_string()];
    let mut disk = Disk::new(0);
    disk.pass(&node);
    assert_eq!(disk.cursor(), (5, "a5"));
    assert_eq!(disk.store.index.shield_heights, vec![4]);
    disk.pass(&node);
    assert_eq!(disk.cursor(), (5, "a5"));
    node.broken.clear();
    disk.pass(&node);
    assert_eq!(disk.cursor(), (10, "a10"));
    assert_eq!(disk.store.index.shield_heights, vec![4, 7]);
}

#[test]
fn a_failed_write_does_not_reach_the_index() {
    let node = Node::new("a", 10, &[4]);
    let mut disk = Disk::new(0);
    disk.writable = false;
    disk.pass(&node);
    assert!(disk.store.index.shield_heights.is_empty());
    assert!(disk.store.buffer.is_empty());
    assert!(disk.file.is_empty());
    assert_eq!(disk.cursor(), (3, "a3"));
    assert_eq!(disk.saved_cursor, (3, "a3".to_string()));
    assert!(disk.saved_index.is_empty());

    // The next pass takes up the block that was not written
    disk.writable = true;
    disk.scanned.clear();
    disk.pass(&node);
    assert_eq!(disk.scanned, (4..=10).collect::<Vec<u32>>());
    assert_eq!(disk.store.index.shield_heights, vec![4]);
    assert_eq!(disk.store.buffer, disk.file);
    assert_eq!(disk.cursor(), (10, "a10"));
}

#[test]
fn a_later_write_that_fails_keeps_what_was_written() {
    let node = Node::new("a", 10, &[4, 7]);
    let mut disk = Disk::new(0);
    disk.pass(&Node::new("a", 5, &[4]));
    let written = disk.file.clone();
    disk.writable = false;
    disk.pass(&node);
    assert_eq!(disk.store.index.shield_heights, vec![4]);
    assert_eq!(disk.store.buffer, written);
    assert_eq!(disk.cursor(), (6, "a6"));
}

#[test]
fn a_node_that_is_down_changes_nothing() {
    let mut disk = Disk::new(5);
    disk.pass(&Node::new("a", 0, &[]));
    assert_eq!(disk.cursor(), (5, ""));
    assert_eq!(disk.store.chain_height, 0);
}

#[test]
fn a_reorganisation_is_rewound() {
    let mut node = Node::new("a", 10, &[4, 7, 9]);
    let mut disk = Disk::new(0);
    disk.pass(&node);
    assert_eq!(disk.store.index.shield_heights, vec![4, 7, 9]);

    node.reorganise(7, Node::new("b", 12, &[8, 11]));
    disk.pass(&node);
    assert_eq!(disk.store.index.shield_heights, vec![4, 8, 11]);
    assert_eq!(disk.store.buffer, disk.file);
    assert_eq!(disk.cursor(), (12, "b12"));
    let blocks = node.scan_range(1, 12, &mut BlockCache::new(10)).ok().unwrap();
    assert_eq!(disk.file, stream::encode_shield_stream(&blocks, StreamFormat::PivxCompat));
    assert_eq!(disk.cache.hash_for_height(9), Some("b9"));
}

#[test]
fn a_reorganisation_above_all_shield_blocks_moves_the_cursor_alone() {
    let mut node = Node::new("a", 10, &[4]);
    let mut disk = Disk::new(0);
    disk.pass(&node);
    let file = disk.file.clone();
    node.reorganise(9, Node::new("b", 12, &[]));
    disk.scanned.clear();
    disk.pass(&node);
    assert_eq!(disk.scanned, vec![9, 10, 11, 12]);
    assert_eq!(disk.file, file);
    assert_eq!(disk.cursor(), (12, "b12"));
}

#[test]
fn a_file_that_cannot_be_cut_stops_the_rewind() {
    let mut node = Node::new("a", 10, &[4, 9]);
    let mut disk = Disk::new(0);
    disk.pass(&node);
    let served = disk.store.buffer.clone();
    disk.truncatable = false;
    node.reorganise(9, Node::new("b", 11, &[]));
    disk.pass(&node);
    assert_eq!(disk.store.index.shield_heights, vec![4, 9]);
    assert_eq!(disk.store.buffer, served);
    assert_eq!(disk.cursor().0, 11);
}

#[test]
fn an_indexed_block_is_not_appended_twice() {
    let node = Node::new("a", 10, &[4]);
    let mut disk = Disk::new(0);
    disk.pass(&node);
    let file = disk.file.clone();
    disk.store.cursor.last_scanned_height = 3;
    disk.pass(&node);
    assert_eq!(disk.file, file);
    assert_eq!(disk.store.buffer, file);
    assert_eq!(disk.cursor(), (10, "a10"));
}

// ---------------------------------------------------------------------------
// Starting up
// ---------------------------------------------------------------------------

/// Catch up against the node: the network, the file, and whether the index was
/// saved.
fn catch_up(
    node: &Node,
    entries: Vec<IndexEntry>,
    cursor: (u32, &str),
    mut file: Vec<u8>,
    writable: bool,
) -> (Startup, Vec<u8>, bool, Vec<(u32, u32)>) {
    let cursor = ScanCursor {
        last_scanned_height: cursor.0,
        last_scanned_hash: cursor.1.to_string(),
    };
    let index = ShieldIndex::from_entries(entries);
    let mut startup = init_network(3, node.height() as u64, index, cursor);
    let mut cache = BlockCache::new(1000);
    let mut event = StartEvent::Nothing;
    let mut saved = false;
    let mut ranges = vec![];
    loop {
        let step = startup.step(event);
        saved = saved || step.save_index;
        event = match step.action {
            StartAction::AskHash(height) => StartEvent::Hash(node.hash(height).ok()),
            StartAction::Truncate(offset) => {
                file.truncate(offset as usize);
                StartEvent::Truncated(true)
            }
            StartAction::ScanRange(from, to) => {
                ranges.push((from, to));
                StartEvent::Scanned(node.scan_part(from, to, &mut cache).ok())
            }
            StartAction::Write(chunks) => {
                let end = file.len() as u64;
                if writable {
                    for chunk in chunks {
                        file.extend(chunk);
                    }
                }
                StartEvent::Written(if writable { Some(end) } else { None })
            }
            StartAction::Done => return (startup, file, saved, ranges),
        };
    }
}

#[test]
fn a_first_start_scans_from_the_sapling_height() {
    let node = Node::new("a", 10, &[2, 4, 7]);
    let (startup, file, saved, ranges) = catch_up(&node, vec![], (0, ""), vec![], true);
    assert_eq!(ranges, vec![(3, 10)]);
    assert!(saved);
    assert_eq!(startup.index.shield_heights, vec![4, 7]);
    assert_eq!(startup.cursor.last_scanned_height, 10);
    assert_eq!(startup.cursor.last_scanned_hash, "a10");
    let blocks = node.scan_range(3, 10, &mut BlockCache::new(10)).ok().unwrap();
    assert_eq!(file, stream::encode_shield_stream(&blocks, StreamFormat::PivxCompat));

    // A second one has nothing to do
    let (again, same, saved, ranges) =
        catch_up(&node, startup.index.entries, (10, "a10"), file.clone(), true);
    assert!(ranges.is_empty() && !saved);
    assert_eq!(same, file);
    assert_eq!(again.index.shield_heights, vec![4, 7]);
}

#[test]
fn a_start_resumes_where_scanning_ended() {
    let node = Node::new("a", 10, &[4, 7]);
    let (early, file, _, _) = catch_up(&Node::new("a", 5, &[4]), vec![], (0, ""), vec![], true);
    // From the cursor
    let (late, grown, _, ranges) =
        catch_up(&node, early.index.entries.clone(), (5, "a5"), file.clone(), true);
    assert_eq!(ranges, vec![(6, 10)]);
    assert_eq!(late.index.shield_heights, vec![4, 7]);
    assert_eq!(late.index.entries[1].i, file.len() as u64);
    let blocks = node.scan_range(3, 10, &mut BlockCache::new(10)).ok().unwrap();
    assert_eq!(grown, stream::encode_shield_stream(&blocks, StreamFormat::PivxCompat));
    // Without one, from the last indexed block
    let (_, _, _, ranges) = catch_up(&node, early.index.entries, (0, ""), file, true);
    assert_eq!(ranges, vec![(5, 10)]);
}

#[test]
fn a_start_after_a_reorganisation_rolls_back() {
    let mut node = Node::new("a", 10, &[4, 7, 9]);
    let (startup, file, _, _) = catch_up(&node, vec![], (0, ""), vec![], true);
    node.reorganise(8, Node::new("b", 12, &[9, 11]));
    let (after, grown, _, ranges) =
        catch_up(&node, startup.index.entries, (10, "a10"), file, true);
    // The last indexed block counts as common ground
    assert_eq!(ranges, vec![(10, 12)]);
    assert_eq!(after.index.shield_heights, vec![4, 7, 9, 11]);
    assert_eq!(after.cursor.last_scanned_hash, "b12");
    assert_eq!(after.index.entries[3].i as usize + 1037 + 13, grown.len());
}

#[test]
fn a_start_cuts_the_file_at_the_fork() {
    let mut node = Node::new("a", 9, &[4, 9]);
    let (startup, file, _, _) = catch_up(&node, vec![], (0, ""), vec![], true);
    node.reorganise(8, Node::new("b", 10, &[8]));
    let (after, grown, saved, ranges) =
        catch_up(&node, startup.index.entries, (9, "a9"), file, true);
    assert!(saved);
    assert_eq!(ranges, vec![(5, 10)]);
    assert_eq!(after.index.shield_heights, vec![4, 8]);
    let blocks = node.scan_range(3, 10, &mut BlockCache::new(10)).ok().unwrap();
    assert_eq!(grown, stream::encode_shield_stream(&blocks, StreamFormat::PivxCompat));
}

#[test]
fn a_start_whose_write_fails_keeps_the_index() {
    let node = Node::new("a", 10, &[4]);
    let (startup, file, saved, _) = catch_up(&node, vec![], (0, ""), vec![], false);
    assert!(!saved);
    assert!(file.is_empty());
    assert!(startup.index.shield_heights.is_empty());
    // All is scanned again at the next start
    assert_eq!(startup.cursor.last_scanned_height, 2);
    assert_eq!(startup.cursor.last_scanned_hash, "");
    let (again, file, saved, ranges) = catch_up(&node, vec![], (2, ""), vec![], true);
    assert_eq!(ranges, vec![(3, 10)]);
    assert!(saved);
    assert_eq!(again.index.shield_heights, vec![4]);
    let blocks = node.scan_range(3, 10, &mut BlockCache::new(10)).ok().unwrap();
    assert_eq!(file, stream::encode_shield_stream(&blocks, StreamFormat::PivxCompat));
}

#[test]
fn a_start_whose_write_fails_stays_where_it_was() {
    let node = Node::new("a", 10, &[4, 7]);
    let (early, file, _, _) = catch_up(&Node::new("a", 5, &[4]), vec![], (0, ""), vec![], true);
    let (late, same, saved, _) =
        catch_up(&node, early.index.entries.clone(), (5, "a5"), file.clone(), false);
    assert!(!saved);
    assert_eq!(same, file);
    assert_eq!(late.index.shield_heights, vec![4]);
    assert_eq!(late.cursor.last_scanned_height, 5);
    assert_eq!(late.cursor.last_scanned_hash, "a5");
}

#[test]
fn a_start_does_not_pass_over_a_block() {
    let mut node = Node::new("a", 10, &[4, 7, 9]);
    node.broken = vec!["a6".to_string()];
    let (part, file, saved, ranges) = catch_up(&node, vec![], (0, ""), vec![], true);
    assert_eq!(ranges, vec![(3, 10)]);
    assert!(saved);
    assert_eq!(part.index.shield_heights, vec![4]);
    assert_eq!(
        (part.cursor.last_scanned_height, part.cursor.last_scanned_hash.as_str()),
        (5, "a5")
    );
    let below = node.scan_range(3, 5, &mut BlockCache::new(10)).ok().unwrap();
    assert_eq!(file, stream::encode_shield_stream(&below, StreamFormat::PivxCompat));

    // The next start resumes there
    node.broken.clear();
    let (all, file, _, ranges) = catch_up(&node, part.index.entries, (5, "a5"), file, true);
    assert_eq!(ranges, vec![(6, 10)]);
    assert_eq!(all.index.shield_heights, vec![4, 7, 9]);
    let blocks = node.scan_range(3, 10, &mut BlockCache::new(10)).ok().unwrap();
    assert_eq!(file, stream::encode_shield_stream(&blocks, StreamFormat::PivxCompat));

    // Where the very first block cannot be had, nothing is taken in
    node.broken = vec!["a3".to_string()];
    let (none, file, saved, _) = catch_up(&node, vec![], (0, ""), vec![], true);
    assert!(!saved && file.is_empty());
    assert!(none.index.shield_heights.is_empty());
    assert_eq!(none.cursor.last_scanned_height, 2);

    // A scan that ends early is resumed where it ended
    node.broken.clear();
    node.chained = false;
    node.silent = vec![8];
    let (short, _, _, _) = catch_up(&node, vec![], (0, ""), vec![], true);
    assert_eq!(short.index.shield_heights, vec![4, 7]);
    assert_eq!(
        (short.cursor.last_scanned_height, short.cursor.last_scanned_hash.as_str()),
        (7, "a7")
    );
}

#[test]
fn a_start_never_keeps_the_hash_of_another_block() {
    let mut node = Node::new("a", 9, &[4]);
    let (early, file, _, _) = catch_up(&Node::new("a", 5, &[4]), vec![], (0, ""), vec![], true);
    node.silent = vec![9];
    let (late, _, _, ranges) =
        catch_up(&node, early.index.entries.clone(), (5, "a5"), file.clone(), true);
    assert_eq!(ranges, vec![(6, 9)]);
    assert_eq!((late.cursor.last_scanned_height, late.cursor.last_scanned_hash.as_str()), (9, ""));

    // At the same height the hash still holds
    let mut same = Node::new("a", 5, &[4]);
    same.silent = vec![5];
    let (same, _, _, ranges) = catch_up(&same, early.index.entries, (5, "a5"), file, true);
    assert!(ranges.is_empty());
    assert_eq!((same.cursor.last_scanned_height, same.cursor.last_scanned_hash.as_str()), (5, "a5"));
}

#[test]
fn a_start_whose_scan_fails_stays_where_it_was() {
    let mut node = Node::new("a", 10, &[4, 7]);
    node.silent = vec![6];
    let (early, file, _, _) = catch_up(&Node::new("a", 5, &[4]), vec![], (0, ""), vec![], true);
    let (late, same, saved, ranges) =
        catch_up(&node, early.index.entries.clone(), (5, "a5"), file.clone(), true);
    assert_eq!(ranges, vec![(6, 10)]);
    assert!(!saved);
    assert_eq!(same, file);
    assert_eq!(late.index.shield_heights, vec![4]);
    assert_eq!((late.cursor.last_scanned_height, late.cursor.last_scanned_hash.as_str()), (5, "a5"));
}

#[test]
fn networks_are_named_and_configured() {
    let mut config = Config { rpc_user: "u".to_string(), rpc_pass: "p".to_string(), ..Config::default() };
    let main = network::mainnet(&config);
    assert_eq!(main.label, "mainnet");
    assert_eq!(main.index_path, "shield_index.json");
    assert_eq!(main.cache_path, "shield.bin");
    assert_eq!(main.cursor_path, "shield_cursor.json");
    assert_eq!(main.rpc_url, config.rpc_url);
    assert_eq!(main.allowed_rpcs, config.allowed_rpc_set());
    assert!(network::testnet(&config).is_none());

    config.testnet_rpc_url = Some("http://127.0.0.1:51475".to_string());
    config.testnet_rpc_pass = Some("q".to_string());
    let test = network::testnet(&config).unwrap();
    assert_eq!(test.label, "testnet");
    assert_eq!(test.index_path, "shield_index.testnet.json");
    assert_eq!(test.cache_path, "shield.testnet.bin");
    assert_eq!(test.cursor_path, "shield_cursor.testnet.json");
    assert_eq!(test.rpc_url, "http://127.0.0.1:51475");
    assert_eq!((test.rpc_user.as_str(), test.rpc_pass.as_str()), ("u", "q"));
    assert_eq!(test.sapling_height, config.sapling_height);
}
