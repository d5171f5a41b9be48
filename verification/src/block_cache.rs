//! Block JSON cache: `getblock` responses with reorg detection.
//!
//! Strips mutable fields (`confirmations`, `nextblockhash`) on insert and
//! rehydrates them on read using the current chain height and the height-to-hash
//! index. Evicts the lowest height when full, keeping tip blocks hot.

use vstd::prelude::*;
use std::collections::HashMap;
use crate::json::{Json, JsonModel};
use crate::text;

verus! {

/// Cached `getblock` response with mutable fields stripped.
pub struct CachedBlock {
    /// Hash of the block.
    pub hash: String,
    /// Verbosity of the response.
    pub verbosity: u8,
    /// Height of the block.
    pub height: u32,
    /// JSON response with `confirmations` and `nextblockhash` removed.
    pub json: Json,
}

/// Block cache with reorg-aware invalidation.
pub struct BlockCache {
    /// The stripped responses, no two of one hash and verbosity.
    pub entries: Vec<CachedBlock>,
    /// `height` -> `block_hash` for reverse lookups and reorg invalidation.
    pub height_to_hash: HashMap<u32, String>,
    /// How many responses are kept.
    pub capacity: usize,
    /// How many lookups found something.
    pub hits: u64,
    /// How many lookups found nothing.
    pub misses: u64,
}

// ---------------------------------------------------------------------------
// What a cache holds
// ---------------------------------------------------------------------------

/// What a `BlockCache` holds: responses by hash and verbosity, hashes by height.
#[verifier::ext_equal]
pub struct CacheModel {
    pub entries: Map<(Seq<char>, u8), (u32, JsonModel)>,
    pub hashes: Map<u32, Seq<char>>,
    pub capacity: nat,
}

/// The key of a response.
pub open spec fn key_of(entry: CachedBlock) -> (Seq<char>, u8) {
    (entry.hash@, entry.verbosity)
}

/// The responses by their keys.
pub open spec fn entry_map(entries: Seq<CachedBlock>) -> Map<(Seq<char>, u8), (u32, JsonModel)>
    decreases entries.len(),
{
    if entries.len() == 0 {
        Map::empty()
    } else {
        entry_map(entries.drop_last()).insert(
            key_of(entries.last()),
            (entries.last().height, entries.last().json@),
        )
    }
}

/// Whether no two responses have one key.
pub open spec fn distinct(entries: Seq<CachedBlock>) -> bool {
    forall|j: int, k: int|
        0 <= j < k < entries.len() ==> key_of(#[trigger] entries[j]) != key_of(
            #[trigger] entries[k],
        )
}

impl BlockCache {
    /// No two responses have one key, and there are no more of them than there is
    /// room for.
    pub open spec fn wf(&self) -> bool {
        &&& distinct(self.entries@)
        &&& self.entries@.len() <= self.capacity
    }
}

impl View for BlockCache {
    type V = CacheModel;

    open spec fn view(&self) -> CacheModel {
        CacheModel {
            entries: entry_map(self.entries@),
            hashes: self.height_to_hash@.map_values(|s: String| s@),
            capacity: self.capacity as nat,
        }
    }
}

/// The verbosity that may serve for another. One with the transactions in full
/// holds all of one that only names them. A response in hex is no JSON and has
/// no other to serve for it.
pub open spec fn fallback(verbosity: u8) -> Option<u8> {
    if verbosity == 0 {
        None
    } else if verbosity == 1 {
        Some(2)
    } else {
        Some(1)
    }
}

/// Whether `h` is the lowest height of `entries`.
pub open spec fn is_lowest(entries: Map<(Seq<char>, u8), (u32, JsonModel)>, h: u32) -> bool {
    &&& exists|key: (Seq<char>, u8)| #[trigger] entries.contains_key(key) && entries[key].0 == h
    &&& forall|key: (Seq<char>, u8)| #[trigger] entries.contains_key(key) ==> h <= entries[key].0
}

/// The lowest height of `entries`.
pub open spec fn lowest(entries: Map<(Seq<char>, u8), (u32, JsonModel)>) -> u32 {
    choose|h: u32| is_lowest(entries, h)
}

/// The height that a response itself gives; one without counts as the lowest.
pub open spec fn height_of(json: JsonModel) -> u32 {
    match json.number_field("height"@) {
        Some(h) => h as u32,
        None => 0,
    }
}

/// The confirmations that a block at `height` has on a chain of `chain_height`.
pub open spec fn confirmations(height: u32, chain_height: u32) -> u64 {
    if chain_height >= height {
        (chain_height - height + 1) as u64
    } else {
        1
    }
}

impl CacheModel {
    /// What a lookup finds: the response itself, or one that may serve for it.
    pub open spec fn find(self, hash: Seq<char>, verbosity: u8) -> Option<(u32, JsonModel)> {
        if self.entries.contains_key((hash, verbosity)) {
            Some(self.entries[(hash, verbosity)])
        } else {
            match fallback(verbosity) {
                Some(other) => if self.entries.contains_key((hash, other)) {
                    Some(self.entries[(hash, other)])
                } else {
                    None
                },
                None => None,
            }
        }
    }

    /// The hash of the block right above `height`, if it is known.
    pub open spec fn successor(self, height: u32) -> Option<Seq<char>> {
        if height < u32::MAX && self.hashes.contains_key((height + 1) as u32) {
            Some(self.hashes[(height + 1) as u32])
        } else {
            None
        }
    }

    /// A stripped response of a block at `height`, with its confirmations as of
    /// `chain_height` and its successor, if that is known.
    pub open spec fn rehydrated(
        self,
        height: u32,
        json: JsonModel,
        chain_height: u32,
    ) -> JsonModel {
        let counted = json.with(
            "confirmations"@,
            JsonModel::PosInt(confirmations(height, chain_height)),
        );
        match self.successor(height) {
            Some(next) => counted.with("nextblockhash"@, JsonModel::Text(next)),
            None => counted,
        }
    }

    /// What a lookup returns.
    pub open spec fn answer(self, hash: Seq<char>, verbosity: u8, chain_height: u32) -> Option<
        JsonModel,
    > {
        match self.find(hash, verbosity) {
            Some((height, json)) => Some(self.rehydrated(height, json, chain_height)),
            None => None,
        }
    }

    /// The cache without the blocks from `low` to `high`.
    pub open spec fn dropped(self, low: u32, high: u32) -> CacheModel {
        CacheModel {
            entries: self.entries.filter_keys(
                |key: (Seq<char>, u8)| !(low <= self.entries[key].0 <= high),
            ),
            hashes: self.hashes.filter_keys(|h: u32| !(low <= h <= high)),
            capacity: self.capacity,
        }
    }

    /// Whether there is a response of the block that is known at `h`.
    pub open spec fn represented(self, h: u32) -> bool {
        self.hashes.contains_key(h) && exists|key: (Seq<char>, u8)| #[trigger]
            self.entries.contains_key(key) && key.0 == self.hashes[h]
    }

    /// Whether an eviction takes the response with this key. The lowest height gives
    /// up the block that is known there, in all its verbosities; where none is known
    /// any more, it gives up what is left.
    pub open spec fn evicts(self, key: (Seq<char>, u8)) -> bool {
        let low = lowest(self.entries);
        if self.represented(low) {
            key.0 == self.hashes[low]
        } else {
            self.entries[key].0 == low
        }
    }

    /// The cache after an eviction. The lowest height is no longer known.
    pub open spec fn evicted(self) -> CacheModel {
        CacheModel {
            entries: self.entries.filter_keys(|key: (Seq<char>, u8)| !self.evicts(key)),
            hashes: self.hashes.remove(lowest(self.entries)),
            capacity: self.capacity,
        }
    }

    /// The cache with room for one more response: a full one evicts.
    pub open spec fn made_room(self) -> CacheModel {
        if self.entries.dom().len() < self.capacity {
            self
        } else {
            self.evicted()
        }
    }

    /// The cache with one more response.
    pub open spec fn inserted(self, hash: Seq<char>, verbosity: u8, json: JsonModel) -> CacheModel {
        if self.entries.contains_key((hash, verbosity)) {
            self
        } else {
            let roomy = self.made_room();
            CacheModel {
                entries: roomy.entries.insert(
                    (hash, verbosity),
                    (
                        height_of(json),
                        json.without("confirmations"@).without("nextblockhash"@),
                    ),
                ),
                hashes: roomy.hashes.insert(height_of(json), hash),
                capacity: self.capacity,
            }
        }
    }

    /// The cache with one more response; one that can hold nothing stays as it is.
    pub open spec fn kept(self, hash: Seq<char>, verbosity: u8, json: JsonModel) -> CacheModel {
        if self.capacity > 0 {
            self.inserted(hash, verbosity, json)
        } else {
            self
        }
    }

    /// The cache without the blocks at or above `fork`.
    pub open spec fn invalidated(self, fork: u32) -> CacheModel {
        self.dropped(fork, u32::MAX)
    }
}

/// A counter after one more; it starts over when it is full.
pub open spec fn counted(n: u64) -> u64 {
    if n == u64::MAX {
        0
    } else {
        (n + 1) as u64
    }
}

/// The counters of a cache, hits and misses, after a lookup that found something
/// or did not.
pub open spec fn tallied(cache: BlockCache, found: bool) -> (u64, u64) {
    if found {
        (counted(cache.hits), cache.misses)
    } else {
        (cache.hits, counted(cache.misses))
    }
}

// ---------------------------------------------------------------------------
// Lemmas on the list of responses
// ---------------------------------------------------------------------------

/// A list without double keys and the map it stands for.
pub proof fn lemma_entry_map(entries: Seq<CachedBlock>)
    requires
        distinct(entries),
    ensures
        entry_map(entries).dom().finite(),
        entry_map(entries).dom().len() == entries.len(),
        forall|k: int|
            0 <= k < entries.len() ==> entry_map(entries).contains_key(
                key_of(#[trigger] entries[k]),
            ) && entry_map(entries)[key_of(entries[k])] == (entries[k].height, entries[k].json@),
        forall|key: (Seq<char>, u8)| #[trigger]
            entry_map(entries).contains_key(key) ==> exists|k: int|
                0 <= k < entries.len() && key_of(#[trigger] entries[k]) == key,
    decreases entries.len(),
{
    if entries.len() > 0 {
        let init = entries.drop_last();
        let last = entries.last();
        assert(distinct(init));
        lemma_entry_map(init);
        assert(!entry_map(init).contains_key(key_of(last))) by {
            if entry_map(init).contains_key(key_of(last)) {
                let k = choose|k: int|
                    0 <= k < init.len() && key_of(#[trigger] init[k]) == key_of(last);
                assert(key_of(entries[k]) != key_of(entries[entries.len() - 1]));
            }
        }
        assert forall|k: int| 0 <= k < entries.len() implies entry_map(entries).contains_key(
            key_of(#[trigger] entries[k]),
        ) && entry_map(entries)[key_of(entries[k])] == (entries[k].height, entries[k].json@) by {
            if k < init.len() {
                assert(init[k] == entries[k]);
                assert(key_of(entries[k]) != key_of(entries[entries.len() - 1]));
            }
        }
        assert forall|key: (Seq<char>, u8)| #[trigger]
            entry_map(entries).contains_key(key) implies exists|k: int|
            0 <= k < entries.len() && key_of(#[trigger] entries[k]) == key by {
            if key == key_of(last) {
                assert(key_of(entries[entries.len() - 1]) == key);
            } else {
                assert(entry_map(init).contains_key(key));
                let k = choose|k: int| 0 <= k < init.len() && key_of(#[trigger] init[k]) == key;
                assert(key_of(entries[k]) == key);
            }
        }
    }
}

/// Removing a response from the list removes its key from the map.
proof fn lemma_entry_removed(entries: Seq<CachedBlock>, p: int)
    requires
        distinct(entries),
        0 <= p < entries.len(),
    ensures
        distinct(entries.remove(p)),
        entry_map(entries.remove(p)) == entry_map(entries).remove(key_of(entries[p])),
{
    let less = entries.remove(p);
    assert forall|j: int, k: int| 0 <= j < k < less.len() implies key_of(#[trigger] less[j])
        != key_of(#[trigger] less[k]) by {
        let j2 = if j < p {
            j
        } else {
            j + 1
        };
        let k2 = if k < p {
            k
        } else {
            k + 1
        };
        assert(less[j] == entries[j2] && less[k] == entries[k2]);
        assert(key_of(entries[j2]) != key_of(entries[k2]));
    }
    lemma_entry_map(entries);
    lemma_entry_map(less);
    let a = entry_map(less);
    let b = entry_map(entries).remove(key_of(entries[p]));
    assert forall|key: (Seq<char>, u8)| a.contains_key(key) implies b.contains_key(key) && a[key]
        == b[key] by {
        let k = choose|k: int| 0 <= k < less.len() && key_of(#[trigger] less[k]) == key;
        let k2 = if k < p {
            k
        } else {
            k + 1
        };
        assert(less[k] == entries[k2]);
        if k2 < p {
            assert(key_of(entries[k2]) != key_of(entries[p]));
        } else {
            assert(key_of(entries[p]) != key_of(entries[k2]));
        }
    }
    assert forall|key: (Seq<char>, u8)| b.contains_key(key) implies a.contains_key(key) by {
        let k = choose|k: int| 0 <= k < entries.len() && key_of(#[trigger] entries[k]) == key;
        let k2 = if k < p {
            k
        } else {
            k - 1
        };
        assert(less[k2] == entries[k]);
    }
    assert(a =~= b);
}

/// Adding a response with a new key adds it to the map.
proof fn lemma_entry_pushed(entries: Seq<CachedBlock>, entry: CachedBlock)
    requires
        distinct(entries),
        !entry_map(entries).contains_key(key_of(entry)),
    ensures
        distinct(entries.push(entry)),
        entry_map(entries.push(entry)) == entry_map(entries).insert(
            key_of(entry),
            (entry.height, entry.json@),
        ),
{
    lemma_entry_map(entries);
    let more = entries.push(entry);
    assert(more.drop_last() =~= entries);
    assert forall|j: int, k: int| 0 <= j < k < more.len() implies key_of(#[trigger] more[j])
        != key_of(#[trigger] more[k]) by {
        if k < entries.len() {
            assert(key_of(entries[j]) != key_of(entries[k]));
        } else {
            assert(entry_map(entries).contains_key(key_of(entries[j])));
        }
    }
}

/// The text of a hash, if there is one.
spec fn name_of(hash: Option<&str>) -> Option<Seq<char>> {
    match hash {
        Some(h) => Some(h@),
        None => None,
    }
}

/// Whether a response goes, where a block goes, or else the heights from `low` to
/// `high`.
spec fn taken(block: Option<Seq<char>>, low: u32, high: u32, hash: Seq<char>, height: u32) -> bool {
    match block {
        Some(gone) => hash == gone,
        None => low <= height <= high,
    }
}

/// Whether an entry of the list goes.
spec fn takes(block: Option<Seq<char>>, low: u32, high: u32, entry: CachedBlock) -> bool {
    taken(block, low, high, entry.hash@, entry.height)
}

/// There is only one lowest height.
proof fn lemma_lowest(entries: Map<(Seq<char>, u8), (u32, JsonModel)>, h: u32)
    requires
        is_lowest(entries, h),
    ensures
        lowest(entries) == h,
{
    let l = lowest(entries);
    assert(is_lowest(entries, l));
    let a = choose|key: (Seq<char>, u8)| #[trigger]
        entries.contains_key(key) && entries[key].0 == h;
    let b = choose|key: (Seq<char>, u8)| #[trigger]
        entries.contains_key(key) && entries[key].0 == l;
    assert(l <= entries[a].0 && h <= entries[b].0);
}

// ---------------------------------------------------------------------------
// The cache
// ---------------------------------------------------------------------------

impl BlockCache {
    /// An empty cache for `capacity` responses.
    pub fn new(capacity: usize) -> (cache: BlockCache)
        ensures
            cache.wf(),
            cache@ == (CacheModel {
                entries: Map::empty(),
                hashes: Map::empty(),
                capacity: capacity as nat,
            }),
            cache.hits == 0,
            cache.misses == 0,
    {
        let cache = BlockCache {
            entries: Vec::new(),
            height_to_hash: HashMap::new(),
            capacity,
            hits: 0,
            misses: 0,
        };
        assert(cache@.hashes =~= Map::empty());
        cache
    }

    /// Where the response with this key stands among the entries, or their number.
    fn position(&self, hash: &str, verbosity: u8) -> (p: usize)
        requires
            distinct(self.entries@),
        ensures
            p <= self.entries@.len(),
            p < self.entries@.len() ==> key_of(self.entries@[p as int]) == (hash@, verbosity),
            p == self.entries@.len() <==> !self@.entries.contains_key((hash@, verbosity)),
    {
        proof {
            lemma_entry_map(self.entries@);
        }
        let mut p: usize = 0;
        while p < self.entries.len()
            invariant
                p <= self.entries@.len(),
                forall|k: int|
                    0 <= k < p ==> key_of(#[trigger] self.entries@[k]) != (hash@, verbosity),
                forall|k: int|
                    0 <= k < self.entries@.len() ==> self@.entries.contains_key(
                        key_of(#[trigger] self.entries@[k]),
                    ),
            decreases self.entries@.len() - p,
        {
            if self.entries[p].verbosity == verbosity && text::same(
                self.entries[p].hash.as_str(),
                hash,
            ) {
                return p;
            }
            p = p + 1;
        }
        p
    }

    /// Get the block hash for a given height (if cached).
    pub fn hash_for_height(&self, height: u32) -> (r: Option<&str>)
        ensures
            match r {
                Some(hash) => self@.hashes.contains_key(height) && hash@ == self@.hashes[height],
                None => !self@.hashes.contains_key(height),
            },
    {
        match self.height_to_hash.get(&height) {
            Some(hash) => Some(hash.as_str()),
            None => None,
        }
    }

    /// Check if a new block's `previousblockhash` diverges from our cache.
    pub fn detect_reorg(&self, height: u32, prev_hash: &str) -> (r: bool)
        ensures
            r == (height > 0 && self@.hashes.contains_key((height - 1) as u32)
                && self@.hashes[(height - 1) as u32] != prev_hash@),
    {
        if height == 0 {
            return false;
        }
        match self.hash_for_height(height - 1) {
            Some(cached) => !text::same(cached, prev_hash),
            None => false,
        }
    }

    /// Return `(hits, misses, cached_blocks)` for logging.
    pub fn stats(&self) -> (r: (u64, u64, usize))
        ensures
            r.0 == self.hits,
            r.1 == self.misses,
            r.2 == self@.hashes.dom().len(),
    {
        assert(self@.hashes.dom() =~= self.height_to_hash@.dom());
        (self.hits, self.misses, self.height_to_hash.len())
    }

    /// Look up a cached block, rehydrating `confirmations` and `nextblockhash`.
    ///
    /// Falls back to another verbosity on a miss. Counts the hit or the miss.
    pub fn get(&mut self, hash: &str, verbosity: u8, chain_height: u32) -> (r: Option<Json>)
        requires
            old(self).wf(),
        ensures
            match (r, old(self)@.answer(hash@, verbosity, chain_height)) {
                (Some(json), Some(expected)) => json@ == expected,
                (None, None) => true,
                _ => false,
            },
            final(self).wf(),
            final(self)@ == old(self)@,
            (final(self).hits, final(self).misses) == tallied(*old(self), r is Some),
    {
        let mut p: usize = self.position(hash, verbosity);
        if p == self.entries.len() && verbosity != 0 {
            let other: u8 = if verbosity == 1 {
                2
            } else {
                1
            };
            p = self.position(hash, other);
        }
        if p == self.entries.len() {
            self.misses = self.misses.wrapping_add(1);
            return None;
        }
        proof {
            lemma_entry_map(self.entries@);
        }
        self.hits = self.hits.wrapping_add(1);
        let entry = &self.entries[p];
        assert(entry_map(self.entries@).contains_key(key_of(self.entries@[p as int])));
        let height: u32 = entry.height;
        let mut json = entry.json.clone();
        let confirmations: u64 = if chain_height >= height {
            (chain_height - height) as u64 + 1
        } else {
            1
        };
        json.set("confirmations", Json::PosInt(confirmations));
        if height < u32::MAX {
            if let Some(next) = self.hash_for_height(height + 1) {
                json.set("nextblockhash", Json::Text(next.to_owned()));
            }
        }
        Some(json)
    }

    /// Whether there is a response of a block.
    fn holds(&self, hash: &str) -> (r: bool)
        requires
            distinct(self.entries@),
        ensures
            r == exists|key: (Seq<char>, u8)| #[trigger]
                self@.entries.contains_key(key) && key.0 == hash@,
    {
        proof {
            lemma_entry_map(self.entries@);
        }
        let mut k: usize = 0;
        while k < self.entries.len()
            invariant
                k <= self.entries@.len(),
                distinct(self.entries@),
                forall|j: int| 0 <= j < k ==> (#[trigger] self.entries@[j]).hash@ != hash@,
            decreases self.entries@.len() - k,
        {
            if text::same(self.entries[k].hash.as_str(), hash) {
                proof {
                    lemma_entry_map(self.entries@);
                    assert(self@.entries.contains_key(key_of(self.entries@[k as int])));
                }
                return true;
            }
            k = k + 1;
        }
        proof {
            lemma_entry_map(self.entries@);
            assert forall|key: (Seq<char>, u8)| #[trigger]
                self@.entries.contains_key(key) implies key.0 != hash@ by {
                let j = choose|j: int|
                    0 <= j < self.entries@.len() && key_of(#[trigger] self.entries@[j]) == key;
                assert(self.entries@[j].hash@ != hash@);
            }
        }
        false
    }

    /// The heights that are known.
    fn heights(&self) -> (r: Vec<u32>)
        ensures
            forall|h: u32| #[trigger] self@.hashes.contains_key(h) <==> r@.contains(h),
    {
        let mut r: Vec<u32> = Vec::new();
        for h in it: self.height_to_hash.keys()
            invariant
                it.seq().unref().to_set() == self.height_to_hash@.dom(),
                r@ == it.seq().unref().take(it.index() as int),
                it.index() == it.seq().len() ==> r@ =~= it.seq().unref(),
        {
            r.push(*h);
            assert(r@ =~= it.seq().unref().take(it.index() + 1));
        }
        proof {
            assert forall|h: u32| #[trigger] self@.hashes.contains_key(h) <==> r@.contains(h) by {
                assert(self@.hashes.dom() =~= self.height_to_hash@.dom());
                assert(self.height_to_hash@.dom().contains(h) <==> r@.to_set().contains(h));
            }
        }
        r
    }

    /// Remove the responses of a block, or else those of the heights from `low` to
    /// `high`.
    fn drop_entries(&mut self, block: Option<&str>, low: u32, high: u32)
        requires
            distinct(old(self).entries@),
        ensures
            distinct(final(self).entries@),
            final(self)@.entries == old(self)@.entries.filter_keys(
                |key: (Seq<char>, u8)| !taken(name_of(block), low, high, key.0, old(self)@.entries[key].0),
            ),
            final(self).entries@.len() <= old(self).entries@.len(),
            (exists|k: int|
                0 <= k < old(self).entries@.len() && takes(
                    name_of(block),
                    low,
                    high,
                    #[trigger] old(self).entries@[k],
                )) ==> final(self).entries@.len() < old(self).entries@.len(),
            final(self).height_to_hash == old(self).height_to_hash,
            final(self).capacity == old(self).capacity,
            final(self).hits == old(self).hits,
            final(self).misses == old(self).misses,
    {
        let ghost before = self@;
        let ghost list = self.entries@;
        let ghost name = name_of(block);
        let mut k: usize = 0;
        proof {
            lemma_entry_map(self.entries@);
        }
        while k < self.entries.len()
            invariant
                k <= self.entries@.len() <= list.len(),
                distinct(self.entries@),
                before == old(self)@,
                name == name_of(block),
                forall|key: (Seq<char>, u8)| #[trigger]
                    self@.entries.contains_key(key) ==> before.entries.contains_key(key)
                        && self@.entries[key] == before.entries[key],
                forall|key: (Seq<char>, u8)| #[trigger]
                    before.entries.contains_key(key) && !taken(
                        name,
                        low,
                        high,
                        key.0,
                        before.entries[key].0,
                    ) ==> self@.entries.contains_key(key),
                forall|j: int| 0 <= j < k ==> !takes(name, low, high, #[trigger] self.entries@[j]),
                self.entries@.len() == list.len() ==> self.entries@ == list,
                self.height_to_hash == old(self).height_to_hash,
                self.capacity == old(self).capacity,
                self.hits == old(self).hits,
                self.misses == old(self).misses,
            decreases self.entries@.len() - k,
        {
            let height: u32 = self.entries[k].height;
            let gone = match block {
                Some(hash) => text::same(self.entries[k].hash.as_str(), hash),
                None => low <= height && height <= high,
            };
            if gone {
                proof {
                    lemma_entry_removed(self.entries@, k as int);
                    lemma_entry_map(self.entries@);
                    assert(self@.entries.contains_key(key_of(self.entries@[k as int])));
                    assert(self@.entries[key_of(self.entries@[k as int])].0 == height);
                }
                self.entries.remove(k);
            } else {
                k = k + 1;
            }
        }
        proof {
            lemma_entry_map(self.entries@);
            let expected = before.entries.filter_keys(
                |key: (Seq<char>, u8)| !taken(name, low, high, key.0, before.entries[key].0),
            );
            assert forall|key: (Seq<char>, u8)| #[trigger]
                self@.entries.contains_key(key) == expected.contains_key(key) by {
                if self@.entries.contains_key(key) {
                    let j = choose|j: int|
                        0 <= j < self.entries@.len() && key_of(#[trigger] self.entries@[j]) == key;
                    assert(self@.entries[key].0 == self.entries@[j].height);
                }
            }
            assert(self@.entries =~= expected);
        }
    }

    /// Remove the blocks from `low` to `high`.
    fn drop_heights(&mut self, low: u32, high: u32)
        requires
            old(self).wf(),
        ensures
            final(self).wf(),
            final(self)@ == old(self)@.dropped(low, high),
            final(self).hits == old(self).hits,
            final(self).misses == old(self).misses,
    {
        let ghost before = self@;
        let heights = self.heights();
        self.drop_entries(None, low, high);
        let ghost entries = self.entries@;
        let mut k: usize = 0;
        while k < heights.len()
            invariant
                k <= heights@.len(),
                self.entries@ == entries,
                self.capacity == old(self).capacity,
                self.hits == old(self).hits,
                self.misses == old(self).misses,
                forall|h: u32| #[trigger] before.hashes.contains_key(h) <==> heights@.contains(h),
                forall|h: u32| #[trigger]
                    self@.hashes.contains_key(h) ==> before.hashes.contains_key(h)
                        && self@.hashes[h] == before.hashes[h],
                forall|h: u32| #[trigger]
                    before.hashes.contains_key(h) && !(low <= h <= high)
                        ==> self@.hashes.contains_key(h),
                forall|j: int|
                    0 <= j < k && low <= heights@[j] <= high ==> !self@.hashes.contains_key(
                        #[trigger] heights@[j],
                    ),
            decreases heights@.len() - k,
        {
            let h: u32 = heights[k];
            if low <= h && h <= high {
                let ghost current = self@;
                self.height_to_hash.remove(&h);
                assert(self@.hashes =~= current.hashes.remove(h));
            }
            k = k + 1;
        }
        proof {
            let expected = before.dropped(low, high);
            assert forall|h: u32| #[trigger]
                self@.hashes.contains_key(h) == expected.hashes.contains_key(h) by {
                if before.hashes.contains_key(h) {
                    assert(heights@.contains(h));
                    let j = choose|j: int| 0 <= j < heights@.len() && heights@[j] == h;
                    assert(heights@[j] == h);
                }
            }
            assert(self@.hashes =~= expected.hashes);
            assert(self@.entries =~= expected.entries);
            assert(self@ =~= expected);
        }
    }

    /// Evict the block with the lowest height.
    fn evict_lowest(&mut self)
        requires
            old(self).wf(),
            old(self).entries@.len() > 0,
        ensures
            final(self).wf(),
            final(self)@ == old(self)@.evicted(),
            final(self).entries@.len() < old(self).entries@.len(),
            final(self).hits == old(self).hits,
            final(self).misses == old(self).misses,
    {
        let mut min: u32 = self.entries[0].height;
        let mut k: usize = 1;
        let ghost mut at: int = 0;
        while k < self.entries.len()
            invariant
                1 <= k <= self.entries@.len(),
                0 <= at < self.entries@.len(),
                self.entries@[at].height == min,
                forall|j: int| 0 <= j < k ==> min <= (#[trigger] self.entries@[j]).height,
            decreases self.entries@.len() - k,
        {
            if self.entries[k].height < min {
                min = self.entries[k].height;
                proof {
                    at = k as int;
                }
            }
            k = k + 1;
        }
        proof {
            lemma_entry_map(self.entries@);
            assert(self@.entries.contains_key(key_of(self.entries@[at])));
            assert forall|key: (Seq<char>, u8)| #[trigger]
                self@.entries.contains_key(key) implies min <= self@.entries[key].0 by {
                let j = choose|j: int|
                    0 <= j < self.entries@.len() && key_of(#[trigger] self.entries@[j]) == key;
                assert(self@.entries[key_of(self.entries@[j])].0 == self.entries@[j].height);
            }
            assert(is_lowest(self@.entries, min));
            lemma_lowest(self@.entries, min);
        }
        let ghost before = self@;
        let known: Option<String> = match self.hash_for_height(min) {
            Some(hash) => if self.holds(hash) {
                Some(hash.to_owned())
            } else {
                None
            },
            None => None,
        };
        match &known {
            Some(hash) => {
                proof {
                    let key = choose|key: (Seq<char>, u8)| #[trigger]
                        self@.entries.contains_key(key) && key.0 == hash@;
                    let j = choose|j: int|
                        0 <= j < self.entries@.len() && key_of(#[trigger] self.entries@[j]) == key;
                    assert(takes(Some(hash@), 0, 0, self.entries@[j]));
                }
                self.drop_entries(Some(hash.as_str()), 0, 0);
            },
            None => {
                assert(takes(None, min, min, self.entries@[at]));
                self.drop_entries(None, min, min);
            },
        }
        self.height_to_hash.remove(&min);
        proof {
            assert(self@.hashes =~= before.hashes.remove(min));
            assert(self@.entries =~= before.evicted().entries);
        }
    }

    /// Cache a `getblock` response, stripping mutable fields.
    ///
    /// Duplicate inserts (same hash + verbosity) change nothing. When at capacity,
    /// the block with the lowest height is evicted: this keeps the tip blocks
    /// (hottest for light-wallet traffic) in the cache.
    pub fn insert(&mut self, hash: &str, verbosity: u8, json: &Json)
        requires
            old(self).wf(),
            old(self).capacity > 0,
        ensures
            final(self).wf(),
            final(self)@ == old(self)@.inserted(hash@, verbosity, json@),
            final(self).hits == old(self).hits,
            final(self).misses == old(self).misses,
    {
        let ghost before = self@;
        proof {
            lemma_entry_map(self.entries@);
        }
        if self.position(hash, verbosity) < self.entries.len() {
            return ;
        }
        let height: u32 = match json.number_field("height") {
            Some(h) => h as u32,
            None => 0,
        };
        if self.entries.len() >= self.capacity {
            self.evict_lowest();
        }
        assert(self@ == before.made_room());
        let ghost roomy = self@;
        let mut stripped = json.clone();
        stripped.unset("confirmations");
        stripped.unset("nextblockhash");
        let entry = CachedBlock { hash: hash.to_owned(), verbosity, height, json: stripped };
        proof {
            assert(!roomy.entries.contains_key((hash@, verbosity)));
            lemma_entry_pushed(self.entries@, entry);
        }
        self.height_to_hash.insert(height, hash.to_owned());
        self.entries.push(entry);
        proof {
            assert(self@.hashes =~= roomy.hashes.insert(height, hash@));
            assert(self@ =~= before.inserted(hash@, verbosity, json@));
        }
    }

    /// Cache a `getblock` response, unless the cache can hold nothing at all.
    pub fn keep(&mut self, hash: &str, verbosity: u8, json: &Json)
        requires
            old(self).wf(),
        ensures
            final(self).wf(),
            final(self)@ == old(self)@.kept(hash@, verbosity, json@),
            final(self).hits == old(self).hits,
            final(self).misses == old(self).misses,
    {
        if self.capacity > 0 {
            self.insert(hash, verbosity, json);
        }
    }

    /// Invalidate all cached blocks at or above `fork_height`.
    pub fn invalidate_from(&mut self, fork_height: u32)
        requires
            old(self).wf(),
        ensures
            final(self).wf(),
            final(self)@ == old(self)@.invalidated(fork_height),
            final(self).hits == old(self).hits,
            final(self).misses == old(self).misses,
    {
        self.drop_heights(fork_height, u32::MAX);
    }
}

// ---------------------------------------------------------------------------
// Laws
// ---------------------------------------------------------------------------

/// What was inserted is found again. It is as it was, but for the confirmations,
/// which are those of the chain as it is now, and for the successor, which is the
/// one that is known now, whatever the response said. So it is in every cache that
/// can hold anything.
pub proof fn law_inserted_is_found(
    m: CacheModel,
    hash: Seq<char>,
    verbosity: u8,
    json: JsonModel,
    chain_height: u32,
)
    requires
        !m.entries.contains_key((hash, verbosity)),
    ensures
        ({
            let after = m.inserted(hash, verbosity, json);
            let height = height_of(json);
            &&& after.hashes.contains_key(height) && after.hashes[height] == hash
            &&& after.answer(hash, verbosity, chain_height) matches Some(r)
            &&& json is Object ==> r is Object
            &&& json !is Object ==> r == json
            &&& forall|name: Seq<char>|
                name != "confirmations"@ && name != "nextblockhash"@ ==> #[trigger] r.field(name)
                    == json.field(name)
            &&& json is Object ==> r.field("confirmations"@) == Some(
                JsonModel::PosInt(confirmations(height, chain_height)),
            )
            &&& json is Object ==> r.field("nextblockhash"@) == (match after.successor(height) {
                Some(next) => Some(JsonModel::Text(next)),
                None => None,
            })
        }),
{
    reveal_strlit("confirmations");
    reveal_strlit("nextblockhash");
    assert("confirmations"@[0] != "nextblockhash"@[0]);
}

/// Inserting a response twice is inserting it once.
pub proof fn law_duplicate_insert_changes_nothing(
    m: CacheModel,
    hash: Seq<char>,
    verbosity: u8,
    first: JsonModel,
    second: JsonModel,
)
    ensures
        m.inserted(hash, verbosity, first).inserted(hash, verbosity, second) == m.inserted(
            hash,
            verbosity,
            first,
        ),
{
}

/// After an invalidation no height at or above the fork is known, and the heights
/// below are known as they were. No response of a block at or above the fork is
/// there, and the others are there as they were.
pub proof fn law_invalidation_cuts_at_the_fork(m: CacheModel, fork: u32)
    ensures
        forall|h: u32| #[trigger]
            m.invalidated(fork).hashes.contains_key(h) <==> m.hashes.contains_key(h) && h < fork,
        forall|h: u32| #[trigger]
            m.invalidated(fork).hashes.contains_key(h) ==> m.invalidated(fork).hashes[h]
                == m.hashes[h],
        forall|key: (Seq<char>, u8)| #[trigger]
            m.invalidated(fork).entries.contains_key(key) <==> m.entries.contains_key(key)
                && m.entries[key].0 < fork,
        forall|key: (Seq<char>, u8)| #[trigger]
            m.invalidated(fork).entries.contains_key(key) ==> m.invalidated(fork).entries[key]
                == m.entries[key],
{
}

/// A block all of whose responses are below the fork is found after an invalidation
/// exactly when it was found before, and as the same response.
pub proof fn law_invalidation_spares_lower_blocks(
    m: CacheModel,
    fork: u32,
    hash: Seq<char>,
    verbosity: u8,
    chain_height: u32,
)
    requires
        forall|v: u8| #[trigger]
            m.entries.contains_key((hash, v)) ==> m.entries[(hash, v)].0 < fork,
    ensures
        m.invalidated(fork).find(hash, verbosity) == m.find(hash, verbosity),
        m.invalidated(fork).answer(hash, verbosity, chain_height) is Some <==> m.answer(
            hash,
            verbosity,
            chain_height,
        ) is Some,
{
}

/// A block all of whose responses are at or above the fork is not found after an
/// invalidation.
pub proof fn law_invalidated_is_not_found(
    m: CacheModel,
    fork: u32,
    hash: Seq<char>,
    verbosity: u8,
    chain_height: u32,
)
    requires
        forall|v: u8| #[trigger]
            m.entries.contains_key((hash, v)) ==> m.entries[(hash, v)].0 >= fork,
    ensures
        m.invalidated(fork).answer(hash, verbosity, chain_height) is None,
{
}

/// Invalidating twice is invalidating once.
pub proof fn law_invalidating_twice(m: CacheModel, fork: u32)
    ensures
        m.invalidated(fork).invalidated(fork) == m.invalidated(fork),
{
    let once = m.invalidated(fork);
    let twice = once.invalidated(fork);
    assert(twice.entries =~= once.entries);
    assert(twice.hashes =~= once.hashes);
}

/// An eviction takes the block that is known at the lowest height, in all its
/// verbosities, or what is left of that height where no block is known there any
/// more. It takes something, and nothing else.
pub proof fn law_eviction_takes_the_lowest(m: CacheModel, h: u32)
    requires
        is_lowest(m.entries, h),
    ensures
        m.evicted().hashes == m.hashes.remove(h),
        forall|key: (Seq<char>, u8)| #[trigger]
            m.evicted().entries.contains_key(key) <==> m.entries.contains_key(key) && (
            if m.represented(h) {
                key.0 != m.hashes[h]
            } else {
                m.entries[key].0 != h
            }),
        forall|key: (Seq<char>, u8)| #[trigger]
            m.evicted().entries.contains_key(key) ==> m.evicted().entries[key] == m.entries[key],
        exists|key: (Seq<char>, u8)| #[trigger]
            m.entries.contains_key(key) && !m.evicted().entries.contains_key(key),
{
    lemma_lowest(m.entries, h);
    let key = if m.represented(h) {
        choose|key: (Seq<char>, u8)| #[trigger]
            m.entries.contains_key(key) && key.0 == m.hashes[h]
    } else {
        choose|key: (Seq<char>, u8)| #[trigger]
            m.entries.contains_key(key) && m.entries[key].0 == h
    };
    assert(m.entries.contains_key(key) && !m.evicted().entries.contains_key(key));
}

/// The block at the height of the chain has one confirmation, and a block has one more
/// than the block right above it. One above the height of the chain counts as the
/// topmost.
pub proof fn law_confirmations_count_the_blocks_above(height: u32, chain_height: u32)
    ensures
        height <= chain_height ==> confirmations(height, chain_height) + height == chain_height + 1,
        height >= chain_height ==> confirmations(height, chain_height) == 1,
        height < chain_height ==> confirmations(height, chain_height) == confirmations(
            (height + 1) as u32,
            chain_height,
        ) + 1,
{
}

/// What a lookup comes to. A response in hex is served by one in hex alone; one that
/// names its transactions is served by one that has them in full, and the other way
/// round, where it is not there itself. What is served is what is kept, with the
/// confirmations that its height has on the chain as it is now, and with the hash that
/// is known right above it.
pub proof fn law_lookup(m: CacheModel, hash: Seq<char>, verbosity: u8, chain_height: u32)
    ensures
        ({
            let own = m.entries.contains_key((hash, verbosity));
            let other = if verbosity == 1 {
                2u8
            } else {
                1u8
            };
            let key = if own {
                (hash, verbosity)
            } else {
                (hash, other)
            };
            let found = own || (verbosity != 0 && m.entries.contains_key((hash, other)));
            let answer = m.answer(hash, verbosity, chain_height);
            &&& answer is Some <==> found
            &&& answer matches Some(r) ==> {
                let (height, json) = m.entries[key];
                &&& json !is Object ==> r == json
                &&& json is Object ==> {
                    &&& r.field("confirmations"@) matches Some(JsonModel::PosInt(n))
                    &&& n == (if height <= chain_height {
                        chain_height - height + 1
                    } else {
                        1
                    })
                }
                &&& json is Object && height < u32::MAX && m.hashes.contains_key(
                    (height + 1) as u32,
                ) ==> r.field("nextblockhash"@) == Some(
                    JsonModel::Text(m.hashes[(height + 1) as u32]),
                )
                &&& height == u32::MAX || !m.hashes.contains_key((height + 1) as u32) ==> r.field(
                    "nextblockhash"@,
                ) == json.field("nextblockhash"@)
                &&& forall|name: Seq<char>|
                    name != "confirmations"@ && name != "nextblockhash"@ ==> #[trigger] r.field(
                        name,
                    ) == json.field(name)
            }
        }),
{
    reveal_strlit("confirmations");
    reveal_strlit("nextblockhash");
    assert("confirmations"@[0] != "nextblockhash"@[0]);
}

/// What an insertion changes. A response that is already there stays, and so does all
/// else. Where there is room, the one new response is kept at the height that it gives,
/// which is from then on known by its hash, and without what changes as the chain
/// grows; every other response and every other height is as it was. A full cache first
/// evicts.
pub proof fn law_insertion(m: CacheModel, hash: Seq<char>, verbosity: u8, json: JsonModel)
    ensures
        ({
            let after = m.inserted(hash, verbosity, json);
            let before = if m.entries.dom().len() < m.capacity {
                m
            } else {
                m.evicted()
            };
            let key = (hash, verbosity);
            let height = match json.field("height"@) {
                Some(JsonModel::PosInt(n)) => n as u32,
                _ => 0,
            };
            &&& after.capacity == m.capacity
            &&& m.entries.contains_key(key) ==> after == m
            &&& !m.entries.contains_key(key) ==> {
                &&& after.entries.contains_key(key)
                &&& after.entries[key].0 == height
                &&& after.entries[key].1.field("confirmations"@) is None
                &&& after.entries[key].1.field("nextblockhash"@) is None
                &&& forall|name: Seq<char>|
                    name != "confirmations"@ && name != "nextblockhash"@
                        ==> #[trigger] after.entries[key].1.field(name) == json.field(name)
                &&& after.hashes.contains_key(height) && after.hashes[height] == hash
                &&& forall|k: (Seq<char>, u8)|
                    k != key ==> (#[trigger] after.entries.contains_key(k)
                        <==> before.entries.contains_key(k)) && after.entries[k]
                        == before.entries[k]
                &&& forall|h: u32|
                    h != height ==> (#[trigger] after.hashes.contains_key(h)
                        <==> before.hashes.contains_key(h)) && after.hashes[h] == before.hashes[h]
            }
        }),
{
    reveal_strlit("confirmations");
    reveal_strlit("nextblockhash");
    assert("confirmations"@[0] != "nextblockhash"@[0]);
}

/// A cache that can hold nothing keeps nothing; any other keeps what is inserted.
pub proof fn law_only_an_empty_cache_keeps_nothing(
    m: CacheModel,
    hash: Seq<char>,
    verbosity: u8,
    json: JsonModel,
)
    ensures
        m.capacity == 0 ==> m.kept(hash, verbosity, json) == m,
        m.capacity > 0 ==> m.kept(hash, verbosity, json).entries.contains_key((hash, verbosity)),
        m.capacity > 0 ==> m.kept(hash, verbosity, json) == m.inserted(hash, verbosity, json),
{
}

/// Every lookup counts once, as a hit where it found something and as a miss where it
/// did not.
pub proof fn law_a_lookup_counts_once(cache: BlockCache, found: bool)
    ensures
        ({
            let (hits, misses) = tallied(cache, found);
            let one = if found {
                (1int, 0int)
            } else {
                (0int, 1int)
            };
            &&& hits == (cache.hits + one.0) % 0x1_0000_0000_0000_0000
            &&& misses == (cache.misses + one.1) % 0x1_0000_0000_0000_0000
        }),
{
}

/// A full cache gives up the oldest block. The lowest height of all responses is no longer
/// known, and every other height is known as it was. Where a response at that height has
/// the hash that is known there, all responses with that hash go, and no others; where no
/// hash is known there, all responses at that height go, and no others; and where none has
/// the hash that is known there, the response at that height goes.
pub proof fn law_the_oldest_block_goes(m: CacheModel, low: u32, oldest: (Seq<char>, u8))
    requires
        m.entries.contains_key(oldest),
        m.entries[oldest].0 == low,
        forall|key: (Seq<char>, u8)| #[trigger]
            m.entries.contains_key(key) ==> low <= m.entries[key].0,
    ensures
        !m.evicted().hashes.contains_key(low),
        forall|h: u32|
            h != low ==> (#[trigger] m.evicted().hashes.contains_key(h) <==> m.hashes.contains_key(
                h,
            )),
        m.hashes.contains_key(low) && m.hashes[low] == oldest.0 ==> forall|key: (Seq<char>, u8)|
         #[trigger]
            m.evicted().entries.contains_key(key) <==> m.entries.contains_key(key) && key.0
                != oldest.0,
        !m.hashes.contains_key(low) ==> forall|key: (Seq<char>, u8)| #[trigger]
            m.evicted().entries.contains_key(key) <==> m.entries.contains_key(key)
                && m.entries[key].0 > low,
        m.hashes.contains_key(low) && (forall|key: (Seq<char>, u8)| #[trigger]
            m.entries.contains_key(key) ==> key.0 != m.hashes[low]) ==> !m.evicted().entries.contains_key(
            oldest,
        ),
{
    assert(is_lowest(m.entries, low));
    law_eviction_takes_the_lowest(m, low);
    if m.hashes.contains_key(low) && m.hashes[low] == oldest.0 {
        assert(m.represented(low));
    }
}

} // verus!
