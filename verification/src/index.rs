//! Shield block index: which blocks contain Sapling transactions, and where they
//! start in the binary stream.

use vstd::prelude::*;

verus! {

/// An entry in the shield index.
#[derive(Debug, Clone, Copy, PartialEq, Eq, Structural)]
pub struct IndexEntry {
    /// Block height.
    pub block: u32,
    /// Byte offset into the binary stream file.
    pub i: u64,
}

/// In-memory shield block index.
#[derive(Debug, Clone)]
pub struct ShieldIndex {
    /// Ordered list of shield block entries.
    pub entries: Vec<IndexEntry>,
    /// Just the heights (for fast lookup).
    pub shield_heights: Vec<u32>,
}

/// How far the chain has been scanned, kept across restarts.
pub struct ScanCursor {
    /// Last chain height fully scanned (not just the last shield block).
    pub last_scanned_height: u32,
    /// Hash of that block, or nothing where it is not known.
    pub last_scanned_hash: String,
}

impl Default for ScanCursor {
    fn default() -> (cursor: ScanCursor)
        ensures
            cursor.last_scanned_height == 0,
            cursor.last_scanned_hash@ == Seq::<char>::empty(),
    {
        ScanCursor { last_scanned_height: 0, last_scanned_hash: String::new() }
    }
}

/// The heights of `entries`.
pub open spec fn heights(entries: Seq<IndexEntry>) -> Seq<u32> {
    Seq::new(entries.len(), |k: int| entries[k].block)
}

/// Whether `p` splits `s` into what lies below `h` and what does not.
pub open spec fn splits(s: Seq<u32>, h: u32, p: int) -> bool {
    &&& 0 <= p <= s.len()
    &&& forall|k: int| 0 <= k < p ==> s[k] < h
    &&& forall|k: int| p <= k < s.len() ==> s[k] >= h
}

/// Where a binary search for `h` ends that is left with `s` from `lo` to `hi`.
pub open spec fn search(s: Seq<u32>, h: u32, lo: int, hi: int) -> int
    decreases hi - lo,
{
    if lo >= hi {
        lo
    } else {
        let mid = lo + (hi - lo) / 2;
        if s[mid] < h {
            search(s, h, mid + 1, hi)
        } else {
            search(s, h, lo, mid)
        }
    }
}

/// Where a binary search for `h` in `s` ends.
pub open spec fn place(s: Seq<u32>, h: u32) -> int {
    search(s, h, 0, s.len() as int)
}

/// What a binary search for `h` in `s` finds: a place between a height below `h`
/// and one that is not, and the only such place where `s` is in order.
pub open spec fn cut(s: Seq<u32>, h: u32, p: int) -> bool {
    &&& 0 <= p <= s.len()
    &&& p > 0 ==> s[p - 1] < h
    &&& p < s.len() ==> s[p] >= h
    &&& forall|q: int| #[trigger] splits(s, h, q) ==> q == p
}

/// Whether `s` is strictly ascending.
pub open spec fn ascending(s: Seq<u32>) -> bool {
    forall|j: int, k: int| 0 <= j < k < s.len() ==> s[j] < s[k]
}

/// The offset of the first entry at or above `h`, if there is one.
pub open spec fn offset_from(entries: Seq<IndexEntry>, h: u32) -> Option<u64> {
    let p = place(heights(entries), h);
    if p < entries.len() {
        Some(entries[p].i)
    } else {
        None
    }
}

/// The offset of the entry at `p`, or `end` behind the last one.
pub open spec fn offset_at(entries: Seq<IndexEntry>, p: int, end: u64) -> u64 {
    if 0 <= p < entries.len() {
        entries[p].i
    } else {
        end
    }
}

/// The offset of the first entry above height `h`, or `end` where none is.
pub open spec fn offset_above(entries: Seq<IndexEntry>, h: u32, end: u64) -> u64
    decreases entries.len(),
{
    if entries.len() == 0 {
        end
    } else if entries[0].block > h {
        entries[0].i
    } else {
        offset_above(entries.drop_first(), h, end)
    }
}

/// The entries below `fork`.
pub open spec fn entries_below(entries: Seq<IndexEntry>, fork: u32) -> Seq<IndexEntry> {
    entries.filter(|e: IndexEntry| e.block < fork)
}

/// The heights below `fork`.
pub open spec fn heights_below(s: Seq<u32>, fork: u32) -> Seq<u32> {
    s.filter(|h: u32| h < fork)
}

/// The last of `s` below `h`, or zero where none is.
pub open spec fn last_below(s: Seq<u32>, h: u32) -> u32
    decreases s.len(),
{
    if s.len() == 0 {
        0
    } else if s.last() < h {
        s.last()
    } else {
        last_below(s.drop_last(), h)
    }
}

/// A binary search ends where it narrows down to.
proof fn lemma_search_cut(s: Seq<u32>, h: u32, lo: int, hi: int)
    requires
        0 <= lo <= hi <= s.len(),
        lo > 0 ==> s[lo - 1] < h,
        hi < s.len() ==> s[hi] >= h,
        forall|q: int| #[trigger] splits(s, h, q) ==> lo <= q <= hi,
    ensures
        cut(s, h, search(s, h, lo, hi)),
    decreases hi - lo,
{
    if lo < hi {
        let mid = lo + (hi - lo) / 2;
        if s[mid] < h {
            lemma_search_cut(s, h, mid + 1, hi);
        } else {
            lemma_search_cut(s, h, lo, mid);
        }
    }
}

/// A binary search ends between a height below `h` and one that is not.
pub proof fn lemma_place_cut(s: Seq<u32>, h: u32)
    ensures
        cut(s, h, place(s, h)),
{
    lemma_search_cut(s, h, 0, s.len() as int);
}

/// In an ordered sequence a binary search finds the place that splits it.
pub proof fn law_place_splits(s: Seq<u32>, h: u32)
    requires
        ascending(s),
    ensures
        splits(s, h, place(s, h)),
{
    lemma_place_cut(s, h);
    let q = lemma_ascending_splits(s, h);
}

/// A strictly ascending sequence has a place that splits it.
pub proof fn lemma_ascending_splits(s: Seq<u32>, h: u32) -> (p: int)
    requires
        ascending(s),
    ensures
        splits(s, h, p),
    decreases s.len(),
{
    if s.len() == 0 {
        0
    } else if s.last() < h {
        s.len() as int
    } else {
        let init = s.drop_last();
        let p = lemma_ascending_splits(init, h);
        assert forall|k: int| 0 <= k < p implies s[k] < h by {
            assert(s[k] == init[k]);
        }
        assert forall|k: int| p <= k < s.len() implies s[k] >= h by {
            if k < init.len() {
                assert(s[k] == init[k]);
            }
        }
        p
    }
}

/// `offset_above` finds the first entry above `h`.
pub proof fn lemma_offset_above(entries: Seq<IndexEntry>, h: u32, end: u64, p: int)
    requires
        0 <= p <= entries.len(),
        forall|k: int| 0 <= k < p ==> (#[trigger] entries[k]).block <= h,
        p < entries.len() ==> entries[p].block > h,
    ensures
        offset_above(entries, h, end) == offset_at(entries, p, end),
    decreases entries.len(),
{
    if entries.len() > 0 && p > 0 {
        let rest = entries.drop_first();
        assert forall|k: int| 0 <= k < p - 1 implies (#[trigger] rest[k]).block <= h by {
            assert(rest[k] == entries[k + 1]);
        }
        assert(entries[0].block <= h);
        lemma_offset_above(rest, h, end, p - 1);
    }
}

/// A filter that holds of the elements from `a` to `b` alone keeps that stretch.
pub proof fn lemma_filter_range<A>(s: Seq<A>, f: spec_fn(A) -> bool, a: int, b: int)
    requires
        0 <= a <= b <= s.len(),
        forall|k: int| 0 <= k < s.len() ==> #[trigger] f(s[k]) == (a <= k < b),
    ensures
        s.filter(f) == s.subrange(a, b),
    decreases s.len(),
{
    reveal(Seq::filter);
    if s.len() > 0 {
        let init = s.drop_last();
        let n = init.len() as int;
        assert(f(s[n]) == (a <= n < b));
        assert forall|k: int| 0 <= k < init.len() implies #[trigger] f(init[k]) == (a <= k < b) by {
            assert(init[k] == s[k]);
        }
        if b == s.len() {
            if a == b {
                lemma_filter_range(init, f, n, n);
                assert(s.filter(f) =~= s.subrange(a, b));
            } else {
                lemma_filter_range(init, f, a, n);
                assert(s.filter(f) =~= s.subrange(a, b));
            }
        } else {
            lemma_filter_range(init, f, a, b);
            assert(s.filter(f) =~= s.subrange(a, b));
        }
    } else {
        assert(s.filter(f) =~= s.subrange(a, b));
    }
}

impl ShieldIndex {
    /// The list of heights agrees with the entries.
    pub open spec fn wf(&self) -> bool {
        self.shield_heights@ == heights(self.entries@)
    }

    /// Create an empty index.
    pub fn new() -> (index: ShieldIndex)
        ensures
            index.wf(),
            index.entries@ == Seq::<IndexEntry>::empty(),
    {
        let index = ShieldIndex { entries: Vec::new(), shield_heights: Vec::new() };
        assert(index.shield_heights@ =~= heights(index.entries@));
        index
    }

    /// The index that holds `entries`, as they were saved.
    pub fn from_entries(entries: Vec<IndexEntry>) -> (index: ShieldIndex)
        ensures
            index.wf(),
            index.entries@ == entries@,
    {
        let mut shield_heights: Vec<u32> = Vec::new();
        let mut k: usize = 0;
        while k < entries.len()
            invariant
                k <= entries@.len(),
                shield_heights@ =~= heights(entries@).take(k as int),
            decreases entries@.len() - k,
        {
            shield_heights.push(entries[k].block);
            k = k + 1;
        }
        assert(shield_heights@ =~= heights(entries@));
        ShieldIndex { entries, shield_heights }
    }

    /// Whether `height` is indexed.
    pub fn contains(&self, height: u32) -> (found: bool)
        ensures
            found == self.shield_heights@.contains(height),
    {
        let mut k: usize = 0;
        while k < self.shield_heights.len()
            invariant
                k <= self.shield_heights@.len(),
                forall|j: int| 0 <= j < k ==> self.shield_heights@[j] != height,
            decreases self.shield_heights@.len() - k,
        {
            if self.shield_heights[k] == height {
                return true;
            }
            k = k + 1;
        }
        false
    }

    /// Add a shield block to the index; a height that is already there is left
    /// as it is.
    pub fn add(&mut self, height: u32, byte_offset: u64)
        ensures
            old(self).shield_heights@.contains(height) ==> *final(self) == *old(self),
            !old(self).shield_heights@.contains(height) ==> {
                &&& final(self).entries@ == old(self).entries@.push(
                    (IndexEntry { block: height, i: byte_offset }),
                )
                &&& final(self).shield_heights@ == old(self).shield_heights@.push(height)
            },
            old(self).wf() ==> final(self).wf(),
    {
        if !self.contains(height) {
            self.entries.push(IndexEntry { block: height, i: byte_offset });
            self.shield_heights.push(height);
            proof {
                if old(self).wf() {
                    assert(self.shield_heights@ =~= heights(self.entries@));
                }
            }
        }
    }

    /// All shield block heights from a starting height (binary search).
    pub fn heights_from(&self, start: u32) -> (r: Vec<u32>)
        ensures
            r@ == self.shield_heights@.skip(place(self.shield_heights@, start)),
            ascending(self.shield_heights@) ==> r@ == self.shield_heights@.filter(
                |h: u32| h >= start,
            ),
    {
        let n: usize = self.shield_heights.len();
        let mut lo: usize = 0;
        let mut hi: usize = n;
        while lo < hi
            invariant
                lo <= hi <= n == self.shield_heights@.len(),
                place(self.shield_heights@, start) == search(
                    self.shield_heights@,
                    start,
                    lo as int,
                    hi as int,
                ),
            decreases hi - lo,
        {
            let mid: usize = lo + (hi - lo) / 2;
            if self.shield_heights[mid] < start {
                lo = mid + 1;
            } else {
                hi = mid;
            }
        }
        let r = vstd::slice::slice_to_vec(
            vstd::slice::slice_subrange(self.shield_heights.as_slice(), lo, n),
        );
        proof {
            let s = self.shield_heights@;
            assert(r@ =~= s.skip(lo as int));
            if ascending(s) {
                law_place_splits(s, start);
                lemma_filter_range(s, |h: u32| h >= start, lo as int, n as int);
                assert(s.subrange(lo as int, n as int) =~= s.skip(lo as int));
            }
        }
        r
    }

    /// Last indexed height, if any.
    pub fn last_height(&self) -> (r: Option<u32>)
        ensures
            r == (if self.shield_heights@.len() == 0 {
                None
            } else {
                Some(self.shield_heights@.last())
            }),
    {
        let n: usize = self.shield_heights.len();
        if n == 0 {
            None
        } else {
            Some(self.shield_heights[n - 1])
        }
    }

    /// Where the first entry at or above `height` stands (binary search).
    fn position_from(&self, height: u32) -> (p: usize)
        ensures
            p == place(heights(self.entries@), height),
            p <= self.entries@.len(),
    {
        let n: usize = self.entries.len();
        let ghost s = heights(self.entries@);
        let mut lo: usize = 0;
        let mut hi: usize = n;
        while lo < hi
            invariant
                s == heights(self.entries@),
                lo <= hi <= n == s.len(),
                place(s, height) == search(s, height, lo as int, hi as int),
            decreases hi - lo,
        {
            let mid: usize = lo + (hi - lo) / 2;
            assert(s[mid as int] == self.entries@[mid as int].block);
            if self.entries[mid].block < height {
                lo = mid + 1;
            } else {
                hi = mid;
            }
        }
        lo
    }

    /// Get the byte offset for a given start block: that of the first entry with
    /// a height at or above it, or nothing where there is none.
    pub fn offset_for_height(&self, height: u32) -> (r: Option<u64>)
        ensures
            r == offset_from(self.entries@, height),
    {
        let p: usize = self.position_from(height);
        if p < self.entries.len() {
            Some(self.entries[p].i)
        } else {
            None
        }
    }

    /// The byte offset of the first entry above `end`, or `total` where there is none.
    pub fn offset_after(&self, end: u32, total: u64) -> (r: u64)
        ensures
            r == offset_above(self.entries@, end, total),
    {
        let mut k: usize = 0;
        while k < self.entries.len() && self.entries[k].block <= end
            invariant
                k <= self.entries@.len(),
                forall|j: int| 0 <= j < k ==> (#[trigger] self.entries@[j]).block <= end,
            decreases self.entries@.len() - k,
        {
            k = k + 1;
        }
        proof {
            lemma_offset_above(self.entries@, end, total, k as int);
        }
        if k < self.entries.len() {
            self.entries[k].i
        } else {
            total
        }
    }

    /// Compute the total byte length of shield data between two block heights.
    pub fn byte_length_between(&self, start: u32, end: u32, total_cache_size: u64) -> (r: u64)
        ensures
            r == ({
                let from = offset_at(
                    self.entries@,
                    place(heights(self.entries@), start),
                    total_cache_size,
                );
                let to = offset_above(self.entries@, end, total_cache_size);
                if from <= to {
                    to - from
                } else {
                    0
                }
            }),
    {
        let p: usize = self.position_from(start);
        let from: u64 = if p < self.entries.len() {
            self.entries[p].i
        } else {
            total_cache_size
        };
        let to: u64 = self.offset_after(end, total_cache_size);
        if from <= to {
            to - from
        } else {
            0
        }
    }

    /// Drop every entry at or above `fork`.
    pub fn remove_from(&mut self, fork: u32)
        ensures
            final(self).entries@ == entries_below(old(self).entries@, fork),
            final(self).shield_heights@ == heights_below(old(self).shield_heights@, fork),
            old(self).wf() ==> final(self).wf(),
    {
        let ghost before = *self;
        let mut entries: Vec<IndexEntry> = Vec::new();
        let mut k: usize = 0;
        assert(before.entries@.take(0).filter(|e: IndexEntry| e.block < fork) =~= Seq::empty());
        while k < self.entries.len()
            invariant
                *self == before,
                k <= self.entries@.len(),
                entries@ == entries_below(self.entries@.take(k as int), fork),
            decreases self.entries@.len() - k,
        {
            let e: IndexEntry = self.entries[k];
            proof {
                let next = self.entries@.take(k + 1);
                assert(next.drop_last() =~= self.entries@.take(k as int));
                reveal(Seq::filter);
            }
            if e.block < fork {
                entries.push(e);
            }
            k = k + 1;
        }
        assert(self.entries@.take(k as int) =~= self.entries@);
        let mut shield_heights: Vec<u32> = Vec::new();
        let mut j: usize = 0;
        assert(before.shield_heights@.take(0).filter(|h: u32| h < fork) =~= Seq::empty());
        while j < self.shield_heights.len()
            invariant
                *self == before,
                j <= self.shield_heights@.len(),
                shield_heights@ == heights_below(self.shield_heights@.take(j as int), fork),
            decreases self.shield_heights@.len() - j,
        {
            let h: u32 = self.shield_heights[j];
            proof {
                let next = self.shield_heights@.take(j + 1);
                assert(next.drop_last() =~= self.shield_heights@.take(j as int));
                reveal(Seq::filter);
            }
            if h < fork {
                shield_heights.push(h);
            }
            j = j + 1;
        }
        assert(self.shield_heights@.take(j as int) =~= self.shield_heights@);
        self.entries = entries;
        self.shield_heights = shield_heights;
        proof {
            lemma_heights_below(before.entries@, fork);
        }
    }
}

/// Dropping entries and dropping heights come to the same.
pub proof fn lemma_heights_below(entries: Seq<IndexEntry>, fork: u32)
    ensures
        heights(entries_below(entries, fork)) == heights_below(heights(entries), fork),
    decreases entries.len(),
{
    reveal(Seq::filter);
    if entries.len() > 0 {
        lemma_heights_below(entries.drop_last(), fork);
        assert(heights(entries).drop_last() =~= heights(entries.drop_last()));
    }
    assert(heights(entries_below(entries, fork)) =~= heights_below(heights(entries), fork));
}

// ---------------------------------------------------------------------------
// Laws
// ---------------------------------------------------------------------------

/// The last height below another is one that is there, or zero where none is; every
/// height behind it is not below. In a list in order it is the highest of those below.
pub proof fn law_last_below(s: Seq<u32>, h: u32)
    ensures
        (forall|k: int| 0 <= k < s.len() ==> #[trigger] s[k] >= h) ==> last_below(s, h) == 0,
        (exists|k: int| 0 <= k < s.len() && #[trigger] s[k] < h) ==> exists|k: int|
            {
                &&& 0 <= k < s.len()
                &&& #[trigger] s[k] == last_below(s, h)
                &&& s[k] < h
                &&& forall|j: int| k < j < s.len() ==> #[trigger] s[j] >= h
            },
        ascending(s) ==> forall|k: int|
            0 <= k < s.len() && #[trigger] s[k] < h ==> s[k] <= last_below(s, h) < h,
    decreases s.len(),
{
    if s.len() > 0 {
        let rest = s.drop_last();
        let last = s.len() - 1;
        if s[last] < h {
            assert(s[last] == last_below(s, h));
        } else {
            law_last_below(rest, h);
            if exists|k: int| 0 <= k < s.len() && #[trigger] s[k] < h {
                let k = choose|k: int| 0 <= k < s.len() && #[trigger] s[k] < h;
                assert(rest[k] < h);
                let p = choose|p: int|
                    {
                        &&& 0 <= p < rest.len()
                        &&& #[trigger] rest[p] == last_below(rest, h)
                        &&& rest[p] < h
                        &&& forall|j: int| p < j < rest.len() ==> #[trigger] rest[j] >= h
                    };
                assert(s[p] == last_below(s, h));
                assert forall|j: int| p < j < s.len() implies #[trigger] s[j] >= h by {
                    if j < last {
                        assert(rest[j] >= h);
                    }
                }
            } else {
                assert forall|k: int| 0 <= k < rest.len() implies #[trigger] rest[k] >= h by {
                    assert(s[k] >= h);
                }
            }
            if ascending(s) {
                assert(ascending(rest));
                assert forall|k: int| 0 <= k < s.len() && #[trigger] s[k] < h implies s[k]
                    <= last_below(s, h) < h by {
                    assert(rest[k] < h);
                }
            }
        }
    }
}

/// In a list in order, the last height below another stands right in front of the first
/// that is not below.
pub proof fn law_last_below_in_order(s: Seq<u32>, h: u32, p: int)
    requires
        ascending(s),
        0 <= p <= s.len(),
        forall|k: int| 0 <= k < p ==> #[trigger] s[k] < h,
        p < s.len() ==> s[p] >= h,
    ensures
        p > 0 ==> last_below(s, h) == s[p - 1],
        p == 0 ==> last_below(s, h) == 0,
    decreases s.len(),
{
    if s.len() > 0 {
        let rest = s.drop_last();
        assert(ascending(rest));
        if p < s.len() {
            if p < s.len() - 1 {
                assert(s[p] < s[s.len() - 1]);
            }
            assert forall|k: int| 0 <= k < p implies #[trigger] rest[k] < h by {
                assert(s[k] < h);
            }
            law_last_below_in_order(rest, h, p);
        } else {
            assert(s[p - 1] < h);
        }
    }
}

/// The offset above a height is that of the first entry that lies above, and the end
/// where no entry does.
pub proof fn law_offset_above(entries: Seq<IndexEntry>, h: u32, end: u64, p: int)
    requires
        0 <= p <= entries.len(),
        forall|k: int| 0 <= k < p ==> (#[trigger] entries[k]).block <= h,
        p < entries.len() ==> entries[p].block > h,
    ensures
        p < entries.len() ==> offset_above(entries, h, end) == entries[p].i,
        p == entries.len() ==> offset_above(entries, h, end) == end,
{
    lemma_offset_above(entries, h, end, p);
}

/// The offset from a height on is that of the lowest entry that is not below, and there
/// is one exactly where an entry is not below. So it is in an index in order.
pub proof fn law_offset_from(entries: Seq<IndexEntry>, h: u32, p: int)
    requires
        ascending(heights(entries)),
        0 <= p <= entries.len(),
        forall|k: int| 0 <= k < p ==> (#[trigger] entries[k]).block < h,
        p < entries.len() ==> entries[p].block >= h,
    ensures
        p < entries.len() ==> offset_from(entries, h) == Some(entries[p].i),
        p == entries.len() ==> offset_from(entries, h) is None,
{
    let s = heights(entries);
    lemma_place_cut(s, h);
    assert forall|k: int| 0 <= k < p implies s[k] < h by {
        assert(entries[k].block < h);
    }
    assert forall|k: int| p <= k < s.len() implies s[k] >= h by {
        if k > p {
            assert(s[p] < s[k]);
        }
    }
    assert(splits(s, h, p));
}

/// The entries below a height are those of the index that are, in their order, and the
/// heights that are left go with them.
pub proof fn law_entries_below(entries: Seq<IndexEntry>, fork: u32, p: int)
    requires
        ascending(heights(entries)),
        0 <= p <= entries.len(),
        forall|k: int| 0 <= k < p ==> (#[trigger] entries[k]).block < fork,
        p < entries.len() ==> entries[p].block >= fork,
    ensures
        entries_below(entries, fork) == entries.take(p),
        heights_below(heights(entries), fork) == heights(entries.take(p)),
{
    let s = heights(entries);
    let f = |e: IndexEntry| e.block < fork;
    let g = |h: u32| h < fork;
    assert forall|k: int| p <= k < entries.len() implies (#[trigger] entries[k]).block >= fork by {
        if k > p {
            assert(s[p] < s[k]);
        }
    }
    lemma_filter_range(entries, f, 0, p);
    assert(entries.subrange(0, p) =~= entries.take(p));
    lemma_filter_range(s, g, 0, p);
    assert(s.subrange(0, p) =~= heights(entries.take(p)));
}

} // verus!
