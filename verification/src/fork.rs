//! Finding where the chain of the node and the chain that was indexed part.

use vstd::prelude::*;
use crate::index;
use crate::index::ShieldIndex;
use crate::text;

verus! {

/// How many blocks a search goes back at most.
pub const SEARCH_DEPTH: u32 = 1000;

/// A walk backwards from a height to the place where the chain diverges from the
/// blocks that are known.
#[derive(Clone, Copy)]
pub struct ForkSearch {
    /// Where the walk ends at the latest.
    pub limit: u32,
    /// The height to look at.
    pub at: u32,
}

/// What the node has at a height: a hash, or nothing where it fails.
pub open spec fn agrees(
    known: Map<u32, Seq<char>>,
    node: spec_fn(u32) -> Option<Seq<char>>,
    h: u32,
) -> bool {
    known.contains_key(h) && node(h) == Some(known[h])
}

/// The height to start over from, with `at` as the next height to look at.
///
/// A height at which both chains have the same block ends the search: the fork
/// is right above it. So does a failure of the node. A height at which the blocks
/// differ, or at which none is known, is passed over. Behind the limit the search
/// ends in any case.
pub open spec fn fork_point(
    known: Map<u32, Seq<char>>,
    node: spec_fn(u32) -> Option<Seq<char>>,
    at: u32,
    limit: u32,
) -> int
    decreases at,
{
    if at <= limit {
        limit + 1
    } else if node(at) is None || agrees(known, node, at) {
        at + 1
    } else {
        fork_point(known, node, (at - 1) as u32, limit)
    }
}

/// What the search finds lies above the limit and no higher than where it began.
/// At no height from there up to where it began did the node fail, and no block
/// there is known to be on both chains. And unless the limit ended the search, the
/// height below is one at which the node failed, or one that both chains have in
/// common.
pub proof fn law_fork_point(
    known: Map<u32, Seq<char>>,
    node: spec_fn(u32) -> Option<Seq<char>>,
    at: u32,
    limit: u32,
)
    ensures
        ({
            let fork = fork_point(known, node, at, limit);
            &&& limit < fork
            &&& fork <= at + 1 || fork == limit + 1
            &&& forall|h: u32| fork <= h <= at ==> !agrees(known, node, h) && node(h) is Some
            &&& fork > limit + 1 ==> node((fork - 1) as u32) is None || agrees(
                known,
                node,
                (fork - 1) as u32,
            )
        }),
    decreases at,
{
    if at > limit && !(node(at) is None || agrees(known, node, at)) {
        law_fork_point(known, node, (at - 1) as u32, limit);
    }
}

/// The search for a fork below `height`: it begins right below, and goes back no
/// further than its depth.
pub open spec fn first_search(height: u32) -> ForkSearch {
    ForkSearch {
        limit: if height >= SEARCH_DEPTH {
            (height - SEARCH_DEPTH) as u32
        } else {
            0
        },
        at: if height >= 1 {
            (height - 1) as u32
        } else {
            0
        },
    }
}

/// Walk backwards from `height` to find where the chain diverges.
pub fn find_fork_point(height: u32) -> (search: ForkSearch)
    ensures
        search == first_search(height),
        search.wf(),
{
    ForkSearch { limit: height.saturating_sub(SEARCH_DEPTH), at: height.saturating_sub(1) }
}

impl ForkSearch {
    /// Whether the search ends in a height that exists.
    pub open spec fn wf(&self) -> bool {
        self.limit < u32::MAX && self.at < u32::MAX
    }

    /// The height whose hash the node is to be asked for; none where the search
    /// has come to its limit.
    pub fn pending(&self) -> (r: Option<u32>)
        ensures
            r == (if self.at > self.limit {
                Some(self.at)
            } else {
                None
            }),
    {
        if self.at > self.limit {
            Some(self.at)
        } else {
            None
        }
    }

    /// The result where the search has come to its limit.
    pub fn exhausted(&self) -> (fork: u32)
        requires
            self.wf(),
        ensures
            fork == self.limit + 1,
    {
        self.limit + 1
    }

    /// Take the hash that is known at the pending height, if any is, and the one
    /// that the node has there, unless it failed. Says where the fork is once that
    /// is decided.
    pub fn step(&mut self, known: Option<&str>, node: Option<&str>) -> (r: Option<u32>)
        requires
            old(self).wf(),
            old(self).at > old(self).limit,
        ensures
            final(self).wf(),
            final(self).limit == old(self).limit,
            match r {
                Some(fork) => fork == old(self).at + 1 && *final(self) == *old(self),
                None => final(self).at == old(self).at - 1,
            },
            r is Some <==> node is None || (known is Some && known->0@ == node->0@),
    {
        match node {
            None => Some(self.at + 1),
            Some(node_hash) => {
                if let Some(known_hash) = known {
                    if text::same(known_hash, node_hash) {
                        return Some(self.at + 1);
                    }
                }
                self.at = self.at - 1;
                None
            },
        }
    }
}

/// The height to start over from where no hashes are known: right above the last
/// indexed shield block below `last_scanned`.
pub fn find_fork_point_via_rpc(last_scanned: u32, index: &ShieldIndex) -> (fork: u32)
    ensures
        fork == index::last_below(index.shield_heights@, last_scanned) + 1,
        1 <= fork,
        last_scanned > 0 ==> fork <= last_scanned,
{
    let n: usize = index.shield_heights.len();
    let mut k: usize = n;
    assert(index.shield_heights@.take(n as int) =~= index.shield_heights@);
    while k > 0
        invariant
            k <= n == index.shield_heights@.len(),
            index::last_below(index.shield_heights@, last_scanned) == index::last_below(
                index.shield_heights@.take(k as int),
                last_scanned,
            ),
        decreases k,
    {
        let ghost s = index.shield_heights@.take(k as int);
        assert(s.drop_last() =~= index.shield_heights@.take(k - 1));
        assert(s.last() == index.shield_heights@[k - 1]);
        if index.shield_heights[k - 1] < last_scanned {
            return index.shield_heights[k - 1] + 1;
        }
        k = k - 1;
    }
    1
}

/// A search begins right below the height, and goes back a thousand blocks, or to the
/// first where there are fewer.
pub proof fn law_search_begins_right_below(height: u32)
    requires
        height > 0,
    ensures
        first_search(height).at + 1 == height,
        first_search(height).limit == 0 || height - first_search(height).limit == 1000,
        height - first_search(height).limit <= 1000,
        height <= 1000 ==> first_search(height).limit == 0,
{
}

} // verus!
