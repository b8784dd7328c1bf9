//! The mathematical model of the packed node array.
//!
//! Nodes stand in depth-first pre-order: a node at `i` is followed by its
//! children, which fill `[i + 1, i + subtree_size)`; the next sibling (or
//! the next node of an ancestor) begins at `i + subtree_size`. The pop
//! count `num_parents` of a node is 1 when a sibling follows it, and one
//! more than its parent's pop count when it closes its sibling chain.

use vstd::prelude::*;
use crate::node::TrieNode;

verus! {

/// The subtree size of the node at `i`.
pub open spec fn sz(s: Seq<TrieNode>, i: int) -> int {
    s[i]@.subtree_size
}

/// `[lo, hi)` holds a chain of sibling subtrees whose edge bytes strictly
/// ascend, with every subtree size and pop count right; `pnp` is the pop
/// count of the parent node, which the last sibling's own count extends.
pub open spec fn wf_forest(s: Seq<TrieNode>, lo: int, hi: int, pnp: int) -> bool
    decreases hi - lo,
{
    if lo >= hi {
        lo == hi
    } else {
        &&& 0 <= lo
        &&& hi <= s.len()
        &&& 1 <= sz(s, lo)
        &&& lo + sz(s, lo) <= hi
        &&& s[lo]@.num_parents == (if lo + sz(s, lo) == hi {
            pnp + 1
        } else {
            1
        })
        &&& (lo + sz(s, lo) < hi ==> (s[lo]@.byte as int) < (s[lo + sz(s, lo)]@.byte as int))
        &&& wf_forest(s, lo + 1, lo + sz(s, lo), s[lo]@.num_parents)
        &&& wf_forest(s, lo + sz(s, lo), hi, pnp)
    }
}

/// The node at `i` heads a well-formed subtree.
pub open spec fn wf_node(s: Seq<TrieNode>, i: int) -> bool {
    &&& 0 <= i < s.len()
    &&& 1 <= sz(s, i)
    &&& i + sz(s, i) <= s.len()
    &&& wf_forest(s, i + 1, i + sz(s, i), s[i]@.num_parents)
}

/// The whole array is one tree: a root at 0 whose subtree is everything.
pub open spec fn wf_trie(s: Seq<TrieNode>) -> bool {
    &&& 1 <= s.len() < 0x1000000
    &&& sz(s, 0) == s.len()
    &&& s[0]@.num_parents == 0
    &&& s[0]@.token is None
    &&& wf_forest(s, 1, s.len() as int, 0)
}

/// The first sibling in `[lo, hi)` whose edge byte is `b`.
pub open spec fn find_sib(s: Seq<TrieNode>, lo: int, hi: int, b: u8) -> Option<int>
    decreases hi - lo,
{
    if lo >= hi || sz(s, lo) < 1 || lo + sz(s, lo) > hi {
        None
    } else if s[lo]@.byte == b {
        Some(lo)
    } else {
        find_sib(s, lo + sz(s, lo), hi, b)
    }
}

/// The child of the node at `i` with edge byte `b`.
pub open spec fn child_of(s: Seq<TrieNode>, i: int, b: u8) -> Option<int> {
    find_sib(s, i + 1, i + sz(s, i), b)
}

/// The positions of the sibling subtree roots that fill `[lo, hi)`.
pub open spec fn forest_roots(s: Seq<TrieNode>, lo: int, hi: int) -> Seq<int>
    decreases hi - lo,
{
    if lo >= hi || sz(s, lo) < 1 || lo + sz(s, lo) > hi {
        Seq::<int>::empty()
    } else {
        seq![lo] + forest_roots(s, lo + sz(s, lo), hi)
    }
}

/// The node reached from `i` by following `bytes` edge by edge.
pub open spec fn node_at(s: Seq<TrieNode>, i: int, bytes: Seq<u8>) -> Option<int>
    decreases bytes.len(),
{
    if bytes.len() == 0 {
        Some(i)
    } else {
        match child_of(s, i, bytes[0]) {
            Some(c) => node_at(s, c, bytes.skip(1)),
            None => None,
        }
    }
}

/// A found sibling heads a well-formed subtree inside the chain.
pub proof fn lemma_find_sib_wf(s: Seq<TrieNode>, lo: int, hi: int, pnp: int, b: u8)
    requires
        wf_forest(s, lo, hi, pnp),
        find_sib(s, lo, hi, b) is Some,
    ensures
        lo <= find_sib(s, lo, hi, b)->Some_0,
        find_sib(s, lo, hi, b)->Some_0 + sz(s, find_sib(s, lo, hi, b)->Some_0) <= hi,
        wf_node(s, find_sib(s, lo, hi, b)->Some_0),
        s[find_sib(s, lo, hi, b)->Some_0]@.byte == b,
    decreases hi - lo,
{
    if lo < hi && s[lo]@.byte != b {
        lemma_find_sib_wf(s, lo + sz(s, lo), hi, pnp, b);
    }
}

/// A found child heads a well-formed subtree strictly inside its parent's.
pub proof fn lemma_child_of_wf(s: Seq<TrieNode>, i: int, b: u8)
    requires
        wf_node(s, i),
        child_of(s, i, b) is Some,
    ensures
        i < child_of(s, i, b)->Some_0,
        child_of(s, i, b)->Some_0 + sz(s, child_of(s, i, b)->Some_0) <= i + sz(s, i),
        wf_node(s, child_of(s, i, b)->Some_0),
        s[child_of(s, i, b)->Some_0]@.byte == b,
{
    lemma_find_sib_wf(s, i + 1, i + sz(s, i), s[i]@.num_parents, b);
}

/// A node reached along a byte path heads a well-formed subtree within the
/// subtree it was reached from.
pub proof fn lemma_node_at_wf(s: Seq<TrieNode>, i: int, bytes: Seq<u8>)
    requires
        wf_node(s, i),
        node_at(s, i, bytes) is Some,
    ensures
        wf_node(s, node_at(s, i, bytes)->Some_0),
        i <= node_at(s, i, bytes)->Some_0,
        node_at(s, i, bytes)->Some_0 + sz(s, node_at(s, i, bytes)->Some_0) <= i + sz(s, i),
    decreases bytes.len(),
{
    if bytes.len() > 0 {
        let c = child_of(s, i, bytes[0])->Some_0;
        lemma_child_of_wf(s, i, bytes[0]);
        lemma_node_at_wf(s, c, bytes.skip(1));
    }
}

/// A path splits: follow the first `k` bytes, then the rest.
pub proof fn lemma_node_at_split(s: Seq<TrieNode>, i: int, bytes: Seq<u8>, k: int)
    requires
        0 <= k <= bytes.len(),
    ensures
        node_at(s, i, bytes) == (match node_at(s, i, bytes.take(k)) {
            Some(j) => node_at(s, j, bytes.skip(k)),
            None => None::<int>,
        }),
    decreases k,
{
    if k == 0 {
        assert(bytes.take(0).len() == 0);
        assert(node_at(s, i, bytes.take(0)) == Some(i));
        assert(bytes.skip(0) =~= bytes);
    } else {
        assert(bytes.take(k)[0] == bytes[0]);
        match child_of(s, i, bytes[0]) {
            Some(c) => {
                assert(bytes.take(k).skip(1) =~= bytes.skip(1).take(k - 1));
                assert(bytes.skip(1).skip(k - 1) =~= bytes.skip(k));
                lemma_node_at_split(s, c, bytes.skip(1), k - 1);
                assert(node_at(s, i, bytes) == node_at(s, c, bytes.skip(1)));
                assert(node_at(s, i, bytes.take(k)) == node_at(s, c, bytes.take(k).skip(1)));
            },
            None => {},
        }
    }
}

/// Following one more byte is following the path to its child.
pub proof fn lemma_node_at_snoc(s: Seq<TrieNode>, i: int, bytes: Seq<u8>, b: u8)
    ensures
        node_at(s, i, bytes.push(b)) == (match node_at(s, i, bytes) {
            Some(j) => child_of(s, j, b),
            None => None::<int>,
        }),
    decreases bytes.len(),
{
    let pb = bytes.push(b);
    if bytes.len() == 0 {
        assert(pb[0] == b);
        match child_of(s, i, b) {
            Some(c) => {
                assert(pb.skip(1).len() == 0);
                assert(node_at(s, c, pb.skip(1)) == Some(c));
            },
            None => {},
        }
    } else {
        assert(pb[0] == bytes[0]);
        assert(pb.skip(1) =~= bytes.skip(1).push(b));
        match child_of(s, i, bytes[0]) {
            Some(c) => {
                lemma_node_at_snoc(s, c, bytes.skip(1), b);
                assert(node_at(s, i, pb) == node_at(s, c, pb.skip(1)));
                assert(node_at(s, i, bytes) == node_at(s, c, bytes.skip(1)));
            },
            None => {},
        }
    }
}

} // verus!
