//! The construction-time trie: a growable arena of nodes that accepts
//! word insertions and emits the packed pre-order array.
//!
//! A node's children are kept sorted by edge byte. Once a sparse child
//! list outgrows 250 entries it is widened to a dense list of all 256
//! bytes, indexed directly; the unused slots are stub nodes without a
//! token, which the packed form keeps as harmless leaves.

use vstd::prelude::*;
use crate::node::{TrieNode, NO_TOKEN};

verus! {

/// The construction-time trie. Node `n` is described by `token[n]`,
/// `byte[n]` and `children[n]`; node 0 is the root.
pub(crate) struct TrieHash {
    token: Vec<u32>,
    byte: Vec<u8>,
    children: Vec<Vec<usize>>,
}

impl TrieHash {
    /// The arena is consistent: the three columns have one row per node,
    /// every child index names a node further down the arena (so walking
    /// downward terminates), and every stored token id fits its field.
    pub(crate) closed spec fn wf(self) -> bool {
        &&& self.token@.len() == self.byte@.len()
        &&& self.token@.len() == self.children@.len()
        &&& forall|n: int, j: int|
            0 <= n < self.children@.len() && 0 <= j < self.children@[n]@.len() ==> n < (
            #[trigger] self.children@[n]@[j]) < self.children@.len()
        &&& forall|n: int|
            0 <= n < self.token@.len() ==> #[trigger] self.token@[n] <= NO_TOKEN
    }

    pub(crate) closed spec fn node_count(self) -> int {
        self.token@.len() as int
    }

    /// The stored token id of node `i`.
    pub(crate) closed spec fn tok_of(self, i: int) -> u32 {
        self.token@[i]
    }

    /// The edge byte of node `i`.
    pub(crate) closed spec fn byte_of(self, i: int) -> u8 {
        self.byte@[i]
    }

    /// How many children node `i` has.
    pub(crate) closed spec fn kids_of(self, i: int) -> int {
        self.children@[i]@.len() as int
    }

    /// A trie holding only a root node (whose edge byte is the special
    /// marker, as nothing sits above the root).
    pub(crate) fn new(root_byte: u8) -> (r: TrieHash)
        ensures
            r.wf(),
            r.node_count() == 1,
            r.tok_of(0) == NO_TOKEN,
            r.byte_of(0) == root_byte,
            r.kids_of(0) == 0,
    {
        let mut token: Vec<u32> = Vec::new();
        let mut byte: Vec<u8> = Vec::new();
        let mut children: Vec<Vec<usize>> = Vec::new();
        token.push(NO_TOKEN);
        byte.push(root_byte);
        children.push(Vec::new());
        TrieHash { token, byte, children }
    }

    /// Find the child of `n` along `b`, against the sorted (or dense)
    /// child list.
    fn find_child(&self, n: usize, b: u8) -> (r: Option<usize>)
        requires
            self.wf(),
            n < self.node_count(),
        ensures
            r is Some ==> n < r->Some_0 < self.node_count(),
    {
        let list = &self.children[n];
        if list.len() == 256 {
            Some(list[b as usize])
        } else {
            let m = list.len();
            let mut j: usize = 0;
            while j < m
                invariant
                    self.wf(),
                    n < self.node_count(),
                    m == self.children@[n as int]@.len(),
                    list@ == self.children@[n as int]@,
                decreases m - j,
            {
                let c = list[j];
                if self.byte[c] == b {
                    return Some(c);
                }
                j = j + 1;
            }
            None
        }
    }

    /// Append a fresh node without a token and return its index.
    fn push_node(&mut self, b: u8) -> (r: usize)
        requires
            old(self).wf(),
        ensures
            final(self).wf(),
            final(self).node_count() == old(self).node_count() + 1,
            r == old(self).node_count(),
            final(self).token@ == old(self).token@.push(NO_TOKEN),
            final(self).byte@ == old(self).byte@.push(b),
            final(self).children@.len() == old(self).children@.len() + 1,
            forall|i: int|
                0 <= i < old(self).children@.len() ==> final(self).children@[i] == old(
                    self,
                ).children@[i],
            final(self).children@[old(self).node_count()]@.len() == 0,
    {
        let r = self.token.len();
        self.token.push(NO_TOKEN);
        self.byte.push(b);
        let fresh_list: Vec<usize> = Vec::new();
        self.children.push(fresh_list);
        proof {
            assert forall|n: int, j: int|
                0 <= n < self.children@.len() && 0 <= j < self.children@[n]@.len() implies n < (
                #[trigger] self.children@[n]@[j]) < self.children@.len() by {
                if n < self.children@.len() - 1 {
                    assert(self.children@[n] == old(self).children@[n]);
                }
            }
        }
        r
    }

    /// The sorted child list of `n` with `c` spliced in before the first
    /// child whose edge byte exceeds `b`.
    fn spliced_children(&self, n: usize, c: usize, b: u8) -> (r: Vec<usize>)
        requires
            self.wf(),
            n < self.node_count(),
        ensures
            forall|j: int|
                0 <= j < r@.len() ==> r@[j] == c || self.children@[n as int]@.contains(
                    #[trigger] r@[j],
                ),
    {
        let list = &self.children[n];
        let m = list.len();
        let mut r: Vec<usize> = Vec::new();
        let mut j: usize = 0;
        while j < m
            invariant
                self.wf(),
                n < self.node_count(),
                j <= m,
                m == self.children@[n as int]@.len(),
                list@ == self.children@[n as int]@,
                r@.len() == j,
                forall|i: int| 0 <= i < j ==> r@[i] == list@[i],
            decreases m - j,
        {
            if self.byte[list[j]] > b {
                break ;
            }
            r.push(list[j]);
            j = j + 1;
        }
        let ghost took: int = j as int;
        r.push(c);
        while j < m
            invariant
                self.wf(),
                n < self.node_count(),
                j <= m,
                0 <= took <= j,
                m == self.children@[n as int]@.len(),
                list@ == self.children@[n as int]@,
                r@.len() == j + 1,
                r@[took] == c,
                forall|i: int| 0 <= i < took ==> r@[i] == list@[i],
                forall|i: int| took < i <= j ==> r@[i] == list@[i - 1],
            decreases m - j,
        {
            r.push(list[j]);
            j = j + 1;
        }
        proof {
            assert forall|i: int|
                0 <= i < r@.len() implies r@[i] == c || self.children@[n as int]@.contains(
                #[trigger] r@[i],
            ) by {
                if i < took {
                    assert(r@[i] == list@[i]);
                    assert(self.children@[n as int]@.contains(list@[i]));
                } else if i > took {
                    assert(r@[i] == list@[i - 1]);
                    assert(self.children@[n as int]@.contains(list@[i - 1]));
                }
            }
        }
        r
    }

    /// The child list of `n` widened to all 256 bytes: each present child
    /// takes the slot of its edge byte; the rest become stub nodes.
    fn densify(&mut self, n: usize)
        requires
            old(self).wf(),
            n < old(self).node_count(),
        ensures
            final(self).wf(),
            old(self).node_count() <= final(self).node_count(),
            final(self).node_count() <= old(self).node_count() + 256,
            n < final(self).node_count(),
    {
        let m = self.children[n].len();
        let mut old_list: Vec<usize> = Vec::new();
        let mut j: usize = 0;
        while j < m
            invariant
                self.wf(),
                n < self.node_count(),
                j <= m,
                m == self.children@[n as int]@.len(),
                old_list@.len() == j,
                forall|i: int| 0 <= i < j ==> old_list@[i] == self.children@[n as int]@[i],
            decreases m - j,
        {
            let e = self.children[n][j];
            old_list.push(e);
            j = j + 1;
        }
        let ghost before = *self;
        let mut slots: Vec<usize> = Vec::new();
        let mut b: usize = 0;
        while b < 256
            invariant
                self.wf(),
                n < self.node_count(),
                before.node_count() <= self.node_count(),
                self.node_count() <= before.node_count() + b,
                slots@.len() == b,
                b <= 256,
                forall|i: int| 0 <= i < b ==> n < #[trigger] slots@[i] < self.node_count(),
                forall|i: int|
                    0 <= i < old_list@.len() ==> n < #[trigger] old_list@[i] < before.node_count(),
                forall|i: int|
                    0 <= i < before.node_count() ==> #[trigger] self.children@[i]
                        == before.children@[i],
                forall|i: int|
                    before.node_count() <= i < self.node_count()
                        ==> (#[trigger] self.children@[i])@.len() == 0,
            decreases 256 - b,
        {
            let fresh = self.push_node(b as u8);
            slots.push(fresh);
            b = b + 1;
        }
        let mut k: usize = 0;
        while k < m
            invariant
                self.wf(),
                n < self.node_count(),
                k <= m,
                m == old_list@.len(),
                slots@.len() == 256,
                before.node_count() <= self.node_count() <= before.node_count() + 256,
                forall|i: int| 0 <= i < 256 ==> n < #[trigger] slots@[i] < self.node_count(),
                forall|i: int|
                    0 <= i < old_list@.len() ==> n < #[trigger] old_list@[i] < before.node_count(),
            decreases m - k,
        {
            let c = old_list[k];
            let cb = self.byte[c];
            slots[cb as usize] = c;
            k = k + 1;
        }
        self.children[n] = slots;
        proof {
            assert forall|q: int, j2: int|
                0 <= q < self.children@.len() && 0 <= j2 < self.children@[q]@.len() implies q < (
                #[trigger] self.children@[q]@[j2]) < self.children@.len() by {
                if q != n {
                    if q < before.node_count() {
                        assert(self.children@[q] == before.children@[q]);
                    } else {
                        assert(self.children@[q]@.len() == 0);
                    }
                }
            }
        }
    }

    /// Record that `word` names token `token_id`: walk the word's bytes,
    /// growing nodes for the missing edges, and store the id at the end
    /// (overwriting any id already there; duplicates are captured later).
    pub(crate) fn insert(&mut self, word: &[u8], token_id: u32)
        requires
            old(self).wf(),
            old(self).node_count() >= 1,
            token_id < NO_TOKEN,
        ensures
            final(self).wf(),
            final(self).node_count() >= 1,
            exists|i: int|
                0 <= i < final(self).node_count() && #[trigger] final(self).tok_of(i) == token_id,
    {
        let len = word.len();
        let mut cur: usize = 0;
        let mut i: usize = 0;
        while i < len
            invariant
                self.wf(),
                i <= len,
                len == word@.len(),
                cur < self.node_count(),
            decreases len - i,
        {
            let b = word[i];
            let next = match self.find_child(cur, b) {
                Some(c) => c,
                None => {
                    let fresh = self.push_node(b);
                    let new_list = self.spliced_children(cur, fresh, b);
                    let ghost mid = *self;
                    proof {
                        assert forall|jj: int|
                            0 <= jj < new_list@.len() implies cur < #[trigger] new_list@[jj]
                            < self.node_count() by {
                            if new_list@[jj] != fresh {
                                assert(self.children@[cur as int]@.contains(new_list@[jj]));
                            }
                        }
                    }
                    self.children[cur] = new_list;
                    proof {
                        assert forall|q: int, j2: int|
                            0 <= q < self.children@.len() && 0 <= j2
                            < self.children@[q]@.len() implies q < (
                            #[trigger] self.children@[q]@[j2]) < self.children@.len() by {
                            if q != cur {
                                assert(self.children@[q] == mid.children@[q]);
                            }
                        }
                    }
                    if self.children[cur].len() > 250 && self.children[cur].len() < 256 {
                        self.densify(cur);
                    }
                    fresh
                },
            };
            cur = next;
            i = i + 1;
        }
        self.token[cur] = token_id;
        proof {
            assert forall|q: int|
                0 <= q < self.token@.len() implies #[trigger] self.token@[q] <= NO_TOKEN by {}
            assert(self.tok_of(cur as int) == token_id);
        }
    }

    /// Emit the subtree rooted at `idx` onto `data` in pre-order, giving
    /// the subtree's root the pop count `num_parents`; among its children,
    /// the last extends the chain (`num_parents + 1`) and the others pop
    /// one. Returns `false` when a pop count or a subtree size outgrows
    /// its 8- or 24-bit field.
    pub(crate) fn serialize(&self, idx: usize, data: &mut Vec<TrieNode>, num_parents: u8) -> (ok:
        bool)
        requires
            self.wf(),
            idx < self.node_count(),
        ensures
            final(data)@.len() >= old(data)@.len() + 1,
            old(data)@.len() == 0 && self.kids_of(idx as int) == 0 ==> {
                &&& ok
                &&& final(data)@.len() == 1
                &&& final(data)@[0]@.byte == self.byte_of(idx as int)
                &&& final(data)@[0]@.token == (if self.tok_of(idx as int) == NO_TOKEN {
                    Option::<u32>::None
                } else {
                    Option::<u32>::Some(self.tok_of(idx as int))
                })
                &&& final(data)@[0]@.num_parents == num_parents as int
                &&& final(data)@[0]@.subtree_size == 1
            },
        decreases self.node_count() - idx,
    {
        let pos = data.len();
        if pos >= 0xffffff {
            // the packed form addresses subtrees with 24 bits
            data.push(TrieNode::new(self.byte[idx], self.token[idx], num_parents));
            return false;
        }
        data.push(TrieNode::new(self.byte[idx], self.token[idx], num_parents));
        let ghost snap = data@;
        let list = &self.children[idx];
        let m = list.len();
        let mut j: usize = 0;
        while j < m
            invariant
                self.wf(),
                idx < self.node_count(),
                m == self.children@[idx as int]@.len(),
                list@ == self.children@[idx as int]@,
                pos == old(data)@.len(),
                pos < 0xffffff,
                data@.len() >= pos + 1,
                m == 0 ==> data@ == snap,
            decreases m - j,
        {
            let c = list[j];
            let child_np = if j + 1 == m {
                if num_parents == 255 {
                    return false;
                }
                num_parents + 1
            } else {
                1
            };
            if data.len() >= 0xffffff {
                return false;
            }
            let sub_ok = self.serialize(c, data, child_np);
            if !sub_ok {
                return false;
            }
            j = j + 1;
        }
        if data.len() - pos >= 0x1000000 {
            return false;
        }
        let size = (data.len() - pos) as u32;
        let patched = data[pos].with_subtree_size(size);
        data[pos] = patched;
        true
    }
}

} // verus!
