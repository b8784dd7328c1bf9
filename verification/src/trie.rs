//! The packed token trie and its queries.

use vstd::prelude::*;
use vstd::slice::slice_subrange;
use rustc_hash::FxHashMap;
use crate::builder::TrieHash;
use crate::codec::{
    le32, nodes_bytes, offs_bytes, parse_nodes, parse_offs, serialize_spec, TRIE_HEADER_SIZE,
    TRIE_MAGIC,
};
use crate::dupmap::{dup_clone, dup_entries, dup_get, dup_new, dup_push};
use crate::engine::{bias_set, lemma_bias_set_ext, prefix_tokens, tok_at};
use crate::info::SpecialToken;
use crate::recognizer::Recognizer;
use crate::tokenset::TokenSet;
use crate::error::TrieError;
use crate::info::TokRxInfo;
use crate::model::{
    child_of, find_sib, forest_roots, lemma_find_sib_wf, lemma_node_at_split,
    lemma_node_at_snoc, lemma_node_at_wf, node_at, sz, wf_forest, wf_node, wf_trie,
};
use crate::node::{TrieNode, NO_TOKEN};

verus! {

/// The byte that marks a special token; any token whose bytes begin with it
/// is special, and decoding strips it.
pub const SPECIAL_TOKEN_PREFIX_BYTE: u8 = 0xff;

/// The mathematical content of a trie.
pub struct TrieView {
    pub info: TokRxInfo,
    pub token_offsets: Seq<u32>,
    pub token_data: Seq<u8>,
    pub nodes: Seq<TrieNode>,
    pub max_token_len: int,
    pub dups: Map<u32, Seq<u32>>,
}

/// The byte length a descriptor records (its low 10 bits).
pub open spec fn desc_len(d: u32) -> int {
    (d & 0x3ff) as int
}

/// The byte-store offset a descriptor records (its high 22 bits).
pub open spec fn desc_off(d: u32) -> int {
    (d >> 10) as int
}

/// The byte content of token `t`; empty when `t` is out of range.
pub open spec fn token_bytes_of(v: TrieView, t: int) -> Seq<u8> {
    if 0 <= t < v.token_offsets.len() {
        v.token_data.subrange(
            desc_off(v.token_offsets[t]),
            desc_off(v.token_offsets[t]) + desc_len(v.token_offsets[t]),
        )
    } else {
        Seq::<u8>::empty()
    }
}

/// The concatenated byte content of a token sequence.
pub open spec fn decode_raw_spec(v: TrieView, toks: Seq<u32>) -> Seq<u8>
    decreases toks.len(),
{
    if toks.len() == 0 {
        Seq::<u8>::empty()
    } else {
        token_bytes_of(v, toks[0] as int) + decode_raw_spec(v, toks.skip(1))
    }
}

/// A packed, immutable vocabulary trie.
pub struct TokTrie {
    pub(crate) info: TokRxInfo,
    pub(crate) token_offsets: Vec<u32>,
    pub(crate) token_data: Vec<u8>,
    pub(crate) nodes: Vec<TrieNode>,
    pub(crate) max_token_len: usize,
    pub(crate) token_duplicates: FxHashMap<u32, Vec<u32>>,
}

impl View for TokTrie {
    type V = TrieView;

    closed spec fn view(&self) -> TrieView {
        TrieView {
            info: self.info,
            token_offsets: self.token_offsets@,
            token_data: self.token_data@,
            nodes: self.nodes@,
            max_token_len: self.max_token_len as int,
            dups: self.token_duplicates@.map_values(|ids: Vec<u32>| ids@),
        }
    }
}

/// The token store is consistent: one descriptor per token, each naming a
/// byte range inside the store, with the whole store addressable in 22 bits.
pub open spec fn tokens_in_range(v: TrieView) -> bool {
    &&& v.info.vocab_size <= 0xffffff
    &&& v.token_offsets.len() == v.info.vocab_size
    &&& v.token_data.len() < 0x400000
    &&& forall|t: int|
        0 <= t < v.token_offsets.len() ==> desc_off(#[trigger] v.token_offsets[t]) + desc_len(
            v.token_offsets[t],
        ) <= v.token_data.len()
}

/// Node labels are sound: the root carries none, every label is a valid
/// token id, and no id labels two nodes.
pub open spec fn labels_wf(v: TrieView) -> bool {
    &&& forall|p: int|
        1 <= p < v.nodes.len() && (#[trigger] v.nodes[p]@.token) is Some
            ==> v.nodes[p]@.token->Some_0 < v.info.vocab_size
    &&& forall|p: int, q: int|
        1 <= p < q < v.nodes.len() && (#[trigger] v.nodes[p]@.token) is Some && (
        #[trigger] v.nodes[q]@.token) is Some ==> v.nodes[p]@.token != v.nodes[q]@.token
}

/// Every non-empty token is reachable: its bytes trace a path from the
/// root to a labelled node whose own byte content is the same (the label
/// differs from the token only when two ids share one byte string).
pub open spec fn reachable_wf(v: TrieView) -> bool {
    forall|t: int|
        0 <= t < v.info.vocab_size && (#[trigger] token_bytes_of(v, t)).len() > 0 ==> {
            &&& node_at(v.nodes, 0, token_bytes_of(v, t)) is Some
            &&& v.nodes[node_at(v.nodes, 0, token_bytes_of(v, t))->Some_0]@.token is Some
            &&& token_bytes_of(
                v,
                v.nodes[node_at(v.nodes, 0, token_bytes_of(v, t))->Some_0]@.token->Some_0 as int,
            ) == token_bytes_of(v, t)
        }
}

/// The duplicate map mirrors the overridden labels: a token whose node
/// carries another id is recorded under that id, and everything recorded
/// is a valid id.
pub open spec fn coverage_wf(v: TrieView) -> bool {
    &&& reachable_wf(v)
    &&& forall|t: int|
        0 <= t < v.info.vocab_size && (#[trigger] token_bytes_of(v, t)).len() > 0 ==> {
            let lab = v.nodes[node_at(v.nodes, 0, token_bytes_of(v, t))->Some_0]@.token->Some_0;
            lab == t || (v.dups.contains_key(lab) && v.dups[lab].contains(t as u32))
        }
    &&& forall|k: u32|
        #[trigger] v.dups.contains_key(k) ==> k < v.info.vocab_size && v.dups[k].len() > 0
    &&& forall|k: u32, j: int|
        v.dups.contains_key(k) && 0 <= j < v.dups[k].len() ==> {
            let a = #[trigger] v.dups[k][j];
            &&& a < v.info.vocab_size
            &&& a != k
            &&& token_bytes_of(v, a as int).len() > 0
            &&& node_at(v.nodes, 0, token_bytes_of(v, a as int)) is Some
            &&& v.nodes[node_at(v.nodes, 0, token_bytes_of(v, a as int))->Some_0]@.token == Some(
                k,
            )
        }
    &&& forall|k: u32, j1: int, j2: int|
        v.dups.contains_key(k) && 0 <= j1 < j2 < v.dups[k].len() ==> #[trigger] v.dups[k][j1] != (
        #[trigger] v.dups[k][j2])
}

/// Every labelled node stands at its own token's byte path: a node label
/// is the canonical id of the byte string that leads to it. (Without
/// this, a loaded image could label a node with an id whose bytes lead
/// elsewhere, and the bias walk would answer for a token that does not
/// match.)
pub open spec fn labels_placed(v: TrieView) -> bool {
    forall|p: int|
        1 <= p < v.nodes.len() && (#[trigger] v.nodes[p]@.token) is Some ==> {
            let t = v.nodes[p]@.token->Some_0;
            &&& token_bytes_of(v, t as int).len() > 0
            &&& node_at(v.nodes, 0, token_bytes_of(v, t as int)) == Some(p)
        }
}

/// The cached maximal token length is what it claims to be.
pub open spec fn maxlen_wf(v: TrieView) -> bool {
    &&& forall|t: int|
        0 <= t < v.info.vocab_size ==> (#[trigger] token_bytes_of(v, t)).len() <= v.max_token_len
    &&& (v.max_token_len == 0 || exists|t: int|
        0 <= t < v.info.vocab_size && (#[trigger] token_bytes_of(v, t)).len() == v.max_token_len)
}

impl TokTrie {
    /// Everything construction establishes and every query relies on:
    /// a well-formed node array, in-range token descriptors, node labels
    /// that are valid and unique, every non-empty token reachable by its
    /// bytes, a duplicate map that mirrors the overridden labels, and a
    /// cached maximal token length.
    pub open spec fn wf(self) -> bool {
        &&& wf_trie(self@.nodes)
        &&& tokens_in_range(self@)
        &&& labels_wf(self@)
        &&& labels_placed(self@)
        &&& coverage_wf(self@)
        &&& maxlen_wf(self@)
    }

    /// The vocabulary record.
    pub fn info(&self) -> (r: &TokRxInfo)
        ensures
            *r == self@.info,
    {
        &self.info
    }

    /// The end-of-sentence token id.
    pub fn eos_token(&self) -> (r: u32)
        ensures
            r == self@.info.tok_eos,
    {
        self.info.tok_eos
    }

    /// How many tokens the vocabulary has.
    pub fn vocab_size(&self) -> (r: usize)
        ensures
            r == self@.info.vocab_size as int,
    {
        self.info.vocab_size as usize
    }

    /// The length of the longest token's byte content.
    pub fn max_token_len(&self) -> (r: usize)
        ensures
            r as int == self@.max_token_len,
    {
        self.max_token_len
    }

    /// How many packed nodes the trie holds.
    pub fn node_count(&self) -> (r: usize)
        ensures
            r == self@.nodes.len(),
    {
        self.nodes.len()
    }

    /// How many bytes the token store holds.
    pub fn token_data_len(&self) -> (r: usize)
        ensures
            r == self@.token_data.len(),
    {
        self.token_data.len()
    }

    /// A copy of the packed node at `p`.
    pub fn node(&self, p: usize) -> (r: TrieNode)
        requires
            p < self@.nodes.len(),
        ensures
            r == self@.nodes[p as int],
    {
        self.nodes[p]
    }

    /// The root node's position.
    pub fn root(&self) -> (r: usize)
        ensures
            r == 0,
            wf_trie(self@.nodes) ==> wf_node(self@.nodes, 0),
    {
        proof {
            if wf_trie(self@.nodes) {
                assert(wf_node(self@.nodes, 0));
            }
        }
        0
    }

    /// The position just past `n`'s subtree: its next sibling, or the next
    /// node of an ancestor.
    pub fn next_node(&self, n: usize) -> (r: usize)
        requires
            wf_node(self@.nodes, n as int),
        ensures
            r == n + sz(self@.nodes, n as int),
    {
        let total = self.nodes.len();
        n + self.nodes[n].subtree_size()
    }

    /// The byte content of token `idx`; empty when `idx` is out of range.
    pub fn token(&self, idx: u32) -> (r: &[u8])
        requires
            tokens_in_range(self@),
        ensures
            r@ == token_bytes_of(self@, idx as int),
    {
        if idx as usize >= self.token_offsets.len() {
            let r = slice_subrange(self.token_data.as_slice(), 0, 0);
            assert(r@ =~= token_bytes_of(self@, idx as int));
            r
        } else {
            let d = self.token_offsets[idx as usize];
            let len = (d & 0x3ff) as usize;
            let off = (d >> 10u32) as usize;
            slice_subrange(self.token_data.as_slice(), off, off + len)
        }
    }

    /// The concatenated byte content of `tokens`, special-prefix markers
    /// kept.
    pub fn decode_raw(&self, tokens: &[u32]) -> (r: Vec<u8>)
        requires
            tokens_in_range(self@),
        ensures
            r@ == decode_raw_spec(self@, tokens@),
    {
        let mut r: Vec<u8> = Vec::new();
        let n = tokens.len();
        let mut i: usize = 0;
        while i < n
            invariant
                tokens_in_range(self@),
                i <= n,
                n == tokens@.len(),
                r@ == decode_raw_spec(self@, tokens@.take(i as int)),
            decreases n - i,
        {
            let tb = self.token(tokens[i]);
            let m = tb.len();
            let mut j: usize = 0;
            while j < m
                invariant
                    i < n,
                    j <= m,
                    n == tokens@.len(),
                    m == tb@.len(),
                    tokens_in_range(self@),
                    tb@ == token_bytes_of(self@, tokens@[i as int] as int),
                    r@ == decode_raw_spec(self@, tokens@.take(i as int)) + tb@.take(j as int),
                decreases m - j,
            {
                r.push(tb[j]);
                proof {
                    assert(tb@.take(j + 1) =~= tb@.take(j as int).push(tb@[j as int]));
                }
                j = j + 1;
            }
            proof {
                assert(tb@.take(m as int) =~= tb@);
                lemma_decode_raw_take_step(self@, tokens@, i as int);
            }
            i = i + 1;
        }
        proof {
            assert(tokens@.take(n as int) =~= tokens@);
        }
        r
    }

    /// The concatenated byte content of `tokens` with every special-prefix
    /// marker stripped.
    pub fn decode(&self, tokens: &[u32]) -> (r: Vec<u8>)
        requires
            tokens_in_range(self@),
        ensures
            r@ == decode_raw_spec(self@, tokens@).filter(|b: u8| b != SPECIAL_TOKEN_PREFIX_BYTE),
    {
        let raw = self.decode_raw(tokens);
        let n = raw.len();
        let mut r: Vec<u8> = Vec::new();
        let mut i: usize = 0;
        proof {
            assert(raw@.take(0).filter(|b: u8| b != SPECIAL_TOKEN_PREFIX_BYTE) =~= Seq::<
                u8,
            >::empty());
        }
        while i < n
            invariant
                i <= n,
                n == raw@.len(),
                r@ == raw@.take(i as int).filter(|b: u8| b != SPECIAL_TOKEN_PREFIX_BYTE),
            decreases n - i,
        {
            let b = raw[i];
            proof {
                reveal_with_fuel(Seq::<_>::filter, 2);
                assert(raw@.take(i + 1).drop_last() =~= raw@.take(i as int));
                assert(raw@.take(i + 1).last() == raw@[i as int]);
            }
            if b != SPECIAL_TOKEN_PREFIX_BYTE {
                r.push(b);
            }
            i = i + 1;
        }
        proof {
            assert(raw@.take(n as int) =~= raw@);
        }
        r
    }

    /// The child of node `n` along edge `byte`, if any.
    pub fn child_at_byte(&self, n: usize, byte: u8) -> (r: Option<usize>)
        requires
            wf_node(self@.nodes, n as int),
        ensures
            match r {
                Some(c) => child_of(self@.nodes, n as int, byte) == Some(c as int) && wf_node(
                    self@.nodes,
                    c as int,
                ) && n < c && c + sz(self@.nodes, c as int) <= n + sz(self@.nodes, n as int),
                None => child_of(self@.nodes, n as int, byte) is None,
            },
    {
        let ghost s = self@.nodes;
        let total = self.nodes.len();
        let end = n + self.nodes[n].subtree_size();
        let mut p = n + 1;
        let ghost pnp = s[n as int]@.num_parents;
        while p < end
            invariant
                s == self@.nodes,
                n + 1 <= p,
                end == n + sz(s, n as int),
                end <= s.len(),
                wf_forest(s, p as int, end as int, pnp),
                find_sib(s, n as int + 1, end as int, byte) == find_sib(
                    s,
                    p as int,
                    end as int,
                    byte,
                ),
            decreases end - p,
        {
            if self.nodes[p].byte() == byte {
                proof {
                    lemma_find_sib_wf(s, p as int, end as int, pnp, byte);
                }
                return Some(p);
            }
            p = p + self.nodes[p].subtree_size();
        }
        None
    }

    /// The node reached from `n` by following `bytes` edge by edge, if any.
    pub fn child_at_bytes(&self, n: usize, bytes: &[u8]) -> (r: Option<usize>)
        requires
            wf_node(self@.nodes, n as int),
        ensures
            match r {
                Some(c) => node_at(self@.nodes, n as int, bytes@) == Some(c as int) && wf_node(
                    self@.nodes,
                    c as int,
                ) && n <= c && c + sz(self@.nodes, c as int) <= n + sz(self@.nodes, n as int),
                None => node_at(self@.nodes, n as int, bytes@) is None,
            },
    {
        let ghost s = self@.nodes;
        let m = bytes.len();
        let mut cur = n;
        let mut i: usize = 0;
        proof {
            assert(bytes@.take(0) =~= Seq::<u8>::empty());
        }
        while i < m
            invariant
                s == self@.nodes,
                i <= m,
                m == bytes@.len(),
                wf_node(s, cur as int),
                node_at(s, n as int, bytes@.take(i as int)) == Some(cur as int),
            decreases m - i,
        {
            proof {
                lemma_node_at_snoc(s, n as int, bytes@.take(i as int), bytes@[i as int]);
                assert(bytes@.take(i as int).push(bytes@[i as int]) =~= bytes@.take(i + 1));
            }
            match self.child_at_byte(cur, bytes[i]) {
                Some(c) => {
                    cur = c;
                },
                None => {
                    proof {
                        lemma_node_at_split(s, n as int, bytes@, i + 1);
                        assert(node_at(s, n as int, bytes@) is None);
                    }
                    return None;
                },
            }
            i = i + 1;
        }
        proof {
            assert(bytes@.take(m as int) =~= bytes@);
            lemma_node_at_wf(s, n as int, bytes@);
        }
        Some(cur)
    }

    /// The positions of `n`'s direct children, in edge-byte order.
    pub fn node_children(&self, n: usize) -> (r: Vec<usize>)
        requires
            wf_node(self@.nodes, n as int),
        ensures
            r@.map_values(|c: usize| c as int) == forest_roots(
                self@.nodes,
                n as int + 1,
                n + sz(self@.nodes, n as int),
            ),
    {
        let ghost s = self@.nodes;
        let total = self.nodes.len();
        let end = n + self.nodes[n].subtree_size();
        let mut p = n + 1;
        let ghost pnp = s[n as int]@.num_parents;
        let mut r: Vec<usize> = Vec::new();
        while p < end
            invariant
                s == self@.nodes,
                n + 1 <= p,
                end == n + sz(s, n as int),
                end <= s.len(),
                wf_forest(s, p as int, end as int, pnp),
                forest_roots(s, n as int + 1, end as int) == r@.map_values(|c: usize| c as int)
                    + forest_roots(s, p as int, end as int),
            decreases end - p,
        {
            r.push(p);
            proof {
                assert(r@.map_values(|c: usize| c as int) =~= r@.drop_last().map_values(
                    |c: usize| c as int,
                ).push(p as int));
            }
            p = p + self.nodes[p].subtree_size();
        }
        proof {
            assert(forest_roots(s, p as int, end as int) =~= Seq::<int>::empty());
            assert(r@.map_values(|c: usize| c as int) =~= r@.map_values(|c: usize| c as int)
                + forest_roots(s, p as int, end as int));
        }
        r
    }

    /// Whether some strict extension of `bytes` is in the trie: the node
    /// `bytes` reaches exists and has at least one child.
    pub fn has_extensions(&self, bytes: &[u8]) -> (r: bool)
        requires
            wf_trie(self@.nodes),
        ensures
            r == (match node_at(self@.nodes, 0, bytes@) {
                Some(c) => sz(self@.nodes, c) > 1,
                None => false,
            }),
    {
        let root = self.root();
        match self.child_at_bytes(root, bytes) {
            None => false,
            Some(c) => self.nodes[c].subtree_size() > 1,
        }
    }
}

/// Appending one token appends its bytes to the decoded sequence.
pub proof fn lemma_decode_raw_take_step(v: TrieView, toks: Seq<u32>, i: int)
    requires
        0 <= i < toks.len(),
    ensures
        decode_raw_spec(v, toks.take(i + 1)) == decode_raw_spec(v, toks.take(i)) + token_bytes_of(
            v,
            toks[i] as int,
        ),
    decreases i,
{
    if i == 0 {
        assert(toks.take(1)[0] == toks[0]);
        assert(toks.take(1).skip(1) =~= Seq::<u32>::empty());
        assert(toks.take(0) =~= Seq::<u32>::empty());
        assert(decode_raw_spec(v, toks.take(1).skip(1)) =~= Seq::<u8>::empty());
        assert(decode_raw_spec(v, toks.take(0)) =~= Seq::<u8>::empty());
        assert(decode_raw_spec(v, toks.take(1)) =~= token_bytes_of(v, toks[0] as int));
        assert(decode_raw_spec(v, toks.take(0)) + token_bytes_of(v, toks[0] as int)
            =~= token_bytes_of(v, toks[0] as int));
    } else {
        lemma_decode_raw_take_step(v, toks.skip(1), i - 1);
        assert(toks.take(i + 1)[0] == toks[0]);
        assert(toks.take(i)[0] == toks[0]);
        assert(toks.take(i + 1).skip(1) =~= toks.skip(1).take(i));
        assert(toks.take(i).skip(1) =~= toks.skip(1).take(i - 1));
        assert(toks.skip(1)[i - 1] == toks[i]);
        assert(decode_raw_spec(v, toks.take(i + 1)) == token_bytes_of(v, toks[0] as int)
            + decode_raw_spec(v, toks.skip(1).take(i)));
        assert(decode_raw_spec(v, toks.take(i)) + token_bytes_of(v, toks[i] as int)
            =~= token_bytes_of(v, toks[0] as int) + (decode_raw_spec(v, toks.skip(1).take(i - 1))
            + token_bytes_of(v, toks.skip(1)[i - 1] as int)));
    }
}



/// Decide whether `[lo, hi)` is a well-formed sibling forest whose last
/// chain extends the parent pop count `pnp`.
fn check_forest(nodes: &Vec<TrieNode>, lo: usize, hi: usize, pnp: usize) -> (r: bool)
    requires
        lo <= hi,
        hi <= nodes@.len(),
        pnp <= 255,
    ensures
        r == wf_forest(nodes@, lo as int, hi as int, pnp as int),
    decreases hi - lo,
{
    let ghost s = nodes@;
    let mut cur = lo;
    while cur < hi
        invariant
            lo <= cur <= hi,
            hi <= s.len(),
            s == nodes@,
            pnp <= 255,
            wf_forest(s, lo as int, hi as int, pnp as int) == wf_forest(
                s,
                cur as int,
                hi as int,
                pnp as int,
            ),
        decreases hi - cur,
    {
        let node = nodes[cur];
        let size = node.subtree_size();
        let np = node.num_parents();
        if size < 1 || size > hi - cur {
            return false;
        }
        let next = cur + size;
        let expected: usize = if next == hi {
            pnp + 1
        } else {
            1
        };
        if np != expected {
            return false;
        }
        if next < hi {
            if nodes[cur].byte() >= nodes[next].byte() {
                return false;
            }
        }
        if !check_forest(nodes, cur + 1, next, np) {
            return false;
        }
        cur = next;
    }
    true
}

/// Decide whether the node labels are sound for `vocab_size` tokens: the
/// root unlabelled, every label a valid id, no id used twice.
fn check_labels(nodes: &Vec<TrieNode>, vocab_size: u32) -> (r: bool)
    requires
        nodes@.len() >= 1,
    ensures
        r == {
            &&& nodes@[0]@.token is None
            &&& forall|p: int|
                1 <= p < nodes@.len() && (#[trigger] nodes@[p]@.token) is Some
                    ==> nodes@[p]@.token->Some_0 < vocab_size
            &&& forall|p: int, q: int|
                1 <= p < q < nodes@.len() && (#[trigger] nodes@[p]@.token) is Some && (
                #[trigger] nodes@[q]@.token) is Some ==> nodes@[p]@.token != nodes@[q]@.token
        },
{
    let ghost s = nodes@;
    if nodes[0].token_id().is_some() {
        return false;
    }
    let mut used = crate::tokenset::TokenSet::with_len(vocab_size as usize);
    let n = nodes.len();
    let mut p: usize = 1;
    while p < n
        invariant
            1 <= p <= n,
            n == s.len(),
            s == nodes@,
            used@.len() == vocab_size,
            forall|t: u32|
                t < vocab_size ==> (used@[t as int] <==> exists|q: int|
                    1 <= q < p && s[q]@.token == Some(t)),
            forall|q: int|
                1 <= q < p && (#[trigger] s[q]@.token) is Some ==> s[q]@.token->Some_0
                    < vocab_size,
            forall|q1: int, q2: int|
                1 <= q1 < q2 < p && (#[trigger] s[q1]@.token) is Some && (
                #[trigger] s[q2]@.token) is Some ==> s[q1]@.token != s[q2]@.token,
        decreases n - p,
    {
        match self_token(nodes, p) {
            Some(t) => {
                if t >= vocab_size {
                    return false;
                }
                if used.is_allowed(t) {
                    proof {
                        let q = choose|q: int| 1 <= q < p && s[q]@.token == Some(t);
                        assert(s[q]@.token == Some(t) && s[p as int]@.token == Some(t));
                    }
                    return false;
                }
                let ghost upre = used@;
                used.allow_token(t);
                proof {
                    assert forall|t2: u32| t2 < vocab_size implies (used@[t2 as int]
                        <==> exists|q: int| 1 <= q < p + 1 && s[q]@.token == Some(t2)) by {
                        if t2 == t {
                            assert(s[p as int]@.token == Some(t2));
                            assert(used@[t2 as int]);
                        } else {
                            assert(used@[t2 as int] == upre[t2 as int]);
                            if upre[t2 as int] {
                                let q = choose|q: int| 1 <= q < p && s[q]@.token == Some(t2);
                                assert(1 <= q < p + 1 && s[q]@.token == Some(t2));
                            }
                            if exists|q: int| 1 <= q < p + 1 && s[q]@.token == Some(t2) {
                                let q = choose|q: int| 1 <= q < p + 1 && s[q]@.token == Some(t2);
                                assert(q < p);
                                assert(upre[t2 as int]);
                            }
                        }
                    }
                }
            },
            None => {
                proof {
                    assert forall|t2: u32| t2 < vocab_size implies (used@[t2 as int]
                        <==> exists|q: int| 1 <= q < p + 1 && s[q]@.token == Some(t2)) by {
                        if used@[t2 as int] {
                            let q = choose|q: int| 1 <= q < p && s[q]@.token == Some(t2);
                            assert(1 <= q < p + 1 && s[q]@.token == Some(t2));
                        }
                        if exists|q: int| 1 <= q < p + 1 && s[q]@.token == Some(t2) {
                            let q = choose|q: int| 1 <= q < p + 1 && s[q]@.token == Some(t2);
                            assert(q < p);
                        }
                    }
                }
            },
        }
        p = p + 1;
    }
    true
}

/// The token label of the node at `p`.
fn self_token(nodes: &Vec<TrieNode>, p: usize) -> (r: Option<u32>)
    requires
        p < nodes@.len(),
    ensures
        r == nodes@[p as int]@.token,
{
    nodes[p].token_id()
}

/// Whether two byte strings are equal.
fn eq_bytes(a: &[u8], b: &[u8]) -> (r: bool)
    ensures
        r == (a@ == b@),
{
    let n = a.len();
    if n != b.len() {
        proof {
            assert(a@ != b@);
        }
        return false;
    }
    let mut i: usize = 0;
    while i < n
        invariant
            i <= n,
            n == a@.len(),
            n == b@.len(),
            forall|j: int| 0 <= j < i ==> a@[j] == b@[j],
        decreases n - i,
    {
        if a[i] != b[i] {
            proof {
                assert(a@ != b@);
            }
            return false;
        }
        i = i + 1;
    }
    proof {
        assert(a@ =~= b@);
    }
    true
}

/// The byte content of token `tok`, copied out of the store; usable
/// wherever only the token store's consistency is known.
pub(crate) fn copy_token_of(trie: &TokTrie, tok: u32) -> (r: Vec<u8>)
    requires
        tokens_in_range(trie@),
    ensures
        r@ == token_bytes_of(trie@, tok as int),
{
    copy_token(trie, tok)
}

/// A copy of a vector of plain values.
fn copy_vec<T: Copy>(v: &Vec<T>) -> (r: Vec<T>)
    ensures
        r@ == v@,
{
    let n = v.len();
    let mut r: Vec<T> = Vec::new();
    let mut i: usize = 0;
    while i < n
        invariant
            i <= n,
            n == v@.len(),
            r@ == v@.take(i as int),
        decreases n - i,
    {
        r.push(v[i]);
        proof {
            assert(v@.take(i + 1) =~= v@.take(i as int).push(v@[i as int]));
        }
        i = i + 1;
    }
    proof {
        assert(v@.take(n as int) =~= v@);
    }
    r
}

impl TokTrie {
    /// Check every construction-time invariant, recompute the maximal
    /// token length, and rebuild the duplicate map: each non-empty token's
    /// bytes must reach a labelled node; a token whose label belongs to
    /// another id is recorded under that id. Any breach is reported as
    /// `InvariantViolation` and the trie must not be used.
    pub(crate) fn finalize_ctor(&mut self) -> (r: Result<(), TrieError>)
        ensures
            final(self)@.info == old(self)@.info,
            final(self)@.nodes == old(self)@.nodes,
            final(self)@.token_offsets == old(self)@.token_offsets,
            final(self)@.token_data == old(self)@.token_data,
            r is Ok ==> final(self).wf(),
            r is Err ==> !{
                &&& wf_trie(old(self)@.nodes)
                &&& tokens_in_range(old(self)@)
                &&& labels_wf(old(self)@)
                &&& labels_placed(old(self)@)
                &&& reachable_wf(old(self)@)
            },
            r is Err ==> r->Err_0 == TrieError::InvariantViolation,
    {
        // structure
        let n = self.nodes.len();
        if n < 1 || n >= 0x1000000 {
            return Err(TrieError::InvariantViolation);
        }
        if self.nodes[0].subtree_size() != n {
            return Err(TrieError::InvariantViolation);
        }
        if self.nodes[0].num_parents() != 0 {
            return Err(TrieError::InvariantViolation);
        }
        if !check_forest(&self.nodes, 1, n, 0) {
            return Err(TrieError::InvariantViolation);
        }
        // token store
        let vocab = self.info.vocab_size;
        if vocab > 0xffffff {
            return Err(TrieError::InvariantViolation);
        }
        if self.token_offsets.len() != vocab as usize {
            return Err(TrieError::InvariantViolation);
        }
        if self.token_data.len() >= 0x400000 {
            return Err(TrieError::InvariantViolation);
        }
        let data_len = self.token_data.len();
        let n_off = self.token_offsets.len();
        let mut t: usize = 0;
        while t < n_off
            invariant
                t <= n_off,
                n_off == self.token_offsets@.len(),
                data_len == self.token_data@.len(),
                forall|i: int|
                    0 <= i < t ==> desc_off(#[trigger] self.token_offsets@[i]) + desc_len(
                        self.token_offsets@[i],
                    ) <= data_len,
            decreases n_off - t,
        {
            let d = self.token_offsets[t];
            let len = (d & 0x3ff) as usize;
            let off = (d >> 10u32) as usize;
            if off > data_len || len > data_len - off {
                return Err(TrieError::InvariantViolation);
            }
            t = t + 1;
        }
        // labels
        if !check_labels(&self.nodes, vocab) {
            return Err(TrieError::InvariantViolation);
        }
        // label placement: each labelled node must stand at its own
        // token's byte path
        let mut p: usize = 1;
        while p < n
            invariant
                1 <= p <= n,
                n == self@.nodes.len(),
                self@ == old(self)@,
                self@.info == old(self)@.info,
                self@.nodes == old(self)@.nodes,
                self@.token_offsets == old(self)@.token_offsets,
                self@.token_data == old(self)@.token_data,
                self@.max_token_len == old(self)@.max_token_len,
                self@.dups == old(self)@.dups,
                wf_trie(self@.nodes),
                tokens_in_range(self@),
                labels_wf(self@),
                vocab == self@.info.vocab_size,
                forall|q: int|
                    1 <= q < p && (#[trigger] self@.nodes[q]@.token) is Some ==> {
                        let t2 = self@.nodes[q]@.token->Some_0;
                        &&& token_bytes_of(self@, t2 as int).len() > 0
                        &&& node_at(self@.nodes, 0, token_bytes_of(self@, t2 as int)) == Some(q)
                    },
            decreases n - p,
        {
            let label = self.nodes[p].token_id();
            match label {
                Some(t) => {
                    let bytes = copy_token(self, t);
                    if bytes.len() == 0 {
                        return Err(TrieError::InvariantViolation);
                    }
                    let root = self.root();
                    let found = self.child_at_bytes(root, bytes.as_slice());
                    match found {
                        Some(q) => {
                            if q != p {
                                return Err(TrieError::InvariantViolation);
                            }
                        },
                        None => {
                            return Err(TrieError::InvariantViolation);
                        },
                    }
                },
                None => {},
            }
            p = p + 1;
        }
        proof {
            assert(labels_placed(self@));
        }
        // coverage, duplicates, maximal length
        self.token_duplicates = dup_new();
        self.max_token_len = 0;
        let ghost v0 = self@;
        proof {
            assert(tokens_in_range(v0));
            assert(labels_wf(v0));
        }
        let mut tok: u32 = 0;
        while tok < vocab
            invariant
                tok <= vocab,
                vocab == self@.info.vocab_size,
                self@.nodes == v0.nodes,
                self@.token_offsets == v0.token_offsets,
                self@.token_data == v0.token_data,
                self@.info == v0.info,
                self@.info == old(self)@.info,
                self@.nodes == old(self)@.nodes,
                self@.token_offsets == old(self)@.token_offsets,
                self@.token_data == old(self)@.token_data,
                tokens_in_range(self@),
                labels_wf(self@),
                wf_trie(self@.nodes),
                self@.max_token_len <= 1024,
                forall|k: u32|
                    #[trigger] self@.dups.contains_key(k) ==> k < vocab && self@.dups[k].len()
                        > 0,
                forall|k: u32, j: int|
                    self@.dups.contains_key(k) && 0 <= j < self@.dups[k].len() ==> {
                        let a = #[trigger] self@.dups[k][j];
                        &&& a < vocab
                        &&& a != k
                        &&& token_bytes_of(self@, a as int).len() > 0
                        &&& node_at(self@.nodes, 0, token_bytes_of(self@, a as int)) is Some
                        &&& self@.nodes[node_at(
                            self@.nodes,
                            0,
                            token_bytes_of(self@, a as int),
                        )->Some_0]@.token == Some(k)
                    },
                forall|k: u32, j: int|
                    self@.dups.contains_key(k) && 0 <= j < self@.dups[k].len()
                        ==> #[trigger] self@.dups[k][j] < tok,
                forall|k: u32, j1: int, j2: int|
                    self@.dups.contains_key(k) && 0 <= j1 < j2 < self@.dups[k].len()
                        ==> #[trigger] self@.dups[k][j1] != (#[trigger] self@.dups[k][j2]),
                forall|i: int|
                    0 <= i < tok && (#[trigger] token_bytes_of(self@, i)).len() > 0 ==> {
                        &&& node_at(self@.nodes, 0, token_bytes_of(self@, i)) is Some
                        &&& self@.nodes[node_at(self@.nodes, 0, token_bytes_of(self@, i))->Some_0]@
                            .token is Some
                        &&& token_bytes_of(
                            self@,
                            self@.nodes[node_at(self@.nodes, 0, token_bytes_of(self@, i))->Some_0]@
                                .token->Some_0 as int,
                        ) == token_bytes_of(self@, i)
                        &&& {
                            let lab = self@.nodes[node_at(
                                self@.nodes,
                                0,
                                token_bytes_of(self@, i),
                            )->Some_0]@.token->Some_0;
                            lab == i || (self@.dups.contains_key(lab) && self@.dups[lab].contains(
                                i as u32,
                            ))
                        }
                    },
                forall|i: int|
                    0 <= i < tok ==> (#[trigger] token_bytes_of(self@, i)).len()
                        <= self@.max_token_len,
                self@.max_token_len == 0 || exists|i: int|
                    0 <= i < tok && (#[trigger] token_bytes_of(self@, i)).len()
                        == self@.max_token_len,
            decreases vocab - tok,
        {
            let ghost pre = self@;
            let bytes = copy_token(self, tok);
            if bytes.len() > self.max_token_len {
                self.max_token_len = bytes.len();
            }
            if bytes.len() > 0 {
                let root = self.root();
                let found = self.child_at_bytes(root, bytes.as_slice());
                match found {
                    None => {
                        proof {
                            assert(token_bytes_of(old(self)@, tok as int) =~= bytes@);
                            assert(!reachable_wf(old(self)@));
                        }
                        return Err(TrieError::InvariantViolation);
                    },
                    Some(node_pos) => {
                        match self_token(&self.nodes, node_pos) {
                            None => {
                                proof {
                                    assert(token_bytes_of(old(self)@, tok as int) =~= bytes@);
                                    assert(!reachable_wf(old(self)@));
                                }
                                return Err(TrieError::InvariantViolation);
                            },
                            Some(lab) => {
                                proof {
                                    // the root carries no token, so a labelled
                                    // node cannot be the root
                                    assert(node_pos >= 1);
                                    assert(lab < vocab);
                                }
                                if lab != tok {
                                    let lab_bytes = copy_token(self, lab);
                                    if !eq_bytes(lab_bytes.as_slice(), bytes.as_slice()) {
                                        proof {
                                            assert(token_bytes_of(old(self)@, tok as int)
                                                =~= bytes@);
                                            assert(token_bytes_of(old(self)@, lab as int)
                                                =~= lab_bytes@);
                                            assert(!reachable_wf(old(self)@));
                                        }
                                        return Err(TrieError::InvariantViolation);
                                    }
                                    let ghost before_dups = self@.dups;
                                    dup_push(&mut self.token_duplicates, lab, tok);
                                    proof {
                                        assert(self@.dups.dom() =~= before_dups.dom().insert(
                                            lab,
                                        ));
                                        lemma_dups_extend(pre, self@, before_dups, lab, tok);
                                        assert(before_dups == pre.dups);
                                        assert(pre.dups.contains_key(lab)
                                            ==> pre.dups[lab].len() == before_dups[lab].len());
                                        assert forall|i2: int| true implies #[trigger]
                                        token_bytes_of(self@, i2) == token_bytes_of(pre, i2) by {
                                            assert(token_bytes_of(self@, i2) =~= token_bytes_of(
                                                pre,
                                                i2,
                                            ));
                                        }
                                        assert(token_bytes_of(self@, tok as int) == bytes@);
                                        assert forall|k: u32|
                                            #[trigger] self@.dups.contains_key(k) implies k
                                            < vocab by {}
                                        assert forall|k: u32, j: int|
                                            self@.dups.contains_key(k) && 0 <= j
                                                < self@.dups[k].len() implies {
                                            let a = #[trigger] self@.dups[k][j];
                                            &&& a < vocab
                                            &&& a != k
                                            &&& token_bytes_of(self@, a as int).len() > 0
                                            &&& node_at(
                                                self@.nodes,
                                                0,
                                                token_bytes_of(self@, a as int),
                                            ) is Some
                                            &&& self@.nodes[node_at(
                                                self@.nodes,
                                                0,
                                                token_bytes_of(self@, a as int),
                                            )->Some_0]@.token == Some(k)
                                        } by {
                                            let xs = if before_dups.contains_key(lab) {
                                                before_dups[lab]
                                            } else {
                                                Seq::<u32>::empty()
                                            };
                                            if k == lab {
                                                assert(self@.dups[k] == xs.push(tok));
                                                if j < xs.len() {
                                                    assert(before_dups.contains_key(k));
                                                    assert(self@.dups[k][j] == pre.dups[k][j]);
                                                } else {
                                                    assert(self@.dups[k][j] == tok);
                                                }
                                            } else {
                                                assert(before_dups.contains_key(k));
                                                assert(pre.dups.contains_key(k));
                                                assert(self@.dups[k] == before_dups[k]);
                                                assert(self@.dups[k][j] == pre.dups[k][j]);
                                            }
                                        }
                                    }
                                }
                            },
                        }
                    },
                }
            }
            proof {
                assert forall|i: int| true implies #[trigger] token_bytes_of(self@, i)
                    == token_bytes_of(pre, i) by {
                    assert(token_bytes_of(self@, i) =~= token_bytes_of(pre, i));
                }
                if self@.max_token_len != 0 {
                    if pre.max_token_len < bytes@.len() {
                        assert(token_bytes_of(self@, tok as int) == bytes@);
                        assert(0 <= tok < tok + 1 && token_bytes_of(self@, tok as int).len()
                            == self@.max_token_len);
                    } else {
                        let w = choose|i: int|
                            0 <= i < tok && token_bytes_of(pre, i).len() == pre.max_token_len;
                        assert(token_bytes_of(self@, w).len() == self@.max_token_len);
                    }
                }
                assert forall|i: int|
                    0 <= i < tok + 1 && (#[trigger] token_bytes_of(self@, i)).len() > 0 implies {
                    &&& node_at(self@.nodes, 0, token_bytes_of(self@, i)) is Some
                    &&& self@.nodes[node_at(self@.nodes, 0, token_bytes_of(self@, i))->Some_0]@
                        .token is Some
                    &&& {
                        let lab = self@.nodes[node_at(
                            self@.nodes,
                            0,
                            token_bytes_of(self@, i),
                        )->Some_0]@.token->Some_0;
                        lab == i || (self@.dups.contains_key(lab) && self@.dups[lab].contains(
                            i as u32,
                        ))
                    }
                } by {
                    assert(token_bytes_of(self@, i) == token_bytes_of(pre, i));
                }
            }
            tok = tok + 1;
        }
        Ok(())
    }

    /// Build a trie from a vocabulary: insert every non-empty word, pack
    /// the nodes in pre-order, lay the word bytes in the store, and run
    /// the construction checks. Fails with `InvariantViolation` when the
    /// vocabulary breaks a size limit (a word of 1024 bytes or more, more
    /// than 2^22 word bytes in all, a vocabulary over 2^24 entries, a size
    /// mismatch with `info`) or when a pop count outgrows its field.
    pub fn from(info: &TokRxInfo, words: &Vec<Vec<u8>>) -> (r: Result<TokTrie, TrieError>)
        ensures
            r is Ok ==> {
                &&& r->Ok_0.wf()
                &&& r->Ok_0@.info == *info
                &&& r->Ok_0@.token_offsets.len() == words@.len()
                &&& forall|i: int|
                    0 <= i < words@.len() ==> token_bytes_of(r->Ok_0@, i) == words@[i]@
            },
            words@.len() == 0 && info.vocab_size == 0 ==> r is Ok,
    {
        let vocab = words.len();
        if vocab > 0xffffff {
            return Err(TrieError::InvariantViolation);
        }
        if info.vocab_size as usize != vocab {
            return Err(TrieError::InvariantViolation);
        }
        let mut trie = TrieHash::new(SPECIAL_TOKEN_PREFIX_BYTE);
        let mut token_offsets: Vec<u32> = Vec::new();
        let mut token_data: Vec<u8> = Vec::new();
        let mut idx: usize = 0;
        while idx < vocab
            invariant
                idx <= vocab,
                vocab == words@.len(),
                vocab <= 0xffffff,
                trie.wf(),
                trie.node_count() >= 1,
                token_offsets@.len() == idx,
                token_data@.len() < 0x400000 + 1024,
                forall|i: int|
                    0 <= i < idx ==> {
                        &&& desc_off(#[trigger] token_offsets@[i]) + desc_len(token_offsets@[i])
                            <= token_data@.len()
                        &&& token_data@.subrange(
                            desc_off(token_offsets@[i]),
                            desc_off(token_offsets@[i]) + desc_len(token_offsets@[i]),
                        ) == words@[i]@
                    },
                idx == 0 ==> token_data@.len() == 0 && trie.node_count() == 1 && trie.kids_of(0)
                    == 0 && trie.tok_of(0) == NO_TOKEN,
            decreases vocab - idx,
        {
            let word = &words[idx];
            let wlen = word.len();
            if wlen >= 1024 {
                return Err(TrieError::InvariantViolation);
            }
            if token_data.len() >= 0x400000 {
                return Err(TrieError::InvariantViolation);
            }
            if wlen > 0 {
                trie.insert(word.as_slice(), idx as u32);
            }
            let dlen = token_data.len();
            let desc: u32 = (wlen as u32) | ((dlen as u32) << 10u32);
            proof {
                let w32 = wlen as u32;
                let d32 = dlen as u32;
                assert(((w32 | (d32 << 10u32)) & 0x3ff) == w32) by (bit_vector)
                    requires
                        w32 < 1024u32,
                        d32 < 0x400000u32,
                ;
                assert(((w32 | (d32 << 10u32)) >> 10) == d32) by (bit_vector)
                    requires
                        w32 < 1024u32,
                        d32 < 0x400000u32,
                ;
            }
            let ghost old_data = token_data@;
            let ghost old_offs = token_offsets@;
            token_offsets.push(desc);
            let mut j: usize = 0;
            while j < wlen
                invariant
                    j <= wlen,
                    wlen == word@.len(),
                    token_data@ == old_data + word@.take(j as int),
                decreases wlen - j,
            {
                token_data.push(word[j]);
                proof {
                    assert(word@.take(j + 1) =~= word@.take(j as int).push(word@[j as int]));
                    assert(old_data + word@.take(j + 1) =~= (old_data + word@.take(
                        j as int,
                    )).push(word@[j as int]));
                }
                j = j + 1;
            }
            proof {
                assert(word@.take(wlen as int) =~= word@);
                assert forall|i: int|
                    0 <= i < idx + 1 implies {
                    &&& desc_off(#[trigger] token_offsets@[i]) + desc_len(token_offsets@[i])
                        <= token_data@.len()
                    &&& token_data@.subrange(
                        desc_off(token_offsets@[i]),
                        desc_off(token_offsets@[i]) + desc_len(token_offsets@[i]),
                    ) == words@[i]@
                } by {
                    if i < idx {
                        assert(token_offsets@[i] == old_offs[i]);
                        assert(token_data@.subrange(
                            desc_off(token_offsets@[i]),
                            desc_off(token_offsets@[i]) + desc_len(token_offsets@[i]),
                        ) =~= old_data.subrange(
                            desc_off(token_offsets@[i]),
                            desc_off(token_offsets@[i]) + desc_len(token_offsets@[i]),
                        ));
                    } else {
                        assert(token_offsets@[i] == desc);
                        assert(token_data@.subrange(dlen as int, dlen + wlen) =~= word@);
                    }
                }
            }
            idx = idx + 1;
        }
        if token_data.len() >= 0x400000 {
            return Err(TrieError::InvariantViolation);
        }
        let mut nodes: Vec<TrieNode> = Vec::new();
        if !trie.serialize(0, &mut nodes, 0) {
            return Err(TrieError::InvariantViolation);
        }
        let mut r = TokTrie {
            info: *info,
            token_offsets,
            token_data,
            nodes,
            max_token_len: 0,
            token_duplicates: dup_new(),
        };
        let ghost before = r@;
        match r.finalize_ctor() {
            Ok(()) => {
                proof {
                    assert forall|i: int| 0 <= i < words@.len() implies token_bytes_of(r@, i)
                        == words@[i]@ by {
                        assert(token_bytes_of(r@, i) =~= token_bytes_of(before, i));
                    }
                }
                Ok(r)
            },
            Err(e) => {
                proof {
                    if words@.len() == 0 && info.vocab_size == 0 {
                        // an empty vocabulary packs to a lone root that
                        // passes every construction check
                        assert(wf_forest(before.nodes, 1, 1, 0));
                        assert(wf_trie(before.nodes));
                        assert(tokens_in_range(before));
                        assert(labels_wf(before));
                        assert(labels_placed(before));
                        assert(reachable_wf(before));
                        assert(false);
                    }
                }
                Err(e)
            },
        }
    }

    /// The same trie content under another vocabulary record of the same
    /// size; used to rebind the end-of-sentence id without touching the
    /// packed arrays' content.
    pub fn with_info(&self, info: &TokRxInfo) -> (r: TokTrie)
        requires
            self.wf(),
            info.vocab_size == self@.info.vocab_size,
        ensures
            r.wf(),
            r@.info == *info,
            r@.nodes == self@.nodes,
            r@.token_offsets == self@.token_offsets,
            r@.token_data == self@.token_data,
            r@.max_token_len == self@.max_token_len,
            r@.dups == self@.dups,
    {
        let r = TokTrie {
            info: *info,
            token_offsets: copy_vec(&self.token_offsets),
            token_data: copy_vec(&self.token_data),
            nodes: copy_vec(&self.nodes),
            max_token_len: self.max_token_len,
            token_duplicates: dup_clone(&self.token_duplicates),
        };
        proof {
            assert(r@.dups =~~= self@.dups);
            assert forall|t: int| true implies #[trigger] token_bytes_of(r@, t) == token_bytes_of(
                self@,
                t,
            ) by {
                assert(token_bytes_of(r@, t) =~= token_bytes_of(self@, t));
            }
            assert(wf_trie(r@.nodes));
            assert(tokens_in_range(r@));
            assert(labels_wf(r@));
            assert(coverage_wf(r@));
            if self@.max_token_len != 0 {
                let w = choose|t: int|
                    0 <= t < self@.info.vocab_size && token_bytes_of(self@, t).len()
                        == self@.max_token_len;
                assert(token_bytes_of(r@, w).len() == r@.max_token_len);
            }
            assert(maxlen_wf(r@));
            assert(r.wf());
        }
        r
    }

    /// The same trie with the end-of-sentence token rebound.
    pub fn with_eos_token(&self, eos_token: u32) -> (r: TokTrie)
        requires
            self.wf(),
        ensures
            r.wf(),
            r@.info == (TokRxInfo { tok_eos: eos_token, ..self@.info }),
            r@.nodes == self@.nodes,
            r@.token_offsets == self@.token_offsets,
            r@.token_data == self@.token_data,
            r@.max_token_len == self@.max_token_len,
            r@.dups == self@.dups,
    {
        let info = TokRxInfo { tok_eos: eos_token, ..self.info };
        self.with_info(&info)
    }

    /// The trie for chat mode: end-of-turn stands in for end-of-sentence
    /// where the vocabulary has one.
    pub fn build_chat_mode_trie(&self) -> (r: TokTrie)
        requires
            self.wf(),
        ensures
            r.wf(),
            r@.info.tok_eos == (match self@.info.tok_end_of_turn {
                Some(t) => t,
                None => self@.info.tok_eos,
            }),
            r@.nodes == self@.nodes,
            r@.token_offsets == self@.token_offsets,
            r@.token_data == self@.token_data,
    {
        let eos = match self.info.tok_end_of_turn {
            Some(t) => t,
            None => self.info.tok_eos,
        };
        self.with_eos_token(eos)
    }
}

/// The byte content of token `tok`, copied out of the store.
pub(crate) fn copy_token(trie: &TokTrie, tok: u32) -> (r: Vec<u8>)
    requires
        tokens_in_range(trie@),
    ensures
        r@ == token_bytes_of(trie@, tok as int),
        r@.len() < 1024,
{
    let s = trie.token(tok);
    proof {
        let d = trie@.token_offsets[tok as int];
        assert((d & 0x3ff) < 1024u32) by (bit_vector);
    }
    vstd::slice::slice_to_vec(s)
}

/// A canonical key of the duplicate map is never itself an alias: its
/// first alias shares its bytes, so the node its bytes reach carries its
/// own label, not another.
pub proof fn lemma_keys_not_aliases(v: TrieView)
    requires
        reachable_wf(v),
        coverage_wf(v),
    ensures
        forall|k2: u32, k3: u32|
            v.dups.contains_key(k2) && v.dups.contains_key(k3) ==> !(#[trigger] v.dups[
                k3].contains(k2)),
{
    assert forall|k2: u32, k3: u32|
        v.dups.contains_key(k2) && v.dups.contains_key(k3) implies !(#[trigger] v.dups[
    k3].contains(k2)) by {
        if v.dups[k3].contains(k2) {
            let w = choose|w: int|
                0 <= w < v.dups[k3].len() && #[trigger] v.dups[k3][w] == k2;
            // the alias entry for k2 under k3
            assert(v.dups[k3][w] == k2);
            assert(token_bytes_of(v, k2 as int).len() > 0);
            assert(v.nodes[node_at(v.nodes, 0, token_bytes_of(v, k2 as int))->Some_0]@.token
                == Some(k3));
            // k2 is a key: its first alias carries k2's own bytes
            let a = v.dups[k2][0];
            assert(v.nodes[node_at(v.nodes, 0, token_bytes_of(v, a as int))->Some_0]@.token
                == Some(k2));
            assert(token_bytes_of(v, a as int).len() > 0);
            // reachability at the alias ties its label's bytes to its own
            assert(token_bytes_of(
                v,
                v.nodes[node_at(v.nodes, 0, token_bytes_of(v, a as int))->Some_0]@.token->Some_0
                    as int,
            ) == token_bytes_of(v, a as int));
            assert(token_bytes_of(v, k2 as int) == token_bytes_of(v, a as int));
            assert(k2 != k3);
            assert(false);
        }
    }
}

/// Pushing one alias extends the duplicate map and keeps every recorded
/// pair recorded.
proof fn lemma_dups_extend(
    pre: TrieView,
    post: TrieView,
    before: Map<u32, Seq<u32>>,
    lab: u32,
    tok: u32,
)
    requires
        pre.dups == before,
        post.dups.dom() == before.dom().insert(lab),
        post.dups.contains_key(lab),
        post.dups[lab] == (if before.contains_key(lab) {
            before[lab]
        } else {
            Seq::<u32>::empty()
        }).push(tok),
        forall|k2: u32|
            k2 != lab && before.contains_key(k2) ==> post.dups.contains_key(k2) && post.dups[k2]
                == before[k2],
    ensures
        post.dups[lab].contains(tok),
        forall|k: u32, a: u32|
            #[trigger] before.contains_key(k) && before[k].contains(a) ==> post.dups.contains_key(
                k,
            ) && #[trigger] post.dups[k].contains(a),
{
    assert(post.dups[lab][post.dups[lab].len() - 1] == tok);
    assert forall|k: u32, a: u32|
        #[trigger] before.contains_key(k) && before[k].contains(a) implies post.dups.contains_key(
        k,
    ) && #[trigger] post.dups[k].contains(a) by {
        if k == lab {
            let i = choose|i: int| 0 <= i < before[k].len() && before[k][i] == a;
            assert(post.dups[k][i] == a);
        }
    }
}



impl TokTrie {
    /// The id standing for a special token; only end-of-sentence is
    /// mapped.
    pub fn special_token(&self, tok: SpecialToken) -> (r: u32)
        requires
            tok == SpecialToken::EndOfSentence,
        ensures
            r == self@.info.tok_eos,
    {
        self.info.tok_eos
    }

    /// A token set sized for this vocabulary plus the sentinel slot,
    /// nothing allowed.
    pub fn alloc_token_set(&self) -> (r: TokenSet)
        requires
            self.wf(),
        ensures
            r@.len() == self@.info.vocab_size + 1,
            forall|j: int| 0 <= j < r@.len() ==> !r@[j],
    {
        TokenSet::with_len(self.vocab_size() + 1)
    }

    /// A token set allowing exactly `tok`.
    pub fn singleton_token_set(&self, tok: u32) -> (r: TokenSet)
        requires
            self.wf(),
            tok <= self@.info.vocab_size,
        ensures
            r@.len() == self@.info.vocab_size + 1,
            forall|j: int| 0 <= j < r@.len() ==> r@[j] == (j == tok as int),
    {
        let mut r = self.alloc_token_set();
        r.allow_token(tok);
        r
    }

    /// Mirror the duplicate map into `logits`: exactly the aliases of
    /// allowed canonical tokens become allowed too; nothing is cleared.
    /// One pass suffices: a canonical key is never itself an alias.
    #[verifier::loop_isolation(false)]
    pub fn apply_duplicates(&self, logits: &mut TokenSet)
        requires
            self.wf(),
            old(logits)@.len() > self@.info.vocab_size,
            old(logits)@.len() <= 0x100000000,
        ensures
            final(logits)@.len() == old(logits)@.len(),
            forall|t: int| 0 <= t < old(logits)@.len() && old(logits)@[t] ==> final(logits)@[t],
            forall|t: int|
                0 <= t < old(logits)@.len() ==> final(logits)@[t] == (old(logits)@[t] || exists|
                    k: u32,
                |
                    self@.dups.contains_key(k) && old(logits)@[k as int]
                        && #[trigger] self@.dups[k].contains(t as u32)),
    {
        let ghost v = self@;
        proof {
            lemma_keys_not_aliases(v);
        }
        let entries = dup_entries(&self.token_duplicates);
        proof {
            assert forall|k: u32| true implies #[trigger] v.dups.contains_key(k)
                == self.token_duplicates@.contains_key(k) by {}
            assert forall|k: u32| v.dups.contains_key(k) implies #[trigger] v.dups[k]
                == self.token_duplicates@[k]@ by {}
        }
        let n = entries.len();
        let mut i: usize = 0;
        while i < n
            invariant
                i <= n,
                n == entries@.len(),
                self.wf(),
                v == self@,
                old(logits)@.len() > v.info.vocab_size,
                old(logits)@.len() <= 0x100000000,
                forall|i2: int|
                    0 <= i2 < n ==> v.dups.contains_key(#[trigger] entries@[i2].0)
                        && entries@[i2].1@ == v.dups[entries@[i2].0],
                forall|i2: int, i3: int| 0 <= i2 < i3 < n ==> entries@[i2].0 != entries@[i3].0,
                forall|k: u32|
                    #[trigger] v.dups.contains_key(k) ==> exists|i2: int|
                        0 <= i2 < n && entries@[i2].0 == k,
                forall|k2: u32, k3: u32|
                    v.dups.contains_key(k2) && v.dups.contains_key(k3) ==> !(#[trigger] v.dups[
                        k3].contains(k2)),
                logits@.len() == old(logits)@.len(),
                forall|k2: u32|
                    #[trigger] v.dups.contains_key(k2) ==> logits@[k2 as int] == old(logits)@[
                        k2 as int],
                forall|t: int|
                    0 <= t < old(logits)@.len() ==> logits@[t] == (old(logits)@[t] || exists|
                        i2: int,
                    |
                        0 <= i2 < i && old(logits)@[(#[trigger] entries@[i2]).0 as int]
                            && entries@[i2].1@.contains(t as u32)),
            decreases n - i,
        {
            let k = entries[i].0;
            proof {
                assert(v.dups.contains_key(k));
                assert(k < v.info.vocab_size);
            }
            let ghost logits_i = logits@;
            if logits.is_allowed(k) {
                let list = &entries[i].1;
                let m = list.len();
                let mut j: usize = 0;
                while j < m
                    invariant
                        j <= m,
                        i < n,
                        n == entries@.len(),
                        self.wf(),
                        v == self@,
                        old(logits)@.len() > v.info.vocab_size,
                        old(logits)@.len() <= 0x100000000,
                        m == entries@[i as int].1@.len(),
                        list@ == entries@[i as int].1@,
                        k == entries@[i as int].0,
                        v.dups.contains_key(k),
                        v.dups[k] == entries@[i as int].1@,
                        old(logits)@[k as int],
                        forall|i2: int|
                            0 <= i2 < n ==> v.dups.contains_key(#[trigger] entries@[i2].0)
                                && entries@[i2].1@ == v.dups[entries@[i2].0],
                        forall|k2: u32, k3: u32|
                            v.dups.contains_key(k2) && v.dups.contains_key(k3) ==> !(
                            #[trigger] v.dups[k3].contains(k2)),
                        logits@.len() == old(logits)@.len(),
                        forall|k2: u32|
                            #[trigger] v.dups.contains_key(k2) ==> logits@[k2 as int] == old(
                                logits,
                            )@[k2 as int],
                        forall|t: int|
                            0 <= t < old(logits)@.len() ==> logits@[t] == (old(logits)@[t]
                                || (exists|i2: int|
                                0 <= i2 < i && old(logits)@[(#[trigger] entries@[i2]).0 as int]
                                    && entries@[i2].1@.contains(t as u32)) || entries@[
                                i as int].1@.take(j as int).contains(t as u32)),
                    decreases m - j,
                {
                    let d = list[j];
                    proof {
                        assert(v.dups[k][j as int] == d);
                        assert(d < v.info.vocab_size);
                        assert(v.dups[k].contains(d));
                    }
                    let ghost before = logits@;
                    logits.allow_token(d);
                    proof {
                        assert(entries@[i as int].1@.take(j + 1)[j as int] == d);
                        assert(entries@[i as int].1@.take(j + 1).contains(d));
                        assert forall|k2: u32|
                            #[trigger] v.dups.contains_key(k2) implies logits@[k2 as int] == old(
                            logits,
                        )@[k2 as int] by {
                            // an alias is never a canonical key
                            assert(!v.dups[k].contains(k2));
                            assert(d != k2);
                        }
                        assert forall|t: int|
                            0 <= t < old(logits)@.len() implies logits@[t] == (old(logits)@[t]
                                || (exists|i2: int|
                                0 <= i2 < i && old(logits)@[(#[trigger] entries@[i2]).0 as int]
                                    && entries@[i2].1@.contains(t as u32)) || entries@[
                                i as int].1@.take(j + 1).contains(t as u32)) by {
                            if t == d {
                            } else {
                                assert(logits@[t] == before[t]);
                                if entries@[i as int].1@.take(j + 1).contains(t as u32) {
                                    let w = choose|w: int|
                                        0 <= w < j + 1 && #[trigger] entries@[i as int].1@.take(
                                            j + 1,
                                        )[w] == t as u32;
                                    if w < j {
                                        assert(entries@[i as int].1@.take(j as int)[w] == t
                                            as u32);
                                        assert(entries@[i as int].1@.take(j as int).contains(
                                            t as u32,
                                        ));
                                    } else {
                                        assert(entries@[i as int].1@.take(j + 1)[w] == d);
                                        assert(false);
                                    }
                                }
                                if entries@[i as int].1@.take(j as int).contains(t as u32) {
                                    let w = choose|w: int|
                                        0 <= w < j && #[trigger] entries@[i as int].1@.take(
                                            j as int,
                                        )[w] == t as u32;
                                    assert(entries@[i as int].1@.take(j + 1)[w] == t as u32);
                                    assert(entries@[i as int].1@.take(j + 1).contains(t as u32));
                                }
                            }
                        }
                    }
                    j = j + 1;
                }
                proof {
                    assert(entries@[i as int].1@.take(m as int) =~= entries@[i as int].1@);
                    assert forall|t: int|
                        0 <= t < old(logits)@.len() implies logits@[t] == (old(logits)@[t]
                            || exists|i2: int|
                            0 <= i2 < i + 1 && old(logits)@[(#[trigger] entries@[i2]).0 as int]
                                && entries@[i2].1@.contains(t as u32)) by {
                        if logits@[t] && !old(logits)@[t] {
                            if exists|i2: int|
                                0 <= i2 < i && old(logits)@[(#[trigger] entries@[i2]).0 as int]
                                    && entries@[i2].1@.contains(t as u32) {
                                let i2 = choose|i2: int|
                                    0 <= i2 < i && old(logits)@[
                                        (#[trigger] entries@[i2]).0 as int] && entries@[
                                        i2].1@.contains(t as u32);
                                assert(0 <= i2 < i + 1);
                            } else {
                                assert(entries@[i as int].1@.contains(t as u32));
                            }
                        }
                        if exists|i2: int|
                            0 <= i2 < i + 1 && old(logits)@[(#[trigger] entries@[i2]).0 as int]
                                && entries@[i2].1@.contains(t as u32) {
                            let i2 = choose|i2: int|
                                0 <= i2 < i + 1 && old(logits)@[(#[trigger] entries@[i2]).0 as int]
                                    && entries@[i2].1@.contains(t as u32);
                            if i2 < i {
                            } else {
                                assert(i2 == i);
                            }
                        }
                    }
                }
            } else {
                proof {
                    assert(!old(logits)@[k as int]);
                    assert forall|t: int|
                        0 <= t < old(logits)@.len() implies logits@[t] == (old(logits)@[t]
                            || exists|i2: int|
                            0 <= i2 < i + 1 && old(logits)@[(#[trigger] entries@[i2]).0 as int]
                                && entries@[i2].1@.contains(t as u32)) by {
                        if exists|i2: int|
                            0 <= i2 < i + 1 && old(logits)@[(#[trigger] entries@[i2]).0 as int]
                                && entries@[i2].1@.contains(t as u32) {
                            let i2 = choose|i2: int|
                                0 <= i2 < i + 1 && old(logits)@[(#[trigger] entries@[i2]).0 as int]
                                    && entries@[i2].1@.contains(t as u32);
                            assert(i2 < i);
                        }
                    }
                }
            }
            i = i + 1;
        }
        proof {
            assert forall|t: int|
                0 <= t < old(logits)@.len() implies logits@[t] == (old(logits)@[t] || exists|
                    k: u32,
                |
                    v.dups.contains_key(k) && old(logits)@[k as int] && #[trigger] v.dups[
                        k].contains(t as u32)) by {
                if exists|i2: int|
                    0 <= i2 < n && old(logits)@[(#[trigger] entries@[i2]).0 as int] && entries@[
                        i2].1@.contains(t as u32) {
                    let i2 = choose|i2: int|
                        0 <= i2 < n && old(logits)@[(#[trigger] entries@[i2]).0 as int]
                            && entries@[i2].1@.contains(t as u32);
                    let k = entries@[i2].0;
                    assert(v.dups.contains_key(k) && old(logits)@[k as int] && v.dups[k].contains(
                        t as u32,
                    ));
                }
                if exists|k: u32|
                    v.dups.contains_key(k) && old(logits)@[k as int] && #[trigger] v.dups[
                        k].contains(t as u32) {
                    let k = choose|k: u32|
                        v.dups.contains_key(k) && old(logits)@[k as int] && #[trigger] v.dups[
                            k].contains(t as u32);
                    let i2 = choose|i2: int| 0 <= i2 < entries@.len() && entries@[i2].0 == k;
                    assert(entries@[i2].1@ == v.dups[k]);
                    assert(0 <= i2 < n && old(logits)@[(entries@[i2]).0 as int] && entries@[
                        i2].1@.contains(t as u32));
                }
            }
        }
    }

    /// Whether the bias computation grants `t` before duplicate
    /// mirroring: the end-of-sentence id when nothing is forced and the
    /// recognizer permits it, a token equal to a prefix of the forced
    /// bytes, or a token the trie walk accepts -- never the sentinel.
    pub open spec fn base_bias(
        self,
        acc: spec_fn(Seq<u8>) -> bool,
        eos_on: bool,
        start: Seq<u8>,
        t: int,
    ) -> bool {
        &&& t != self@.info.vocab_size
        &&& ((eos_on && start.len() == 0 && t == self@.info.tok_eos) || (0 <= t
            <= u32::MAX as int && (prefix_tokens(self@, start).contains(t as u32) || bias_set(
            self@,
            acc,
            start,
        ).contains(t as u32))))
    }

    /// The bias over the whole vocabulary from the recognizer's current
    /// state: clear everything, allow end-of-sentence when permitted,
    /// walk the trie, and mirror duplicates.
    pub fn compute_bias<R: Recognizer>(&self, r: &mut R, logits: &mut TokenSet)
        requires
            self.wf(),
            old(r).pushed().len() == 0,
            old(logits)@.len() == self@.info.vocab_size + 1,
            self@.info.tok_eos <= self@.info.vocab_size,
        ensures
            final(r).pushed().len() == 0,
            forall|x: Seq<u8>| final(r).viable(x) == old(r).viable(x),
            forall|tk: SpecialToken| final(r).special_ok(tk) == old(r).special_ok(tk),
            final(logits)@.len() == old(logits)@.len(),
            forall|t: int| 0 <= t < final(logits)@.len() && final(logits)@[t] ==> t
                < self@.info.vocab_size,
            old(r).special_ok(SpecialToken::EndOfSentence) && self@.info.tok_eos
                < self@.info.vocab_size ==> final(logits)@[self@.info.tok_eos as int],
            forall|t: int|
                0 <= t < old(logits)@.len() ==> final(logits)@[t] == (self.base_bias(
                    |x: Seq<u8>| old(r).viable(x),
                    old(r).special_ok(SpecialToken::EndOfSentence),
                    Seq::<u8>::empty(),
                    t,
                ) || exists|k: u32|
                    self@.dups.contains_key(k) && self.base_bias(
                        |x: Seq<u8>| old(r).viable(x),
                        old(r).special_ok(SpecialToken::EndOfSentence),
                        Seq::<u8>::empty(),
                        k as int,
                    ) && #[trigger] self@.dups[k].contains(t as u32)),
    {
        let start: Vec<u8> = Vec::new();
        proof {
            assert(start@ =~= Seq::<u8>::empty());
        }
        self.compute_bias_ext(r, logits, start.as_slice());
    }

    /// As `compute_bias`, but from a forced byte prefix `start`: tokens
    /// equal to a prefix of `start` are allowed unconditionally, and the
    /// recognizer is only consulted below the node `start` reaches.
    pub fn compute_bias_ext<R: Recognizer>(&self, r: &mut R, logits: &mut TokenSet, start: &[u8])
        requires
            self.wf(),
            old(r).pushed().len() == 0,
            old(logits)@.len() == self@.info.vocab_size + 1,
            self@.info.tok_eos <= self@.info.vocab_size,
        ensures
            final(r).pushed().len() == 0,
            forall|x: Seq<u8>| final(r).viable(x) == old(r).viable(x),
            forall|tk: SpecialToken| final(r).special_ok(tk) == old(r).special_ok(tk),
            final(logits)@.len() == old(logits)@.len(),
            forall|t: int| 0 <= t < final(logits)@.len() && final(logits)@[t] ==> t
                < self@.info.vocab_size,
            start@.len() == 0 && old(r).special_ok(SpecialToken::EndOfSentence)
                && self@.info.tok_eos < self@.info.vocab_size ==> final(logits)@[
                self@.info.tok_eos as int],
            forall|l: int|
                1 <= l <= start@.len() && (#[trigger] tok_at(self@, start@.take(l))) is Some
                    ==> final(logits)@[tok_at(self@, start@.take(l))->Some_0 as int],
            forall|t: int|
                0 <= t < old(logits)@.len() ==> final(logits)@[t] == (self.base_bias(
                    |x: Seq<u8>| old(r).viable(x),
                    old(r).special_ok(SpecialToken::EndOfSentence),
                    start@,
                    t,
                ) || exists|k: u32|
                    self@.dups.contains_key(k) && self.base_bias(
                        |x: Seq<u8>| old(r).viable(x),
                        old(r).special_ok(SpecialToken::EndOfSentence),
                        start@,
                        k as int,
                    ) && #[trigger] self@.dups[k].contains(t as u32)),
    {
        let ghost acc0 = |x: Seq<u8>| old(r).viable(x);
        let ghost eos_on = old(r).special_ok(SpecialToken::EndOfSentence);
        logits.set_all(false);
        if start.len() == 0 {
            if r.special_allowed(SpecialToken::EndOfSentence) {
                let eos = self.special_token(SpecialToken::EndOfSentence);
                logits.allow_token(eos);
            }
        }
        let ghost eosed = logits@;
        let ghost r_mid = *r;
        self.add_bias(r, logits, start);
        let ghost mid = logits@;
        proof {
            let acc1 = |x: Seq<u8>| r_mid.viable(x);
            assert forall|x: Seq<u8>| #[trigger] acc1(x) == acc0(x) by {}
            lemma_bias_set_ext(self@, acc1, acc0, start@);
            assert forall|t: int| 0 <= t < old(logits)@.len() implies mid[t] == self.base_bias(
                acc0,
                eos_on,
                start@,
                t,
            ) by {
                if t != self@.info.vocab_size {
                    assert(eosed[t] == (eos_on && start@.len() == 0 && t
                        == self@.info.tok_eos));
                }
            }
        }
        self.apply_duplicates(logits);
        proof {
            let v = self@;
            assert forall|t: int| 0 <= t < old(logits)@.len() implies logits@[t] == (
            self.base_bias(acc0, eos_on, start@, t) || exists|k: u32|
                v.dups.contains_key(k) && self.base_bias(acc0, eos_on, start@, k as int) && (
                #[trigger] v.dups[k].contains(t as u32))) by {
                if exists|k: u32|
                    v.dups.contains_key(k) && mid[k as int] && #[trigger] v.dups[k].contains(
                        t as u32,
                    ) {
                    let k = choose|k: u32|
                        v.dups.contains_key(k) && mid[k as int] && #[trigger] v.dups[k].contains(
                            t as u32,
                        );
                    assert(k < v.info.vocab_size);
                    assert(self.base_bias(acc0, eos_on, start@, k as int));
                }
                if exists|k: u32|
                    v.dups.contains_key(k) && self.base_bias(acc0, eos_on, start@, k as int) && (
                    #[trigger] v.dups[k].contains(t as u32)) {
                    let k = choose|k: u32|
                        v.dups.contains_key(k) && self.base_bias(acc0, eos_on, start@, k as int)
                            && (#[trigger] v.dups[k].contains(t as u32));
                    assert(k < v.info.vocab_size);
                    assert(mid[k as int]);
                }
            }
            assert forall|l: int|
                1 <= l <= start@.len() && (#[trigger] tok_at(v, start@.take(l))) is Some
                implies logits@[tok_at(v, start@.take(l))->Some_0 as int] by {
                let p = node_at(v.nodes, 0, start@.take(l))->Some_0;
                lemma_node_at_wf(v.nodes, 0, start@.take(l));
                assert(p >= 1) by {
                    if p == 0 {
                        assert(v.nodes[0]@.token is None);
                    }
                }
                assert(tok_at(v, start@.take(l))->Some_0 < v.info.vocab_size);
                assert(mid[tok_at(v, start@.take(l))->Some_0 as int]);
            }
        }
    }
}


/// Append a little-endian word.
fn push_le32(out: &mut Vec<u8>, x: u32)
    ensures
        final(out)@ == old(out)@ + le32(x),
{
    let b = vstd::bytes::u32_to_le_bytes(x);
    proof {
        vstd::bytes::lemma_auto_spec_u32_to_from_le_bytes();
    }
    let ghost base = out@;
    let mut k: usize = 0;
    while k < 4
        invariant
            k <= 4,
            b@ == le32(x),
            b@.len() == 4,
            out@ == base + b@.take(k as int),
        decreases 4 - k,
    {
        out.push(b[k]);
        proof {
            assert(b@.take(k + 1) =~= b@.take(k as int).push(b@[k as int]));
            assert((base + b@.take(k as int)).push(b@[k as int]) =~= base + b@.take(k + 1));
        }
        k = k + 1;
    }
    proof {
        assert(b@.take(4) =~= b@);
    }
}

/// Read the little-endian word at `pos`.
fn read_le32(b: &[u8], pos: usize) -> (r: u32)
    requires
        pos + 4 <= b@.len(),
        b@.len() <= usize::MAX,
    ensures
        r == vstd::bytes::spec_u32_from_le_bytes(b@.subrange(pos as int, pos + 4)),
{
    let w = slice_subrange(b, pos, pos + 4);
    vstd::bytes::u32_from_le_bytes(w)
}

impl TokTrie {
    /// The compact binary image: the fixed header, the packed nodes, the
    /// token descriptors, and the raw token bytes.
    #[verifier::loop_isolation(false)]
    pub fn serialize(&self) -> (r: Vec<u8>)
        requires
            self.wf(),
        ensures
            r@ == serialize_spec(self@),
    {
        let ghost v = self@;
        let mut out: Vec<u8> = Vec::new();
        let n_nodes = self.node_count();
        let n_offs = self.token_offsets.len();
        let n_data = self.token_data.len();
        push_le32(&mut out, TRIE_MAGIC);
        push_le32(&mut out, TRIE_HEADER_SIZE as u32);
        push_le32(&mut out, (n_nodes * 8) as u32);
        push_le32(&mut out, (n_offs * 4) as u32);
        push_le32(&mut out, n_data as u32);
        push_le32(&mut out, self.info.vocab_size);
        push_le32(&mut out, self.info.tok_eos);
        let ghost header = out@;
        proof {
            assert(header =~= le32(TRIE_MAGIC) + le32(TRIE_HEADER_SIZE as u32) + le32(
                (8 * v.nodes.len()) as u32,
            ) + le32((4 * v.token_offsets.len()) as u32) + le32(v.token_data.len() as u32) + le32(
                v.info.vocab_size,
            ) + le32(v.info.tok_eos));
            assert(nodes_bytes(v.nodes.take(0)) =~= Seq::<u8>::empty());
            assert(out@ =~= header + nodes_bytes(v.nodes.take(0)));
        }
        let mut i: usize = 0;
        while i < n_nodes
            invariant
                i <= n_nodes,
                n_nodes == v.nodes.len(),
                out@ == header + nodes_bytes(v.nodes.take(i as int)),
            decreases n_nodes - i,
        {
            let w = self.node(i).words();
            push_le32(&mut out, w.0);
            push_le32(&mut out, w.1);
            proof {
                lemma_nodes_bytes_take_step(v.nodes, i as int);
                assert(header + nodes_bytes(v.nodes.take(i as int)) + le32(w.0) + le32(w.1)
                    =~= header + nodes_bytes(v.nodes.take(i + 1)));
            }
            i = i + 1;
        }
        proof {
            assert(v.nodes.take(n_nodes as int) =~= v.nodes);
            assert(offs_bytes(v.token_offsets.take(0)) =~= Seq::<u8>::empty());
            assert(out@ =~= header + nodes_bytes(v.nodes) + offs_bytes(v.token_offsets.take(0)));
        }
        let ghost mid = out@;
        let mut j: usize = 0;
        while j < n_offs
            invariant
                j <= n_offs,
                n_offs == v.token_offsets.len(),
                out@ == mid + offs_bytes(v.token_offsets.take(j as int)),
                mid == header + nodes_bytes(v.nodes),
            decreases n_offs - j,
        {
            push_le32(&mut out, self.token_offsets[j]);
            proof {
                lemma_offs_bytes_take_step(v.token_offsets, j as int);
                assert(mid + offs_bytes(v.token_offsets.take(j as int)) + le32(
                    v.token_offsets[j as int],
                ) =~= mid + offs_bytes(v.token_offsets.take(j + 1)));
            }
            j = j + 1;
        }
        proof {
            assert(v.token_offsets.take(n_offs as int) =~= v.token_offsets);
        }
        let ghost mid2 = out@;
        let mut k: usize = 0;
        while k < n_data
            invariant
                k <= n_data,
                n_data == v.token_data.len(),
                out@ == mid2 + v.token_data.take(k as int),
                mid2 == header + nodes_bytes(v.nodes) + offs_bytes(v.token_offsets),
            decreases n_data - k,
        {
            out.push(self.token_data[k]);
            proof {
                assert(v.token_data.take(k + 1) =~= v.token_data.take(k as int).push(
                    v.token_data[k as int],
                ));
                assert((mid2 + v.token_data.take(k as int)).push(v.token_data[k as int]) =~= mid2
                    + v.token_data.take(k + 1));
            }
            k = k + 1;
        }
        proof {
            assert(v.token_data.take(n_data as int) =~= v.token_data);
            assert(out@ =~= serialize_spec(v));
        }
        out
    }

    /// Load a trie from its binary image. `BadFormat` reports a bad
    /// magic, a bad header size, a region size that is not a whole number
    /// of entries, or a region past the input's end; the token-data size
    /// recorded in the header is tolerated and the remainder of the input
    /// is taken instead. The loaded content then passes the same
    /// validation as a freshly built trie.
    #[verifier::loop_isolation(false)]
    pub fn from_bytes(bytes: &[u8]) -> (res: Result<TokTrie, TrieError>)
        ensures
            res is Ok ==> {
                let t = res->Ok_0;
                let hd_trie = vstd::bytes::spec_u32_from_le_bytes(
                    bytes@.subrange(8, 12),
                ) as int;
                let hd_offs = vstd::bytes::spec_u32_from_le_bytes(
                    bytes@.subrange(12, 16),
                ) as int;
                &&& t.wf()
                &&& bytes@.len() >= 28
                &&& vstd::bytes::spec_u32_from_le_bytes(bytes@.subrange(0, 4)) == TRIE_MAGIC
                &&& vstd::bytes::spec_u32_from_le_bytes(bytes@.subrange(4, 8)) == 28
                &&& 28 + hd_trie + hd_offs <= bytes@.len()
                &&& t@.nodes == parse_nodes(bytes@.subrange(28, 28 + hd_trie))
                &&& t@.token_offsets == parse_offs(
                    bytes@.subrange(28 + hd_trie, 28 + hd_trie + hd_offs),
                )
                &&& t@.token_data == bytes@.skip(28 + hd_trie + hd_offs)
                &&& t@.info.vocab_size == vstd::bytes::spec_u32_from_le_bytes(
                    bytes@.subrange(20, 24),
                )
                &&& t@.info.tok_eos == vstd::bytes::spec_u32_from_le_bytes(
                    bytes@.subrange(24, 28),
                )
                &&& t@.info.tok_bos is None
                &&& t@.info.tok_pad is None
                &&& t@.info.tok_unk is None
                &&& t@.info.tok_end_of_turn is None
            },
            res is Err ==> res->Err_0 == TrieError::BadFormat || res->Err_0
                == TrieError::InvariantViolation,
            res is Err && res->Err_0 == TrieError::BadFormat ==> {
                let hd_trie = vstd::bytes::spec_u32_from_le_bytes(
                    bytes@.subrange(8, 12),
                ) as int;
                let hd_offs = vstd::bytes::spec_u32_from_le_bytes(
                    bytes@.subrange(12, 16),
                ) as int;
                ||| bytes@.len() < 28
                ||| vstd::bytes::spec_u32_from_le_bytes(bytes@.subrange(0, 4)) != TRIE_MAGIC
                ||| vstd::bytes::spec_u32_from_le_bytes(bytes@.subrange(4, 8)) != 28
                ||| hd_trie % 8 != 0
                ||| hd_offs % 4 != 0
                ||| 28 + hd_trie + hd_offs > bytes@.len()
            },
            res is Err && res->Err_0 == TrieError::InvariantViolation ==> {
                let hd_trie = vstd::bytes::spec_u32_from_le_bytes(
                    bytes@.subrange(8, 12),
                ) as int;
                let hd_offs = vstd::bytes::spec_u32_from_le_bytes(
                    bytes@.subrange(12, 16),
                ) as int;
                let parsed = TrieView {
                    info: TokRxInfo {
                        vocab_size: vstd::bytes::spec_u32_from_le_bytes(
                            bytes@.subrange(20, 24),
                        ),
                        tok_eos: vstd::bytes::spec_u32_from_le_bytes(bytes@.subrange(24, 28)),
                        tok_bos: None,
                        tok_pad: None,
                        tok_unk: None,
                        tok_end_of_turn: None,
                    },
                    token_offsets: parse_offs(
                        bytes@.subrange(28 + hd_trie, 28 + hd_trie + hd_offs),
                    ),
                    token_data: bytes@.skip(28 + hd_trie + hd_offs),
                    nodes: parse_nodes(bytes@.subrange(28, 28 + hd_trie)),
                    max_token_len: 0,
                    dups: Map::<u32, Seq<u32>>::empty(),
                };
                !{
                    &&& wf_trie(parsed.nodes)
                    &&& tokens_in_range(parsed)
                    &&& labels_wf(parsed)
                    &&& labels_placed(parsed)
                    &&& reachable_wf(parsed)
                }
            },
    {
        let total = bytes.len();
        if total < 28 {
            return Err(TrieError::BadFormat);
        }
        let magic = read_le32(bytes, 0);
        if magic != TRIE_MAGIC {
            return Err(TrieError::BadFormat);
        }
        let hd_size = read_le32(bytes, 4);
        if hd_size != 28 {
            return Err(TrieError::BadFormat);
        }
        let trie_bytes = read_le32(bytes, 8);
        let offs_bytes_n = read_le32(bytes, 12);
        let vocab_size = read_le32(bytes, 20);
        let tok_eos = read_le32(bytes, 24);
        if trie_bytes % 8 != 0 || offs_bytes_n % 4 != 0 {
            return Err(TrieError::BadFormat);
        }
        if (trie_bytes as usize) > total - 28 {
            return Err(TrieError::BadFormat);
        }
        let trie_end = 28 + trie_bytes as usize;
        if (offs_bytes_n as usize) > total - trie_end {
            return Err(TrieError::BadFormat);
        }
        let offs_end = trie_end + offs_bytes_n as usize;
        let ghost reg_nodes = bytes@.subrange(28, trie_end as int);
        let mut nodes: Vec<TrieNode> = Vec::new();
        let mut pos: usize = 28;
        proof {
            assert(reg_nodes.take(0) =~= Seq::<u8>::empty());
            assert(parse_nodes(reg_nodes.take(0)) =~= Seq::<TrieNode>::empty());
        }
        while pos < trie_end
            invariant
                28 <= pos <= trie_end,
                trie_end <= total,
                total == bytes@.len(),
                (pos - 28) % 8 == 0,
                (trie_end - 28) % 8 == 0,
                reg_nodes == bytes@.subrange(28, trie_end as int),
                nodes@ == parse_nodes(reg_nodes.take(pos - 28)),
            decreases trie_end - pos,
        {
            let w0 = read_le32(bytes, pos);
            let w1 = read_le32(bytes, pos + 4);
            nodes.push(TrieNode::from_words(w0, w1));
            proof {
                let seg = bytes@.subrange(pos as int, pos + 8);
                assert(reg_nodes.take(pos - 28) + seg =~= reg_nodes.take(pos + 8 - 28));
                assert(seg.take(4) =~= bytes@.subrange(pos as int, pos + 4));
                assert(seg.subrange(4, 8) =~= bytes@.subrange(pos + 4, pos + 8));
                crate::codec::lemma_parse_nodes_snoc(reg_nodes.take(pos - 28), seg);
            }
            pos = pos + 8;
        }
        proof {
            assert(reg_nodes.take(trie_end - 28) =~= reg_nodes);
        }
        let ghost reg_offs = bytes@.subrange(trie_end as int, offs_end as int);
        let mut token_offsets: Vec<u32> = Vec::new();
        proof {
            assert(reg_offs.take(0) =~= Seq::<u8>::empty());
            assert(parse_offs(reg_offs.take(0)) =~= Seq::<u32>::empty());
        }
        while pos < offs_end
            invariant
                trie_end <= pos <= offs_end,
                offs_end <= total,
                total == bytes@.len(),
                (pos - trie_end) % 4 == 0,
                (offs_end - trie_end) % 4 == 0,
                reg_offs == bytes@.subrange(trie_end as int, offs_end as int),
                token_offsets@ == parse_offs(reg_offs.take(pos - trie_end)),
            decreases offs_end - pos,
        {
            let w = read_le32(bytes, pos);
            token_offsets.push(w);
            proof {
                let seg = bytes@.subrange(pos as int, pos + 4);
                assert(reg_offs.take(pos - trie_end) + seg =~= reg_offs.take(
                    pos + 4 - trie_end,
                ));
                assert(seg.take(4) =~= seg);
                crate::codec::lemma_parse_offs_snoc(reg_offs.take(pos - trie_end), seg);
            }
            pos = pos + 4;
        }
        proof {
            assert(reg_offs.take(offs_end - trie_end) =~= reg_offs);
        }
        let data_slice = slice_subrange(bytes, offs_end, total);
        let token_data = vstd::slice::slice_to_vec(data_slice);
        proof {
            assert(token_data@ =~= bytes@.skip(offs_end as int));
        }
        let mut r = TokTrie {
            info: TokRxInfo::from_bin(
                &crate::info::BinTokRxInfo { vocab_size, tok_eos },
            ),
            token_offsets,
            token_data,
            nodes,
            max_token_len: 0,
            token_duplicates: dup_new(),
        };
        let ghost assembled = r@;
        proof {
            assert(assembled.dups =~= Map::<u32, Seq<u32>>::empty());
        }
        match r.finalize_ctor() {
            Ok(()) => Ok(r),
            Err(e) => Err(e),
        }
    }
}

/// One more node serializes to eight more bytes.
pub proof fn lemma_nodes_bytes_take_step(s: Seq<TrieNode>, i: int)
    requires
        0 <= i < s.len(),
    ensures
        nodes_bytes(s.take(i + 1)) == nodes_bytes(s.take(i)) + le32(s[i].word0()) + le32(
            s[i].word1(),
        ),
    decreases i,
{
    if i == 0 {
        assert(s.take(1)[0] == s[0]);
        assert(s.take(1).skip(1) =~= Seq::<TrieNode>::empty());
        assert(nodes_bytes(s.take(1).skip(1)) =~= Seq::<u8>::empty());
        assert(s.take(0) =~= Seq::<TrieNode>::empty());
        assert(nodes_bytes(s.take(0)) =~= Seq::<u8>::empty());
        assert(nodes_bytes(s.take(1)) =~= nodes_bytes(s.take(0)) + le32(s[0].word0()) + le32(
            s[0].word1(),
        ));
    } else {
        lemma_nodes_bytes_take_step(s.skip(1), i - 1);
        assert(s.take(i + 1)[0] == s[0]);
        assert(s.take(i)[0] == s[0]);
        assert(s.take(i + 1).skip(1) =~= s.skip(1).take(i));
        assert(s.take(i).skip(1) =~= s.skip(1).take(i - 1));
        assert(s.skip(1)[i - 1] == s[i]);
        assert(nodes_bytes(s.take(i + 1)) =~= nodes_bytes(s.take(i)) + le32(s[i].word0()) + le32(
            s[i].word1(),
        ));
    }
}

/// One more descriptor serializes to four more bytes.
pub proof fn lemma_offs_bytes_take_step(s: Seq<u32>, i: int)
    requires
        0 <= i < s.len(),
    ensures
        offs_bytes(s.take(i + 1)) == offs_bytes(s.take(i)) + le32(s[i]),
    decreases i,
{
    if i == 0 {
        assert(s.take(1)[0] == s[0]);
        assert(s.take(1).skip(1) =~= Seq::<u32>::empty());
        assert(offs_bytes(s.take(1).skip(1)) =~= Seq::<u8>::empty());
        assert(s.take(0) =~= Seq::<u32>::empty());
        assert(offs_bytes(s.take(0)) =~= Seq::<u8>::empty());
        assert(offs_bytes(s.take(1)) =~= offs_bytes(s.take(0)) + le32(s[0]));
    } else {
        lemma_offs_bytes_take_step(s.skip(1), i - 1);
        assert(s.take(i + 1)[0] == s[0]);
        assert(s.take(i)[0] == s[0]);
        assert(s.take(i + 1).skip(1) =~= s.skip(1).take(i));
        assert(s.take(i).skip(1) =~= s.skip(1).take(i - 1));
        assert(s.skip(1)[i - 1] == s[i]);
        assert(offs_bytes(s.take(i + 1)) =~= offs_bytes(s.take(i)) + le32(s[i]));
    }
}


impl TokTrie {
    /// Whether this trie stores exactly the vocabulary `tokens`: each id's
    /// byte content is the given word. (That every non-empty word also
    /// resolves through the trie to its own label or a recorded duplicate
    /// is re-checked on the way, as construction already guarantees it.)
    #[verifier::loop_isolation(false)]
    pub fn check_against(&self, tokens: &Vec<Vec<u8>>) -> (r: bool)
        requires
            self.wf(),
        ensures
            r == (tokens@.len() == self@.info.vocab_size && forall|i: int|
                0 <= i < tokens@.len() ==> token_bytes_of(self@, i) == (#[trigger] tokens@[i])@),
    {
        let ghost v = self@;
        let n = tokens.len();
        if n != self.vocab_size() {
            return false;
        }
        let mut idx: usize = 0;
        while idx < n
            invariant
                idx <= n,
                n == tokens@.len(),
                n == v.info.vocab_size,
                self.wf(),
                v == self@,
                forall|i: int|
                    0 <= i < idx ==> token_bytes_of(v, i) == (#[trigger] tokens@[i])@,
            decreases n - idx,
        {
            let bytes = &tokens[idx];
            let stored = self.token(idx as u32);
            if !eq_bytes(stored, bytes.as_slice()) {
                return false;
            }
            if bytes.len() > 0 {
                // the stored word resolves to a labelled node with the
                // same content; construction guarantees it, so a failure
                // here is unreachable
                let root = self.root();
                match self.child_at_bytes(root, bytes.as_slice()) {
                    None => {
                        proof {
                            assert(false);
                        }
                        return false;
                    },
                    Some(node_pos) => {
                        match self.node(node_pos).token_id() {
                            None => {
                                proof {
                                    assert(false);
                                }
                                return false;
                            },
                            Some(lab) => {
                                if lab != idx as u32 {
                                    proof {
                                        assert(v.dups.contains_key(lab) && v.dups[lab].contains(
                                            idx as u32,
                                        ));
                                    }
                                    match dup_get(&self.token_duplicates, lab) {
                                        None => {
                                            proof {
                                                assert(false);
                                            }
                                            return false;
                                        },
                                        Some(list) => {
                                            let m = list.len();
                                            let mut j: usize = 0;
                                            let mut found = false;
                                            while j < m
                                                invariant
                                                    j <= m,
                                                    m == list@.len(),
                                                    list@ == v.dups[lab],
                                                    found ==> v.dups[lab].contains(idx as u32),
                                                    !found ==> forall|j2: int|
                                                        0 <= j2 < j ==> list@[j2] != idx as u32,
                                                decreases m - j,
                                            {
                                                if list[j] == idx as u32 {
                                                    found = true;
                                                }
                                                j = j + 1;
                                            }
                                            if !found {
                                                proof {
                                                    let w = choose|w: int|
                                                        0 <= w < v.dups[lab].len()
                                                            && v.dups[lab][w] == idx as u32;
                                                    assert(false);
                                                }
                                                return false;
                                            }
                                        },
                                    }
                                }
                            },
                        }
                    },
                }
            }
            idx = idx + 1;
        }
        true
    }
}

} // verus!
