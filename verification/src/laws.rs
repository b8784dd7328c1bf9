//! The library's general laws, stated once over every well-formed trie.

use vstd::prelude::*;
use vstd::bytes::spec_u32_from_le_bytes;
use crate::codec::{le32, nodes_bytes, offs_bytes, parse_nodes, parse_offs, serialize_spec,
    TRIE_MAGIC};
use crate::engine::{
    best_prefix, bias_set, forest_bias, greedy_spec, has_bias, prefix_tokens, shift_acc, tok_at,
};
use crate::model::{find_sib, child_of, lemma_node_at_split, lemma_node_at_wf};
use crate::recognizer::accepts_prefixes;
use crate::model::{forest_roots, node_at, sz, wf_forest, wf_node, wf_trie};
use crate::node::TrieNode;
use crate::trie::{decode_raw_spec, token_bytes_of, TokTrie, TrieView};

verus! {

/// Tokens round-trip: every token with non-empty content reaches, along
/// its own bytes, a node labelled either with the token itself or with a
/// canonical id under which the duplicate map records it.
pub proof fn law_tokens_round_trip(trie: TokTrie, t: int)
    requires
        trie.wf(),
        0 <= t < trie@.info.vocab_size,
        token_bytes_of(trie@, t).len() > 0,
    ensures
        node_at(trie@.nodes, 0, token_bytes_of(trie@, t)) is Some,
        trie@.nodes[node_at(trie@.nodes, 0, token_bytes_of(trie@, t))->Some_0]@.token is Some,
        ({
            let lab = trie@.nodes[node_at(trie@.nodes, 0, token_bytes_of(trie@, t))->Some_0]@
                .token->Some_0;
            lab == t || (trie@.dups.contains_key(lab) && trie@.dups[lab].contains(t as u32))
        }),
{
}

/// Greedy reconstructs: segmenting a token's own bytes succeeds with a
/// single id whose content is the same bytes.
pub proof fn law_greedy_reconstructs(trie: TokTrie, t: int)
    requires
        trie.wf(),
        0 <= t < trie@.info.vocab_size,
    ensures
        greedy_spec(trie@, token_bytes_of(trie@, t)) is Some,
        decode_raw_spec(trie@, greedy_spec(trie@, token_bytes_of(trie@, t))->Some_0)
            == token_bytes_of(trie@, t),
{
    let v = trie@;
    let bytes = token_bytes_of(v, t);
    if bytes.len() == 0 {
        assert(greedy_spec(v, bytes) == Some(Seq::<u32>::empty()));
        assert(decode_raw_spec(v, Seq::<u32>::empty()) =~= bytes);
    } else {
        let p = node_at(v.nodes, 0, bytes)->Some_0;
        let lab = v.nodes[p]@.token->Some_0;
        assert(bytes.take(bytes.len() as int) =~= bytes);
        assert(tok_at(v, bytes) == Some(lab));
        assert(best_prefix(v, bytes, bytes.len() as int) == Some((lab, bytes.len() as int)));
        assert(greedy_spec(v, bytes) == Some(seq![lab]));
        assert(seq![lab].skip(1) =~= Seq::<u32>::empty());
        assert(decode_raw_spec(v, seq![lab].skip(1)) =~= Seq::<u8>::empty());
        assert(decode_raw_spec(v, seq![lab]) =~= token_bytes_of(v, lab as int));
        assert(token_bytes_of(v, lab as int) == bytes);
    }
}

/// How many positions the sibling subtrees of a well-formed forest cover.
pub open spec fn forest_size_sum(s: Seq<TrieNode>, lo: int, hi: int) -> int
    decreases hi - lo,
{
    if lo >= hi || sz(s, lo) < 1 || lo + sz(s, lo) > hi {
        0
    } else {
        sz(s, lo) + forest_size_sum(s, lo + sz(s, lo), hi)
    }
}

/// A well-formed forest's sibling subtrees exactly partition its range.
pub proof fn lemma_forest_partition(s: Seq<TrieNode>, lo: int, hi: int, pnp: int)
    requires
        wf_forest(s, lo, hi, pnp),
    ensures
        forest_size_sum(s, lo, hi) == hi - lo,
    decreases hi - lo,
{
    if lo < hi {
        lemma_forest_partition(s, lo + sz(s, lo), hi, pnp);
    }
}

/// Pre-order consistency, first half: a node's subtree size is one more
/// than the sizes of its children's subtrees combined.
pub proof fn law_subtree_size_sum(s: Seq<TrieNode>, i: int)
    requires
        wf_node(s, i),
    ensures
        sz(s, i) == 1 + forest_size_sum(s, i + 1, i + sz(s, i)),
{
    lemma_forest_partition(s, i + 1, i + sz(s, i), s[i]@.num_parents);
}

/// Pre-order consistency, second half: a node's children stand in
/// strictly ascending edge-byte order.
pub proof fn law_children_sorted(s: Seq<TrieNode>, i: int, a: int, b: int)
    requires
        wf_node(s, i),
        0 <= a < b < forest_roots(s, i + 1, i + sz(s, i)).len(),
    ensures
        (s[forest_roots(s, i + 1, i + sz(s, i))[a]]@.byte as int) < (s[forest_roots(
            s,
            i + 1,
            i + sz(s, i),
        )[b]]@.byte as int),
{
    lemma_roots_sorted(s, i + 1, i + sz(s, i), s[i]@.num_parents, a, b);
}

/// In a well-formed forest the sibling roots carry strictly ascending
/// bytes.
proof fn lemma_roots_sorted(s: Seq<TrieNode>, lo: int, hi: int, pnp: int, a: int, b: int)
    requires
        wf_forest(s, lo, hi, pnp),
        0 <= a < b < forest_roots(s, lo, hi).len(),
    ensures
        (s[forest_roots(s, lo, hi)[a]]@.byte as int) < (s[forest_roots(s, lo, hi)[b]]@.byte
            as int),
    decreases hi - lo, b,
{
    let roots = forest_roots(s, lo, hi);
    assert(lo < hi);
    let rest = forest_roots(s, lo + sz(s, lo), hi);
    assert(roots == seq![lo] + rest);
    if a == 0 {
        if b == 1 {
            // the immediate next sibling has a larger byte
            assert(lo + sz(s, lo) < hi);
            assert(rest[0] == lo + sz(s, lo));
        } else {
            lemma_roots_sorted(s, lo + sz(s, lo), hi, pnp, 0, b - 1);
            assert(lo + sz(s, lo) < hi);
            assert(rest[0] == lo + sz(s, lo));
        }
    } else {
        lemma_roots_sorted(s, lo + sz(s, lo), hi, pnp, a - 1, b - 1);
    }
}

/// Binary round-trip, content half: the image a trie serializes to
/// parses region by region back to the same arrays and record. (That a
/// load of such an image succeeds is checked by the loader at run time.)
#[verifier::rlimit(100)]
#[verifier::spinoff_prover]
pub proof fn law_serialize_parses(v: TrieView)
    requires
        v.nodes.len() < 0x1000000,
        v.token_offsets.len() <= 0xffffff,
        v.token_data.len() < 0x400000,
    ensures
        ({
            let img = serialize_spec(v);
            &&& img.len() == 28 + 8 * (v.nodes.len() as int) + 4 * (v.token_offsets.len() as int)
                + v.token_data.len() as int
            &&& spec_u32_from_le_bytes(img.subrange(0, 4)) == TRIE_MAGIC
            &&& spec_u32_from_le_bytes(img.subrange(4, 8)) == 28
            &&& spec_u32_from_le_bytes(img.subrange(8, 12)) == 8 * (v.nodes.len() as int)
            &&& spec_u32_from_le_bytes(img.subrange(12, 16)) == 4 * (v.token_offsets.len() as int)
            &&& spec_u32_from_le_bytes(img.subrange(20, 24)) == v.info.vocab_size
            &&& spec_u32_from_le_bytes(img.subrange(24, 28)) == v.info.tok_eos
            &&& parse_nodes(img.subrange(28, 28 + 8 * (v.nodes.len() as int))) == v.nodes
            &&& parse_offs(
                img.subrange(
                    28 + 8 * (v.nodes.len() as int),
                    28 + 8 * (v.nodes.len() as int) + 4 * (v.token_offsets.len() as int),
                ),
            ) == v.token_offsets
            &&& img.skip(28 + 8 * (v.nodes.len() as int) + 4 * (v.token_offsets.len() as int)) == v.token_data
        }),
{
    vstd::bytes::lemma_auto_spec_u32_to_from_le_bytes();
    crate::codec::lemma_parse_nodes_round(v.nodes);
    crate::codec::lemma_parse_offs_round(v.token_offsets);
    let img = serialize_spec(v);
    let nb = nodes_bytes(v.nodes);
    let ob = offs_bytes(v.token_offsets);
    assert(img.subrange(0, 4) =~= le32(TRIE_MAGIC));
    assert(img.subrange(4, 8) =~= le32(28));
    assert(img.subrange(8, 12) =~= le32((8 * v.nodes.len()) as u32));
    assert(img.subrange(12, 16) =~= le32((4 * v.token_offsets.len()) as u32));
    assert(img.subrange(20, 24) =~= le32(v.info.vocab_size));
    assert(img.subrange(24, 28) =~= le32(v.info.tok_eos));
    assert(img.subrange(28, 28 + 8 * (v.nodes.len() as int)) =~= nb);
    assert(img.subrange(
        28 + 8 * (v.nodes.len() as int),
        28 + 8 * (v.nodes.len() as int) + 4 * (v.token_offsets.len() as int),
    ) =~= ob);
    assert(img.skip(28 + 8 * (v.nodes.len() as int) + 4 * (v.token_offsets.len() as int)) =~= v.token_data);
}


/// Binary round-trip: the image of a well-formed trie defeats every
/// rejection the loader makes -- it is long enough, carries the magic and
/// the header size, its regions are whole and fit, and the content they
/// parse back to is exactly this trie's and passes every construction
/// check. By the loader's contract a load of this image therefore cannot
/// fail and returns a trie with the same nodes, descriptors, token bytes
/// and on-disk record.
pub proof fn law_binary_round_trip(trie: TokTrie)
    requires
        trie.wf(),
    ensures
        ({
            let img = serialize_spec(trie@);
            let hd_trie = spec_u32_from_le_bytes(img.subrange(8, 12)) as int;
            let hd_offs = spec_u32_from_le_bytes(img.subrange(12, 16)) as int;
            &&& img.len() >= 28
            &&& spec_u32_from_le_bytes(img.subrange(0, 4)) == TRIE_MAGIC
            &&& spec_u32_from_le_bytes(img.subrange(4, 8)) == 28
            &&& hd_trie % 8 == 0
            &&& hd_offs % 4 == 0
            &&& 28 + hd_trie + hd_offs <= img.len()
            &&& parse_nodes(img.subrange(28, 28 + hd_trie)) == trie@.nodes
            &&& parse_offs(img.subrange(28 + hd_trie, 28 + hd_trie + hd_offs))
                == trie@.token_offsets
            &&& img.skip(28 + hd_trie + hd_offs) == trie@.token_data
            &&& spec_u32_from_le_bytes(img.subrange(20, 24)) == trie@.info.vocab_size
            &&& spec_u32_from_le_bytes(img.subrange(24, 28)) == trie@.info.tok_eos
            &&& ({
                // the view the loader assembles and validates: this trie's
                // arrays under a fresh record, before the cached length and
                // the duplicate map are recomputed
                let parsed = TrieView {
                    info: crate::info::TokRxInfo {
                        vocab_size: trie@.info.vocab_size,
                        tok_eos: trie@.info.tok_eos,
                        tok_bos: None,
                        tok_pad: None,
                        tok_unk: None,
                        tok_end_of_turn: None,
                    },
                    token_offsets: trie@.token_offsets,
                    token_data: trie@.token_data,
                    nodes: trie@.nodes,
                    max_token_len: 0,
                    dups: Map::<u32, Seq<u32>>::empty(),
                };
                &&& wf_trie(parsed.nodes)
                &&& crate::trie::tokens_in_range(parsed)
                &&& crate::trie::labels_wf(parsed)
                &&& crate::trie::labels_placed(parsed)
                &&& crate::trie::reachable_wf(parsed)
            })
        }),
{
    law_serialize_parses(trie@);
    let parsed = TrieView {
        info: crate::info::TokRxInfo {
            vocab_size: trie@.info.vocab_size,
            tok_eos: trie@.info.tok_eos,
            tok_bos: None,
            tok_pad: None,
            tok_unk: None,
            tok_end_of_turn: None,
        },
        token_offsets: trie@.token_offsets,
        token_data: trie@.token_data,
        nodes: trie@.nodes,
        max_token_len: 0,
        dups: Map::<u32, Seq<u32>>::empty(),
    };
    assert forall|t: int| true implies #[trigger] token_bytes_of(parsed, t) == token_bytes_of(
        trie@,
        t,
    ) by {
        assert(token_bytes_of(parsed, t) =~= token_bytes_of(trie@, t));
    }
    assert(crate::trie::reachable_wf(parsed));
    assert(crate::trie::labels_placed(parsed));
}


/// Bias is idempotent: the computed set is a function of the trie, the
/// recognizer's acceptance, its special-token answer and the forced
/// prefix alone, so two computations over the same inputs -- a
/// restartable recognizer called twice -- agree bit for bit. The two
/// hypotheses are exactly what `compute_bias_ext` ensures of each run.
pub proof fn law_bias_idempotent(
    trie: TokTrie,
    acc: spec_fn(Seq<u8>) -> bool,
    eos_on: bool,
    start: Seq<u8>,
    out1: Seq<bool>,
    out2: Seq<bool>,
)
    requires
        out1.len() == out2.len(),
        forall|t: int|
            0 <= t < out1.len() ==> out1[t] == (trie.base_bias(acc, eos_on, start, t) || exists|
                k: u32,
            |
                trie@.dups.contains_key(k) && trie.base_bias(acc, eos_on, start, k as int)
                    && #[trigger] trie@.dups[k].contains(t as u32)),
        forall|t: int|
            0 <= t < out2.len() ==> out2[t] == (trie.base_bias(acc, eos_on, start, t) || exists|
                k: u32,
            |
                trie@.dups.contains_key(k) && trie.base_bias(acc, eos_on, start, k as int)
                    && #[trigger] trie@.dups[k].contains(t as u32)),
    ensures
        out1 == out2,
{
    assert(out1 =~= out2);
}


/// Byte-by-byte acceptance of a cons: the head byte is viable and the
/// tail is accepted under the shifted acceptance.
proof fn lemma_accepts_cons(acc: spec_fn(Seq<u8>) -> bool, b: u8, ext: Seq<u8>)
    ensures
        accepts_prefixes(acc, seq![b] + ext) == (acc(seq![b]) && accepts_prefixes(
            shift_acc(acc, b),
            ext,
        )),
{
    let w = seq![b] + ext;
    if accepts_prefixes(acc, w) {
        assert(w.take(1) =~= seq![b]);
        assert(acc(w.take(1)));
        assert forall|i: int| 1 <= i <= ext.len() implies shift_acc(acc, b)(
            #[trigger] ext.take(i),
        ) by {
            assert(w.take(i + 1) =~= seq![b] + ext.take(i));
            assert(acc(w.take(i + 1)));
        }
    }
    if acc(seq![b]) && accepts_prefixes(shift_acc(acc, b), ext) {
        assert forall|i: int| 1 <= i <= w.len() implies acc(#[trigger] w.take(i)) by {
            if i == 1 {
                assert(w.take(1) =~= seq![b]);
            } else {
                assert(w.take(i) =~= seq![b] + ext.take(i - 1));
                assert(shift_acc(acc, b)(ext.take(i - 1)));
            }
        }
    }
}

/// What the sibling walk finds is a member of the chain.
proof fn lemma_find_sib_in_roots(s: Seq<TrieNode>, lo: int, hi: int, b: u8)
    requires
        find_sib(s, lo, hi, b) is Some,
    ensures
        forest_roots(s, lo, hi).contains(find_sib(s, lo, hi, b)->Some_0),
    decreases hi - lo,
{
    if !(lo >= hi || sz(s, lo) < 1 || lo + sz(s, lo) > hi) {
        if s[lo]@.byte == b {
            assert(forest_roots(s, lo, hi)[0] == lo);
        } else {
            lemma_find_sib_in_roots(s, lo + sz(s, lo), hi, b);
            let c = find_sib(s, lo, hi, b)->Some_0;
            let rest = forest_roots(s, lo + sz(s, lo), hi);
            let w = choose|w: int| 0 <= w < rest.len() && rest[w] == c;
            assert(forest_roots(s, lo, hi)[w + 1] == c);
        }
    }
}

/// A chain member is found by the sibling walk on its own byte: all
/// earlier members carry strictly smaller bytes.
proof fn lemma_find_sib_member(s: Seq<TrieNode>, lo: int, hi: int, pnp: int, q: int)
    requires
        wf_forest(s, lo, hi, pnp),
        forest_roots(s, lo, hi).contains(q),
    ensures
        find_sib(s, lo, hi, s[q]@.byte) == Some(q),
    decreases hi - lo,
{
    let roots = forest_roots(s, lo, hi);
    assert(lo < hi);
    let rest = forest_roots(s, lo + sz(s, lo), hi);
    assert(roots == seq![lo] + rest);
    if q == lo {
    } else {
        let w = choose|w: int| 0 <= w < roots.len() && roots[w] == q;
        assert(w != 0);
        lemma_roots_sorted(s, lo, hi, pnp, 0, w);
        assert((s[lo]@.byte as int) < (s[q]@.byte as int));
        assert(rest[w - 1] == q);
        assert(rest.contains(q));
        lemma_find_sib_member(s, lo + sz(s, lo), hi, pnp, q);
    }
}

/// A chain member heads a well-formed subtree inside the chain's range.
proof fn lemma_member_subtree(s: Seq<TrieNode>, lo: int, hi: int, pnp: int, q: int)
    requires
        wf_forest(s, lo, hi, pnp),
        forest_roots(s, lo, hi).contains(q),
    ensures
        lo <= q,
        q + sz(s, q) <= hi,
        wf_node(s, q),
    decreases hi - lo,
{
    let roots = forest_roots(s, lo, hi);
    assert(lo < hi);
    let rest = forest_roots(s, lo + sz(s, lo), hi);
    assert(roots == seq![lo] + rest);
    if q != lo {
        let w = choose|w: int| 0 <= w < roots.len() && roots[w] == q;
        assert(w != 0);
        assert(rest[w - 1] == q);
        assert(rest.contains(q));
        lemma_member_subtree(s, lo + sz(s, lo), hi, pnp, q);
    }
}

/// Two distinct chain members head disjoint position ranges.
proof fn lemma_roots_disjoint(s: Seq<TrieNode>, lo: int, hi: int, pnp: int, a: int, b: int)
    requires
        wf_forest(s, lo, hi, pnp),
        0 <= a < b < forest_roots(s, lo, hi).len(),
    ensures
        forest_roots(s, lo, hi)[a] + sz(s, forest_roots(s, lo, hi)[a]) <= forest_roots(
            s,
            lo,
            hi,
        )[b],
    decreases hi - lo, b,
{
    let roots = forest_roots(s, lo, hi);
    assert(lo < hi);
    let rest = forest_roots(s, lo + sz(s, lo), hi);
    assert(roots == seq![lo] + rest);
    if a == 0 {
        assert(lo + sz(s, lo) < hi);
        if b == 1 {
            assert(rest[0] == lo + sz(s, lo));
        } else {
            assert(rest[0] == lo + sz(s, lo));
            lemma_roots_disjoint(s, lo + sz(s, lo), hi, pnp, 0, b - 1);
            lemma_member_subtree(s, lo + sz(s, lo), hi, pnp, rest[b - 1]);
        }
    } else {
        lemma_roots_disjoint(s, lo + sz(s, lo), hi, pnp, a - 1, b - 1);
    }
}

/// From one node, one byte string reaches one node: paths are unique.
proof fn lemma_path_unique(s: Seq<TrieNode>, n: int, e1: Seq<u8>, e2: Seq<u8>, p: int)
    requires
        wf_node(s, n),
        node_at(s, n, e1) == Some(p),
        node_at(s, n, e2) == Some(p),
    ensures
        e1 == e2,
    decreases e1.len(),
{
    if e1.len() == 0 {
        assert(p == n);
        if e2.len() > 0 {
            let c2 = child_of(s, n, e2[0])->Some_0;
            crate::model::lemma_child_of_wf(s, n, e2[0]);
            assert(node_at(s, c2, e2.skip(1)) == Some(p));
            lemma_node_at_wf(s, c2, e2.skip(1));
            assert(n < c2 && c2 <= p);
            assert(false);
        }
        assert(e1 =~= e2);
    } else if e2.len() == 0 {
        assert(p == n);
        let c1 = child_of(s, n, e1[0])->Some_0;
        crate::model::lemma_child_of_wf(s, n, e1[0]);
        assert(node_at(s, c1, e1.skip(1)) == Some(p));
        lemma_node_at_wf(s, c1, e1.skip(1));
        assert(n < c1 && c1 <= p);
        assert(false);
    } else {
        let c1 = child_of(s, n, e1[0])->Some_0;
        let c2 = child_of(s, n, e2[0])->Some_0;
        crate::model::lemma_child_of_wf(s, n, e1[0]);
        crate::model::lemma_child_of_wf(s, n, e2[0]);
        lemma_node_at_wf(s, c1, e1.skip(1));
        lemma_node_at_wf(s, c2, e2.skip(1));
        if e1[0] != e2[0] {
            // the two children are distinct chain members with disjoint
            // subtrees, yet both would hold p
            let lo = n + 1;
            let hi = n + sz(s, n);
            let pnp = s[n]@.num_parents;
            lemma_find_sib_in_roots(s, lo, hi, e1[0]);
            lemma_find_sib_in_roots(s, lo, hi, e2[0]);
            let roots = forest_roots(s, lo, hi);
            let w1 = choose|w: int| 0 <= w < roots.len() && roots[w] == c1;
            let w2 = choose|w: int| 0 <= w < roots.len() && roots[w] == c2;
            assert(c1 != c2);
            if w1 < w2 {
                lemma_roots_disjoint(s, lo, hi, pnp, w1, w2);
            } else {
                lemma_roots_disjoint(s, lo, hi, pnp, w2, w1);
            }
            assert(false);
        } else {
            lemma_path_unique(s, c1, e1.skip(1), e2.skip(1), p);
            assert(e1 =~= e2) by {
                assert(e1.skip(1).len() == e2.skip(1).len());
                assert forall|i: int| 0 <= i < e1.len() implies e1[i] == e2[i] by {
                    if i > 0 {
                        assert(e1.skip(1)[i - 1] == e2.skip(1)[i - 1]);
                    }
                }
            }
        }
    }
}

/// What one chain member grants, the chain grants.
proof fn lemma_fb_member_contrib(
    s: Seq<TrieNode>,
    lo: int,
    hi: int,
    pnp: int,
    acc: spec_fn(Seq<u8>) -> bool,
    q: int,
)
    requires
        wf_forest(s, lo, hi, pnp),
        forest_roots(s, lo, hi).contains(q),
        acc(seq![s[q]@.byte]),
    ensures
        s[q]@.token is Some ==> forest_bias(s, lo, hi, acc).contains(s[q]@.token->Some_0),
        forall|t: u32|
            forest_bias(s, q + 1, q + sz(s, q), shift_acc(acc, s[q]@.byte)).contains(t)
                ==> forest_bias(s, lo, hi, acc).contains(t),
    decreases hi - lo,
{
    reveal(forest_bias);
    let roots = forest_roots(s, lo, hi);
    assert(lo < hi);
    let rest = forest_roots(s, lo + sz(s, lo), hi);
    assert(roots == seq![lo] + rest);
    if q != lo {
        let w = choose|w: int| 0 <= w < roots.len() && roots[w] == q;
        assert(w != 0);
        assert(rest[w - 1] == q);
        assert(rest.contains(q));
        lemma_fb_member_contrib(s, lo + sz(s, lo), hi, pnp, acc, q);
        assert forall|t: u32|
            forest_bias(s, q + 1, q + sz(s, q), shift_acc(acc, s[q]@.byte)).contains(t)
            implies forest_bias(s, lo, hi, acc).contains(t) by {
            assert(forest_bias(s, lo + sz(s, lo), hi, acc).contains(t));
        }
    } else {
        let b = s[q]@.byte;
        if s[q]@.token is Some {
            assert(forest_bias(s, lo, hi, acc).contains(s[q]@.token->Some_0));
        }
        assert forall|t: u32|
            forest_bias(s, q + 1, q + sz(s, q), shift_acc(acc, b)).contains(t)
            implies forest_bias(s, lo, hi, acc).contains(t) by {}
    }
}

/// Every token the walk grants sits at an accepted byte path: soundness
/// of the walk set, over any suffix of a node's sibling chain.
proof fn lemma_fb_sound(
    s: Seq<TrieNode>,
    n: int,
    lo: int,
    hi: int,
    acc: spec_fn(Seq<u8>) -> bool,
    t: u32,
)
    requires
        wf_node(s, n),
        hi == n + sz(s, n),
        wf_forest(s, lo, hi, s[n]@.num_parents),
        forall|q: int|
            #[trigger] forest_roots(s, lo, hi).contains(q) ==> forest_roots(s, n + 1, hi).contains(
                q,
            ),
        forest_bias(s, lo, hi, acc).contains(t),
    ensures
        exists|ext: Seq<u8>|
            {
                &&& ext.len() >= 1
                &&& #[trigger] accepts_prefixes(acc, ext)
                &&& node_at(s, n, ext) is Some
                &&& s[node_at(s, n, ext)->Some_0]@.token == Some(t)
            },
    decreases hi - lo,
{
    reveal(forest_bias);
    let b = s[lo]@.byte;
    let roots = forest_roots(s, lo, hi);
    assert(lo < hi);
    let rest = forest_roots(s, lo + sz(s, lo), hi);
    assert(roots == seq![lo] + rest);
    assert(roots[0] == lo);
    assert(roots.contains(lo));
    let here = if acc(seq![b]) {
        (match s[lo]@.token {
            Some(t2) => Set::<u32>::empty().insert(t2),
            None => Set::<u32>::empty(),
        }).union(forest_bias(s, lo + 1, lo + sz(s, lo), shift_acc(acc, b)))
    } else {
        Set::<u32>::empty()
    };
    if here.contains(t) {
        assert(acc(seq![b]));
        lemma_find_sib_member(s, n + 1, hi, s[n]@.num_parents, lo);
        if s[lo]@.token == Some(t) {
            let ext = seq![b];
            assert(ext.take(1) =~= ext);
            assert(accepts_prefixes(acc, ext));
            assert(ext.skip(1) =~= Seq::<u8>::empty());
            assert(node_at(s, lo, ext.skip(1)) == Some(lo));
            assert(node_at(s, n, ext) == Some(lo));
        } else {
            assert(forest_bias(s, lo + 1, lo + sz(s, lo), shift_acc(acc, b)).contains(t));
            assert(wf_node(s, lo));
            lemma_fb_sound(s, lo, lo + 1, lo + sz(s, lo), shift_acc(acc, b), t);
            let ext0 = choose|ext0: Seq<u8>|
                {
                    &&& ext0.len() >= 1
                    &&& #[trigger] accepts_prefixes(shift_acc(acc, b), ext0)
                    &&& node_at(s, lo, ext0) is Some
                    &&& s[node_at(s, lo, ext0)->Some_0]@.token == Some(t)
                };
            let ext = seq![b] + ext0;
            lemma_accepts_cons(acc, b, ext0);
            assert(ext[0] == b);
            assert(ext.skip(1) =~= ext0);
            assert(node_at(s, n, ext) == node_at(s, lo, ext0));
            assert(accepts_prefixes(acc, ext));
        }
    } else {
        assert(forest_bias(s, lo + sz(s, lo), hi, acc).contains(t));
        assert forall|q: int|
            #[trigger] forest_roots(s, lo + sz(s, lo), hi).contains(q) implies forest_roots(
            s,
            n + 1,
            hi,
        ).contains(q) by {
            let w = choose|w: int| 0 <= w < rest.len() && rest[w] == q;
            assert(roots[w + 1] == q);
            assert(roots.contains(q));
        }
        lemma_fb_sound(s, n, lo + sz(s, lo), hi, acc, t);
    }
}

/// Every token at an accepted byte path is granted by the walk:
/// completeness of the walk set.
proof fn lemma_fb_complete(
    s: Seq<TrieNode>,
    n: int,
    acc: spec_fn(Seq<u8>) -> bool,
    ext: Seq<u8>,
    t: u32,
)
    requires
        wf_node(s, n),
        ext.len() >= 1,
        accepts_prefixes(acc, ext),
        node_at(s, n, ext) is Some,
        s[node_at(s, n, ext)->Some_0]@.token == Some(t),
    ensures
        forest_bias(s, n + 1, n + sz(s, n), acc).contains(t),
    decreases ext.len(),
{
    reveal(forest_bias);
    let b = ext[0];
    let c = child_of(s, n, b)->Some_0;
    crate::model::lemma_child_of_wf(s, n, b);
    lemma_find_sib_in_roots(s, n + 1, n + sz(s, n), b);
    assert(forest_roots(s, n + 1, n + sz(s, n)).contains(c));
    assert(ext.take(1) =~= seq![b]);
    assert(acc(seq![b]));
    if ext.len() == 1 {
        assert(ext.skip(1) =~= Seq::<u8>::empty());
        assert(node_at(s, c, ext.skip(1)) == Some(c));
        assert(s[c]@.token == Some(t));
        lemma_fb_member_contrib(s, n + 1, n + sz(s, n), s[n]@.num_parents, acc, c);
    } else {
        let ext0 = ext.skip(1);
        assert(ext =~= seq![b] + ext0);
        lemma_accepts_cons(acc, b, ext0);
        assert(accepts_prefixes(shift_acc(acc, b), ext0));
        assert(node_at(s, c, ext0) == node_at(s, n, ext));
        lemma_fb_complete(s, c, shift_acc(acc, b), ext0, t);
        lemma_fb_member_contrib(s, n + 1, n + sz(s, n), s[n]@.num_parents, acc, c);
    }
}

/// Bias equals brute force: the walk grants `t` from `start` exactly when
/// `t` is a canonical token -- one labelling the node its own bytes reach
/// -- whose bytes extend `start` by a non-empty tail the recognizer
/// accepts byte for byte.
pub proof fn law_bias_brute_force(
    trie: TokTrie,
    acc: spec_fn(Seq<u8>) -> bool,
    start: Seq<u8>,
    t: u32,
)
    requires
        trie.wf(),
    ensures
        bias_set(trie@, acc, start).contains(t) <==> exists|ext: Seq<u8>|
            {
                &&& ext.len() >= 1
                &&& token_bytes_of(trie@, t as int) == start + ext
                &&& tok_at(trie@, token_bytes_of(trie@, t as int)) == Some(t)
                &&& #[trigger] accepts_prefixes(acc, ext)
            },
{
    let v = trie@;
    let s = v.nodes;
    assert(wf_node(s, 0));
    if bias_set(v, acc, start).contains(t) {
        let n = node_at(s, 0, start)->Some_0;
        lemma_node_at_wf(s, 0, start);
        lemma_fb_sound(s, n, n + 1, n + sz(s, n), acc, t);
        let ext = choose|ext: Seq<u8>|
            {
                &&& ext.len() >= 1
                &&& #[trigger] accepts_prefixes(acc, ext)
                &&& node_at(s, n, ext) is Some
                &&& s[node_at(s, n, ext)->Some_0]@.token == Some(t)
            };
        let p = node_at(s, n, ext)->Some_0;
        lemma_node_at_wf(s, n, ext);
        // the labelled node stands at its own token's byte path
        assert(p >= 1) by {
            if p == 0 {
                assert(s[0]@.token is None);
            }
        }
        assert(node_at(s, 0, token_bytes_of(v, t as int)) == Some(p));
        lemma_node_at_split(s, 0, start + ext, start.len() as int);
        assert((start + ext).take(start.len() as int) =~= start);
        assert((start + ext).skip(start.len() as int) =~= ext);
        assert(node_at(s, 0, start + ext) == Some(p));
        lemma_path_unique(s, 0, token_bytes_of(v, t as int), start + ext, p);
        assert(tok_at(v, token_bytes_of(v, t as int)) == Some(t));
    }
    if exists|ext: Seq<u8>|
        {
            &&& ext.len() >= 1
            &&& token_bytes_of(trie@, t as int) == start + ext
            &&& tok_at(trie@, token_bytes_of(trie@, t as int)) == Some(t)
            &&& #[trigger] accepts_prefixes(acc, ext)
        } {
        let ext = choose|ext: Seq<u8>|
            {
                &&& ext.len() >= 1
                &&& token_bytes_of(trie@, t as int) == start + ext
                &&& tok_at(trie@, token_bytes_of(trie@, t as int)) == Some(t)
                &&& #[trigger] accepts_prefixes(acc, ext)
            };
        let p = node_at(s, 0, start + ext)->Some_0;
        lemma_node_at_split(s, 0, start + ext, start.len() as int);
        assert((start + ext).take(start.len() as int) =~= start);
        assert((start + ext).skip(start.len() as int) =~= ext);
        assert(node_at(s, 0, start) is Some);
        let n = node_at(s, 0, start)->Some_0;
        lemma_node_at_wf(s, 0, start);
        assert(node_at(s, n, ext) == Some(p));
        lemma_fb_complete(s, n, acc, ext, t);
    }
}

/// The walk finds a valid extension exactly when some canonical token
/// extends `start` by recognizer-accepted bytes: the brute-force reading
/// of `has_valid_extensions`.
pub proof fn law_valid_extensions_brute_force(
    trie: TokTrie,
    acc: spec_fn(Seq<u8>) -> bool,
    start: Seq<u8>,
)
    requires
        trie.wf(),
    ensures
        has_bias(trie@, acc, start) <==> exists|t: u32, ext: Seq<u8>|
            {
                &&& ext.len() >= 1
                &&& #[trigger] token_bytes_of(trie@, t as int) == start + ext
                &&& tok_at(trie@, token_bytes_of(trie@, t as int)) == Some(t)
                &&& #[trigger] accepts_prefixes(acc, ext)
            },
{
    if has_bias(trie@, acc, start) {
        let t = choose|t: u32| #[trigger] bias_set(trie@, acc, start).contains(t);
        law_bias_brute_force(trie, acc, start, t);
    }
    if exists|t: u32, ext: Seq<u8>|
        {
            &&& ext.len() >= 1
            &&& #[trigger] token_bytes_of(trie@, t as int) == start + ext
            &&& tok_at(trie@, token_bytes_of(trie@, t as int)) == Some(t)
            &&& #[trigger] accepts_prefixes(acc, ext)
        } {
        let (t, ext) = choose|t: u32, ext: Seq<u8>|
            {
                &&& ext.len() >= 1
                &&& #[trigger] token_bytes_of(trie@, t as int) == start + ext
                &&& tok_at(trie@, token_bytes_of(trie@, t as int)) == Some(t)
                &&& #[trigger] accepts_prefixes(acc, ext)
            };
        law_bias_brute_force(trie, acc, start, t);
        assert(bias_set(trie@, acc, start).contains(t));
    }
}


/// The start-prefix grants equal brute force too: a token is granted for
/// the forced prefix exactly when its own bytes are a non-empty prefix of
/// `start` and it is canonical.
pub proof fn law_prefix_tokens_brute_force(trie: TokTrie, start: Seq<u8>, t: u32)
    requires
        trie.wf(),
    ensures
        prefix_tokens(trie@, start).contains(t) <==> exists|l: int|
            {
                &&& 1 <= l <= start.len()
                &&& token_bytes_of(trie@, t as int) == #[trigger] start.take(l)
                &&& tok_at(trie@, token_bytes_of(trie@, t as int)) == Some(t)
            },
{
    let v = trie@;
    let s = v.nodes;
    assert(wf_node(s, 0));
    if prefix_tokens(v, start).contains(t) {
        let l = choose|l: int|
            1 <= l <= start.len() && tok_at(v, #[trigger] start.take(l)) == Some(t);
        let p = node_at(s, 0, start.take(l))->Some_0;
        lemma_node_at_wf(s, 0, start.take(l));
        assert(p >= 1) by {
            if p == 0 {
                assert(s[0]@.token is None);
            }
        }
        // the labelled node stands at its own token's byte path
        assert(node_at(s, 0, token_bytes_of(v, t as int)) == Some(p));
        lemma_path_unique(s, 0, token_bytes_of(v, t as int), start.take(l), p);
        assert(tok_at(v, token_bytes_of(v, t as int)) == Some(t));
    }
    if exists|l: int|
        {
            &&& 1 <= l <= start.len()
            &&& token_bytes_of(trie@, t as int) == #[trigger] start.take(l)
            &&& tok_at(trie@, token_bytes_of(trie@, t as int)) == Some(t)
        } {
        let l = choose|l: int|
            {
                &&& 1 <= l <= start.len()
                &&& token_bytes_of(trie@, t as int) == #[trigger] start.take(l)
                &&& tok_at(trie@, token_bytes_of(trie@, t as int)) == Some(t)
            };
        assert(tok_at(v, start.take(l)) == Some(t));
    }
}

/// Bias equals brute force, assembled for the whole bias computation:
/// together with `add_bias`'s own equation, the bits it adds over `start`
/// are exactly the canonical tokens whose bytes extend `start` by
/// recognizer-accepted bytes, plus the canonical tokens equal to a
/// non-empty prefix of `start` (recognizer ignored); duplicates are
/// mirrored afterwards by `apply_duplicates`, whose contract adds exactly
/// the aliases of allowed canonical ids.
pub proof fn law_add_bias_brute_force(
    trie: TokTrie,
    acc: spec_fn(Seq<u8>) -> bool,
    start: Seq<u8>,
    t: u32,
)
    requires
        trie.wf(),
    ensures
        (prefix_tokens(trie@, start).contains(t) || bias_set(trie@, acc, start).contains(t))
            <==> {
            ||| exists|ext: Seq<u8>|
                {
                    &&& ext.len() >= 1
                    &&& token_bytes_of(trie@, t as int) == start + ext
                    &&& tok_at(trie@, token_bytes_of(trie@, t as int)) == Some(t)
                    &&& #[trigger] accepts_prefixes(acc, ext)
                }
            ||| exists|l: int|
                {
                    &&& 1 <= l <= start.len()
                    &&& token_bytes_of(trie@, t as int) == #[trigger] start.take(l)
                    &&& tok_at(trie@, token_bytes_of(trie@, t as int)) == Some(t)
                }
        },
{
    law_bias_brute_force(trie, acc, start, t);
    law_prefix_tokens_brute_force(trie, start, t);
}

} // verus!
