//! The binary form: a fixed little-endian header, the packed nodes, the
//! token descriptors, and the raw token bytes as the remainder.

use vstd::prelude::*;
use vstd::bytes::{spec_u32_from_le_bytes, spec_u32_to_le_bytes};
use crate::node::TrieNode;
use crate::trie::TrieView;

verus! {

/// The magic number opening every serialized trie.
pub const TRIE_MAGIC: u32 = 0x558b6fd3;

/// The fixed header length in bytes: seven little-endian words.
pub const TRIE_HEADER_SIZE: usize = 28;

/// A word as it stands on disk.
pub open spec fn le32(x: u32) -> Seq<u8> {
    spec_u32_to_le_bytes(x)
}

/// The node region: two words per node, in order.
pub open spec fn nodes_bytes(s: Seq<TrieNode>) -> Seq<u8>
    decreases s.len(),
{
    if s.len() == 0 {
        Seq::<u8>::empty()
    } else {
        le32(s[0].word0()) + le32(s[0].word1()) + nodes_bytes(s.skip(1))
    }
}

/// The descriptor region: one word per token, in order.
pub open spec fn offs_bytes(s: Seq<u32>) -> Seq<u8>
    decreases s.len(),
{
    if s.len() == 0 {
        Seq::<u8>::empty()
    } else {
        le32(s[0]) + offs_bytes(s.skip(1))
    }
}

/// The whole image of a trie.
pub open spec fn serialize_spec(v: TrieView) -> Seq<u8> {
    le32(TRIE_MAGIC) + le32(TRIE_HEADER_SIZE as u32) + le32((8 * v.nodes.len()) as u32) + le32(
        (4 * v.token_offsets.len()) as u32,
    ) + le32(v.token_data.len() as u32) + le32(v.info.vocab_size) + le32(v.info.tok_eos)
        + nodes_bytes(v.nodes) + offs_bytes(v.token_offsets) + v.token_data
}

/// The nodes a byte region denotes, eight bytes each.
pub open spec fn parse_nodes(b: Seq<u8>) -> Seq<TrieNode>
    decreases b.len(),
{
    if b.len() < 8 {
        Seq::<TrieNode>::empty()
    } else {
        seq![
            TrieNode::spec_from_words(
                spec_u32_from_le_bytes(b.take(4)),
                spec_u32_from_le_bytes(b.subrange(4, 8)),
            ),
        ] + parse_nodes(b.skip(8))
    }
}

/// The descriptors a byte region denotes, four bytes each.
pub open spec fn parse_offs(b: Seq<u8>) -> Seq<u32>
    decreases b.len(),
{
    if b.len() < 4 {
        Seq::<u32>::empty()
    } else {
        seq![spec_u32_from_le_bytes(b.take(4))] + parse_offs(b.skip(4))
    }
}

/// One more node on the end of a region parses to one more node.
pub proof fn lemma_parse_nodes_snoc(b: Seq<u8>, w: Seq<u8>)
    requires
        b.len() % 8 == 0,
        w.len() == 8,
    ensures
        parse_nodes(b + w) == parse_nodes(b) + seq![
            TrieNode::spec_from_words(
                spec_u32_from_le_bytes(w.take(4)),
                spec_u32_from_le_bytes(w.subrange(4, 8)),
            ),
        ],
    decreases b.len(),
{
    if b.len() == 0 {
        assert((b + w).take(4) =~= w.take(4));
        assert((b + w).subrange(4, 8) =~= w.subrange(4, 8));
        assert((b + w).skip(8) =~= Seq::<u8>::empty());
        assert(parse_nodes((b + w).skip(8)) =~= Seq::<TrieNode>::empty());
        assert(parse_nodes(b) =~= Seq::<TrieNode>::empty());
        assert(parse_nodes(b + w) =~= parse_nodes(b) + seq![
            TrieNode::spec_from_words(
                spec_u32_from_le_bytes(w.take(4)),
                spec_u32_from_le_bytes(w.subrange(4, 8)),
            ),
        ]);
    } else {
        assert((b + w).take(4) =~= b.take(4));
        assert((b + w).subrange(4, 8) =~= b.subrange(4, 8));
        assert((b + w).skip(8) =~= b.skip(8) + w);
        lemma_parse_nodes_snoc(b.skip(8), w);
        assert(parse_nodes(b + w) =~= parse_nodes(b) + seq![
            TrieNode::spec_from_words(
                spec_u32_from_le_bytes(w.take(4)),
                spec_u32_from_le_bytes(w.subrange(4, 8)),
            ),
        ]);
    }
}

/// One more descriptor on the end of a region parses to one more word.
pub proof fn lemma_parse_offs_snoc(b: Seq<u8>, w: Seq<u8>)
    requires
        b.len() % 4 == 0,
        w.len() == 4,
    ensures
        parse_offs(b + w) == parse_offs(b) + seq![spec_u32_from_le_bytes(w.take(4))],
    decreases b.len(),
{
    if b.len() == 0 {
        assert((b + w).take(4) =~= w.take(4));
        assert((b + w).skip(4) =~= Seq::<u8>::empty());
        assert(parse_offs((b + w).skip(4)) =~= Seq::<u32>::empty());
        assert(parse_offs(b) =~= Seq::<u32>::empty());
        assert(parse_offs(b + w) =~= parse_offs(b) + seq![spec_u32_from_le_bytes(w.take(4))]);
    } else {
        assert((b + w).take(4) =~= b.take(4));
        assert((b + w).skip(4) =~= b.skip(4) + w);
        lemma_parse_offs_snoc(b.skip(4), w);
        assert(parse_offs(b + w) =~= parse_offs(b) + seq![spec_u32_from_le_bytes(w.take(4))]);
    }
}

/// Parsing a serialized node region gives the nodes back.
pub proof fn lemma_parse_nodes_round(s: Seq<TrieNode>)
    ensures
        nodes_bytes(s).len() == 8 * s.len(),
        parse_nodes(nodes_bytes(s)) == s,
    decreases s.len(),
{
    vstd::bytes::lemma_auto_spec_u32_to_from_le_bytes();
    if s.len() > 0 {
        lemma_parse_nodes_round(s.skip(1));
        let b = nodes_bytes(s);
        assert(b =~= le32(s[0].word0()) + le32(s[0].word1()) + nodes_bytes(s.skip(1)));
        assert(b.take(4) =~= le32(s[0].word0()));
        assert(b.subrange(4, 8) =~= le32(s[0].word1()));
        assert(b.skip(8) =~= nodes_bytes(s.skip(1)));
        s[0].lemma_words_id();
        assert(parse_nodes(b) =~= s);
    }
}

/// Parsing a serialized descriptor region gives the descriptors back.
pub proof fn lemma_parse_offs_round(s: Seq<u32>)
    ensures
        offs_bytes(s).len() == 4 * s.len(),
        parse_offs(offs_bytes(s)) == s,
    decreases s.len(),
{
    vstd::bytes::lemma_auto_spec_u32_to_from_le_bytes();
    if s.len() > 0 {
        lemma_parse_offs_round(s.skip(1));
        let b = offs_bytes(s);
        assert(b.take(4) =~= le32(s[0]));
        assert(b.skip(4) =~= offs_bytes(s.skip(1)));
        assert(parse_offs(b) =~= s);
    }
}

} // verus!
