//! The packed trie node: 8 bytes, laid out as two little-endian words.
//!
//! `bits` holds the edge byte (low 8 bits) and the token id (high 24 bits,
//! with `NO_TOKEN` meaning "no token ends here"). `bits2` holds the pop
//! count (low 8 bits) and the subtree size (high 24 bits).

use vstd::prelude::*;

verus! {

/// The 24-bit sentinel meaning "no token terminates at this node".
pub const NO_TOKEN: u32 = 0xffffff;

/// One packed trie node.
#[derive(Clone, Copy)]
pub struct TrieNode {
    bits: u32,
    bits2: u32,
}

/// The mathematical content of a packed node.
pub struct NodeSpec {
    /// Edge label from the parent.
    pub byte: u8,
    /// The token terminating at this node, if any.
    pub token: Option<u32>,
    /// Pops needed to leave this node during linearized depth-first search.
    pub num_parents: int,
    /// Nodes in this node's subtree, itself included.
    pub subtree_size: int,
}

impl View for TrieNode {
    type V = NodeSpec;

    closed spec fn view(&self) -> NodeSpec {
        NodeSpec {
            byte: (self.bits & 0xff) as u8,
            token: if self.bits >> 8 == NO_TOKEN {
                None
            } else {
                Some(self.bits >> 8)
            },
            num_parents: (self.bits2 & 0xff) as int,
            subtree_size: (self.bits2 >> 8) as int,
        }
    }
}

impl TrieNode {
    /// A fresh node with subtree size still zero; `token_raw == NO_TOKEN`
    /// encodes the absence of a token.
    pub fn new(byte: u8, token_raw: u32, num_parents: u8) -> (r: TrieNode)
        requires
            token_raw <= NO_TOKEN,
        ensures
            r@.byte == byte,
            r@.token == (if token_raw == NO_TOKEN { Option::<u32>::None } else {
                Option::<u32>::Some(token_raw)
            }),
            r@.num_parents == num_parents as int,
            r@.subtree_size == 0,
    {
        let bits: u32 = (token_raw << 8u32) | (byte as u32);
        let bits2: u32 = num_parents as u32;
        proof {
            assert((((token_raw << 8u32) | (byte as u32)) & 0xff) == byte as u32) by (bit_vector)
                requires token_raw <= 0xffffffu32;
            assert((((token_raw << 8u32) | (byte as u32)) >> 8) == token_raw) by (bit_vector)
                requires token_raw <= 0xffffffu32;
            assert(((num_parents as u32) & 0xff) == num_parents as u32) by (bit_vector);
            assert(((num_parents as u32) >> 8) == 0) by (bit_vector);
        }
        TrieNode { bits, bits2 }
    }

    /// The same node with its subtree size set.
    pub fn with_subtree_size(self, size: u32) -> (r: TrieNode)
        requires
            size < 0x1000000,
        ensures
            r@ == (NodeSpec { subtree_size: size as int, ..self@ }),
    {
        let bits2: u32 = (self.bits2 & 0xff) | (size << 8u32);
        proof {
            let old2 = self.bits2;
            assert((((old2 & 0xff) | (size << 8u32)) & 0xff) == (old2 & 0xff)) by (bit_vector)
                requires size < 0x1000000u32;
            assert((((old2 & 0xff) | (size << 8u32)) >> 8) == size) by (bit_vector)
                requires size < 0x1000000u32;
        }
        TrieNode { bits: self.bits, bits2 }
    }

    /// Edge label from the parent.
    #[inline(always)]
    pub fn byte(&self) -> (r: u8)
        ensures
            r == self@.byte,
    {
        (self.bits & 0xff) as u8
    }

    /// Number of nodes in this node's subtree, itself included.
    #[inline(always)]
    pub fn subtree_size(&self) -> (r: usize)
        ensures
            r as int == self@.subtree_size,
            r < 0x1000000,
    {
        proof {
            let b2 = self.bits2;
            assert((b2 >> 8) < 0x1000000u32) by (bit_vector);
        }
        (self.bits2 >> 8) as usize
    }

    /// Pops needed to leave this node during linearized depth-first search.
    #[inline(always)]
    pub fn num_parents(&self) -> (r: usize)
        ensures
            r as int == self@.num_parents,
            r <= 255,
    {
        proof {
            let b2 = self.bits2;
            assert((b2 & 0xff) <= 255u32) by (bit_vector);
        }
        (self.bits2 & 0xff) as usize
    }

    /// The two packed words, as stored on disk.
    pub closed spec fn word0(self) -> u32 {
        self.bits
    }

    pub closed spec fn word1(self) -> u32 {
        self.bits2
    }

    /// The node a pair of packed words denotes.
    pub closed spec fn spec_from_words(w0: u32, w1: u32) -> TrieNode {
        TrieNode { bits: w0, bits2: w1 }
    }

    /// A node is exactly its two packed words.
    pub proof fn lemma_words_id(self)
        ensures
            TrieNode::spec_from_words(self.word0(), self.word1()) == self,
    {
    }

    /// Read the two packed words.
    pub fn words(&self) -> (r: (u32, u32))
        ensures
            r.0 == self.word0(),
            r.1 == self.word1(),
    {
        (self.bits, self.bits2)
    }

    /// Rebuild a node from its two packed words.
    pub fn from_words(w0: u32, w1: u32) -> (r: TrieNode)
        ensures
            r == TrieNode::spec_from_words(w0, w1),
    {
        TrieNode { bits: w0, bits2: w1 }
    }

    /// The packed fields are nonnegative and fit their bit widths.
    pub proof fn lemma_view_bounds(self)
        ensures
            0 <= self@.num_parents <= 255,
            0 <= self@.subtree_size < 0x1000000,
    {
        let b2 = self.bits2;
        assert((b2 & 0xff) <= 255u32) by (bit_vector);
        assert((b2 >> 8) < 0x1000000u32) by (bit_vector);
    }

    /// The token terminating at this node, or `None`.
    #[inline(always)]
    pub fn token_id(&self) -> (r: Option<u32>)
        ensures
            r == self@.token,
    {
        let raw = self.bits >> 8;
        if raw == NO_TOKEN {
            None
        } else {
            Some(raw)
        }
    }
}

} // verus!
