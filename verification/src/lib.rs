//! A byte-level vocabulary trie for constrained decoding.
//!
//! The trie stores every vocabulary token's bytes in a packed, pre-order
//! node array, supports greedy byte-to-token segmentation, prefix lookup,
//! a compact binary form, and a recognizer-driven bias computation that
//! walks the trie while driving a byte-level recognizer in lockstep.

use vstd::prelude::*;

pub(crate) mod builder;
pub mod codec;
pub mod engine;
pub mod error;
pub mod info;
pub mod laws;
pub mod dupmap;
pub mod model;
pub mod node;
pub mod recognizer;
pub mod tokenset;
pub mod trie;

verus! {

/// Identifier of a vocabulary token, in `[0, vocab_size)`.
pub type TokenId = u32;

} // verus!
