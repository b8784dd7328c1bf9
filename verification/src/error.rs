//! Errors reported by trie construction and queries.

use vstd::prelude::*;

verus! {

/// The ways construction and queries can fail.
#[derive(Clone, Copy, Debug, PartialEq, Eq, Structural)]
pub enum TrieError {
    /// Binary load: magic mismatch, header size mismatch, or a region that
    /// extends past the input.
    BadFormat,
    /// `append_token` hit a byte the recognizer rejects; the recognizer has
    /// already been collapsed into a defined state.
    ByteNotAllowed(u8),
    /// A construction-time invariant does not hold (a token too long, token
    /// bytes past the addressable range, a duplicate node label, a pop count
    /// that does not fit its field).
    InvariantViolation,
    /// `greedy_tokenize` met a byte with no token at the root; recoverable by
    /// the caller with a byte-fallback strategy.
    MissingByteCoverage,
}

} // verus!
