//! The recognizer interface the bias engine drives.
//!
//! A recognizer owns a stack of tentatively pushed bytes on top of a
//! committed state. Its model here is the pushed byte sequence together
//! with a fixed viability predicate over byte sequences: pushing succeeds
//! exactly when the extended sequence is viable, and only `collapse`
//! commits bytes and moves the predicate forward.

use vstd::prelude::*;
use crate::info::SpecialToken;

verus! {

pub trait Recognizer {
    /// The bytes pushed and not yet popped since the traversal started
    /// or the last collapse.
    spec fn pushed(&self) -> Seq<u8>;

    /// Whether pushing the byte sequence `s` onto the committed state
    /// keeps the recognizer in a viable grammar state. Deterministic:
    /// only `collapse` changes it.
    spec fn viable(&self, s: Seq<u8>) -> bool;

    /// Whether the special token `tok` is permitted in the current state.
    spec fn special_ok(&self, tok: SpecialToken) -> bool;

    /// Pop the last `num` pushed bytes; they must have been pushed.
    fn pop_bytes(&mut self, num: usize)
        requires
            num <= old(self).pushed().len(),
        ensures
            final(self).pushed() == old(self).pushed().take(
                old(self).pushed().len() - num as int,
            ),
            forall|s: Seq<u8>| final(self).viable(s) == old(self).viable(s),
            forall|t: SpecialToken| final(self).special_ok(t) == old(self).special_ok(t),
    ;

    /// Commit the pushed bytes: the stack becomes a single empty frame on
    /// top of a state that has consumed them.
    fn collapse(&mut self)
        ensures
            final(self).pushed().len() == 0,
            forall|s: Seq<u8>|
                final(self).viable(s) == old(self).viable(old(self).pushed() + s),
    ;

    /// If the stack top extended by `byte` is viable, push it and return
    /// true; else leave the stack unchanged and return false.
    fn try_push_byte(&mut self, byte: u8) -> (r: bool)
        ensures
            r == old(self).viable(old(self).pushed().push(byte)),
            r ==> final(self).pushed() == old(self).pushed().push(byte),
            !r ==> final(self).pushed() == old(self).pushed(),
            forall|s: Seq<u8>| final(self).viable(s) == old(self).viable(s),
            forall|t: SpecialToken| final(self).special_ok(t) == old(self).special_ok(t),
    ;

    /// Whether the stack top extends viably by `byte`, without keeping
    /// the push.
    fn byte_allowed(&mut self, byte: u8) -> (r: bool)
        ensures
            r == old(self).viable(old(self).pushed().push(byte)),
            final(self).pushed() == old(self).pushed(),
            forall|s: Seq<u8>| final(self).viable(s) == old(self).viable(s),
            forall|t: SpecialToken| final(self).special_ok(t) == old(self).special_ok(t),
    ;

    /// Whether the special token `tok` is permitted in the current state.
    fn special_allowed(&mut self, tok: SpecialToken) -> (r: bool)
        ensures
            r == old(self).special_ok(tok),
            final(self).pushed() == old(self).pushed(),
            forall|s: Seq<u8>| final(self).viable(s) == old(self).viable(s),
            forall|t: SpecialToken| final(self).special_ok(t) == old(self).special_ok(t),
    ;

    /// Called once before a trie traversal; the traversal starts with an
    /// empty pushed stack.
    fn trie_started(&mut self)
        ensures
            final(self).pushed().len() == 0,
            forall|s: Seq<u8>| final(self).viable(s) == old(self).viable(s),
            forall|t: SpecialToken| final(self).special_ok(t) == old(self).special_ok(t),
    ;

    /// Called once after a traversal; cleans up any pushes the engine
    /// left behind (it leaves some when the traversal started below the
    /// root).
    fn trie_finished(&mut self)
        ensures
            final(self).pushed().len() == 0,
            forall|s: Seq<u8>| final(self).viable(s) == old(self).viable(s),
            forall|t: SpecialToken| final(self).special_ok(t) == old(self).special_ok(t),
    ;

    /// Any error to surface to the caller.
    fn get_error(&mut self) -> (r: Option<String>)
        ensures
            final(self).pushed() == old(self).pushed(),
            forall|s: Seq<u8>| final(self).viable(s) == old(self).viable(s),
            forall|t: SpecialToken| final(self).special_ok(t) == old(self).special_ok(t),
    ;
}

/// Every non-empty prefix of `s` is viable under `acc`: what it means for
/// a recognizer with byte-level acceptance `acc` to accept `s` byte by
/// byte.
pub open spec fn accepts_prefixes(acc: spec_fn(Seq<u8>) -> bool, s: Seq<u8>) -> bool {
    forall|i: int| 1 <= i <= s.len() ==> acc(#[trigger] s.take(i))
}

} // verus!
