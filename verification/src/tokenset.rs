//! A dense set of token ids, one flag per id.
//!
//! The bias engine sizes it with one extra slot so that the sentinel id
//! `vocab_size` can be written without a branch and cleared at the end.

use vstd::prelude::*;

verus! {

/// How many flags of a sequence are set.
pub open spec fn count_true(s: Seq<bool>) -> int
    decreases s.len(),
{
    if s.len() == 0 {
        0
    } else {
        count_true(s.drop_last()) + if s.last() {
            1int
        } else {
            0int
        }
    }
}

/// A dense set of token ids.
pub struct TokenSet {
    bits: Vec<bool>,
}

impl View for TokenSet {
    type V = Seq<bool>;

    closed spec fn view(&self) -> Seq<bool> {
        self.bits@
    }
}

impl TokenSet {
    /// Whether `t` is within range and set.
    pub open spec fn spec_is_allowed(self, t: u32) -> bool {
        t < self@.len() && self@[t as int]
    }

    /// The set of ids this value allows.
    pub open spec fn allowed_set(self) -> Set<u32> {
        Set::new(|t: u32| self.spec_is_allowed(t))
    }

    /// A set over `len` ids, none of them allowed.
    pub fn with_len(len: usize) -> (r: TokenSet)
        ensures
            r@.len() == len,
            forall|j: int| 0 <= j < len ==> !r@[j],
    {
        let mut bits: Vec<bool> = Vec::new();
        let mut i: usize = 0;
        while i < len
            invariant
                i <= len,
                bits@.len() == i,
                forall|j: int| 0 <= j < i ==> !bits@[j],
            decreases len - i,
        {
            bits.push(false);
            i = i + 1;
        }
        TokenSet { bits }
    }

    /// How many ids the set covers (allowed or not).
    pub fn len(&self) -> (r: usize)
        ensures
            r == self@.len(),
    {
        self.bits.len()
    }

    /// Mark `tok` as allowed.
    pub fn allow_token(&mut self, tok: u32)
        requires
            (tok as int) < old(self)@.len(),
        ensures
            final(self)@ == old(self)@.update(tok as int, true),
    {
        self.bits[tok as usize] = true;
    }

    /// Mark `tok` as not allowed.
    pub fn disallow_token(&mut self, tok: u32)
        requires
            (tok as int) < old(self)@.len(),
        ensures
            final(self)@ == old(self)@.update(tok as int, false),
    {
        self.bits[tok as usize] = false;
    }

    /// Whether `tok` is allowed.
    pub fn is_allowed(&self, tok: u32) -> (r: bool)
        requires
            (tok as int) < self@.len(),
        ensures
            r == self.spec_is_allowed(tok),
    {
        self.bits[tok as usize]
    }

    /// Set every flag to `val`.
    pub fn set_all(&mut self, val: bool)
        ensures
            final(self)@.len() == old(self)@.len(),
            forall|j: int| 0 <= j < final(self)@.len() ==> final(self)@[j] == val,
    {
        let n = self.bits.len();
        let mut i: usize = 0;
        while i < n
            invariant
                i <= n,
                self.bits@.len() == n,
                forall|j: int| 0 <= j < i ==> self.bits@[j] == val,
            decreases n - i,
        {
            self.bits[i] = val;
            i = i + 1;
        }
    }

    /// How many ids are allowed.
    pub fn num_set(&self) -> (r: usize)
        ensures
            r as int == count_true(self@),
    {
        let n = self.bits.len();
        let mut i: usize = 0;
        let mut count: usize = 0;
        while i < n
            invariant
                i <= n,
                n == self@.len(),
                count as int == count_true(self@.take(i as int)),
                count <= i,
            decreases n - i,
        {
            proof {
                assert(self@.take(i + 1).drop_last() =~= self@.take(i as int));
                assert(self@.take(i + 1).last() == self@[i as int]);
            }
            if self.bits[i] {
                count = count + 1;
            }
            i = i + 1;
        }
        proof {
            assert(self@.take(n as int) =~= self@);
        }
        count
    }

    /// The pointwise complement over the same range of ids.
    pub fn negated(&self) -> (r: TokenSet)
        ensures
            r@.len() == self@.len(),
            forall|j: int| 0 <= j < self@.len() ==> r@[j] == !self@[j],
    {
        let n = self.bits.len();
        let mut bits: Vec<bool> = Vec::new();
        let mut i: usize = 0;
        while i < n
            invariant
                i <= n,
                n == self@.len(),
                bits@.len() == i,
                forall|j: int| 0 <= j < i ==> bits@[j] == !self@[j],
            decreases n - i,
        {
            bits.push(!self.bits[i]);
            i = i + 1;
        }
        TokenSet { bits }
    }
}

} // verus!
