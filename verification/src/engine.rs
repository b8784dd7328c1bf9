//! Recognizer-driven operations: probing and appending single tokens, and
//! mirroring duplicate tokens into a computed bias.

use vstd::prelude::*;
use vstd::string::StringSliceAdditionalSpecFns;
use crate::error::TrieError;
use crate::model::{node_at, sz, wf_forest, wf_node};
use crate::node::TrieNode;
use crate::recognizer::{accepts_prefixes, Recognizer};
use crate::tokenset::TokenSet;
use crate::trie::{decode_raw_spec, token_bytes_of, TokTrie};

verus! {

/// Sequential acceptance of whole tokens: each token's bytes are accepted
/// byte by byte, and the next token starts from the state that consumed
/// the previous ones.
pub open spec fn appends_ok(acc: spec_fn(Seq<u8>) -> bool, v: crate::trie::TrieView, toks: Seq<
    u32,
>) -> bool
    decreases toks.len(),
{
    if toks.len() == 0 {
        true
    } else {
        let tb = token_bytes_of(v, toks[0] as int);
        &&& accepts_prefixes(acc, tb)
        &&& appends_ok(|x: Seq<u8>| acc(tb + x), v, toks.skip(1))
    }
}

impl TokTrie {
    /// Whether the recognizer accepts every byte of `token(t)` from its
    /// current state; the probe leaves the recognizer's stack empty.
    #[verifier::loop_isolation(false)]
    pub fn token_allowed<R: Recognizer>(&self, r: &mut R, t: u32) -> (ok: bool)
        requires
            self.wf(),
        ensures
            ok == accepts_prefixes(
                |x: Seq<u8>| old(r).viable(x),
                token_bytes_of(self@, t as int),
            ),
            final(r).pushed().len() == 0,
            forall|s: Seq<u8>| final(r).viable(s) == old(r).viable(s),
            forall|tk: crate::info::SpecialToken|
                final(r).special_ok(tk) == old(r).special_ok(tk),
    {
        let ghost acc = |x: Seq<u8>| old(r).viable(x);
        let bytes = self.token(t);
        let ghost tb = bytes@;
        let m = bytes.len();
        let mut num: usize = 0;
        let mut ok = true;
        r.trie_started();
        let mut i: usize = 0;
        while ok && i < m
            invariant
                i <= m,
                m == tb.len(),
                bytes@ == tb,
                forall|s: Seq<u8>| r.viable(s) == acc(s),
                forall|tk: crate::info::SpecialToken|
                    r.special_ok(tk) == old(r).special_ok(tk),
                num == i,
                r.pushed() == tb.take(i as int),
                ok ==> forall|j: int| 1 <= j <= i ==> acc(#[trigger] tb.take(j)),
                !ok ==> !accepts_prefixes(acc, tb),
            decreases m - i, (if ok { 1int } else { 0int }),
        {
            let ghost rpre = *r;
            proof {
                assert(tb.take(i as int).push(tb[i as int]) =~= tb.take(i + 1));
            }
            if r.try_push_byte(bytes[i]) {
                num = num + 1;
                i = i + 1;
            } else {
                proof {
                    assert(!rpre.viable(rpre.pushed().push(tb[i as int])));
                    assert(rpre.pushed().push(tb[i as int]) =~= tb.take(i + 1));
                    assert(!acc(tb.take(i + 1)));
                    assert(1 <= i + 1 <= tb.len() && !acc(tb.take(i + 1)));
                    assert(!accepts_prefixes(acc, tb));
                }
                ok = false;
            }
        }
        proof {
            if ok {
                assert(i == m);
                assert(tb.take(m as int) =~= tb);
                assert forall|j: int| 1 <= j <= tb.len() implies acc(#[trigger] tb.take(j)) by {}
                assert(accepts_prefixes(acc, tb));
            }
        }
        r.pop_bytes(num);
        r.trie_finished();
        ok
    }

    /// Push every byte of `token(t)` and commit. On the first rejected
    /// byte the recognizer is collapsed into a defined state and the byte
    /// is reported; the recognizer then stands on what it accepted.
    #[verifier::loop_isolation(false)]
    pub fn append_token<R: Recognizer>(&self, r: &mut R, t: u32) -> (res: Result<(), TrieError>)
        requires
            self.wf(),
        ensures
            final(r).pushed().len() == 0,
            res is Ok <==> accepts_prefixes(
                |x: Seq<u8>| old(r).viable(old(r).pushed() + x),
                token_bytes_of(self@, t as int),
            ),
            res is Ok ==> forall|x: Seq<u8>|
                final(r).viable(x) == old(r).viable(
                    old(r).pushed() + token_bytes_of(self@, t as int) + x,
                ),
            res is Err ==> {
                let tb = token_bytes_of(self@, t as int);
                exists|i: int|
                    {
                        &&& 0 <= i < tb.len()
                        &&& res->Err_0 == TrieError::ByteNotAllowed(#[trigger] tb[i])
                        &&& !old(r).viable(old(r).pushed() + tb.take(i + 1))
                        &&& forall|j: int|
                            1 <= j <= i ==> old(r).viable(old(r).pushed() + #[trigger] tb.take(j))
                        &&& forall|x: Seq<u8>|
                            #[trigger] final(r).viable(x) == old(r).viable(
                                old(r).pushed() + tb.take(i) + x,
                            )
                    }
            },
    {
        let ghost r0 = *old(r);
        let ghost base = old(r).pushed();
        let ghost acc = |x: Seq<u8>| r0.viable(base + x);
        let bytes = self.token(t);
        let ghost tb = bytes@;
        let m = bytes.len();
        let mut i: usize = 0;
        while i < m
            invariant
                i <= m,
                m == tb.len(),
                bytes@ == tb,
                forall|s: Seq<u8>| r.viable(s) == r0.viable(s),
                r.pushed() == base + tb.take(i as int),
                forall|j: int| 1 <= j <= i ==> acc(#[trigger] tb.take(j)),
            decreases m - i,
        {
            let ghost rpre = *r;
            proof {
                assert((base + tb.take(i as int)).push(tb[i as int]) =~= base + tb.take(i + 1));
            }
            if !r.try_push_byte(bytes[i]) {
                proof {
                    assert(!rpre.viable(rpre.pushed().push(tb[i as int])));
                    assert(rpre.pushed().push(tb[i as int]) =~= base + tb.take(i + 1));
                    assert(!r0.viable(base + tb.take(i + 1)));
                    assert(!acc(tb.take(i + 1)));
                    assert(1 <= i + 1 <= tb.len() && !acc(tb.take(i + 1)));
                    assert(!accepts_prefixes(acc, tb));
                }
                let failed = bytes[i];
                r.collapse();
                proof {
                    // the recognizer now stands on the accepted prefix
                    assert forall|x: Seq<u8>| true implies #[trigger] r.viable(x) == r0.viable(
                        base + tb.take(i as int) + x,
                    ) by {
                        assert(r.viable(x) == rpre.viable(rpre.pushed() + x));
                        assert(rpre.pushed() + x =~= base + tb.take(i as int) + x);
                    }
                    assert({
                        &&& 0 <= i < tb.len()
                        &&& TrieError::ByteNotAllowed(failed) == TrieError::ByteNotAllowed(
                            tb[i as int],
                        )
                        &&& !r0.viable(base + tb.take(i + 1))
                        &&& forall|j: int|
                            1 <= j <= i ==> r0.viable(base + #[trigger] tb.take(j))
                        &&& forall|x: Seq<u8>|
                            #[trigger] r.viable(x) == r0.viable(base + tb.take(i as int) + x)
                    });
                }
                return Err(TrieError::ByteNotAllowed(failed));
            }
            i = i + 1;
        }
        proof {
            assert(tb.take(m as int) =~= tb);
            assert forall|j: int| 1 <= j <= tb.len() implies acc(#[trigger] tb.take(j)) by {}
        }
        r.collapse();
        proof {
            assert forall|x: Seq<u8>| true implies r.viable(x) == r0.viable(base + tb + x) by {
                assert((base + tb) + x =~= base + (tb + x));
            }
        }
        Ok(())
    }

    /// Append each of `ts` in turn; the first rejection reports its byte
    /// and stops.
    #[verifier::loop_isolation(false)]
    pub fn append_tokens<R: Recognizer>(&self, r: &mut R, ts: &[u32]) -> (res: Result<
        (),
        TrieError,
    >)
        requires
            self.wf(),
            old(r).pushed().len() == 0,
        ensures
            final(r).pushed().len() == 0,
            res is Ok <==> appends_ok(|x: Seq<u8>| old(r).viable(x), self@, ts@),
            res is Err ==> exists|i: int|
                {
                    let acc_i = |x: Seq<u8>|
                        old(r).viable(decode_raw_spec(self@, ts@.take(i)) + x);
                    let tb = token_bytes_of(self@, ts@[i] as int);
                    &&& 0 <= i < ts@.len()
                    &&& appends_ok(|x: Seq<u8>| old(r).viable(x), self@, #[trigger] ts@.take(i))
                    &&& exists|j: int|
                        {
                            &&& 0 <= j < tb.len()
                            &&& res->Err_0 == TrieError::ByteNotAllowed(#[trigger] tb[j])
                            &&& !acc_i(tb.take(j + 1))
                            &&& forall|j2: int| 1 <= j2 <= j ==> acc_i(#[trigger] tb.take(j2))
                        }
                },
    {
        let ghost acc0 = |x: Seq<u8>| old(r).viable(x);
        let ghost v = self@;
        let n = ts.len();
        let mut i: usize = 0;
        proof {
            assert(ts@.skip(0) =~= ts@);
            assert forall|x: Seq<u8>| true implies acc0(
                decode_raw_spec(v, ts@.take(0)) + x,
            ) == acc0(x) by {
                assert(decode_raw_spec(v, ts@.take(0)) + x =~= x);
            }
            lemma_appends_ok_ext(
                acc0,
                |x: Seq<u8>| acc0(decode_raw_spec(v, ts@.take(0)) + x),
                v,
                ts@,
            );
            assert(ts@.take(0).len() == 0);
            assert(appends_ok(acc0, v, ts@.take(0)));
        }
        while i < n
            invariant
                i <= n,
                n == ts@.len(),
                self.wf(),
                v == self@,
                r.pushed().len() == 0,
                forall|x: Seq<u8>|
                    #[trigger] r.viable(x) == acc0(decode_raw_spec(v, ts@.take(i as int)) + x),
                appends_ok(acc0, v, ts@) <==> appends_ok(
                    |x: Seq<u8>| acc0(decode_raw_spec(v, ts@.take(i as int)) + x),
                    v,
                    ts@.skip(i as int),
                ),
                appends_ok(acc0, v, ts@.take(i as int)),
            decreases n - i,
        {
            let ghost dec = decode_raw_spec(v, ts@.take(i as int));
            let ghost acc_i = |x: Seq<u8>| acc0(dec + x);
            let ghost pre = *r;
            let res = self.append_token(r, ts[i]);
            let ghost tb = token_bytes_of(v, ts@[i as int] as int);
            proof {
                assert(ts@.skip(i as int)[0] == ts@[i as int]);
                assert(ts@.skip(i as int).skip(1) =~= ts@.skip(i + 1));
                assert forall|x: Seq<u8>| true implies pre.viable(pre.pushed() + x) == acc_i(
                    x,
                ) by {
                    assert(pre.pushed() + x =~= x);
                    assert(pre.viable(x) == acc0(dec + x));
                }
            }
            match res {
                Ok(()) => {
                    proof {
                        crate::trie::lemma_decode_raw_take_step(v, ts@, i as int);
                        let dec2 = decode_raw_spec(v, ts@.take(i + 1));
                        assert(dec2 == dec + tb);
                        assert forall|x: Seq<u8>|
                            #[trigger] r.viable(x) == acc0(dec2 + x) by {
                            assert(r.viable(x) == pre.viable(pre.pushed() + tb + x));
                            assert(pre.pushed() + tb + x =~= tb + x);
                            assert(pre.viable(tb + x) == acc_i(tb + x));
                            assert(dec + (tb + x) =~= dec2 + x);
                        }
                        // the accepted token is the head of the remaining list
                        assert(accepts_prefixes(acc_i, tb)) by {
                            assert forall|j: int| 1 <= j <= tb.len() implies acc_i(
                                #[trigger] tb.take(j),
                            ) by {
                                assert(pre.viable(pre.pushed() + tb.take(j)));
                            }
                        }
                        assert(appends_ok(acc_i, v, ts@.skip(i as int)) <==> appends_ok(
                            |x: Seq<u8>| acc_i(tb + x),
                            v,
                            ts@.skip(i + 1),
                        ));
                        let f1 = |x: Seq<u8>| acc_i(tb + x);
                        let g1 = |x: Seq<u8>| acc0(dec2 + x);
                        assert forall|x: Seq<u8>| #[trigger] f1(x) == g1(x) by {
                            assert(dec + (tb + x) =~= dec2 + x);
                        }
                        lemma_appends_ok_ext(f1, g1, v, ts@.skip(i + 1));
                        // the accepted token extends the accepted prefix
                        assert(accepts_prefixes(
                            |x: Seq<u8>| acc0(decode_raw_spec(v, ts@.take(i as int)) + x),
                            tb,
                        )) by {
                            assert forall|j2: int|
                                1 <= j2 <= tb.len() implies (|x: Seq<u8>|
                                acc0(decode_raw_spec(v, ts@.take(i as int)) + x))(
                                #[trigger] tb.take(j2),
                            ) by {
                                assert(acc_i(tb.take(j2)));
                            }
                        }
                        lemma_appends_ok_snoc(acc0, v, ts@, i as int);
                    }
                },
                Err(e) => {
                    proof {
                        assert(!accepts_prefixes(acc_i, tb)) by {
                            assert(!accepts_prefixes(
                                |x: Seq<u8>| pre.viable(pre.pushed() + x),
                                tb,
                            ));
                            let j = choose|j: int|
                                1 <= j <= tb.len() && !(|x: Seq<u8>| pre.viable(
                                    pre.pushed() + x,
                                ))(tb.take(j));
                            assert(!acc_i(tb.take(j)));
                        }
                        assert(!appends_ok(acc_i, v, ts@.skip(i as int)));
                    }
                    return Err(e);
                },
            }
            i = i + 1;
        }
        proof {
            assert(ts@.skip(n as int).len() == 0);
            assert(appends_ok(
                |x: Seq<u8>| acc0(decode_raw_spec(v, ts@.take(n as int)) + x),
                v,
                ts@.skip(n as int),
            ));
        }
        Ok(())
    }
}

/// A prefix of accepted tokens extends by one more accepted token.
proof fn lemma_appends_ok_snoc(
    f: spec_fn(Seq<u8>) -> bool,
    v: crate::trie::TrieView,
    toks: Seq<u32>,
    i: int,
)
    requires
        0 <= i < toks.len(),
        appends_ok(f, v, toks.take(i)),
        accepts_prefixes(
            |x: Seq<u8>| f(decode_raw_spec(v, toks.take(i)) + x),
            token_bytes_of(v, toks[i] as int),
        ),
    ensures
        appends_ok(f, v, toks.take(i + 1)),
    decreases i,
{
    let g = |x: Seq<u8>| f(decode_raw_spec(v, toks.take(i)) + x);
    let tbi = token_bytes_of(v, toks[i] as int);
    if i == 0 {
        assert(toks.take(1)[0] == toks[0]);
        assert(toks.take(1).skip(1) =~= Seq::<u32>::empty());
        let f1 = |x: Seq<u8>| f(token_bytes_of(v, toks.take(1)[0] as int) + x);
        assert(appends_ok(f1, v, toks.take(1).skip(1)));
        assert(accepts_prefixes(f, token_bytes_of(v, toks.take(1)[0] as int))) by {
            assert forall|j2: int|
                1 <= j2 <= tbi.len() implies f(#[trigger] tbi.take(j2)) by {
                assert(g(tbi.take(j2)));
                assert(decode_raw_spec(v, toks.take(0)) + tbi.take(j2) =~= tbi.take(j2));
            }
        }
    } else {
        let h = toks[0];
        let tbh = token_bytes_of(v, h as int);
        let f1 = |x: Seq<u8>| f(tbh + x);
        assert(toks.take(i)[0] == h);
        assert(toks.take(i + 1)[0] == h);
        assert(toks.take(i).skip(1) =~= toks.skip(1).take(i - 1));
        assert(toks.take(i + 1).skip(1) =~= toks.skip(1).take(i));
        assert(appends_ok(f1, v, toks.skip(1).take(i - 1)));
        assert(toks.skip(1)[i - 1] == toks[i]);
        crate::trie::lemma_decode_raw_take_step(v, toks, 0);
        // decode of the first i tokens is the head token then the rest
        assert(decode_raw_spec(v, toks.take(i)) == tbh + decode_raw_spec(
            v,
            toks.skip(1).take(i - 1),
        )) by {
            assert(decode_raw_spec(v, toks.take(i)) == token_bytes_of(v, toks.take(i)[0] as int)
                + decode_raw_spec(v, toks.take(i).skip(1)));
        }
        let g1 = |x: Seq<u8>| f1(decode_raw_spec(v, toks.skip(1).take(i - 1)) + x);
        assert(accepts_prefixes(g1, token_bytes_of(v, toks.skip(1)[i - 1] as int))) by {
            assert forall|j2: int|
                1 <= j2 <= tbi.len() implies g1(#[trigger] tbi.take(j2)) by {
                assert(g(tbi.take(j2)));
                assert(decode_raw_spec(v, toks.take(i)) + tbi.take(j2) =~= tbh + (decode_raw_spec(
                    v,
                    toks.skip(1).take(i - 1),
                ) + tbi.take(j2)));
            }
        }
        lemma_appends_ok_snoc(f1, v, toks.skip(1), i - 1);
        assert(appends_ok(f1, v, toks.skip(1).take(i)));
        assert(accepts_prefixes(f, tbh));
    }
}

/// Pointwise-equal acceptance functions make the same sequential
/// judgement.
pub proof fn lemma_appends_ok_ext(
    f: spec_fn(Seq<u8>) -> bool,
    g: spec_fn(Seq<u8>) -> bool,
    v: crate::trie::TrieView,
    toks: Seq<u32>,
)
    requires
        forall|x: Seq<u8>| #[trigger] f(x) == g(x),
    ensures
        appends_ok(f, v, toks) == appends_ok(g, v, toks),
    decreases toks.len(),
{
    if toks.len() > 0 {
        let tb = token_bytes_of(v, toks[0] as int);
        assert(accepts_prefixes(f, tb) == accepts_prefixes(g, tb)) by {
            if accepts_prefixes(f, tb) {
                assert forall|j: int| 1 <= j <= tb.len() implies g(#[trigger] tb.take(j)) by {
                    assert(f(tb.take(j)));
                }
            }
            if accepts_prefixes(g, tb) {
                assert forall|j: int| 1 <= j <= tb.len() implies f(#[trigger] tb.take(j)) by {
                    assert(g(tb.take(j)));
                }
            }
        }
        lemma_appends_ok_ext(
            |x: Seq<u8>| f(tb + x),
            |x: Seq<u8>| g(tb + x),
            v,
            toks.skip(1),
        );
    }
}


/// The end of the sibling range a frame walks: just past its parent's
/// subtree.
pub open spec fn frame_end(s: Seq<TrieNode>, f: (int, int)) -> int {
    f.0 + sz(s, f.0)
}

/// The ghost descent stack of the linearized depth-first traversal.
/// Each frame `(par, cur)` walks the children of `par`, standing at
/// `cur`; every outer frame stands at the in-progress node whose child
/// frame sits above it, and the pop counts chain exactly as the builder
/// laid them down.
#[verifier::opaque]
pub open spec fn chain_wf(s: Seq<TrieNode>, fr: Seq<(int, int)>, off: int) -> bool {
    &&& fr.len() >= 1
    &&& fr[0].0 == off
    &&& forall|j: int| 0 <= j < fr.len() ==> wf_node(s, (#[trigger] fr[j]).0)
    &&& forall|j: int|
        0 <= j < fr.len() ==> fr[j].0 + 1 <= (#[trigger] fr[j]).1 <= frame_end(s, fr[j])
    &&& forall|j: int| 0 < j < fr.len() ==> (#[trigger] fr[j]).0 == fr[j - 1].1
    &&& forall|j: int| 0 < j < fr.len() ==> (#[trigger] fr[j - 1]).1 < frame_end(s, fr[j - 1])
    &&& forall|j: int|
        0 <= j < fr.len() - 1 ==> wf_forest(
            s,
            (#[trigger] fr[j]).1 + sz(s, fr[j].1),
            frame_end(s, fr[j]),
            s[fr[j].0]@.num_parents,
        )
    &&& wf_forest(
        s,
        fr.last().1,
        frame_end(s, fr.last()),
        s[fr.last().0]@.num_parents,
    )
    &&& forall|j: int|
        0 < j < fr.len() ==> s[(#[trigger] fr[j]).0]@.num_parents == (if frame_end(s, fr[j])
            == frame_end(s, fr[j - 1]) {
            s[fr[j - 1].0]@.num_parents + 1
        } else {
            1
        })
    &&& forall|j: int| 0 <= j < fr.len() ==> frame_end(s, #[trigger] fr[j]) <= off + sz(s, off)
}

/// An acceptance function seen from under one more byte.
pub open spec fn shift_acc(acc: spec_fn(Seq<u8>) -> bool, b: u8) -> spec_fn(Seq<u8>) -> bool {
    |x: Seq<u8>| acc(seq![b] + x)
}

/// The token ids the walk grants within the sibling forest `[lo, hi)`:
/// a node's token counts when its own byte, and every byte of its
/// ancestors below the walk's root, is accepted in order.
#[verifier::opaque]
pub open spec fn forest_bias(
    s: Seq<TrieNode>,
    lo: int,
    hi: int,
    acc: spec_fn(Seq<u8>) -> bool,
) -> Set<u32>
    decreases hi - lo,
{
    if lo >= hi || sz(s, lo) < 1 || lo + sz(s, lo) > hi {
        Set::<u32>::empty()
    } else {
        let b = s[lo]@.byte;
        let here = if acc(seq![b]) {
            (match s[lo]@.token {
                Some(t) => Set::<u32>::empty().insert(t),
                None => Set::<u32>::empty(),
            }).union(forest_bias(s, lo + 1, lo + sz(s, lo), shift_acc(acc, b)))
        } else {
            Set::<u32>::empty()
        };
        here.union(forest_bias(s, lo + sz(s, lo), hi, acc))
    }
}

/// The token ids a bias walk from `start` grants, not counting tokens
/// equal to a prefix of `start`.
pub open spec fn bias_set(
    v: crate::trie::TrieView,
    acc: spec_fn(Seq<u8>) -> bool,
    start: Seq<u8>,
) -> Set<u32> {
    match node_at(v.nodes, 0, start) {
        Some(n) => forest_bias(v.nodes, n + 1, n + sz(v.nodes, n), acc),
        None => Set::<u32>::empty(),
    }
}

/// The tokens equal to some non-empty prefix of `start`.
pub open spec fn prefix_tokens(v: crate::trie::TrieView, start: Seq<u8>) -> Set<u32> {
    Set::new(
        |t: u32| exists|l: int| 1 <= l <= start.len() && tok_at(v, #[trigger] start.take(l)) == Some(t),
    )
}

/// The edge bytes of the in-progress nodes of the outer frames: the path
/// the walk has pushed.
pub open spec fn frames_path(s: Seq<TrieNode>, fr: Seq<(int, int)>) -> Seq<u8> {
    Seq::new((fr.len() - 1) as nat, |j: int| s[fr[j].1]@.byte)
}

/// The acceptance function at the innermost frame: `acc` shifted under
/// every in-progress byte from frame `j` on.
pub open spec fn acc_last(
    s: Seq<TrieNode>,
    fr: Seq<(int, int)>,
    j: int,
    acc: spec_fn(Seq<u8>) -> bool,
) -> spec_fn(Seq<u8>) -> bool
    decreases fr.len() - j,
{
    if j >= fr.len() - 1 {
        acc
    } else {
        acc_last(s, fr, j + 1, shift_acc(acc, s[fr[j].1]@.byte))
    }
}

/// The work still owed by the frames from `j` on: the unwalked part of
/// every sibling range, each under the acceptance of its depth.
#[verifier::opaque]
pub open spec fn frames_rem(
    s: Seq<TrieNode>,
    fr: Seq<(int, int)>,
    j: int,
    acc: spec_fn(Seq<u8>) -> bool,
) -> Set<u32>
    decreases fr.len() - j,
{
    if j < 0 || j >= fr.len() {
        Set::<u32>::empty()
    } else if j == fr.len() - 1 {
        forest_bias(s, fr[j].1, frame_end(s, fr[j]), acc)
    } else {
        forest_bias(s, fr[j].1 + sz(s, fr[j].1), frame_end(s, fr[j]), acc).union(
            frames_rem(s, fr, j + 1, shift_acc(acc, s[fr[j].1]@.byte)),
        )
    }
}

/// The owed work of the outer frames alone.
#[verifier::opaque]
pub open spec fn outer_rem(
    s: Seq<TrieNode>,
    fr: Seq<(int, int)>,
    j: int,
    acc: spec_fn(Seq<u8>) -> bool,
) -> Set<u32>
    decreases fr.len() - j,
{
    if j < 0 || j >= fr.len() - 1 {
        Set::<u32>::empty()
    } else {
        forest_bias(s, fr[j].1 + sz(s, fr[j].1), frame_end(s, fr[j]), acc).union(
            outer_rem(s, fr, j + 1, shift_acc(acc, s[fr[j].1]@.byte)),
        )
    }
}

/// The owed work splits into the outer frames' part and the innermost
/// forest under the accumulated acceptance.
pub proof fn lemma_rem_decomp(
    s: Seq<TrieNode>,
    fr: Seq<(int, int)>,
    j: int,
    acc: spec_fn(Seq<u8>) -> bool,
)
    requires
        0 <= j < fr.len(),
    ensures
        frames_rem(s, fr, j, acc) == outer_rem(s, fr, j, acc).union(
            forest_bias(s, fr.last().1, frame_end(s, fr.last()), acc_last(s, fr, j, acc)),
        ),
    decreases fr.len() - j,
{
    reveal(frames_rem);
    reveal(outer_rem);
    if j == fr.len() - 1 {
        assert(frames_rem(s, fr, j, acc) =~= outer_rem(s, fr, j, acc).union(
            forest_bias(s, fr.last().1, frame_end(s, fr.last()), acc_last(s, fr, j, acc)),
        ));
    } else {
        lemma_rem_decomp(s, fr, j + 1, shift_acc(acc, s[fr[j].1]@.byte));
        assert(frames_rem(s, fr, j, acc) =~= outer_rem(s, fr, j, acc).union(
            forest_bias(s, fr.last().1, frame_end(s, fr.last()), acc_last(s, fr, j, acc)),
        ));
    }
}

/// Changing only the innermost cursor leaves the outer frames' owed work
/// and the accumulated acceptance alone.
pub proof fn lemma_upd_last(
    s: Seq<TrieNode>,
    fr: Seq<(int, int)>,
    c2: int,
    j: int,
    acc: spec_fn(Seq<u8>) -> bool,
)
    requires
        fr.len() >= 1,
        0 <= j < fr.len(),
    ensures
        outer_rem(s, fr.update(fr.len() - 1, (fr.last().0, c2)), j, acc) == outer_rem(
            s,
            fr,
            j,
            acc,
        ),
        acc_last(s, fr.update(fr.len() - 1, (fr.last().0, c2)), j, acc) == acc_last(s, fr, j, acc),
    decreases fr.len() - j,
{
    reveal(outer_rem);
    let fr2 = fr.update(fr.len() - 1, (fr.last().0, c2));
    if j < fr.len() - 1 {
        assert(fr2[j] == fr[j]);
        lemma_upd_last(s, fr, c2, j + 1, shift_acc(acc, s[fr[j].1]@.byte));
        assert(outer_rem(s, fr2, j, acc) =~= outer_rem(s, fr, j, acc));
    }
}

/// Descending into the innermost cursor's node adds its remaining
/// siblings to the outer owed work and shifts the acceptance under its
/// byte.
pub proof fn lemma_push_last(
    s: Seq<TrieNode>,
    fr: Seq<(int, int)>,
    j: int,
    acc: spec_fn(Seq<u8>) -> bool,
)
    requires
        fr.len() >= 1,
        0 <= j < fr.len(),
    ensures
        ({
            let p = fr.last().1;
            let fr2 = fr.push((p, p + 1));
            &&& outer_rem(s, fr2, j, acc) == outer_rem(s, fr, j, acc).union(
                forest_bias(
                    s,
                    p + sz(s, p),
                    frame_end(s, fr.last()),
                    acc_last(s, fr, j, acc),
                ),
            )
            &&& acc_last(s, fr2, j, acc) == shift_acc(acc_last(s, fr, j, acc), s[p]@.byte)
        }),
    decreases fr.len() - j,
{
    reveal(outer_rem);
    let p = fr.last().1;
    let fr2 = fr.push((p, p + 1));
    if j == fr.len() - 1 {
        assert(fr2[j] == fr[j]);
        assert(fr2.len() - 1 == j + 1);
        assert(acc_last(s, fr, j, acc) == acc);
        assert(acc_last(s, fr2, j + 1, shift_acc(acc, s[p]@.byte)) == shift_acc(
            acc,
            s[p]@.byte,
        ));
        assert(acc_last(s, fr2, j, acc) == shift_acc(acc, s[p]@.byte));
        assert(outer_rem(s, fr2, j + 1, shift_acc(acc, s[fr2[j].1]@.byte)) =~= Set::<
            u32,
        >::empty());
        assert(outer_rem(s, fr, j, acc) =~= Set::<u32>::empty());
        assert(outer_rem(s, fr2, j, acc) =~= outer_rem(s, fr, j, acc).union(
            forest_bias(s, p + sz(s, p), frame_end(s, fr.last()), acc_last(s, fr, j, acc)),
        ));
    } else {
        assert(fr2[j] == fr[j]);
        assert(fr2.last().1 == p + 1);
        lemma_push_last(s, fr, j + 1, shift_acc(acc, s[fr[j].1]@.byte));
        assert(acc_last(s, fr, j, acc) == acc_last(s, fr, j + 1, shift_acc(acc, s[fr[j].1]@.byte)));
        assert(acc_last(s, fr2, j, acc) == acc_last(
            s,
            fr2,
            j + 1,
            shift_acc(acc, s[fr[j].1]@.byte),
        ));
        assert(outer_rem(s, fr2, j, acc) =~= outer_rem(s, fr, j, acc).union(
            forest_bias(s, p + sz(s, p), frame_end(s, fr.last()), acc_last(s, fr, j, acc)),
        ));
    }
}

/// The accumulated acceptance is the base acceptance under the pushed
/// path.
pub proof fn lemma_acc_last_apply(
    s: Seq<TrieNode>,
    fr: Seq<(int, int)>,
    j: int,
    acc: spec_fn(Seq<u8>) -> bool,
    x: Seq<u8>,
)
    requires
        0 <= j < fr.len(),
    ensures
        acc_last(s, fr, j, acc)(x) == acc(frames_path(s, fr).skip(j) + x),
    decreases fr.len() - j,
{
    if j == fr.len() - 1 {
        assert(frames_path(s, fr).skip(j) =~= Seq::<u8>::empty());
        assert(frames_path(s, fr).skip(j) + x =~= x);
    } else {
        let b = s[fr[j].1]@.byte;
        lemma_acc_last_apply(s, fr, j + 1, shift_acc(acc, b), x);
        assert(frames_path(s, fr).skip(j) =~= seq![b] + frames_path(s, fr).skip(j + 1));
        assert(seq![b] + (frames_path(s, fr).skip(j + 1) + x) =~= frames_path(s, fr).skip(j)
            + x);
    }
}

/// Whether the walk from `start` grants any token at all.
pub open spec fn has_bias(
    v: crate::trie::TrieView,
    acc: spec_fn(Seq<u8>) -> bool,
    start: Seq<u8>,
) -> bool {
    exists|t: u32| #[trigger] bias_set(v, acc, start).contains(t)
}

/// Pointwise-equal acceptance functions grant the same tokens.
pub proof fn lemma_forest_bias_ext(
    s: Seq<TrieNode>,
    lo: int,
    hi: int,
    f: spec_fn(Seq<u8>) -> bool,
    g: spec_fn(Seq<u8>) -> bool,
)
    requires
        forall|x: Seq<u8>| #[trigger] f(x) == g(x),
    ensures
        forest_bias(s, lo, hi, f) == forest_bias(s, lo, hi, g),
    decreases hi - lo,
{
    reveal(forest_bias);
    if !(lo >= hi || sz(s, lo) < 1 || lo + sz(s, lo) > hi) {
        let b = s[lo]@.byte;
        let f1 = shift_acc(f, b);
        let g1 = shift_acc(g, b);
        assert forall|x: Seq<u8>| #[trigger] f1(x) == g1(x) by {
            assert(f(seq![b] + x) == g(seq![b] + x));
        }
        lemma_forest_bias_ext(s, lo + 1, lo + sz(s, lo), f1, g1);
        lemma_forest_bias_ext(s, lo + sz(s, lo), hi, f, g);
        assert(forest_bias(s, lo, hi, f) =~= forest_bias(s, lo, hi, g));
    }
}

/// Pointwise-equal acceptance functions grant the same bias set.
pub proof fn lemma_bias_set_ext(
    v: crate::trie::TrieView,
    f: spec_fn(Seq<u8>) -> bool,
    g: spec_fn(Seq<u8>) -> bool,
    start: Seq<u8>,
)
    requires
        forall|x: Seq<u8>| #[trigger] f(x) == g(x),
    ensures
        bias_set(v, f, start) == bias_set(v, g, start),
        has_bias(v, f, start) == has_bias(v, g, start),
{
    match node_at(v.nodes, 0, start) {
        Some(n) => {
            lemma_forest_bias_ext(v.nodes, n + 1, n + sz(v.nodes, n), f, g);
        },
        None => {},
    }
}

/// The token granted at a position, if its byte is accepted there.
pub open spec fn consume_set(
    s: Seq<TrieNode>,
    fr: Seq<(int, int)>,
    acc: spec_fn(Seq<u8>) -> bool,
) -> Set<u32> {
    let p = fr.last().1;
    let b = s[p]@.byte;
    let ak = acc_last(s, fr, 0, acc);
    if ak(seq![b]) {
        (match s[p]@.token {
            Some(t) => Set::<u32>::empty().insert(t),
            None => Set::<u32>::empty(),
        }).union(forest_bias(s, p + 1, p + sz(s, p), shift_acc(ak, b)))
    } else {
        Set::<u32>::empty()
    }
}

/// The pop count the node just consumed carries, read off the advanced
/// stack: one more than its parent's when it closed its sibling chain.
pub open spec fn exit_np(s: Seq<TrieNode>, fr: Seq<(int, int)>) -> int {
    if fr.last().1 == frame_end(s, fr.last()) {
        s[fr.last().0]@.num_parents + 1
    } else {
        1
    }
}

/// Retiring one exhausted frame leaves the owed work as it was: the dead
/// frame owed nothing, and its parent's cursor advances over the subtree
/// the dead frame walked.
proof fn lemma_pop_rem(
    s: Seq<TrieNode>,
    fr: Seq<(int, int)>,
    j: int,
    acc: spec_fn(Seq<u8>) -> bool,
)
    requires
        fr.len() >= 2,
        0 <= j <= fr.len() - 2,
        fr.last().1 == frame_end(s, fr.last()),
        fr.last().0 == fr[fr.len() - 2].1,
        frame_end(s, fr.last()) == fr[fr.len() - 2].1 + sz(s, fr[fr.len() - 2].1),
    ensures
        ({
            let k = fr.len() - 1;
            let fr1 = fr.take(k).update(
                k - 1,
                (fr[k - 1].0, fr[k - 1].1 + sz(s, fr[k - 1].1)),
            );
            frames_rem(s, fr1, j, acc) == frames_rem(s, fr, j, acc)
        }),
    decreases fr.len() - j,
{
    reveal(frames_rem);
    reveal(forest_bias);
    let k = fr.len() - 1;
    let fr1 = fr.take(k).update(k - 1, (fr[k - 1].0, fr[k - 1].1 + sz(s, fr[k - 1].1)));
    if j == k - 1 {
        assert(fr1[j].0 == fr[j].0);
        assert(fr1[j].1 == fr[j].1 + sz(s, fr[j].1));
        assert(frames_rem(s, fr, k, shift_acc(acc, s[fr[j].1]@.byte)) =~= Set::<u32>::empty());
        assert(frames_rem(s, fr1, j, acc) =~= frames_rem(s, fr, j, acc));
    } else {
        assert(fr1[j] == fr[j]);
        lemma_pop_rem(s, fr, j + 1, shift_acc(acc, s[fr[j].1]@.byte));
        assert(frames_rem(s, fr1, j, acc) =~= frames_rem(s, fr, j, acc));
    }
}

/// Pop every exhausted frame. The number of frames that die is exactly
/// the pop count of the node just consumed, less one -- except when the
/// traversal itself is exhausted, where the root frame absorbs the
/// difference.
#[verifier::rlimit(100)]
#[verifier::spinoff_prover]
pub proof fn pop_chain(
    s: Seq<TrieNode>,
    fr: Seq<(int, int)>,
    off: int,
    acc: spec_fn(Seq<u8>) -> bool,
) -> (fr2: Seq<(int, int)>)
    requires
        chain_wf(s, fr, off),
    ensures
        chain_wf(s, fr2, off),
        1 <= fr2.len() <= fr.len(),
        frame_end(s, fr2.last()) <= off + sz(s, off),
        fr2.last().1 <= frame_end(s, fr2.last()),
        fr2.last().1 == fr.last().1,
        fr2.last().1 < frame_end(s, fr2.last()) ==> fr.len() - fr2.len() == exit_np(s, fr) - 1,
        fr2.last().1 == frame_end(s, fr2.last()) ==> fr2.len() == 1 && fr.len() - fr2.len()
            == exit_np(s, fr) - 1 - s[off]@.num_parents,
        frames_rem(s, fr2, 0, acc) == frames_rem(s, fr, 0, acc),
        frames_path(s, fr2) == frames_path(s, fr).take(fr2.len() - 1),
    decreases fr.len(),
{
    reveal(chain_wf);
    let k = fr.len() - 1;
    if fr[k].1 < frame_end(s, fr[k]) || fr.len() == 1 {
        assert(frames_path(s, fr) =~= frames_path(s, fr).take(fr.len() - 1));
        fr
    } else {
        let cur2 = fr[k - 1].1 + sz(s, fr[k - 1].1);
        let fr1 = fr.take(k).update(k - 1, (fr[k - 1].0, cur2));
        assert(cur2 == frame_end(s, fr[k]));
        assert(fr[k].1 == frame_end(s, fr[k]));
        lemma_pop_rem(s, fr, 0, acc);
        assert(frames_path(s, fr1) =~= frames_path(s, fr).take(fr1.len() - 1));
        assert(chain_wf(s, fr1, off)) by {
            assert forall|j: int| 0 <= j < fr1.len() implies wf_node(
                s,
                (#[trigger] fr1[j]).0,
            ) by {
                assert(fr1[j].0 == fr[j].0);
            }
            assert forall|j: int|
                0 <= j < fr1.len() implies fr1[j].0 + 1 <= (#[trigger] fr1[j]).1 <= frame_end(
                s,
                fr1[j],
            ) by {
                if j < k - 1 {
                    assert(fr1[j] == fr[j]);
                }
            }
            assert forall|j: int|
                0 <= j < fr1.len() - 1 implies wf_forest(
                s,
                (#[trigger] fr1[j]).1 + sz(s, fr1[j].1),
                frame_end(s, fr1[j]),
                s[fr1[j].0]@.num_parents,
            ) by {
                assert(fr1[j] == fr[j]);
            }
        }
        let fr2 = pop_chain(s, fr1, off, acc);
        assert(frames_path(s, fr2) =~= frames_path(s, fr).take(fr2.len() - 1));
        assert(exit_np(s, fr1) == exit_np(s, fr) - 1) by {
            assert(fr1.last().1 == cur2);
            assert(s[fr[k].0]@.num_parents == (if frame_end(s, fr[k]) == frame_end(s, fr[k - 1]) {
                s[fr[k - 1].0]@.num_parents + 1
            } else {
                1
            }));
        }
        fr2
    }
}

/// Facts about the node the innermost frame stands at.
pub proof fn lemma_chain_node(s: Seq<TrieNode>, fr: Seq<(int, int)>, off: int)
    requires
        chain_wf(s, fr, off),
        fr.last().1 < frame_end(s, fr.last()),
    ensures
        0 <= fr.last().1 < s.len(),
        1 <= sz(s, fr.last().1),
        fr.last().1 + sz(s, fr.last().1) <= frame_end(s, fr.last()),
        frame_end(s, fr.last()) <= off + sz(s, off),
        s[fr.last().1]@.num_parents >= 1,
        wf_node(s, fr.last().1),
{
    reveal(chain_wf);
    let cur = fr.last().1;
    let fend = frame_end(s, fr.last());
    let pnp = s[fr.last().0]@.num_parents;
    s[fr.last().0].lemma_view_bounds();
    assert(wf_forest(s, cur, fend, pnp));
}

/// Stepping the innermost cursor over its node splits the owed work into
/// what that node grants and what is still owed.
#[verifier::rlimit(100)]
#[verifier::spinoff_prover]
proof fn lemma_consume_step(
    s: Seq<TrieNode>,
    fr: Seq<(int, int)>,
    off: int,
    acc: spec_fn(Seq<u8>) -> bool,
)
    requires
        chain_wf(s, fr, off),
        fr.last().1 < frame_end(s, fr.last()),
    ensures
        ({
            let fra = fr.update(
                fr.len() - 1,
                (fr.last().0, fr.last().1 + sz(s, fr.last().1)),
            );
            &&& frames_rem(s, fr, 0, acc) == consume_set(s, fr, acc).union(
                frames_rem(s, fra, 0, acc),
            )
            &&& frames_path(s, fra) == frames_path(s, fr)
        }),
{
    reveal(forest_bias);
    reveal(chain_wf);
    let par = fr.last().0;
    let cur = fr.last().1;
    let fend = frame_end(s, fr.last());
    let ak = acc_last(s, fr, 0, acc);
    let b = s[cur]@.byte;
    assert(wf_forest(s, cur, fend, s[par]@.num_parents));
    let nxt = cur + sz(s, cur);
    let fra = fr.update(fr.len() - 1, (par, nxt));
    lemma_rem_decomp(s, fr, 0, acc);
    lemma_rem_decomp(s, fra, 0, acc);
    lemma_upd_last(s, fr, nxt, 0, acc);
    assert(frame_end(s, fra.last()) == fend);
    // unfold the innermost forest at the consumed node
    assert(forest_bias(s, cur, fend, ak) == (if ak(seq![b]) {
        (match s[cur]@.token {
            Some(t) => Set::<u32>::empty().insert(t),
            None => Set::<u32>::empty(),
        }).union(forest_bias(s, cur + 1, cur + sz(s, cur), shift_acc(ak, b)))
    } else {
        Set::<u32>::empty()
    }).union(forest_bias(s, nxt, fend, ak)));
    assert(frames_rem(s, fr, 0, acc) =~= consume_set(s, fr, acc).union(
        frames_rem(s, fra, 0, acc),
    ));
    assert(frames_path(s, fra) =~= frames_path(s, fr));
}

/// Consume the node at the innermost cursor (its subtree handled), then
/// retire every exhausted frame. The frames that die, plus one, are the
/// consumed node's pop count -- except when the whole walk is exhausted,
/// where the walk root's own pop count is the difference.
#[verifier::rlimit(100)]
#[verifier::spinoff_prover]
pub proof fn lemma_chain_advance(
    s: Seq<TrieNode>,
    fr: Seq<(int, int)>,
    off: int,
    acc: spec_fn(Seq<u8>) -> bool,
) -> (fr2: Seq<(int, int)>)
    requires
        chain_wf(s, fr, off),
        fr.last().1 < frame_end(s, fr.last()),
    ensures
        chain_wf(s, fr2, off),
        1 <= fr2.len() <= fr.len(),
        frame_end(s, fr2.last()) <= off + sz(s, off),
        fr2.last().1 <= frame_end(s, fr2.last()),
        fr2.last().1 == fr.last().1 + sz(s, fr.last().1),
        s[fr.last().1]@.num_parents >= 1,
        fr2.last().1 < frame_end(s, fr2.last()) ==> fr.len() - fr2.len() == s[fr.last().1]@
            .num_parents - 1,
        fr2.last().1 == frame_end(s, fr2.last()) ==> fr2.len() == 1 && fr2.last().1 == off + sz(
            s,
            off,
        ) && fr.len() - fr2.len() == s[fr.last().1]@.num_parents - 1 - s[off]@.num_parents,
        frames_rem(s, fr, 0, acc) == consume_set(s, fr, acc).union(frames_rem(s, fr2, 0, acc)),
        frames_path(s, fr2) == frames_path(s, fr).take(fr2.len() - 1),
{
    reveal(chain_wf);
    let par = fr.last().0;
    let cur = fr.last().1;
    let fend = frame_end(s, fr.last());
    let pnp = s[par]@.num_parents;
    s[par].lemma_view_bounds();
    assert(wf_forest(s, cur, fend, pnp));
    let nxt = cur + sz(s, cur);
    let fra = fr.update(fr.len() - 1, (par, nxt));
    assert(chain_wf(s, fra, off)) by {
        assert forall|j: int| 0 <= j < fra.len() implies wf_node(s, (#[trigger] fra[j]).0) by {
            assert(fra[j].0 == fr[j].0);
        }
        assert forall|j: int|
            0 <= j < fra.len() implies fra[j].0 + 1 <= (#[trigger] fra[j]).1 <= frame_end(
            s,
            fra[j],
        ) by {
            if j < fra.len() - 1 {
                assert(fra[j] == fr[j]);
            }
        }
        assert forall|j: int|
            0 <= j < fra.len() - 1 implies wf_forest(
            s,
            (#[trigger] fra[j]).1 + sz(s, fra[j].1),
            frame_end(s, fra[j]),
            s[fra[j].0]@.num_parents,
        ) by {
            assert(fra[j] == fr[j]);
        }
    }
    assert(exit_np(s, fra) == s[cur]@.num_parents);
    lemma_consume_step(s, fr, off, acc);
    let fr2 = pop_chain(s, fra, off, acc);
    if fr2.last().1 == frame_end(s, fr2.last()) {
        assert(fr2.last().1 <= frame_end(s, fr2[0]));
        assert(fr2[0].0 == off);
    }
    assert(frames_path(s, fr2) =~= frames_path(s, fr).take(fr2.len() - 1));
    fr2
}

/// Step over the innermost cursor's node when it is a rejected node or an
/// accepted leaf: the owed work loses exactly that node's token (for an
/// accepted leaf) or nothing (for a rejected node).
#[verifier::rlimit(100)]
#[verifier::spinoff_prover]
proof fn lemma_step_over(
    s: Seq<TrieNode>,
    fr: Seq<(int, int)>,
    off: int,
    acc: spec_fn(Seq<u8>) -> bool,
    accepted: bool,
) -> (fr2: Seq<(int, int)>)
    requires
        chain_wf(s, fr, off),
        fr.last().1 < frame_end(s, fr.last()),
        accepted == acc_last(s, fr, 0, acc)(seq![s[fr.last().1]@.byte]),
        accepted ==> sz(s, fr.last().1) == 1,
    ensures
        chain_wf(s, fr2, off),
        1 <= fr2.len() <= fr.len(),
        frame_end(s, fr2.last()) <= off + sz(s, off),
        fr2.last().1 <= frame_end(s, fr2.last()),
        fr2.last().1 == fr.last().1 + sz(s, fr.last().1),
        s[fr.last().1]@.num_parents >= 1,
        fr2.last().1 < frame_end(s, fr2.last()) ==> fr.len() - fr2.len() == s[fr.last().1]@
            .num_parents - 1,
        fr2.last().1 == frame_end(s, fr2.last()) ==> fr2.len() == 1 && fr2.last().1 == off + sz(
            s,
            off,
        ) && fr.len() - fr2.len() == s[fr.last().1]@.num_parents - 1 - s[off]@.num_parents,
        frames_rem(s, fr, 0, acc) == (if accepted {
            match s[fr.last().1]@.token {
                Some(t) => Set::<u32>::empty().insert(t),
                None => Set::<u32>::empty(),
            }
        } else {
            Set::<u32>::empty()
        }).union(frames_rem(s, fr2, 0, acc)),
        frames_path(s, fr2) == frames_path(s, fr).take(fr2.len() - 1),
{
    reveal(forest_bias);
    let cur = fr.last().1;
    let b = s[cur]@.byte;
    let ak = acc_last(s, fr, 0, acc);
    let fr2 = lemma_chain_advance(s, fr, off, acc);
    if accepted {
        assert(forest_bias(s, cur + 1, cur + sz(s, cur), shift_acc(ak, b)) =~= Set::<
            u32,
        >::empty());
        assert(consume_set(s, fr, acc) =~= (match s[cur]@.token {
            Some(t) => Set::<u32>::empty().insert(t),
            None => Set::<u32>::empty(),
        }));
    } else {
        assert(consume_set(s, fr, acc) =~= Set::<u32>::empty());
    }
    fr2
}

/// Descend into the node at the innermost cursor: a new frame walks its
/// children.
pub proof fn lemma_chain_push(
    s: Seq<TrieNode>,
    fr: Seq<(int, int)>,
    off: int,
    acc: spec_fn(Seq<u8>) -> bool,
) -> (fr2: Seq<(int, int)>)
    requires
        chain_wf(s, fr, off),
        fr.last().1 < frame_end(s, fr.last()),
        sz(s, fr.last().1) > 1,
    ensures
        chain_wf(s, fr2, off),
        fr2.last().1 == fr.last().1 + 1,
        fr2.len() == fr.len() + 1,
        fr2.last().1 < frame_end(s, fr2.last()) || fr2.len() == 1,
        frame_end(s, fr2.last()) <= off + sz(s, off),
        fr2.last().1 <= frame_end(s, fr2.last()),
        acc_last(s, fr, 0, acc)(seq![s[fr.last().1]@.byte]) ==> frames_rem(s, fr, 0, acc)
            == (match s[fr.last().1]@.token {
            Some(t) => Set::<u32>::empty().insert(t),
            None => Set::<u32>::empty(),
        }).union(frames_rem(s, fr2, 0, acc)),
        frames_path(s, fr2) == frames_path(s, fr).push(s[fr.last().1]@.byte),
{
    reveal(chain_wf);
    let par = fr.last().0;
    let cur = fr.last().1;
    let fend = frame_end(s, fr.last());
    let pnp = s[par]@.num_parents;
    let ak = acc_last(s, fr, 0, acc);
    let b = s[cur]@.byte;
    assert(wf_forest(s, cur, fend, pnp));
    let fr2 = fr.push((cur, cur + 1));
    assert(chain_wf(s, fr2, off)) by {
        assert(wf_node(s, cur));
        assert forall|j: int| 0 <= j < fr2.len() implies wf_node(s, (#[trigger] fr2[j]).0) by {
            if j < fr.len() {
                assert(fr2[j] == fr[j]);
            }
        }
        assert forall|j: int|
            0 <= j < fr2.len() implies fr2[j].0 + 1 <= (#[trigger] fr2[j]).1 <= frame_end(
            s,
            fr2[j],
        ) by {
            if j < fr.len() {
                assert(fr2[j] == fr[j]);
            }
        }
        assert forall|j: int|
            0 <= j < fr2.len() - 1 implies wf_forest(
            s,
            (#[trigger] fr2[j]).1 + sz(s, fr2[j].1),
            frame_end(s, fr2[j]),
            s[fr2[j].0]@.num_parents,
        ) by {
            if j < fr.len() - 1 {
                assert(fr2[j] == fr[j]);
            }
        }
    }
    if ak(seq![b]) {
        reveal(forest_bias);
        lemma_rem_decomp(s, fr, 0, acc);
        lemma_rem_decomp(s, fr2, 0, acc);
        lemma_push_last(s, fr, 0, acc);
        assert(frame_end(s, fr2.last()) == cur + sz(s, cur));
        assert(forest_bias(s, cur, fend, ak) == (match s[cur]@.token {
            Some(t) => Set::<u32>::empty().insert(t),
            None => Set::<u32>::empty(),
        }).union(forest_bias(s, cur + 1, cur + sz(s, cur), shift_acc(ak, b))).union(
            forest_bias(s, cur + sz(s, cur), fend, ak),
        ));
        assert(frames_rem(s, fr, 0, acc) =~= (match s[cur]@.token {
            Some(t) => Set::<u32>::empty().insert(t),
            None => Set::<u32>::empty(),
        }).union(frames_rem(s, fr2, 0, acc)));
    }
    assert(frames_path(s, fr2) =~= frames_path(s, fr).push(b));
    fr2
}

impl TokTrie {
    /// The linear depth-first walk under node `n`: for every node whose
    /// byte the recognizer accepts (on top of its accepted ancestors),
    /// mark its token -- or the sentinel id `vocab_size` where it has
    /// none -- and descend; a rejected node's whole subtree is skipped in
    /// one step. Deferred pops keep the recognizer's stack in lockstep,
    /// and when the walk started at the root the returned pop count is
    /// exactly what is left on the stack.
    #[verifier::loop_isolation(false)]
    #[verifier::rlimit(100)]
    #[verifier::spinoff_prover]
    fn add_bias_inner<R: Recognizer>(&self, r: &mut R, toks: &mut TokenSet, n: usize) -> (next_pop:
        usize)
        requires
            self.wf(),
            wf_node(self@.nodes, n as int),
            old(r).pushed().len() == 0,
            old(toks)@.len() == self@.info.vocab_size + 1,
        ensures
            forall|x: Seq<u8>| final(r).viable(x) == old(r).viable(x),
            forall|tk: crate::info::SpecialToken|
                final(r).special_ok(tk) == old(r).special_ok(tk),
            n == 0 ==> final(r).pushed().len() == next_pop,
            final(toks)@.len() == old(toks)@.len(),
            forall|t: int| 0 <= t < old(toks)@.len() && old(toks)@[t] ==> final(toks)@[t],
            forall|t: int|
                0 <= t < old(toks)@.len() && final(toks)@[t] && !old(toks)@[t] ==> t
                    <= self@.info.vocab_size,
            forall|t: int|
                0 <= t < old(toks)@.len() && t != self@.info.vocab_size ==> final(toks)@[t] == (
                old(toks)@[t] || forest_bias(
                    self@.nodes,
                    n + 1,
                    n + sz(self@.nodes, n as int),
                    |x: Seq<u8>| old(r).viable(x),
                ).contains(t as u32)),
    {
        let ghost s = self@.nodes;
        let ghost acc0 = |x: Seq<u8>| old(r).viable(x);
        let total = self.node_count();
        let endp = n + self.node(n).subtree_size();
        let mut p = n + 1;
        let mut next_pop: usize = 0;
        let ghost mut fr: Seq<(int, int)> = seq![(n as int, p as int)];
        let ghost tot_set = forest_bias(s, n + 1, n + sz(s, n as int), acc0);
        let defl = self.vocab_size() as u32;
        proof {
            reveal(frames_rem);
            assert(frames_rem(s, fr, 0, acc0) == tot_set);
            assert(chain_wf(s, fr, n as int)) by {
                reveal(chain_wf);
            }
        }
        while p < endp
            invariant
                s == self@.nodes,
                endp == n + sz(s, n as int),
                endp <= total,
                total == s.len(),
                n + 1 <= p <= endp,
                defl == self@.info.vocab_size,
                chain_wf(s, fr, n as int),
                fr.len() >= 1,
                fr.last().1 == p as int,
                fr.last().1 < frame_end(s, fr.last()) || fr.last().1 == endp,
                p == endp ==> fr.len() == 1,
                p < endp || n == 0 ==> r.pushed().len() == fr.len() - 1 + next_pop,
                fr.last().1 <= frame_end(s, fr.last()),
                frame_end(s, fr.last()) <= endp,
                r.pushed().take(fr.len() - 1) == frames_path(s, fr),
                forall|x: Seq<u8>| r.viable(x) == old(r).viable(x),
                forall|tk: crate::info::SpecialToken|
                    r.special_ok(tk) == old(r).special_ok(tk),
                toks@.len() == old(toks)@.len(),
                forall|t: int| 0 <= t < old(toks)@.len() && old(toks)@[t] ==> toks@[t],
                forall|t: int|
                    0 <= t < old(toks)@.len() && toks@[t] && !old(toks)@[t] ==> t
                        <= self@.info.vocab_size,
                forall|t: int|
                    0 <= t < old(toks)@.len() && t != self@.info.vocab_size ==> ((toks@[t]
                        || frames_rem(s, fr, 0, acc0).contains(t as u32)) == (old(toks)@[t]
                        || tot_set.contains(t as u32))),
            decreases endp - p,
        {
            let ghost pre_pushed = r.pushed();
            r.pop_bytes(next_pop);
            let node = self.node(p);
            let b = node.byte();
            proof {
                lemma_chain_node(s, fr, n as int);
                assert(r.pushed() =~= frames_path(s, fr)) by {
                    assert(pre_pushed.take(pre_pushed.len() - next_pop) =~= pre_pushed.take(
                        fr.len() - 1,
                    ));
                }
                // the push probe asks the acceptance at this depth
                lemma_acc_last_apply(s, fr, 0, acc0, seq![b]);
                assert(frames_path(s, fr).skip(0) =~= frames_path(s, fr));
                assert(r.pushed().push(b) =~= frames_path(s, fr) + seq![b]);
            }
            let ghost ak = acc_last(s, fr, 0, acc0);
            let size = node.subtree_size();
            if r.try_push_byte(b) {
                proof {
                    assert(ak(seq![b]));
                }
                let tid = match node.token_id() {
                    Some(t) => t,
                    None => defl,
                };
                let ghost toks_pre = toks@;
                toks.allow_token(tid);
                let ghost fr_pre = fr;
                if size == 1 {
                    next_pop = node.num_parents();
                    p = p + 1;
                    proof {
                        fr = lemma_step_over(s, fr, n as int, acc0, true);
                        lemma_bias_inner_step(
                            s,
                            toks_pre,
                            toks@,
                            old(toks)@,
                            frames_rem(s, fr_pre, 0, acc0),
                            frames_rem(s, fr, 0, acc0),
                            tot_set,
                            s[fr_pre.last().1]@.token,
                            tid,
                            defl,
                        );
                        assert(r.pushed().take(fr.len() - 1) =~= frames_path(s, fr));
                    }
                } else {
                    next_pop = 0;
                    proof {
                        fr = lemma_chain_push(s, fr, n as int, acc0);
                        lemma_bias_inner_step(
                            s,
                            toks_pre,
                            toks@,
                            old(toks)@,
                            frames_rem(s, fr_pre, 0, acc0),
                            frames_rem(s, fr, 0, acc0),
                            tot_set,
                            s[fr_pre.last().1]@.token,
                            tid,
                            defl,
                        );
                        assert(r.pushed().take(fr.len() - 1) =~= frames_path(s, fr));
                    }
                    p = p + 1;
                }
            } else {
                next_pop = node.num_parents() - 1;
                p = p + size;
                proof {
                    let ghost fr_pre = fr;
                    fr = lemma_step_over(s, fr, n as int, acc0, false);
                    assert(frames_rem(s, fr, 0, acc0) =~= frames_rem(s, fr_pre, 0, acc0));
                    assert(r.pushed().take(fr.len() - 1) =~= frames_path(s, fr));
                }
            }
        }
        proof {
            reveal(frames_rem);
            reveal(forest_bias);
            assert(frames_rem(s, fr, 0, acc0) =~= Set::<u32>::empty());
        }
        next_pop
    }
}

/// One step of the walk moves a granted token (or the sentinel) from the
/// owed work into the set.
proof fn lemma_bias_inner_step(
    s: Seq<TrieNode>,
    toks_pre: Seq<bool>,
    toks_post: Seq<bool>,
    toks0: Seq<bool>,
    rem_pre: Set<u32>,
    rem_post: Set<u32>,
    tot_set: Set<u32>,
    node_tok: Option<u32>,
    tid: u32,
    defl: u32,
)
    requires
        toks_post == toks_pre.update(tid as int, true),
        (tid as int) < toks_pre.len(),
        toks_pre.len() == toks0.len(),
        toks0.len() <= 0x100000000,
        tid == (match node_tok {
            Some(t) => t,
            None => defl,
        }),
        rem_pre == (match node_tok {
            Some(t) => Set::<u32>::empty().insert(t),
            None => Set::<u32>::empty(),
        }).union(rem_post),
        forall|t: int|
            0 <= t < toks0.len() && t != defl ==> ((toks_pre[t] || rem_pre.contains(t as u32)) == (
            toks0[t] || tot_set.contains(t as u32))),
    ensures
        forall|t: int|
            0 <= t < toks0.len() && t != defl ==> ((toks_post[t] || rem_post.contains(t as u32))
                == (toks0[t] || tot_set.contains(t as u32))),
{
    assert forall|t: int|
        0 <= t < toks0.len() && t != defl implies ((toks_post[t] || rem_post.contains(t as u32))
            == (toks0[t] || tot_set.contains(t as u32))) by {
        if t == tid {
            assert(rem_pre.contains(t as u32));
        } else {
            assert(toks_post[t] == toks_pre[t]);
            assert(rem_pre.contains(t as u32) == rem_post.contains(t as u32));
        }
    }
}


/// The token label at the node `bytes` reaches from the root, if any.
pub open spec fn tok_at(v: crate::trie::TrieView, bytes: Seq<u8>) -> Option<u32> {
    match node_at(v.nodes, 0, bytes) {
        Some(p) => v.nodes[p]@.token,
        None => None,
    }
}

/// The longest prefix of `bytes`, no longer than `j`, that is itself a
/// token, with its length.
pub open spec fn best_prefix(v: crate::trie::TrieView, bytes: Seq<u8>, j: int) -> Option<
    (u32, int),
>
    decreases j,
{
    if j <= 0 {
        None
    } else {
        match tok_at(v, bytes.take(j)) {
            Some(t) => Some((t, j)),
            None => best_prefix(v, bytes, j - 1),
        }
    }
}

/// Once the walk falls off the trie, no longer prefix is a token.
pub proof fn lemma_best_prefix_stall(v: crate::trie::TrieView, bytes: Seq<u8>, cut: int, j: int)
    requires
        0 < cut <= j <= bytes.len(),
        node_at(v.nodes, 0, bytes.take(cut)) is None,
    ensures
        best_prefix(v, bytes, j) == best_prefix(v, bytes, cut - 1),
    decreases j,
{
    if j >= cut {
        assert(bytes.take(j).take(cut) =~= bytes.take(cut));
        crate::model::lemma_node_at_split(v.nodes, 0, bytes.take(j), cut);
        assert(node_at(v.nodes, 0, bytes.take(j)) is None);
        if j > cut {
            lemma_best_prefix_stall(v, bytes, cut, j - 1);
        }
    }
}

impl TokTrie {
    /// The longest prefix of `bytes` that is itself a token, with its
    /// length; `(0, 0)` when no prefix is a token.
    #[verifier::loop_isolation(false)]
    pub fn prefix_token_id(&self, bytes: &[u8]) -> (res: (u32, usize))
        requires
            self.wf(),
            bytes@.len() > 0,
        ensures
            match best_prefix(self@, bytes@, bytes@.len() as int) {
                Some(p) => res.0 == p.0 && res.1 as int == p.1,
                None => res == (0u32, 0usize),
            },
    {
        let ghost v = self@;
        let ghost s = self@.nodes;
        let m = bytes.len();
        let mut last: (u32, usize) = (0, 0);
        let mut n = self.root();
        let mut idx: usize = 0;
        proof {
            assert(bytes@.take(0) =~= Seq::<u8>::empty());
        }
        while idx < m
            invariant
                idx <= m,
                m == bytes@.len(),
                wf_node(s, n as int),
                node_at(s, 0, bytes@.take(idx as int)) == Some(n as int),
                best_prefix(v, bytes@, idx as int) == (if last == (0u32, 0usize) {
                    None::<(u32, int)>
                } else {
                    Some((last.0, last.1 as int))
                }),
                last.1 <= idx,
                last == (0u32, 0usize) || (0 < last.1 && tok_at(v, bytes@.take(last.1 as int))
                    == Some(last.0)),
            decreases m - idx,
        {
            proof {
                crate::model::lemma_node_at_snoc(s, 0, bytes@.take(idx as int), bytes@[idx as int]);
                assert(bytes@.take(idx as int).push(bytes@[idx as int]) =~= bytes@.take(idx + 1));
            }
            match self.child_at_byte(n, bytes[idx]) {
                Some(c) => {
                    n = c;
                    match self.node(c).token_id() {
                        Some(tok) => {
                            last = (tok, idx + 1);
                            proof {
                                assert(tok_at(v, bytes@.take(idx + 1)) == Some(tok));
                                if last == (0u32, 0usize) {
                                    assert(false);
                                }
                            }
                        },
                        None => {
                            proof {
                                assert(tok_at(v, bytes@.take(idx + 1)) is None);
                            }
                        },
                    }
                },
                None => {
                    proof {
                        assert(node_at(s, 0, bytes@.take(idx + 1)) is None);
                        lemma_best_prefix_stall(v, bytes@, idx + 1, m as int);
                    }
                    return last;
                },
            }
            idx = idx + 1;
        }
        last
    }

    /// The token whose bytes are exactly `bytes`, if any.
    pub fn token_id(&self, bytes: &[u8]) -> (res: Option<u32>)
        requires
            self.wf(),
            bytes@.len() > 0,
        ensures
            res == tok_at(self@, bytes@),
    {
        let (tok, len) = self.prefix_token_id(bytes);
        proof {
            assert(bytes@.take(bytes@.len() as int) =~= bytes@);
            lemma_best_prefix_bounds(self@, bytes@, bytes@.len() as int - 1);
        }
        if len == bytes.len() {
            Some(tok)
        } else {
            None
        }
    }

    /// Set a bit for every token the recognizer would accept below
    /// `start`, and for every prefix of `start` that is itself a token;
    /// the sentinel bit `vocab_size` is cleared on the way out. When
    /// `start` is empty the traversal leaves the recognizer's stack
    /// exactly as it found it before `trie_finished` runs.
    #[verifier::loop_isolation(false)]
    pub fn add_bias<R: Recognizer>(&self, r: &mut R, toks: &mut TokenSet, start: &[u8])
        requires
            self.wf(),
            old(r).pushed().len() == 0,
            old(toks)@.len() == self@.info.vocab_size + 1,
        ensures
            final(r).pushed().len() == 0,
            forall|x: Seq<u8>| final(r).viable(x) == old(r).viable(x),
            forall|tk: crate::info::SpecialToken|
                final(r).special_ok(tk) == old(r).special_ok(tk),
            final(toks)@.len() == old(toks)@.len(),
            forall|t: int|
                0 <= t < old(toks)@.len() && old(toks)@[t] && t != self@.info.vocab_size
                    ==> final(toks)@[t],
            forall|t: int|
                0 <= t < old(toks)@.len() && final(toks)@[t] && !old(toks)@[t] ==> t
                    < self@.info.vocab_size,
            final(toks)@[self@.info.vocab_size as int] == false,
            forall|l: int|
                1 <= l <= start@.len() && (#[trigger] tok_at(self@, start@.take(l))) is Some
                    ==> final(toks)@[tok_at(self@, start@.take(l))->Some_0 as int],
            forall|t: int|
                0 <= t < old(toks)@.len() && t != self@.info.vocab_size ==> final(toks)@[t] == (
                old(toks)@[t] || prefix_tokens(self@, start@).contains(t as u32) || bias_set(
                    self@,
                    |x: Seq<u8>| old(r).viable(x),
                    start@,
                ).contains(t as u32)),
    {
        let ghost v = self@;
        let ghost s = self@.nodes;
        let defl = self.vocab_size() as u32;
        let slen = start.len();
        let mut l0: usize = 0;
        while l0 < slen
            invariant
                l0 <= slen,
                slen == start@.len(),
                self.wf(),
                v == self@,
                s == self@.nodes,
                defl == self@.info.vocab_size,
                toks@.len() == old(toks)@.len(),
                forall|t: int| 0 <= t < old(toks)@.len() && old(toks)@[t] ==> toks@[t],
                forall|t: int|
                    0 <= t < old(toks)@.len() && toks@[t] && !old(toks)@[t] ==> t
                        < self@.info.vocab_size,
                forall|l2: int|
                    1 <= l2 <= l0 && (#[trigger] tok_at(v, start@.take(l2))) is Some ==> toks@[
                        tok_at(v, start@.take(l2))->Some_0 as int],
                forall|t: int|
                    0 <= t < old(toks)@.len() ==> toks@[t] == (old(toks)@[t] || exists|l2: int|
                        1 <= l2 <= l0 && tok_at(v, #[trigger] start@.take(l2)) == Some(t as u32)),
            decreases slen - l0,
        {
            let l = l0 + 1;
            let prefix = vstd::slice::slice_subrange(start, 0, l);
            proof {
                assert(prefix@ =~= start@.take(l as int));
            }
            match self.token_id(prefix) {
                Some(tok) => {
                    proof {
                        assert(tok_at(v, start@.take(l as int)) == Some(tok));
                        let p = node_at(s, 0, start@.take(l as int))->Some_0;
                        crate::model::lemma_node_at_wf(s, 0, start@.take(l as int));
                        assert(p >= 1) by {
                            if p == 0 {
                                assert(v.nodes[0]@.token is None);
                            }
                        }
                        assert(tok < v.info.vocab_size);
                    }
                    toks.allow_token(tok);
                },
                None => {},
            }
            proof {
                assert forall|l2: int|
                    1 <= l2 <= l && (#[trigger] tok_at(v, start@.take(l2))) is Some implies toks@[
                    tok_at(v, start@.take(l2))->Some_0 as int] by {
                    let tk = tok_at(v, start@.take(l2))->Some_0;
                    let p = node_at(s, 0, start@.take(l2))->Some_0;
                    crate::model::lemma_node_at_wf(s, 0, start@.take(l2));
                    if p == 0 {
                        assert(v.nodes[0]@.token is None);
                    }
                    assert(tk < v.info.vocab_size);
                }
                assert forall|t: int| 0 <= t < old(toks)@.len() implies toks@[t] == (old(
                    toks,
                )@[t] || exists|l2: int|
                    1 <= l2 <= l && tok_at(v, #[trigger] start@.take(l2)) == Some(t as u32)) by {
                    if toks@[t] && !old(toks)@[t] {
                        if !(exists|l2: int|
                            1 <= l2 <= l0 && tok_at(v, #[trigger] start@.take(l2)) == Some(
                                t as u32,
                            ))
                        {
                            // the bit was set this step, at prefix length l
                            assert(tok_at(v, start@.take(l as int)) == Some(t as u32));
                        }
                    }
                    if exists|l2: int|
                        1 <= l2 <= l && tok_at(v, #[trigger] start@.take(l2)) == Some(t as u32) {
                        let l2 = choose|l2: int|
                            1 <= l2 <= l && tok_at(v, #[trigger] start@.take(l2)) == Some(
                                t as u32,
                            );
                        if l2 <= l0 {
                        } else {
                            assert(l2 == l);
                        }
                    }
                }
            }
            l0 = l;
        }
        proof {
            assert forall|t: int| 0 <= t < old(toks)@.len() implies toks@[t] == (old(toks)@[t]
                || prefix_tokens(v, start@).contains(t as u32)) by {
                assert(prefix_tokens(v, start@).contains(t as u32) == (exists|l2: int|
                    1 <= l2 <= slen && tok_at(v, #[trigger] start@.take(l2)) == Some(t as u32)));
            }
        }
        let ghost mid = toks@;
        let root = self.root();
        let n_opt = self.child_at_bytes(root, start);
        match n_opt {
            None => {},
            Some(n) => {
                let ghost r_mid = *r;
                r.trie_started();
                let ghost acc1 = |x: Seq<u8>| r.viable(x);
                let next_pop = self.add_bias_inner(r, toks, n);
                proof {
                    let acc0 = |x: Seq<u8>| old(r).viable(x);
                    assert forall|x: Seq<u8>| #[trigger] acc1(x) == acc0(x) by {}
                    lemma_bias_set_ext(v, acc1, acc0, start@);
                    lemma_forest_bias_ext(
                        s,
                        n + 1,
                        n + sz(s, n as int),
                        acc1,
                        acc0,
                    );
                    assert(bias_set(v, acc0, start@) == forest_bias(
                        s,
                        n + 1,
                        n + sz(s, n as int),
                        acc0,
                    ));
                }
                if slen == 0 {
                    proof {
                        assert(node_at(s, 0, start@) == Some(0int));
                    }
                    r.pop_bytes(next_pop);
                    proof {
                        // with an empty start the walk rebalanced itself
                        assert(r.pushed().len() == 0);
                    }
                }
                r.trie_finished();
            },
        }
        toks.disallow_token(defl);
        proof {
            assert forall|l2: int|
                1 <= l2 <= start@.len() && (#[trigger] tok_at(v, start@.take(l2))) is Some
                implies toks@[tok_at(v, start@.take(l2))->Some_0 as int] by {
                let p = node_at(s, 0, start@.take(l2))->Some_0;
                crate::model::lemma_node_at_wf(s, 0, start@.take(l2));
                assert(p >= 1) by {
                    if p == 0 {
                        assert(v.nodes[0]@.token is None);
                    }
                }
                assert(tok_at(v, start@.take(l2))->Some_0 < v.info.vocab_size);
            }
        }
    }

    /// Whether at least one token below `start` would be accepted whole
    /// by the recognizer: some labelled node under `start` whose byte
    /// path past `start` the viability predicate accepts.
    #[verifier::loop_isolation(false)]
    #[verifier::rlimit(100)]
    #[verifier::spinoff_prover]
    pub fn has_valid_extensions<R: Recognizer>(&self, r: &mut R, start: &[u8]) -> (ok: bool)
        requires
            self.wf(),
        ensures
            final(r).pushed().len() == 0 || *final(r) == *old(r),
            forall|x: Seq<u8>| final(r).viable(x) == old(r).viable(x),
            forall|tk: crate::info::SpecialToken|
                final(r).special_ok(tk) == old(r).special_ok(tk),
            ok == has_bias(self@, |x: Seq<u8>| old(r).viable(x), start@),
    {
        let ghost s = self@.nodes;
        let ghost acc0 = |x: Seq<u8>| old(r).viable(x);
        let root = self.root();
        let n_opt = self.child_at_bytes(root, start);
        let n = match n_opt {
            None => {
                proof {
                    assert(bias_set(self@, acc0, start@) =~= Set::<u32>::empty());
                }
                return false;
            },
            Some(n) => n,
        };
        r.trie_started();
        let total = self.node_count();
        let endp = n + self.node(n).subtree_size();
        let mut p = n + 1;
        let mut next_pop: usize = 0;
        let mut found = false;
        let ghost mut fr: Seq<(int, int)> = seq![(n as int, p as int)];
        let ghost tot_set = forest_bias(s, n + 1, n + sz(s, n as int), acc0);
        proof {
            reveal(frames_rem);
            assert(bias_set(self@, acc0, start@) == tot_set);
            assert(frames_rem(s, fr, 0, acc0) == tot_set);
            assert(chain_wf(s, fr, n as int)) by {
                reveal(chain_wf);
            }
        }
        while !found && p < endp
            invariant
                s == self@.nodes,
                endp == n + sz(s, n as int),
                endp <= total,
                total == s.len(),
                n + 1 <= p <= endp,
                chain_wf(s, fr, n as int),
                fr.len() >= 1,
                fr.last().1 == p as int,
                fr.last().1 < frame_end(s, fr.last()) || fr.last().1 == endp,
                p == endp ==> fr.len() == 1,
                found ==> next_pop == 0,
                !found && (p < endp || n == 0) ==> r.pushed().len() == fr.len() - 1 + next_pop,
                fr.last().1 <= frame_end(s, fr.last()),
                frame_end(s, fr.last()) <= endp,
                !found ==> r.pushed().take(fr.len() - 1) == frames_path(s, fr),
                !found ==> forall|t: u32|
                    tot_set.contains(t) == frames_rem(s, fr, 0, acc0).contains(t),
                found ==> exists|t: u32| tot_set.contains(t),
                forall|x: Seq<u8>| r.viable(x) == old(r).viable(x),
                forall|tk: crate::info::SpecialToken|
                    r.special_ok(tk) == old(r).special_ok(tk),
            decreases endp - p, (if found { 0int } else { 1int }),
        {
            let ghost pre_pushed = r.pushed();
            r.pop_bytes(next_pop);
            let node = self.node(p);
            let b = node.byte();
            proof {
                lemma_chain_node(s, fr, n as int);
                assert(r.pushed() =~= frames_path(s, fr)) by {
                    assert(pre_pushed.take(pre_pushed.len() - next_pop) =~= pre_pushed.take(
                        fr.len() - 1,
                    ));
                }
                lemma_acc_last_apply(s, fr, 0, acc0, seq![b]);
                assert(frames_path(s, fr).skip(0) =~= frames_path(s, fr));
                assert(r.pushed().push(b) =~= frames_path(s, fr) + seq![b]);
            }
            let ghost ak = acc_last(s, fr, 0, acc0);
            let size = node.subtree_size();
            if r.try_push_byte(b) {
                proof {
                    assert(ak(seq![b]));
                }
                if node.token_id().is_some() {
                    found = true;
                    next_pop = 0;
                    proof {
                        // the found token is still owed, hence in the set
                        let ghost fr_pre = fr;
                        let fr_adv = lemma_chain_advance(s, fr, n as int, acc0);
                        let tk = s[fr_pre.last().1]@.token->Some_0;
                        assert(consume_set(s, fr_pre, acc0).contains(tk));
                        assert(frames_rem(s, fr_pre, 0, acc0).contains(tk));
                        assert(tot_set.contains(tk));
                    }
                } else {
                    if size == 1 {
                        next_pop = node.num_parents();
                        p = p + 1;
                        proof {
                            let ghost fr_pre = fr;
                            fr = lemma_step_over(s, fr, n as int, acc0, true);
                            assert(frames_rem(s, fr, 0, acc0) =~= frames_rem(
                                s,
                                fr_pre,
                                0,
                                acc0,
                            ));
                            assert(r.pushed().take(fr.len() - 1) =~= frames_path(s, fr));
                        }
                    } else {
                        next_pop = 0;
                        proof {
                            let ghost fr_pre = fr;
                            fr = lemma_chain_push(s, fr, n as int, acc0);
                            assert(frames_rem(s, fr, 0, acc0) =~= frames_rem(
                                s,
                                fr_pre,
                                0,
                                acc0,
                            ));
                            assert(r.pushed().take(fr.len() - 1) =~= frames_path(s, fr));
                        }
                        p = p + 1;
                    }
                }
            } else {
                next_pop = node.num_parents() - 1;
                p = p + size;
                proof {
                    let ghost fr_pre = fr;
                    fr = lemma_step_over(s, fr, n as int, acc0, false);
                    assert(frames_rem(s, fr, 0, acc0) =~= frames_rem(s, fr_pre, 0, acc0));
                    assert(r.pushed().take(fr.len() - 1) =~= frames_path(s, fr));
                }
            }
        }
        proof {
            if !found {
                reveal(frames_rem);
                reveal(forest_bias);
                assert(frames_rem(s, fr, 0, acc0) =~= Set::<u32>::empty());
                assert forall|t: u32| true implies !tot_set.contains(t) by {
                    assert(tot_set.contains(t) == frames_rem(s, fr, 0, acc0).contains(t));
                }
            }
        }
        if start.len() == 0 {
            proof {
                assert(node_at(s, 0, start@) == Some(0int));
            }
            r.pop_bytes(next_pop);
        }
        r.trie_finished();
        found
    }

    /// How many trailing tokens, and how many of their bytes, must be
    /// chopped so that the recognizer is not locked out of tokenizations
    /// that cross their boundary: the count of the longest suffix (within
    /// the longest token's byte length) whose bytes still have a valid
    /// extension, with that suffix's byte length.
    #[verifier::loop_isolation(false)]
    pub fn chop_tokens<R: Recognizer>(&self, r: &mut R, tokens: &[u32]) -> (res: (usize, usize))
        requires
            self.wf(),
            old(r).pushed().len() == 0,
        ensures
            final(r).pushed().len() == 0,
            forall|x: Seq<u8>| final(r).viable(x) == old(r).viable(x),
            forall|tk: crate::info::SpecialToken|
                final(r).special_ok(tk) == old(r).special_ok(tk),
            res.0 <= tokens@.len(),
            res.1 == decode_raw_spec(self@, tokens@.skip(tokens@.len() - res.0)).len(),
            res.0 > 0 ==> res.1 <= self@.max_token_len && has_bias(
                self@,
                |x: Seq<u8>| old(r).viable(x),
                decode_raw_spec(self@, tokens@.skip(tokens@.len() - res.0)),
            ),
            forall|j: int|
                res.0 < j <= tokens@.len() && decode_raw_spec(
                    self@,
                    #[trigger] tokens@.skip(tokens@.len() - j),
                ).len() <= self@.max_token_len ==> !has_bias(
                    self@,
                    |x: Seq<u8>| old(r).viable(x),
                    decode_raw_spec(self@, tokens@.skip(tokens@.len() - j)),
                ),
    {
        let ghost v = self@;
        let n = tokens.len();
        let max_len = self.max_token_len();
        let mut suff: Vec<u8> = Vec::new();
        let mut chop_tokens: usize = 0;
        let mut chop_bytes: usize = 0;
        let mut idx: usize = 0;
        proof {
            assert(tokens@.skip(n as int).len() == 0);
            assert(decode_raw_spec(v, tokens@.skip(n as int)) =~= Seq::<u8>::empty());
            assert(suff@ =~= decode_raw_spec(v, tokens@.skip(n as int)));
        }
        while idx < n
            invariant
                idx <= n,
                n == tokens@.len(),
                self.wf(),
                v == self@,
                suff@ == decode_raw_spec(v, tokens@.skip(n - idx)),
                r.pushed().len() == 0,
                forall|x: Seq<u8>| r.viable(x) == old(r).viable(x),
                forall|tk: crate::info::SpecialToken|
                    r.special_ok(tk) == old(r).special_ok(tk),
                chop_tokens <= idx,
                chop_bytes == decode_raw_spec(v, tokens@.skip(n - chop_tokens)).len(),
                max_len as int == v.max_token_len,
                chop_tokens > 0 ==> chop_bytes <= v.max_token_len && has_bias(
                    v,
                    |x: Seq<u8>| old(r).viable(x),
                    decode_raw_spec(v, tokens@.skip(n - chop_tokens)),
                ),
                forall|j: int|
                    chop_tokens < j <= idx && decode_raw_spec(
                        v,
                        #[trigger] tokens@.skip(n - j),
                    ).len() <= v.max_token_len ==> !has_bias(
                        v,
                        |x: Seq<u8>| old(r).viable(x),
                        decode_raw_spec(v, tokens@.skip(n - j)),
                    ),
            decreases n - idx,
        {
            let t = tokens[n - 1 - idx];
            let ghost suff0 = suff@;
            let tb = self.token(t);
            let mut next_suff: Vec<u8> = Vec::new();
            let mut j: usize = 0;
            let tm = tb.len();
            while j < tm
                invariant
                    j <= tm,
                    tm == tb@.len(),
                    next_suff@ == tb@.take(j as int),
                decreases tm - j,
            {
                next_suff.push(tb[j]);
                proof {
                    assert(tb@.take(j + 1) =~= tb@.take(j as int).push(tb@[j as int]));
                }
                j = j + 1;
            }
            let sm = suff.len();
            let mut k: usize = 0;
            while k < sm
                invariant
                    k <= sm,
                    sm == suff0.len(),
                    suff@ == suff0,
                    tm == tb@.len(),
                    next_suff@ == tb@.take(tm as int) + suff0.take(k as int),
                decreases sm - k,
            {
                next_suff.push(suff[k]);
                proof {
                    assert(suff0.take(k + 1) =~= suff0.take(k as int).push(suff0[k as int]));
                    assert((tb@.take(tm as int) + suff0.take(k as int)).push(suff0[k as int])
                        =~= tb@.take(tm as int) + suff0.take(k + 1));
                }
                k = k + 1;
            }
            suff = next_suff;
            proof {
                assert(tb@.take(tm as int) =~= tb@);
                assert(suff0.take(sm as int) =~= suff0);
                assert(suff@ =~= tb@ + suff0);
                assert(tokens@.skip(n - idx - 1)[0] == tokens@[n - 1 - idx]);
                assert(tokens@.skip(n - idx - 1).skip(1) =~= tokens@.skip(n - idx));
                assert(suff@ =~= decode_raw_spec(v, tokens@.skip(n - idx - 1)));
            }
            if suff.len() > max_len {
                proof {
                    // later suffixes only grow, so none of them fits either
                    assert forall|j: int|
                        idx + 1 <= j <= n implies decode_raw_spec(
                        v,
                        #[trigger] tokens@.skip(n - j),
                    ).len() > v.max_token_len by {
                        lemma_decode_len_mono(v, tokens@, n - j, n - idx - 1);
                    }
                }
                break ;
            }
            let ghost r_pre = *r;
            let grew = self.has_valid_extensions(r, suff.as_slice());
            proof {
                let acc0 = |x: Seq<u8>| old(r).viable(x);
                let accp = |x: Seq<u8>| r_pre.viable(x);
                assert forall|x: Seq<u8>| #[trigger] accp(x) == acc0(x) by {}
                lemma_bias_set_ext(v, accp, acc0, suff@);
            }
            if grew {
                chop_tokens = idx + 1;
                chop_bytes = suff.len();
            }
            idx = idx + 1;
        }
        (chop_tokens, chop_bytes)
    }
}

/// A best prefix has a positive length bounded by the search bound.
pub proof fn lemma_best_prefix_bounds(v: crate::trie::TrieView, bytes: Seq<u8>, j: int)
    ensures
        best_prefix(v, bytes, j) is Some ==> 0 < best_prefix(v, bytes, j)->Some_0.1 <= j,
    decreases j,
{
    if j > 0 {
        lemma_best_prefix_bounds(v, bytes, j - 1);
    }
}


/// What greedy segmentation returns: while bytes remain, the longest
/// prefix that is a token is emitted and the walk restarts after it --
/// except that when the whole remainder traces a path in the trie, the
/// walk ends at the input's end and emits only the longest token it saw.
/// `None` is the missing-byte-coverage failure: some remainder has no
/// token prefix at all.
pub open spec fn greedy_spec(v: crate::trie::TrieView, bytes: Seq<u8>) -> Option<Seq<u32>>
    decreases bytes.len(),
{
    if bytes.len() == 0 {
        Some(Seq::<u32>::empty())
    } else {
        match best_prefix(v, bytes, bytes.len() as int) {
            None => None,
            Some(p) => {
                if node_at(v.nodes, 0, bytes) is Some {
                    Some(seq![p.0])
                } else if 1 <= p.1 <= bytes.len() {
                    match greedy_spec(v, bytes.skip(p.1)) {
                        Some(rest) => Some(seq![p.0] + rest),
                        None => None,
                    }
                } else {
                    None
                }
            },
        }
    }
}

impl TokTrie {
    /// Greedy longest-prefix segmentation of `bytes` into token ids;
    /// fails with `MissingByteCoverage` when some byte cannot start a
    /// token.
    #[verifier::loop_isolation(false)]
    #[verifier::rlimit(100)]
    #[verifier::spinoff_prover]
    pub fn greedy_tokenize(&self, bytes: &[u8]) -> (res: Result<Vec<u32>, TrieError>)
        requires
            self.wf(),
        ensures
            match res {
                Ok(r) => greedy_spec(self@, bytes@) == Some(r@),
                Err(e) => greedy_spec(self@, bytes@) is None && e
                    == TrieError::MissingByteCoverage,
            },
    {
        let ghost v = self@;
        let ghost s = self@.nodes;
        let mut r: Vec<u32> = Vec::new();
        let m = bytes.len();
        if m == 0 {
            return Ok(r);
        }
        let mut seg: usize = 0;
        let mut cur = self.root();
        let mut last: Option<(u32, usize)> = None;
        let mut idx: usize = 0;
        proof {
            assert(bytes@.skip(0) =~= bytes@);
            assert(bytes@.subrange(0, 0) =~= Seq::<u8>::empty());
        }
        while idx < m
            invariant
                seg <= idx <= m,
                seg < m,
                m == bytes@.len(),
                self.wf(),
                v == self@,
                s == self@.nodes,
                wf_node(s, cur as int),
                node_at(s, 0, bytes@.subrange(seg as int, idx as int)) == Some(cur as int),
                greedy_spec(v, bytes@) == (match greedy_spec(v, bytes@.skip(seg as int)) {
                    Some(w) => Some(r@ + w),
                    None => None::<Seq<u32>>,
                }),
                best_prefix(v, bytes@.skip(seg as int), idx - seg) == (match last {
                    Some(p) => Some((p.0, p.1 as int)),
                    None => None::<(u32, int)>,
                }),
                match last {
                    Some(p) => 1 <= p.1 <= idx - seg,
                    None => true,
                },
            decreases m - seg, m - idx,
        {
            let ghost rem = bytes@.skip(seg as int);
            proof {
                crate::model::lemma_node_at_snoc(
                    s,
                    0,
                    bytes@.subrange(seg as int, idx as int),
                    bytes@[idx as int],
                );
                assert(bytes@.subrange(seg as int, idx as int).push(bytes@[idx as int])
                    =~= bytes@.subrange(seg as int, idx + 1));
                assert(rem.take(idx + 1 - seg) =~= bytes@.subrange(seg as int, idx + 1));
                assert(rem.take(idx - seg) =~= bytes@.subrange(seg as int, idx as int));
            }
            match self.child_at_byte(cur, bytes[idx]) {
                Some(c) => {
                    match self.node(c).token_id() {
                        Some(tok) => {
                            proof {
                                assert(tok_at(v, rem.take(idx + 1 - seg)) == Some(tok));
                            }
                            last = Some((tok, idx + 1 - seg));
                        },
                        None => {
                            proof {
                                assert(tok_at(v, rem.take(idx + 1 - seg)) is None);
                            }
                        },
                    }
                    cur = c;
                    idx = idx + 1;
                },
                None => {
                    proof {
                        assert(node_at(s, 0, rem.take(idx + 1 - seg)) is None);
                        lemma_best_prefix_stall(v, rem, idx + 1 - seg, rem.len() as int);
                        crate::model::lemma_node_at_split(s, 0, rem, idx + 1 - seg);
                        assert(node_at(s, 0, rem) is None);
                    }
                    match last {
                        None => {
                            proof {
                                assert(greedy_spec(v, rem) is None);
                            }
                            return Err(TrieError::MissingByteCoverage);
                        },
                        Some((tok, l)) => {
                            r.push(tok);
                            proof {
                                assert(best_prefix(v, rem, rem.len() as int) == Some(
                                    (tok, l as int),
                                ));
                                assert(greedy_spec(v, rem) == (match greedy_spec(
                                    v,
                                    rem.skip(l as int),
                                ) {
                                    Some(w) => Some(seq![tok] + w),
                                    None => None::<Seq<u32>>,
                                }));
                                assert(rem.skip(l as int) =~= bytes@.skip(seg + l));
                                assert forall|w: Seq<u32>| true implies r@ + w == r@.drop_last()
                                    + (seq![tok] + w) by {
                                    assert(r@ + w =~= r@.drop_last() + (seq![tok] + w));
                                }
                            }
                            seg = seg + l;
                            idx = seg;
                            cur = self.root();
                            last = None;
                            proof {
                                assert(bytes@.subrange(seg as int, idx as int) =~= Seq::<
                                    u8,
                                >::empty());
                            }
                        },
                    }
                },
            }
        }
        proof {
            assert(bytes@.subrange(seg as int, m as int) =~= bytes@.skip(seg as int));
        }
        match last {
            None => {
                proof {
                    assert(bytes@.skip(seg as int).len() > 0);
                    assert(best_prefix(
                        v,
                        bytes@.skip(seg as int),
                        bytes@.skip(seg as int).len() as int,
                    ) is None);
                    assert(greedy_spec(v, bytes@.skip(seg as int)) is None);
                }
                Err(TrieError::MissingByteCoverage)
            },
            Some((tok, _l)) => {
                r.push(tok);
                proof {
                    let rem = bytes@.skip(seg as int);
                    assert(node_at(s, 0, rem) is Some);
                    assert(greedy_spec(v, rem) == Some(seq![tok]));
                    assert(r@ =~= r@.drop_last() + seq![tok]);
                }
                Ok(r)
            },
        }
    }

    /// The id of the special token displayed as `name`: the token whose
    /// bytes are the special marker followed by the name's bytes.
    pub fn get_special_token(&self, name: &str) -> (res: Option<u32>)
        requires
            self.wf(),
        ensures
            res == tok_at(
                self@,
                seq![crate::trie::SPECIAL_TOKEN_PREFIX_BYTE].add(name.spec_bytes()),
            ),
    {
        let ghost s = self@.nodes;
        let ghost path = seq![crate::trie::SPECIAL_TOKEN_PREFIX_BYTE].add(name.spec_bytes());
        let root = self.root();
        match self.child_at_byte(root, crate::trie::SPECIAL_TOKEN_PREFIX_BYTE) {
            None => {
                proof {
                    assert(path[0] == crate::trie::SPECIAL_TOKEN_PREFIX_BYTE);
                    assert(node_at(s, 0, path) is None);
                }
                None
            },
            Some(pref) => {
                let nb = name.as_bytes();
                let found = self.child_at_bytes(pref, nb);
                proof {
                    assert(path[0] == crate::trie::SPECIAL_TOKEN_PREFIX_BYTE);
                    assert(path.skip(1) =~= nb@);
                    assert(node_at(s, 0, path) == node_at(s, pref as int, nb@));
                }
                match found {
                    None => None,
                    Some(n) => self.node(n).token_id(),
                }
            },
        }
    }

    /// Every token id stored below the special-marker child of the root,
    /// in node order; empty when the vocabulary has no special tokens.
    #[verifier::loop_isolation(false)]
    pub fn get_special_tokens(&self) -> (res: Vec<u32>)
        requires
            self.wf(),
        ensures
            res@ == (match crate::model::child_of(
                self@.nodes,
                0,
                crate::trie::SPECIAL_TOKEN_PREFIX_BYTE,
            ) {
                Some(c) => labels_in(self@.nodes, c + 1, c + sz(self@.nodes, c)),
                None => Seq::<u32>::empty(),
            }),
    {
        let ghost s = self@.nodes;
        let mut res: Vec<u32> = Vec::new();
        let root = self.root();
        match self.child_at_byte(root, crate::trie::SPECIAL_TOKEN_PREFIX_BYTE) {
            None => res,
            Some(c) => {
                let total = self.node_count();
                let endp = c + self.node(c).subtree_size();
                let mut p = c + 1;
                while p < endp
                    invariant
                        c + 1 <= p <= endp,
                        endp == c + sz(s, c as int),
                        endp <= total,
                        total == s.len(),
                        s == self@.nodes,
                        labels_in(s, c + 1 as int, endp as int) == res@ + labels_in(
                            s,
                            p as int,
                            endp as int,
                        ),
                    decreases endp - p,
                {
                    proof {
                        assert(labels_in(s, p as int, endp as int) == (match s[p as int]@.token {
                            Some(t) => seq![t],
                            None => Seq::<u32>::empty(),
                        }) + labels_in(s, p + 1 as int, endp as int));
                    }
                    match self.node(p).token_id() {
                        Some(t) => {
                            res.push(t);
                            proof {
                                assert(res@ =~= res@.drop_last().push(t));
                                assert(res@.drop_last() + (seq![t] + labels_in(
                                    s,
                                    p + 1 as int,
                                    endp as int,
                                )) =~= res@ + labels_in(s, p + 1 as int, endp as int));
                            }
                        },
                        None => {
                            proof {
                                assert(res@ + (Seq::<u32>::empty() + labels_in(
                                    s,
                                    p + 1 as int,
                                    endp as int,
                                )) =~= res@ + labels_in(s, p + 1 as int, endp as int));
                            }
                        },
                    }
                    p = p + 1;
                }
                proof {
                    assert(labels_in(s, p as int, endp as int) =~= Seq::<u32>::empty());
                    assert(res@ =~= res@ + labels_in(s, p as int, endp as int));
                }
                res
            },
        }
    }
}

/// The token labels of the nodes in `[lo, hi)`, in position order.
pub open spec fn labels_in(s: Seq<TrieNode>, lo: int, hi: int) -> Seq<u32>
    decreases hi - lo,
{
    if lo >= hi {
        Seq::<u32>::empty()
    } else {
        (match s[lo]@.token {
            Some(t) => seq![t],
            None => Seq::<u32>::empty(),
        }) + labels_in(s, lo + 1, hi)
    }
}


/// The token labels met walking `sub` from the root, prefix by prefix,
/// up to length `k`; a prefix that falls off the trie contributes
/// nothing, and neither does any longer one.
pub open spec fn walk_pre(v: crate::trie::TrieView, sub: Seq<u8>, k: int) -> Seq<u32>
    decreases k,
{
    if k <= 0 {
        Seq::<u32>::empty()
    } else {
        walk_pre(v, sub, k - 1) + (match tok_at(v, sub.take(k)) {
            Some(t) => seq![t],
            None => Seq::<u32>::empty(),
        })
    }
}

/// Once the walk falls off the trie, later prefixes contribute nothing.
pub proof fn lemma_walk_pre_stall(v: crate::trie::TrieView, sub: Seq<u8>, cut: int, k: int)
    requires
        0 < cut <= k <= sub.len(),
        node_at(v.nodes, 0, sub.take(cut)) is None,
    ensures
        walk_pre(v, sub, k) == walk_pre(v, sub, cut - 1),
    decreases k,
{
    if k >= cut {
        assert(sub.take(k).take(cut) =~= sub.take(cut));
        crate::model::lemma_node_at_split(v.nodes, 0, sub.take(k), cut);
        assert(tok_at(v, sub.take(k)) is None);
        if k > cut {
            lemma_walk_pre_stall(v, sub, cut, k - 1);
        }
        assert(walk_pre(v, sub, k) =~= walk_pre(v, sub, k - 1));
    }
}

/// The token labels of every substring of `bytes` starting at or after
/// `i`, grouped by starting offset.
pub open spec fn subtokens_spec(v: crate::trie::TrieView, bytes: Seq<u8>, i: int) -> Seq<u32>
    decreases bytes.len() - i,
{
    if i < 0 || i >= bytes.len() {
        Seq::<u32>::empty()
    } else {
        walk_pre(v, bytes.skip(i), bytes.len() - i) + subtokens_spec(v, bytes, i + 1)
    }
}

impl TokTrie {
    /// Every token that occurs as a substring of `bytes`, walking the
    /// trie from each starting offset.
    #[verifier::loop_isolation(false)]
    #[verifier::rlimit(100)]
    #[verifier::spinoff_prover]
    pub fn all_subtokens(&self, bytes: &[u8]) -> (r: Vec<u32>)
        requires
            self.wf(),
        ensures
            r@ == subtokens_spec(self@, bytes@, 0),
    {
        let ghost v = self@;
        let ghost s = self@.nodes;
        let m = bytes.len();
        let mut r: Vec<u32> = Vec::new();
        let mut i: usize = 0;
        proof {
            assert(subtokens_spec(v, bytes@, 0) =~= r@ + subtokens_spec(v, bytes@, 0));
        }
        while i < m
            invariant
                i <= m,
                m == bytes@.len(),
                self.wf(),
                v == self@,
                s == self@.nodes,
                subtokens_spec(v, bytes@, 0) == r@ + subtokens_spec(v, bytes@, i as int),
            decreases m - i,
        {
            let ghost sub = bytes@.skip(i as int);
            let ghost r_seg = r@;
            let mut cur = self.root();
            let mut j: usize = i;
            proof {
                assert(sub.take(0) =~= Seq::<u8>::empty());
                assert(walk_pre(v, sub, 0) =~= Seq::<u32>::empty());
                assert(r@ =~= r_seg + walk_pre(v, sub, 0));
            }
            while j < m
                invariant
                    i <= j <= m,
                    m == bytes@.len(),
                    self.wf(),
                    v == self@,
                    s == self@.nodes,
                    sub == bytes@.skip(i as int),
                    wf_node(s, cur as int),
                    node_at(s, 0, sub.take(j - i)) == Some(cur as int),
                    r@ == r_seg + walk_pre(v, sub, j - i),
                decreases m - j,
            {
                proof {
                    crate::model::lemma_node_at_snoc(s, 0, sub.take(j - i), bytes@[j as int]);
                    assert(sub.take(j - i).push(bytes@[j as int]) =~= sub.take(j + 1 - i));
                }
                match self.child_at_byte(cur, bytes[j]) {
                    Some(c) => {
                        cur = c;
                        match self.node(c).token_id() {
                            Some(t) => {
                                r.push(t);
                                proof {
                                    assert(tok_at(v, sub.take(j + 1 - i)) == Some(t));
                                    assert(r@ =~= r_seg + walk_pre(v, sub, j + 1 - i));
                                }
                            },
                            None => {
                                proof {
                                    assert(tok_at(v, sub.take(j + 1 - i)) is None);
                                    assert(r@ =~= r_seg + walk_pre(v, sub, j + 1 - i));
                                }
                            },
                        }
                    },
                    None => {
                        proof {
                            assert(node_at(s, 0, sub.take(j + 1 - i)) is None);
                            lemma_walk_pre_stall(v, sub, j + 1 - i, sub.len() as int);
                            assert(r@ =~= r_seg + walk_pre(v, sub, sub.len() as int));
                        }
                        break ;
                    },
                }
                j = j + 1;
            }
            proof {
                if j == m {
                    assert(sub.take(m - i) =~= sub);
                    assert(r@ =~= r_seg + walk_pre(v, sub, sub.len() as int));
                }
                assert(subtokens_spec(v, bytes@, i as int) == walk_pre(v, sub, sub.len() as int)
                    + subtokens_spec(v, bytes@, i + 1));
                assert(subtokens_spec(v, bytes@, 0) =~= r@ + subtokens_spec(v, bytes@, i + 1));
            }
            i = i + 1;
        }
        proof {
            assert(subtokens_spec(v, bytes@, m as int) =~= Seq::<u32>::empty());
            assert(subtokens_spec(v, bytes@, 0) =~= r@);
        }
        r
    }
}


/// Dropping leading tokens never lengthens the decoded suffix.
pub proof fn lemma_decode_len_mono(v: crate::trie::TrieView, toks: Seq<u32>, a: int, b: int)
    requires
        0 <= a <= b <= toks.len(),
    ensures
        decode_raw_spec(v, toks.skip(a)).len() >= decode_raw_spec(v, toks.skip(b)).len(),
    decreases b - a,
{
    if a < b {
        lemma_decode_len_mono(v, toks, a + 1, b);
        assert(toks.skip(a)[0] == toks[a]);
        assert(toks.skip(a).skip(1) =~= toks.skip(a + 1));
    }
}


impl TokTrie {
    /// Every token with its byte string, in pre-order -- which, the
    /// children of every node being sorted, is lexicographic order of the
    /// byte strings. The token column is exactly the node labels in
    /// position order (so aliases, which label no node, never appear),
    /// and each is paired with its own byte content: a label's bytes are
    /// the path that leads to it.
    #[verifier::loop_isolation(false)]
    pub fn sorted_tokens(&self) -> (res: Vec<(u32, Vec<u8>)>)
        requires
            self.wf(),
        ensures
            res@.map_values(|pr: (u32, Vec<u8>)| pr.0) == labels_in(
                self@.nodes,
                1,
                self@.nodes.len() as int,
            ),
            forall|i: int|
                0 <= i < res@.len() ==> (#[trigger] res@[i].1)@ == token_bytes_of(
                    self@,
                    res@[i].0 as int,
                ),
    {
        let ghost s = self@.nodes;
        let mut res: Vec<(u32, Vec<u8>)> = Vec::new();
        let total = self.node_count();
        let mut p: usize = 1;
        proof {
            assert(labels_in(s, 1, 1) =~= Seq::<u32>::empty());
            assert(res@.map_values(|pr: (u32, Vec<u8>)| pr.0) =~= labels_in(s, 1, 1));
        }
        while p < total
            invariant
                1 <= p <= total,
                total == s.len(),
                s == self@.nodes,
                self.wf(),
                res@.map_values(|pr: (u32, Vec<u8>)| pr.0) == labels_in(s, 1, p as int),
                forall|i: int|
                    0 <= i < res@.len() ==> (#[trigger] res@[i].1)@ == token_bytes_of(
                        self@,
                        res@[i].0 as int,
                    ),
            decreases total - p,
        {
            let label = self.node(p).token_id();
            match label {
                Some(t) => {
                    let bytes = crate::trie::copy_token_of(self, t);
                    res.push((t, bytes));
                    proof {
                        assert(labels_in(s, p + 1 as int, p + 1 as int) =~= Seq::<u32>::empty());
                        assert(labels_in(s, p as int, p + 1 as int) =~= seq![t]);
                        assert(res@[res@.len() - 1].1@ == token_bytes_of(self@, t as int));
                    }
                },
                None => {
                    proof {
                        assert(labels_in(s, p + 1 as int, p + 1 as int) =~= Seq::<u32>::empty());
                        assert(labels_in(s, p as int, p + 1 as int) =~= Seq::<u32>::empty());
                    }
                },
            }
            proof {
                lemma_labels_in_split(s, 1, p as int, p + 1 as int);
                assert(res@.map_values(|pr: (u32, Vec<u8>)| pr.0) =~= labels_in(s, 1, p + 1));
            }
            p = p + 1;
        }
        res
    }
}

/// The labels of a position range split at any interior position.
pub proof fn lemma_labels_in_split(s: Seq<TrieNode>, lo: int, mid: int, hi: int)
    requires
        lo <= mid <= hi,
    ensures
        labels_in(s, lo, hi) == labels_in(s, lo, mid) + labels_in(s, mid, hi),
    decreases mid - lo,
{
    if lo < mid {
        lemma_labels_in_split(s, lo + 1, mid, hi);
        assert(labels_in(s, lo, hi) =~= labels_in(s, lo, mid) + labels_in(s, mid, hi));
    } else {
        assert(labels_in(s, lo, mid) =~= Seq::<u32>::empty());
        assert(labels_in(s, lo, hi) =~= labels_in(s, lo, mid) + labels_in(s, mid, hi));
    }
}

} // verus!
