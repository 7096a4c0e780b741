//! The peephole optimizer: rewrites a token sequence to a fixpoint of two
//! composable passes.
//!
//! The fusion pass merges every maximal adjacent run of same-kind
//! magnitude-bearing tokens into one token carrying the summed magnitude.
//! The cancellation pass combines adjacent inverse pairs on the same axis:
//! the larger magnitude wins, reduced by the smaller, and equal magnitudes
//! cancel to nothing.  Loop markers and the I/O tokens act as boundaries for
//! both passes: they are passed through unchanged, in order, and nothing is
//! merged across them.  The driver applies fusion then cancellation to the
//! whole sequence, round after round, until a round leaves the sequence
//! unchanged.

use vstd::prelude::*;

use crate::lex::Token;

verus! {

/// The run-length magnitude a token carries (zero for the boundary kinds).
pub open spec fn mag(t: Token) -> nat {
    match t {
        Token::PtrAdd(n) => n as nat,
        Token::PtrSub(n) => n as nat,
        Token::Add(n) => n as nat,
        Token::Sub(n) => n as nat,
        _ => 0,
    }
}

/// The total magnitude carried by a token sequence.
pub open spec fn mag_sum(ts: Seq<Token>) -> nat
    decreases ts.len(),
{
    if ts.len() == 0 {
        0
    } else {
        mag(ts[0]) + mag_sum(ts.skip(1))
    }
}

/// A pending token viewed as a (zero- or one-element) sequence.
pub open spec fn opt_seq(acc: Option<Token>) -> Seq<Token> {
    match acc {
        Some(t) => seq![t],
        None => Seq::empty(),
    }
}

/// The magnitude of a pending token, zero if there is none.
pub open spec fn mag_opt(acc: Option<Token>) -> nat {
    match acc {
        Some(t) => mag(t),
        None => 0,
    }
}

/// Merging a pending token `acc` with the next token `t` when both are the
/// same magnitude-bearing kind; `None` when they do not fuse.
pub open spec fn fuse(acc: Token, t: Token) -> Option<Token> {
    match (acc, t) {
        (Token::PtrAdd(b), Token::PtrAdd(a)) => Some(Token::PtrAdd((a + b) as usize)),
        (Token::PtrSub(b), Token::PtrSub(a)) => Some(Token::PtrSub((a + b) as usize)),
        (Token::Add(b), Token::Add(a)) => Some(Token::Add((a + b) as usize)),
        (Token::Sub(b), Token::Sub(a)) => Some(Token::Sub((a + b) as usize)),
        _ => None,
    }
}

/// The fusion pass over the remaining tokens `ts`, with pending token `acc`.
pub open spec fn group_rec(ts: Seq<Token>, acc: Option<Token>) -> Seq<Token>
    decreases ts.len(),
{
    if ts.len() == 0 {
        opt_seq(acc)
    } else {
        let t = ts[0];
        let rest = ts.skip(1);
        match acc {
            None => group_rec(rest, Some(t)),
            Some(a) => match fuse(a, t) {
                Some(m) => group_rec(rest, Some(m)),
                None => seq![a] + group_rec(rest, Some(t)),
            },
        }
    }
}

/// The fusion pass: merge maximal adjacent same-kind runs.
pub open spec fn spec_group(ts: Seq<Token>) -> Seq<Token> {
    group_rec(ts, None)
}

/// Combining a pending token `acc` with the next token `t` when they form an
/// inverse pair on the same axis.  The outer `None` means the pair does not
/// cancel; the inner option is the surviving token, if any.
pub open spec fn cancel(acc: Token, t: Token) -> Option<Option<Token>> {
    match (acc, t) {
        (Token::PtrSub(b), Token::PtrAdd(a)) => Some(
            if a < b {
                Some(Token::PtrSub((b - a) as usize))
            } else if a == b {
                None
            } else {
                Some(Token::PtrAdd((a - b) as usize))
            },
        ),
        (Token::PtrAdd(b), Token::PtrSub(a)) => Some(
            if a < b {
                Some(Token::PtrAdd((b - a) as usize))
            } else if a == b {
                None
            } else {
                Some(Token::PtrSub((a - b) as usize))
            },
        ),
        (Token::Sub(b), Token::Add(a)) => Some(
            if a < b {
                Some(Token::Sub((b - a) as usize))
            } else if a == b {
                None
            } else {
                Some(Token::Add((a - b) as usize))
            },
        ),
        (Token::Add(b), Token::Sub(a)) => Some(
            if a < b {
                Some(Token::Add((b - a) as usize))
            } else if a == b {
                None
            } else {
                Some(Token::Sub((a - b) as usize))
            },
        ),
        _ => None,
    }
}

/// The cancellation pass over the remaining tokens `ts`, with pending token
/// `acc`.
pub open spec fn cancel_rec(ts: Seq<Token>, acc: Option<Token>) -> Seq<Token>
    decreases ts.len(),
{
    if ts.len() == 0 {
        opt_seq(acc)
    } else {
        let t = ts[0];
        let rest = ts.skip(1);
        match acc {
            None => cancel_rec(rest, Some(t)),
            Some(a) => match cancel(a, t) {
                Some(r) => cancel_rec(rest, r),
                None => seq![a] + cancel_rec(rest, Some(t)),
            },
        }
    }
}

/// The cancellation pass: combine adjacent inverse pairs.
pub open spec fn spec_cancel(ts: Seq<Token>) -> Seq<Token> {
    cancel_rec(ts, None)
}

/// One optimization round: fusion, then cancellation.
pub open spec fn spec_opt_round(ts: Seq<Token>) -> Seq<Token> {
    spec_cancel(spec_group(ts))
}

/// The fixpoint of repeated optimization rounds.
pub open spec fn spec_optimise(ts: Seq<Token>) -> Seq<Token>
    decreases ts.len(),
    via spec_optimise_decreases
{
    if spec_opt_round(ts) == ts {
        ts
    } else {
        spec_optimise(spec_opt_round(ts))
    }
}

#[via_fn]
proof fn spec_optimise_decreases(ts: Seq<Token>) {
    if spec_opt_round(ts) != ts {
        lemma_round_shrinks(ts);
    }
}

/// A fusion pass either returns the pending token followed by its input
/// unchanged, or produces something strictly shorter.
proof fn lemma_group_rec_shape(ts: Seq<Token>, acc: Option<Token>)
    ensures
        group_rec(ts, acc) == opt_seq(acc) + ts || group_rec(ts, acc).len() < opt_seq(acc).len()
            + ts.len(),
    decreases ts.len(),
{
    if ts.len() == 0 {
        assert(opt_seq(acc) + ts =~= opt_seq(acc));
    } else {
        let t = ts[0];
        let rest = ts.skip(1);
        assert(seq![t] + rest =~= ts);
        match acc {
            None => {
                lemma_group_rec_shape(rest, Some(t));
                assert(opt_seq(acc) + ts =~= ts);
            },
            Some(a) => {
                match fuse(a, t) {
                    Some(m) => {
                        lemma_group_rec_shape(rest, Some(m));
                    },
                    None => {
                        lemma_group_rec_shape(rest, Some(t));
                        if group_rec(rest, Some(t)) == opt_seq(Some(t)) + rest {
                            assert(seq![a] + (seq![t] + rest) =~= opt_seq(acc) + ts);
                        }
                    },
                }
            },
        }
    }
}

/// A cancellation pass either returns the pending token followed by its
/// input unchanged, or produces something strictly shorter.
proof fn lemma_cancel_rec_shape(ts: Seq<Token>, acc: Option<Token>)
    ensures
        cancel_rec(ts, acc) == opt_seq(acc) + ts || cancel_rec(ts, acc).len() < opt_seq(acc).len()
            + ts.len(),
    decreases ts.len(),
{
    if ts.len() == 0 {
        assert(opt_seq(acc) + ts =~= opt_seq(acc));
    } else {
        let t = ts[0];
        let rest = ts.skip(1);
        assert(seq![t] + rest =~= ts);
        match acc {
            None => {
                lemma_cancel_rec_shape(rest, Some(t));
                assert(opt_seq(acc) + ts =~= ts);
            },
            Some(a) => {
                match cancel(a, t) {
                    Some(r) => {
                        lemma_cancel_rec_shape(rest, r);
                        assert(opt_seq(r).len() <= 1);
                    },
                    None => {
                        lemma_cancel_rec_shape(rest, Some(t));
                        if cancel_rec(rest, Some(t)) == opt_seq(Some(t)) + rest {
                            assert(seq![a] + (seq![t] + rest) =~= opt_seq(acc) + ts);
                        }
                    },
                }
            },
        }
    }
}

/// One optimization round either leaves the sequence unchanged or strictly
/// shortens it; this is what bounds the fixpoint iteration.
pub proof fn lemma_round_shrinks(ts: Seq<Token>)
    ensures
        spec_opt_round(ts) == ts || spec_opt_round(ts).len() < ts.len(),
{
    lemma_group_rec_shape(ts, None);
    assert(Seq::<Token>::empty() + ts =~= ts);
    let g = spec_group(ts);
    lemma_cancel_rec_shape(g, None);
    assert(Seq::<Token>::empty() + g =~= g);
}

/// Splitting off the head of a sequence splits its total magnitude.
proof fn lemma_mag_sum_cons(a: Token, s: Seq<Token>)
    ensures
        mag_sum(seq![a] + s) == mag(a) + mag_sum(s),
{
    assert((seq![a] + s)[0] == a);
    assert((seq![a] + s).skip(1) =~= s);
}

/// Fusion preserves the total magnitude exactly, as long as that total fits
/// in a machine word (so that no summed run wraps).
proof fn lemma_group_rec_mag(ts: Seq<Token>, acc: Option<Token>)
    requires
        mag_opt(acc) + mag_sum(ts) <= usize::MAX,
    ensures
        mag_sum(group_rec(ts, acc)) == mag_opt(acc) + mag_sum(ts),
    decreases ts.len(),
{
    if ts.len() == 0 {
        match acc {
            Some(a) => {
                lemma_mag_sum_cons(a, Seq::empty());
                assert(seq![a] + Seq::<Token>::empty() =~= seq![a]);
            },
            None => {},
        }
    } else {
        let t = ts[0];
        let rest = ts.skip(1);
        assert(mag_sum(ts) == mag(t) + mag_sum(rest));
        match acc {
            None => {
                lemma_group_rec_mag(rest, Some(t));
            },
            Some(a) => {
                match fuse(a, t) {
                    Some(m) => {
                        assert(mag(m) == mag(a) + mag(t));
                        lemma_group_rec_mag(rest, Some(m));
                    },
                    None => {
                        lemma_group_rec_mag(rest, Some(t));
                        lemma_mag_sum_cons(a, group_rec(rest, Some(t)));
                    },
                }
            },
        }
    }
}

/// Cancellation never increases the total magnitude.
proof fn lemma_cancel_rec_mag(ts: Seq<Token>, acc: Option<Token>)
    ensures
        mag_sum(cancel_rec(ts, acc)) <= mag_opt(acc) + mag_sum(ts),
    decreases ts.len(),
{
    if ts.len() == 0 {
        match acc {
            Some(a) => {
                lemma_mag_sum_cons(a, Seq::empty());
                assert(seq![a] + Seq::<Token>::empty() =~= seq![a]);
            },
            None => {},
        }
    } else {
        let t = ts[0];
        let rest = ts.skip(1);
        assert(mag_sum(ts) == mag(t) + mag_sum(rest));
        match acc {
            None => {
                lemma_cancel_rec_mag(rest, Some(t));
            },
            Some(a) => {
                match cancel(a, t) {
                    Some(r) => {
                        lemma_cancel_rec_mag(rest, r);
                        assert(mag_opt(r) <= mag(a) + mag(t));
                    },
                    None => {
                        lemma_cancel_rec_mag(rest, Some(t));
                        lemma_mag_sum_cons(a, cancel_rec(rest, Some(t)));
                    },
                }
            },
        }
    }
}

/// One optimization round never increases the total magnitude, as long as
/// that total fits in a machine word.
pub proof fn lemma_round_mag(ts: Seq<Token>)
    requires
        mag_sum(ts) <= usize::MAX,
    ensures
        mag_sum(spec_opt_round(ts)) <= mag_sum(ts),
{
    lemma_group_rec_mag(ts, None);
    lemma_cancel_rec_mag(spec_group(ts), None);
}

/// The optimization fixpoint really is a fixpoint: one more round over an
/// already optimized sequence leaves it unchanged.
pub proof fn lemma_optimise_fixpoint(ts: Seq<Token>)
    ensures
        spec_opt_round(spec_optimise(ts)) == spec_optimise(ts),
    decreases ts.len(),
{
    if spec_opt_round(ts) != ts {
        lemma_round_shrinks(ts);
        lemma_optimise_fixpoint(spec_opt_round(ts));
    }
}

/// Law: optimization is idempotent.  Optimizing an already optimized token
/// sequence yields it back unchanged, for every token sequence.
pub proof fn lemma_optimise_idempotent(ts: Seq<Token>)
    ensures
        spec_optimise(spec_optimise(ts)) == spec_optimise(ts),
{
    lemma_optimise_fixpoint(ts);
}

/// Whether a token bounds fusion and cancellation runs: loop markers and the
/// two I/O tokens are never merged or combined with anything.
pub open spec fn is_boundary(t: Token) -> bool {
    match t {
        Token::LoopStart(_) => true,
        Token::LoopEnd(_) => true,
        Token::PutChar => true,
        Token::GetChar => true,
        _ => false,
    }
}

/// The subsequence of boundary tokens, in order.
pub open spec fn boundaries(ts: Seq<Token>) -> Seq<Token>
    decreases ts.len(),
{
    if ts.len() == 0 {
        Seq::empty()
    } else if is_boundary(ts[0]) {
        seq![ts[0]] + boundaries(ts.skip(1))
    } else {
        boundaries(ts.skip(1))
    }
}

/// Taking the boundary subsequence distributes over concatenation.
proof fn lemma_boundaries_concat(a: Seq<Token>, b: Seq<Token>)
    ensures
        boundaries(a + b) == boundaries(a) + boundaries(b),
    decreases a.len(),
{
    if a.len() == 0 {
        assert(a + b =~= b);
        assert(boundaries(a) + boundaries(b) =~= boundaries(b));
    } else {
        assert((a + b)[0] == a[0]);
        assert((a + b).skip(1) =~= a.skip(1) + b);
        lemma_boundaries_concat(a.skip(1), b);
        if is_boundary(a[0]) {
            assert(seq![a[0]] + (boundaries(a.skip(1)) + boundaries(b)) =~= (seq![a[0]]
                + boundaries(a.skip(1))) + boundaries(b));
        }
    }
}

/// The boundary subsequence of a one-token sequence.
proof fn lemma_boundaries_single(t: Token)
    ensures
        is_boundary(t) ==> boundaries(seq![t]) == seq![t],
        !is_boundary(t) ==> boundaries(seq![t]) == Seq::<Token>::empty(),
{
    assert(seq![t].skip(1) =~= Seq::<Token>::empty());
    assert(boundaries(Seq::<Token>::empty()) == Seq::<Token>::empty());
    assert(seq![t].len() == 1 && seq![t][0] == t);
    if is_boundary(t) {
        assert(boundaries(seq![t]) == seq![t] + boundaries(seq![t].skip(1)));
        assert(seq![t] + Seq::<Token>::empty() =~= seq![t]);
    } else {
        assert(boundaries(seq![t]) == boundaries(seq![t].skip(1)));
    }
}

/// A fusion pass keeps the boundary tokens exactly, in order.
proof fn lemma_group_rec_boundaries(ts: Seq<Token>, acc: Option<Token>)
    ensures
        boundaries(group_rec(ts, acc)) == boundaries(opt_seq(acc)) + boundaries(ts),
    decreases ts.len(),
{
    if ts.len() == 0 {
        assert(boundaries(opt_seq(acc)) + boundaries(ts) =~= boundaries(opt_seq(acc)));
    } else {
        let t = ts[0];
        let rest = ts.skip(1);
        lemma_boundaries_single(t);
        assert(seq![t] + rest =~= ts);
        lemma_boundaries_concat(seq![t], rest);
        match acc {
            None => {
                lemma_group_rec_boundaries(rest, Some(t));
                assert(Seq::<Token>::empty() + boundaries(ts) =~= boundaries(ts));
            },
            Some(a) => {
                lemma_boundaries_single(a);
                match fuse(a, t) {
                    Some(m) => {
                        lemma_group_rec_boundaries(rest, Some(m));
                        lemma_boundaries_single(m);
                        assert(Seq::<Token>::empty() + boundaries(rest) =~= boundaries(rest));
                        assert(boundaries(opt_seq(acc)) + boundaries(ts) =~= boundaries(rest));
                    },
                    None => {
                        lemma_group_rec_boundaries(rest, Some(t));
                        lemma_boundaries_concat(seq![a], group_rec(rest, Some(t)));
                        assert(boundaries(seq![a]) + (boundaries(seq![t]) + boundaries(rest))
                            =~= boundaries(opt_seq(acc)) + boundaries(ts));
                    },
                }
            },
        }
    }
}

/// A cancellation pass keeps the boundary tokens exactly, in order.
proof fn lemma_cancel_rec_boundaries(ts: Seq<Token>, acc: Option<Token>)
    ensures
        boundaries(cancel_rec(ts, acc)) == boundaries(opt_seq(acc)) + boundaries(ts),
    decreases ts.len(),
{
    if ts.len() == 0 {
        assert(boundaries(opt_seq(acc)) + boundaries(ts) =~= boundaries(opt_seq(acc)));
    } else {
        let t = ts[0];
        let rest = ts.skip(1);
        lemma_boundaries_single(t);
        assert(seq![t] + rest =~= ts);
        lemma_boundaries_concat(seq![t], rest);
        match acc {
            None => {
                lemma_cancel_rec_boundaries(rest, Some(t));
                assert(Seq::<Token>::empty() + boundaries(ts) =~= boundaries(ts));
            },
            Some(a) => {
                lemma_boundaries_single(a);
                match cancel(a, t) {
                    Some(r) => {
                        lemma_cancel_rec_boundaries(rest, r);
                        match r {
                            Some(x) => {
                                lemma_boundaries_single(x);
                            },
                            None => {},
                        }
                        assert(Seq::<Token>::empty() + boundaries(rest) =~= boundaries(rest));
                        assert(boundaries(opt_seq(acc)) + boundaries(ts) =~= boundaries(rest));
                    },
                    None => {
                        lemma_cancel_rec_boundaries(rest, Some(t));
                        lemma_boundaries_concat(seq![a], cancel_rec(rest, Some(t)));
                        assert(boundaries(seq![a]) + (boundaries(seq![t]) + boundaries(rest))
                            =~= boundaries(opt_seq(acc)) + boundaries(ts));
                    },
                }
            },
        }
    }
}

/// Law: fusion and cancellation never merge across a boundary.  The loop
/// markers and I/O tokens of the optimized sequence are exactly those of the
/// input, unchanged and in the same order, so in particular every loop id
/// survives optimization and the start/end pairing is preserved.
pub proof fn lemma_optimise_preserves_boundaries(ts: Seq<Token>)
    ensures
        boundaries(spec_optimise(ts)) == boundaries(ts),
    decreases ts.len(),
{
    lemma_group_rec_boundaries(ts, None);
    lemma_cancel_rec_boundaries(spec_group(ts), None);
    assert(boundaries(opt_seq(None::<Token>)) =~= Seq::<Token>::empty());
    assert(Seq::<Token>::empty() + boundaries(ts) =~= boundaries(ts));
    assert(Seq::<Token>::empty() + boundaries(spec_group(ts)) =~= boundaries(spec_group(ts)));
    if spec_opt_round(ts) != ts {
        lemma_round_shrinks(ts);
        lemma_optimise_preserves_boundaries(spec_opt_round(ts));
    }
}

/// A fusion pass over a sequence split by a boundary token works the two
/// sides independently: the boundary flushes the pending token and becomes
/// pending itself.
proof fn lemma_group_rec_split(a: Seq<Token>, b: Token, c: Seq<Token>, acc: Option<Token>)
    requires
        is_boundary(b),
    ensures
        group_rec(a + seq![b] + c, acc) == group_rec(a, acc) + group_rec(c, Some(b)),
    decreases a.len(),
{
    let whole = a + seq![b] + c;
    if a.len() == 0 {
        assert(whole.len() > 0 && whole[0] == b);
        assert(whole.skip(1) =~= c);
        match acc {
            None => {
                assert(group_rec(a, acc) + group_rec(c, Some(b)) =~= group_rec(c, Some(b)));
            },
            Some(p) => {
                assert(fuse(p, b) is None);
                assert(group_rec(a, acc) == seq![p]);
            },
        }
    } else {
        assert(whole[0] == a[0]);
        assert(whole.skip(1) =~= a.skip(1) + seq![b] + c);
        let t = a[0];
        match acc {
            None => {
                lemma_group_rec_split(a.skip(1), b, c, Some(t));
            },
            Some(p) => {
                match fuse(p, t) {
                    Some(m) => {
                        lemma_group_rec_split(a.skip(1), b, c, Some(m));
                    },
                    None => {
                        lemma_group_rec_split(a.skip(1), b, c, Some(t));
                        assert(seq![p] + (group_rec(a.skip(1), Some(t)) + group_rec(c, Some(b)))
                            =~= (seq![p] + group_rec(a.skip(1), Some(t))) + group_rec(
                            c,
                            Some(b),
                        ));
                    },
                }
            },
        }
    }
}

/// A pending boundary token is emitted in place: it combines with nothing.
proof fn lemma_group_rec_boundary_acc(c: Seq<Token>, b: Token)
    requires
        is_boundary(b),
    ensures
        group_rec(c, Some(b)) == seq![b] + group_rec(c, None),
{
    if c.len() == 0 {
        assert(seq![b] + group_rec(c, None) =~= seq![b]);
    } else {
        assert(fuse(b, c[0]) is None);
    }
}

/// A cancellation pass over a sequence split by a boundary token works the
/// two sides independently.
proof fn lemma_cancel_rec_split(a: Seq<Token>, b: Token, c: Seq<Token>, acc: Option<Token>)
    requires
        is_boundary(b),
    ensures
        cancel_rec(a + seq![b] + c, acc) == cancel_rec(a, acc) + cancel_rec(c, Some(b)),
    decreases a.len(),
{
    let whole = a + seq![b] + c;
    if a.len() == 0 {
        assert(whole.len() > 0 && whole[0] == b);
        assert(whole.skip(1) =~= c);
        match acc {
            None => {
                assert(cancel_rec(a, acc) + cancel_rec(c, Some(b)) =~= cancel_rec(c, Some(b)));
            },
            Some(p) => {
                assert(cancel(p, b) is None);
                assert(cancel_rec(a, acc) == seq![p]);
            },
        }
    } else {
        assert(whole[0] == a[0]);
        assert(whole.skip(1) =~= a.skip(1) + seq![b] + c);
        let t = a[0];
        match acc {
            None => {
                lemma_cancel_rec_split(a.skip(1), b, c, Some(t));
            },
            Some(p) => {
                match cancel(p, t) {
                    Some(r) => {
                        lemma_cancel_rec_split(a.skip(1), b, c, r);
                    },
                    None => {
                        lemma_cancel_rec_split(a.skip(1), b, c, Some(t));
                        assert(seq![p] + (cancel_rec(a.skip(1), Some(t)) + cancel_rec(c, Some(b)))
                            =~= (seq![p] + cancel_rec(a.skip(1), Some(t))) + cancel_rec(
                            c,
                            Some(b),
                        ));
                    },
                }
            },
        }
    }
}

/// A pending boundary token is emitted in place by cancellation too.
proof fn lemma_cancel_rec_boundary_acc(c: Seq<Token>, b: Token)
    requires
        is_boundary(b),
    ensures
        cancel_rec(c, Some(b)) == seq![b] + cancel_rec(c, None),
{
    if c.len() == 0 {
        assert(seq![b] + cancel_rec(c, None) =~= seq![b]);
    } else {
        assert(cancel(b, c[0]) is None);
    }
}

/// One optimization round over a sequence split by a boundary token is the
/// round over each side, with the boundary kept in place between them.
pub proof fn lemma_round_splits_at_boundary(a: Seq<Token>, b: Token, c: Seq<Token>)
    requires
        is_boundary(b),
    ensures
        spec_opt_round(a + seq![b] + c) == spec_opt_round(a) + seq![b] + spec_opt_round(c),
{
    let ga = spec_group(a);
    let gc = spec_group(c);
    lemma_group_rec_split(a, b, c, None);
    lemma_group_rec_boundary_acc(c, b);
    assert(spec_group(a + seq![b] + c) =~= ga + seq![b] + gc);
    lemma_cancel_rec_split(ga, b, gc, None);
    lemma_cancel_rec_boundary_acc(gc, b);
    assert(cancel_rec(ga + seq![b] + gc, None) =~= spec_cancel(ga) + seq![b] + spec_cancel(gc));
}

/// Law: the optimizer never merges anything across a boundary token.  A
/// sequence with a loop marker or an I/O token in the middle optimizes to
/// the optimization of the left part, the boundary unchanged and in place,
/// and the optimization of the right part.
pub proof fn lemma_optimise_splits_at_boundary(a: Seq<Token>, b: Token, c: Seq<Token>)
    requires
        is_boundary(b),
    ensures
        spec_optimise(a + seq![b] + c) == spec_optimise(a) + seq![b] + spec_optimise(c),
    decreases a.len() + c.len(),
{
    let w = a + seq![b] + c;
    lemma_round_splits_at_boundary(a, b, c);
    let ra = spec_opt_round(a);
    let rc = spec_opt_round(c);
    lemma_round_shrinks(a);
    lemma_round_shrinks(c);
    if ra == a && rc == c {
        assert(spec_opt_round(w) == w);
    } else {
        assert(spec_opt_round(w).len() < w.len());
        assert(spec_opt_round(w) != w);
        lemma_optimise_splits_at_boundary(ra, b, rc);
    }
}

/// Pushing a token adds its magnitude to the total.
proof fn lemma_mag_sum_push(ts: Seq<Token>, t: Token)
    ensures
        mag_sum(ts.push(t)) == mag_sum(ts) + mag(t),
    decreases ts.len(),
{
    if ts.len() == 0 {
        assert(ts.push(t)[0] == t);
        assert(ts.push(t).skip(1) =~= Seq::<Token>::empty());
        assert(mag_sum(Seq::<Token>::empty()) == 0);
    } else {
        assert(ts.push(t)[0] == ts[0]);
        assert(ts.push(t).skip(1) =~= ts.skip(1).push(t));
        lemma_mag_sum_push(ts.skip(1), t);
    }
}

/// Every token the lexer emits carries magnitude at most one, so lexing
/// adds at most one unit of magnitude per input character.
proof fn lemma_lex_from_mag(s: Seq<char>, tokens: Seq<Token>, counter: usize, stack: Seq<usize>)
    ensures
        crate::lex::spec_lex_from(s, tokens, counter, stack) matches Ok(v) ==> mag_sum(v)
            <= mag_sum(tokens) + s.len(),
    decreases s.len(),
{
    if s.len() == 0 {
    } else {
        let c = s[0];
        let rest = s.skip(1);
        if c == '>' {
            lemma_mag_sum_push(tokens, Token::PtrAdd(1));
            lemma_lex_from_mag(rest, tokens.push(Token::PtrAdd(1)), counter, stack);
        } else if c == '<' {
            lemma_mag_sum_push(tokens, Token::PtrSub(1));
            lemma_lex_from_mag(rest, tokens.push(Token::PtrSub(1)), counter, stack);
        } else if c == '+' {
            lemma_mag_sum_push(tokens, Token::Add(1));
            lemma_lex_from_mag(rest, tokens.push(Token::Add(1)), counter, stack);
        } else if c == '-' {
            lemma_mag_sum_push(tokens, Token::Sub(1));
            lemma_lex_from_mag(rest, tokens.push(Token::Sub(1)), counter, stack);
        } else if c == '[' {
            lemma_mag_sum_push(tokens, Token::LoopStart(counter));
            lemma_lex_from_mag(
                rest,
                tokens.push(Token::LoopStart(counter)),
                (counter + 1) as usize,
                stack.push(counter),
            );
        } else if c == ']' {
            if stack.len() > 0 {
                lemma_mag_sum_push(tokens, Token::LoopEnd(stack.last()));
                lemma_lex_from_mag(
                    rest,
                    tokens.push(Token::LoopEnd(stack.last())),
                    counter,
                    stack.drop_last(),
                );
            }
        } else if c == '.' {
            lemma_mag_sum_push(tokens, Token::PutChar);
            lemma_lex_from_mag(rest, tokens.push(Token::PutChar), counter, stack);
        } else if c == ',' {
            lemma_mag_sum_push(tokens, Token::GetChar);
            lemma_lex_from_mag(rest, tokens.push(Token::GetChar), counter, stack);
        } else {
            lemma_lex_from_mag(rest, tokens, counter, stack);
        }
    }
}

/// Law: a lexed program always satisfies the optimizer's magnitude bound,
/// since the lexer only emits unit magnitudes; lexing and optimizing
/// therefore compose for every source text a machine can hold.
pub proof fn lemma_lex_mag_fits(s: Seq<char>, v: Seq<Token>)
    requires
        crate::lex::spec_lex(s) == Ok::<Seq<Token>, crate::lex::LexError>(v),
        s.len() <= usize::MAX,
    ensures
        mag_sum(v) <= usize::MAX,
{
    assert(mag_sum(Seq::<Token>::empty()) == 0);
    lemma_lex_from_mag(s, Seq::empty(), 0, Seq::empty());
}

/// The fusion pass: merge every maximal adjacent run of same-kind
/// magnitude-bearing tokens into one token with the summed magnitude.
pub fn group_tokens(tokens: &Vec<Token>) -> (r: Vec<Token>)
    requires
        mag_sum(tokens@) <= usize::MAX,
    ensures
        r@ == spec_group(tokens@),
{
    let mut new_tokens: Vec<Token> = Vec::new();
    let mut accumulator: Option<Token> = None;
    let mut i: usize = 0;

    proof {
        assert(tokens@.skip(0) =~= tokens@);
    }
    while i < tokens.len()
        invariant
            i <= tokens@.len(),
            mag_opt(accumulator) + mag_sum(tokens@.skip(i as int)) <= usize::MAX,
            spec_group(tokens@) == new_tokens@ + group_rec(tokens@.skip(i as int), accumulator),
        decreases tokens@.len() - i,
    {
        let t = tokens[i];
        proof {
            assert(tokens@.skip(i as int)[0] == tokens@[i as int]);
            assert(tokens@.skip(i as int).skip(1) =~= tokens@.skip(i as int + 1));
            assert(mag_sum(tokens@.skip(i as int)) == mag(t) + mag_sum(
                tokens@.skip(i as int + 1),
            ));
        }
        accumulator = match (t, accumulator) {
            (Token::PtrAdd(a), Some(Token::PtrAdd(b))) => Some(Token::PtrAdd(a + b)),
            (Token::PtrSub(a), Some(Token::PtrSub(b))) => Some(Token::PtrSub(a + b)),
            (Token::Add(a), Some(Token::Add(b))) => Some(Token::Add(a + b)),
            (Token::Sub(a), Some(Token::Sub(b))) => Some(Token::Sub(a + b)),
            (tok, Some(acc)) => {
                new_tokens.push(acc);
                proof {
                    assert(new_tokens@ + (seq![acc] + group_rec(
                        tokens@.skip(i as int + 1),
                        Some(tok),
                    )) =~= (new_tokens@ + seq![acc]) + group_rec(
                        tokens@.skip(i as int + 1),
                        Some(tok),
                    ));
                }
                Some(tok)
            },
            (tok, None) => Some(tok),
        };
        i = i + 1;
    }
    proof {
        assert(tokens@.skip(tokens@.len() as int) =~= Seq::<Token>::empty());
    }
    let ghost emitted = new_tokens@;
    if let Some(acc) = accumulator {
        new_tokens.push(acc);
    }
    proof {
        assert(emitted + opt_seq(accumulator) =~= new_tokens@);
    }
    new_tokens
}

/// The cancellation pass: combine adjacent inverse pairs on the same axis;
/// the larger magnitude wins, reduced by the smaller, and equal magnitudes
/// cancel to nothing.  Boundary tokens are emitted in place, never combined.
pub fn cancel_out(tokens: &Vec<Token>) -> (r: Vec<Token>)
    ensures
        r@ == spec_cancel(tokens@),
{
    let mut new_tokens: Vec<Token> = Vec::new();
    let mut accumulator: Option<Token> = None;
    let mut i: usize = 0;

    proof {
        assert(tokens@.skip(0) =~= tokens@);
    }
    while i < tokens.len()
        invariant
            i <= tokens@.len(),
            spec_cancel(tokens@) == new_tokens@ + cancel_rec(tokens@.skip(i as int), accumulator),
        decreases tokens@.len() - i,
    {
        let t = tokens[i];
        proof {
            assert(tokens@.skip(i as int)[0] == tokens@[i as int]);
            assert(tokens@.skip(i as int).skip(1) =~= tokens@.skip(i as int + 1));
        }
        accumulator = match (t, accumulator) {
            (Token::PtrAdd(a), Some(Token::PtrSub(b))) => {
                if a < b {
                    Some(Token::PtrSub(b - a))
                } else if a == b {
                    None
                } else {
                    Some(Token::PtrAdd(a - b))
                }
            },
            (Token::PtrSub(a), Some(Token::PtrAdd(b))) => {
                if a < b {
                    Some(Token::PtrAdd(b - a))
                } else if a == b {
                    None
                } else {
                    Some(Token::PtrSub(a - b))
                }
            },
            (Token::Add(a), Some(Token::Sub(b))) => {
                if a < b {
                    Some(Token::Sub(b - a))
                } else if a == b {
                    None
                } else {
                    Some(Token::Add(a - b))
                }
            },
            (Token::Sub(a), Some(Token::Add(b))) => {
                if a < b {
                    Some(Token::Add(b - a))
                } else if a == b {
                    None
                } else {
                    Some(Token::Sub(a - b))
                }
            },
            (tok, Some(acc)) => {
                new_tokens.push(acc);
                proof {
                    assert(new_tokens@ + (seq![acc] + cancel_rec(
                        tokens@.skip(i as int + 1),
                        Some(tok),
                    )) =~= (new_tokens@ + seq![acc]) + cancel_rec(
                        tokens@.skip(i as int + 1),
                        Some(tok),
                    ));
                }
                Some(tok)
            },
            (tok, None) => Some(tok),
        };
        i = i + 1;
    }
    proof {
        assert(tokens@.skip(tokens@.len() as int) =~= Seq::<Token>::empty());
    }
    let ghost emitted = new_tokens@;
    if let Some(acc) = accumulator {
        new_tokens.push(acc);
    }
    proof {
        assert(emitted + opt_seq(accumulator) =~= new_tokens@);
    }
    new_tokens
}

/// One optimization round: fusion, then cancellation.
pub fn optimise_tokens_inner(tokens: &Vec<Token>) -> (r: Vec<Token>)
    requires
        mag_sum(tokens@) <= usize::MAX,
    ensures
        r@ == spec_opt_round(tokens@),
{
    let grouped = group_tokens(tokens);
    cancel_out(&grouped)
}

/// Element-wise equality of two token sequences.
fn vec_token_eq(a: &Vec<Token>, b: &Vec<Token>) -> (r: bool)
    ensures
        r == (a@ == b@),
{
    if a.len() != b.len() {
        return false;
    }
    let mut i: usize = 0;
    while i < a.len()
        invariant
            i <= a@.len(),
            a@.len() == b@.len(),
            forall|k: int| 0 <= k < i ==> a@[k] == b@[k],
        decreases a@.len() - i,
    {
        if a[i] != b[i] {
            return false;
        }
        i = i + 1;
    }
    proof {
        assert(a@ =~= b@);
    }
    true
}

/// Rewrite the token sequence to its optimization fixpoint: apply fusion
/// then cancellation, round after round, until one full round returns the
/// sequence unchanged.
#[verifier::loop_isolation(false)]
pub fn optimise_tokens(tokens: Vec<Token>) -> (r: Vec<Token>)
    requires
        mag_sum(tokens@) <= usize::MAX,
    ensures
        r@ == spec_optimise(tokens@),
{
    let ghost orig: Seq<Token> = tokens@;
    let mut toks = tokens;
    loop
        invariant
            mag_sum(toks@) <= usize::MAX,
            spec_optimise(toks@) == spec_optimise(orig),
        decreases toks@.len(),
    {
        let next = optimise_tokens_inner(&toks);
        if vec_token_eq(&next, &toks) {
            return next;
        }
        proof {
            lemma_round_shrinks(toks@);
            lemma_round_mag(toks@);
        }
        toks = next;
    }
}

} // verus!
