//! The algebraic laws of the field engine, each proved once and for all
//! over the same spec functions that the executable operations are
//! specified against.

use vstd::prelude::*;

use crate::bits::{pb, pdeg};
use crate::poly::{pzero, pone, padd, pmulred, pis_zero, ppow, pow_chain, trace_acc, ptrace,
    lemma_pmulred_one, lemma_pmulred_distrib, lemma_pmulred_comm, lemma_psqr_linear};

verus! {

/// Adding the zero element changes nothing.
pub proof fn lemma_add_zero(a: Seq<bool>)
    requires
        a.len() == 896,
    ensures
        padd(a, pzero()) == a,
{
    assert(padd(a, pzero()) =~= a);
}

/// Every element is its own additive inverse.
pub proof fn lemma_add_self(a: Seq<bool>)
    ensures
        padd(a, a) == pzero(),
{
    assert(padd(a, a) =~= pzero());
}

/// Addition is commutative.
pub proof fn lemma_add_comm(a: Seq<bool>, b: Seq<bool>)
    ensures
        padd(a, b) == padd(b, a),
{
    assert(padd(a, b) =~= padd(b, a));
}

/// Addition is associative.
pub proof fn lemma_add_assoc(a: Seq<bool>, b: Seq<bool>, c: Seq<bool>)
    ensures
        padd(padd(a, b), c) == padd(a, padd(b, c)),
{
    assert(padd(padd(a, b), c) =~= padd(a, padd(b, c)));
}

/// Multiplying a canonical element by the identity gives it back.
pub proof fn lemma_mul_one(a: Seq<bool>)
    requires
        a.len() == 896,
        pdeg(a) < 419,
    ensures
        pmulred(a, pone()) == a,
{
    lemma_pmulred_one(a);
}

/// Multiplication distributes over addition.
pub proof fn lemma_mul_distrib(a: Seq<bool>, b: Seq<bool>, c: Seq<bool>)
    ensures
        pmulred(padd(a, b), c) == padd(pmulred(a, c), pmulred(b, c)),
{
    lemma_pmulred_distrib(a, b, c);
}

/// Multiplication is commutative.
pub proof fn lemma_mul_comm(a: Seq<bool>, b: Seq<bool>)
    ensures
        pmulred(a, b) == pmulred(b, a),
{
    lemma_pmulred_comm(a, b);
}

/// The trace is linear: `Tr(a + b) = Tr(a) + Tr(b)`.
pub proof fn lemma_trace_linear(a: Seq<bool>, b: Seq<bool>)
    requires
        a.len() == 896,
        b.len() == 896,
    ensures
        ptrace(padd(a, b)) == padd(ptrace(a), ptrace(b)),
{
    lemma_trace_acc_linear(a, b, 418);
    assert(ptrace(padd(a, b)) =~= padd(ptrace(a), ptrace(b)));
}

/// Every accumulator of the trace chain is linear, because squaring and
/// addition are.
proof fn lemma_trace_acc_linear(a: Seq<bool>, b: Seq<bool>, i: int)
    requires
        a.len() == 896,
        b.len() == 896,
    ensures
        trace_acc(padd(a, b), i) == padd(trace_acc(a, i), trace_acc(b, i)),
    decreases i,
{
    if i <= 1 {
        lemma_psqr_linear(a, b);
    } else {
        lemma_trace_acc_linear(a, b, i - 1);
        let ta = trace_acc(a, i - 1);
        let tb = trace_acc(b, i - 1);
        assert(padd(trace_acc(padd(a, b), i - 1), padd(a, b)) =~= padd(padd(ta, a), padd(tb, b)));
        lemma_psqr_linear(padd(ta, a), padd(tb, b));
    }
}

/// Exponentiation boundaries: the zero exponent gives 1 for every base,
/// and the exponent 1 gives the base back.
pub proof fn lemma_pow_boundary(a: Seq<bool>, eb: Seq<bool>)
    requires
        a.len() == 896,
        pdeg(a) < 419,
    ensures
        pis_zero(eb) ==> ppow(a, eb) == pone(),
        (pb(eb, 0) && (forall|k: int| k >= 1 ==> !pb(eb, k))) ==> ppow(a, eb) == a,
{
    if pb(eb, 0) && (forall|k: int| k >= 1 ==> !pb(eb, k)) {
        crate::bits::lemma_pdeg_found(eb, 0);
        assert(!pis_zero(eb));
        assert(ppow(a, eb) == pow_chain(a, eb, 0, 1));
        assert(pow_chain(a, eb, 0, 0) == pone());
        assert(pow_chain(a, eb, 0, 1) == pmulred(pone(), a));
        lemma_pmulred_one(a);
        lemma_pmulred_comm(a, pone());
    }
}

} // verus!
