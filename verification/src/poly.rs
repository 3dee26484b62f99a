//! Mathematical model of the field: polynomials over GF(2) as bit
//! sequences of a fixed width, with carry-less convolution and reduction
//! modulo the field polynomial `x^419 + x^21 + x^14 + x + 1`.
//!
//! All model sequences live in a window of 896 bits (fourteen 64-bit
//! words): wide enough for the product of two reduced elements and for
//! any raw double-width input handed to reduction.

use vstd::prelude::*;

use crate::bits::{pb, pdeg, lemma_pdeg_witness, lemma_pdeg_max, lemma_pdeg_bit, lemma_pdeg_range,
    lemma_pdeg_found, lemma_pdeg_zero, lemma_pdeg_upper};

verus! {

/// The zero polynomial.
pub open spec fn pzero() -> Seq<bool> {
    Seq::new(896, |k: int| false)
}

/// The constant polynomial 1 (the multiplicative identity).
pub open spec fn pone() -> Seq<bool> {
    Seq::new(896, |k: int| k == 0)
}

/// Polynomial addition over GF(2): coefficient-wise XOR.
pub open spec fn padd(a: Seq<bool>, b: Seq<bool>) -> Seq<bool> {
    Seq::new(896, |k: int| pb(a, k) != pb(b, k))
}

/// Coefficient `k` of the field polynomial `x^419 + x^21 + x^14 + x + 1`.
pub open spec fn pmodbit(k: int) -> bool {
    k == 0 || k == 1 || k == 14 || k == 21 || k == 419
}

/// The field polynomial shifted up by `t`: its leading term sits at `419 + t`.
pub open spec fn pmt(t: int) -> Seq<bool> {
    Seq::new(896, |k: int| pmodbit(k - t))
}

/// One long-division step: XOR the field polynomial, shifted so that its
/// leading term aligns with the current leading term.
pub open spec fn pmodstep(x: Seq<bool>) -> Seq<bool> {
    padd(x, pmt(pdeg(x) - 419))
}

/// Repeated long-division steps, `n` at most.
pub open spec fn pmod_rec(x: Seq<bool>, n: int) -> Seq<bool>
    decreases n,
{
    if n <= 0 || pdeg(x) < 419 {
        x
    } else {
        pmod_rec(pmodstep(x), n - 1)
    }
}

/// The canonical representative of `x` modulo the field polynomial:
/// long division runs until the degree drops below 419, which takes
/// fewer steps than the window is wide.
pub open spec fn preduce(x: Seq<bool>) -> Seq<bool> {
    pmod_rec(x, 896)
}

/// Coefficient `k` of the carry-less product, summed over the first `n`
/// coefficients of `a`: XOR of `a[i] && b[k-i]` for `i < n`.
pub open spec fn conv_upto(a: Seq<bool>, b: Seq<bool>, k: int, n: int) -> bool
    decreases n,
{
    if n <= 0 {
        false
    } else {
        conv_upto(a, b, k, n - 1) != (pb(a, n - 1) && pb(b, k - (n - 1)))
    }
}

/// The carry-less (GF(2)) product of two polynomials, before reduction.
pub open spec fn pconv(a: Seq<bool>, b: Seq<bool>) -> Seq<bool> {
    Seq::new(896, |k: int| conv_upto(a, b, k, 896))
}

/// The field product: carry-less product followed by reduction.
pub open spec fn pmulred(a: Seq<bool>, b: Seq<bool>) -> Seq<bool> {
    preduce(pconv(a, b))
}

/// The field square.
pub open spec fn psqr(a: Seq<bool>) -> Seq<bool> {
    pmulred(a, a)
}

/// The all-zero test, valid for sequences of any width.
pub open spec fn pis_zero(s: Seq<bool>) -> bool {
    forall|k: int| !pb(s, k)
}

// ---------------------------------------------------------------------------
// Reduction: termination, canonicality
// ---------------------------------------------------------------------------

/// The shifted field polynomial has degree exactly `419 + t`.
pub proof fn lemma_pmt_deg(t: int)
    requires
        0 <= t,
        419 + t < 896,
    ensures
        pdeg(pmt(t)) == 419 + t,
        pb(pmt(t), 419 + t),
{
    assert(pb(pmt(t), 419 + t));
    assert forall|k: int| k > 419 + t implies !pb(pmt(t), k) by {}
    lemma_pdeg_found(pmt(t), 419 + t);
}

/// One long-division step strictly lowers the degree.
pub proof fn lemma_pmodstep_deg(x: Seq<bool>)
    requires
        x.len() == 896,
        pdeg(x) >= 419,
    ensures
        pmodstep(x).len() == 896,
        pdeg(pmodstep(x)) < pdeg(x),
{
    let d = pdeg(x);
    let t = d - 419;
    lemma_pdeg_bit(x);
    lemma_pdeg_range(x);
    assert(pb(x, d));
    assert forall|k: int| k >= d implies !pb(pmodstep(x), k) by {
        if k > d {
            lemma_pdeg_max(x, k);
        }
        assert(pb(pmodstep(x), k) == (pb(x, k) != pb(pmt(t), k)));
    }
    lemma_pdeg_upper(pmodstep(x), d);
}

/// Extra fuel beyond what the degree requires does not change the result
/// of repeated long division.
proof fn lemma_pmod_rec_fuel(x: Seq<bool>, n: int, m: int)
    requires
        x.len() == 896,
        pdeg(x) - 419 < n <= m,
    ensures
        pmod_rec(x, n) == pmod_rec(x, m),
    decreases n,
{
    lemma_pdeg_range(x);
    if pdeg(x) < 419 {
    } else {
        lemma_pmodstep_deg(x);
        lemma_pmod_rec_fuel(pmodstep(x), n - 1, m - 1);
    }
}

/// Unfolding: reducing `x` is reducing the result of one division step.
pub proof fn lemma_preduce_unfold(x: Seq<bool>)
    requires
        x.len() == 896,
        pdeg(x) >= 419,
    ensures
        preduce(x) == preduce(pmodstep(x)),
{
    lemma_pmodstep_deg(x);
    lemma_pdeg_range(x);
    lemma_pmod_rec_fuel(pmodstep(x), 895, 896);
}

/// A sequence already in canonical form reduces to itself.
pub proof fn lemma_preduce_id(x: Seq<bool>)
    requires
        pdeg(x) < 419,
    ensures
        preduce(x) == x,
{
}

/// Reduction canonicality: the result always has degree below 419 and
/// fills the same window.
pub proof fn lemma_preduce_deg(x: Seq<bool>)
    requires
        x.len() == 896,
    ensures
        preduce(x).len() == 896,
        pdeg(preduce(x)) < 419,
    decreases pdeg(x),
{
    lemma_pdeg_range(x);
    if pdeg(x) < 419 {
    } else {
        lemma_pmodstep_deg(x);
        lemma_pdeg_range(pmodstep(x));
        lemma_preduce_unfold(x);
        lemma_preduce_deg(pmodstep(x));
    }
}

// ---------------------------------------------------------------------------
// Reduction respects addition
// ---------------------------------------------------------------------------

/// Adding a shifted copy of the field polynomial does not change the
/// canonical representative: both arguments are congruent.
proof fn lemma_preduce_add_mod(z: Seq<bool>, t: int)
    requires
        z.len() == 896,
        0 <= t,
        419 + t < 896,
    ensures
        preduce(padd(z, pmt(t))) == preduce(z),
    decreases pdeg(z),
{
    let d = pdeg(z);
    let w = padd(z, pmt(t));
    lemma_pdeg_range(z);
    lemma_pmt_deg(t);
    if 419 + t > d {
        // the shifted modulus dominates: one step of reducing `w` undoes the addition
        assert forall|k: int| k > 419 + t implies !pb(w, k) by {
            lemma_pdeg_max(z, k);
            lemma_pdeg_max(pmt(t), k);
        }
        lemma_pdeg_max(z, 419 + t);
        assert(pb(w, 419 + t));
        lemma_pdeg_found(w, 419 + t);
        assert(pmodstep(w) =~= z);
        lemma_preduce_unfold(w);
    } else if 419 + t == d {
        // this is exactly the first division step of `z`
        assert(w =~= pmodstep(z));
        lemma_preduce_unfold(z);
    } else {
        // the leading term of `z` survives; step both sides and recurse
        let s = d - 419;
        let z2 = pmodstep(z);
        lemma_pdeg_bit(z);
        assert(pb(z, d));
        lemma_pdeg_max(pmt(t), d);
        assert(pb(w, d));
        assert forall|k: int| k > d implies !pb(w, k) by {
            lemma_pdeg_max(z, k);
            lemma_pdeg_max(pmt(t), k);
        }
        lemma_pdeg_found(w, d);
        assert(pmodstep(w) =~= padd(z2, pmt(t)));
        lemma_preduce_unfold(w);
        lemma_pmodstep_deg(z);
        lemma_pdeg_range(z2);
        lemma_preduce_add_mod(z2, t);
        lemma_preduce_unfold(z);
    }
}

/// Reduction is linear over GF(2) addition.
pub proof fn lemma_preduce_linear(x: Seq<bool>, y: Seq<bool>)
    requires
        x.len() == 896,
        y.len() == 896,
    ensures
        preduce(padd(x, y)) == padd(preduce(x), preduce(y)),
    decreases pdeg(x) + pdeg(y),
{
    lemma_pdeg_range(x);
    lemma_pdeg_range(y);
    if pdeg(x) < 419 && pdeg(y) < 419 {
        assert forall|k: int| k >= 419 implies !pb(padd(x, y), k) by {
            lemma_pdeg_max(x, k);
            lemma_pdeg_max(y, k);
        }
        lemma_pdeg_upper(padd(x, y), 419);
        lemma_preduce_id(padd(x, y));
        lemma_preduce_id(x);
        lemma_preduce_id(y);
        assert(padd(x, y) =~= padd(preduce(x), preduce(y)));
    } else if pdeg(x) >= 419 {
        let s = pdeg(x) - 419;
        let x2 = pmodstep(x);
        lemma_pmodstep_deg(x);
        lemma_pdeg_range(x2);
        assert(padd(x, y) =~= padd(padd(x2, y), pmt(s)));
        lemma_preduce_add_mod(padd(x2, y), s);
        lemma_preduce_linear(x2, y);
        lemma_preduce_unfold(x);
    } else {
        let s = pdeg(y) - 419;
        let y2 = pmodstep(y);
        lemma_pmodstep_deg(y);
        lemma_pdeg_range(y2);
        assert(padd(x, y) =~= padd(padd(x, y2), pmt(s)));
        lemma_preduce_add_mod(padd(x, y2), s);
        lemma_preduce_linear(x, y2);
        lemma_preduce_unfold(y);
    }
}


// ---------------------------------------------------------------------------
// Convolution: dropped terms, linearity, commutativity, identity
// ---------------------------------------------------------------------------

/// Terms that cannot contribute may be dropped from the convolution sum.
pub proof fn lemma_conv_drop(a: Seq<bool>, b: Seq<bool>, k: int, n1: int, n2: int)
    requires
        0 <= n1 <= n2,
        forall|i: int| n1 <= i < n2 ==> !(#[trigger] pb(a, i) && pb(b, k - i)),
    ensures
        conv_upto(a, b, k, n2) == conv_upto(a, b, k, n1),
    decreases n2,
{
    if n2 > n1 {
        lemma_conv_drop(a, b, k, n1, n2 - 1);
    }
}

/// The convolution is linear in its first argument.
proof fn lemma_conv_linear_left(a: Seq<bool>, b: Seq<bool>, c: Seq<bool>, k: int, n: int)
    requires
        n <= 896,
    ensures
        conv_upto(padd(a, b), c, k, n) == (conv_upto(a, c, k, n) != conv_upto(b, c, k, n)),
    decreases n,
{
    if n > 0 {
        lemma_conv_linear_left(a, b, c, k, n - 1);
        assert(pb(padd(a, b), n - 1) == (pb(a, n - 1) != pb(b, n - 1)));
    }
}

/// The convolution is linear in its second argument.
proof fn lemma_conv_linear_right(a: Seq<bool>, b: Seq<bool>, c: Seq<bool>, k: int, n: int)
    requires
        b.len() <= 896,
        c.len() <= 896,
    ensures
        conv_upto(a, padd(b, c), k, n) == (conv_upto(a, b, k, n) != conv_upto(a, c, k, n)),
    decreases n,
{
    if n > 0 {
        lemma_conv_linear_right(a, b, c, k, n - 1);
        let j = k - (n - 1);
        assert(pb(padd(b, c), j) == (pb(b, j) != pb(c, j)));
    }
}

/// Multiplying by the constant 1 on the right leaves every coefficient.
proof fn lemma_conv_one_right(a: Seq<bool>, k: int, n: int)
    ensures
        conv_upto(a, pone(), k, n) == (0 <= k < n && pb(a, k)),
    decreases n,
{
    if n > 0 {
        lemma_conv_one_right(a, k, n - 1);
        assert(pb(pone(), k - (n - 1)) == (k == n - 1));
    }
}

/// Multiplying by the constant 1 on the left leaves every coefficient.
proof fn lemma_conv_one_left(a: Seq<bool>, k: int, n: int)
    ensures
        conv_upto(pone(), a, k, n) == (n >= 1 && pb(a, k)),
    decreases n,
{
    if n > 0 {
        lemma_conv_one_left(a, k, n - 1);
        assert(pb(pone(), n - 1) == (n - 1 == 0));
    }
}

/// Summing the first `m` terms of one order equals the full sum of the other
/// order minus its first `k + 1 - m` terms: the substitution `i -> k - i`.
proof fn lemma_conv_rev(a: Seq<bool>, b: Seq<bool>, k: int, m: int)
    requires
        0 <= m <= k + 1,
    ensures
        conv_upto(a, b, k, m) == (conv_upto(b, a, k, k + 1) != conv_upto(b, a, k, k + 1 - m)),
    decreases m,
{
    if m > 0 {
        lemma_conv_rev(a, b, k, m - 1);
        assert(conv_upto(b, a, k, k + 2 - m) == (conv_upto(b, a, k, k + 1 - m) != (pb(b, k + 1 - m)
            && pb(a, k - (k + 1 - m)))));
    }
}

/// The convolution sum over all contributing terms is symmetric.
proof fn lemma_conv_comm(a: Seq<bool>, b: Seq<bool>, k: int)
    requires
        0 <= k,
    ensures
        conv_upto(a, b, k, k + 1) == conv_upto(b, a, k, k + 1),
{
    lemma_conv_rev(a, b, k, k + 1);
}

/// Carry-less multiplication is commutative.
pub proof fn lemma_pconv_comm(a: Seq<bool>, b: Seq<bool>)
    ensures
        pconv(a, b) == pconv(b, a),
{
    assert forall|k: int| 0 <= k < 896 implies pconv(a, b)[k] == pconv(b, a)[k] by {
        lemma_conv_drop(a, b, k, k + 1, 896);
        lemma_conv_drop(b, a, k, k + 1, 896);
        lemma_conv_comm(a, b, k);
    }
    assert(pconv(a, b) =~= pconv(b, a));
}

// ---------------------------------------------------------------------------
// Field laws provable at the model level
// ---------------------------------------------------------------------------

/// Multiplying a canonical element by the identity gives it back, on
/// either side.
pub proof fn lemma_pmulred_one(a: Seq<bool>)
    requires
        a.len() == 896,
        pdeg(a) < 419,
    ensures
        pmulred(a, pone()) == a,
        pmulred(pone(), a) == a,
{
    assert forall|k: int| 0 <= k < 896 implies pconv(a, pone())[k] == a[k] by {
        lemma_conv_one_right(a, k, 896);
    }
    assert(pconv(a, pone()) =~= a);
    assert forall|k: int| 0 <= k < 896 implies pconv(pone(), a)[k] == a[k] by {
        lemma_conv_one_left(a, k, 896);
    }
    assert(pconv(pone(), a) =~= a);
    lemma_preduce_id(a);
}

/// The field product distributes over addition.
pub proof fn lemma_pmulred_distrib(a: Seq<bool>, b: Seq<bool>, c: Seq<bool>)
    ensures
        pmulred(padd(a, b), c) == padd(pmulred(a, c), pmulred(b, c)),
{
    assert forall|k: int| 0 <= k < 896 implies pconv(padd(a, b), c)[k] == (pconv(a, c)[k]
        != pconv(b, c)[k]) by {
        lemma_conv_linear_left(a, b, c, k, 896);
    }
    assert(pconv(padd(a, b), c) =~= padd(pconv(a, c), pconv(b, c)));
    lemma_preduce_linear(pconv(a, c), pconv(b, c));
}

/// The field product is commutative.
pub proof fn lemma_pmulred_comm(a: Seq<bool>, b: Seq<bool>)
    ensures
        pmulred(a, b) == pmulred(b, a),
{
    lemma_pconv_comm(a, b);
}

/// Squaring is linear in characteristic 2: the cross terms of
/// `(a + b)^2` cancel.
pub proof fn lemma_psqr_linear(a: Seq<bool>, b: Seq<bool>)
    requires
        a.len() == 896,
        b.len() == 896,
    ensures
        psqr(padd(a, b)) == padd(psqr(a), psqr(b)),
{
    let ab = padd(a, b);
    assert forall|k: int| 0 <= k < 896 implies pconv(ab, ab)[k] == (pconv(a, a)[k] != pconv(
        b,
        b,
    )[k]) by {
        lemma_conv_linear_left(a, b, ab, k, 896);
        lemma_conv_linear_right(a, a, b, k, 896);
        lemma_conv_linear_right(b, a, b, k, 896);
        lemma_conv_drop(a, b, k, k + 1, 896);
        lemma_conv_drop(b, a, k, k + 1, 896);
        lemma_conv_comm(a, b, k);
    }
    assert(pconv(ab, ab) =~= padd(pconv(a, a), pconv(b, b)));
    lemma_preduce_linear(pconv(a, a), pconv(b, b));
}


// ---------------------------------------------------------------------------
// Addition chains: trace, inversion, half-trace, exponentiation
// ---------------------------------------------------------------------------

/// Accumulator of the Horner-style trace chain after `i` squarings:
/// step 1 is the initial squaring of `a`; each later step XORs `a` back
/// in and squares.
pub open spec fn trace_acc(a: Seq<bool>, i: int) -> Seq<bool>
    decreases i,
{
    if i <= 1 {
        psqr(a)
    } else {
        psqr(padd(trace_acc(a, i - 1), a))
    }
}

/// The trace map `Tr(a) = a + a^2 + a^4 + ... + a^(2^418)`, evaluated by
/// the fixed 418-step squaring chain.
pub open spec fn ptrace(a: Seq<bool>) -> Seq<bool> {
    padd(trace_acc(a, 418), a)
}

/// Accumulator of the inversion chain: starts at `a^2`; each later step
/// multiplies by `a` and squares.
pub open spec fn inv_acc(a: Seq<bool>, i: int) -> Seq<bool>
    decreases i,
{
    if i <= 1 {
        psqr(a)
    } else {
        psqr(pmulred(inv_acc(a, i - 1), a))
    }
}

/// `a^(2^419 - 2)`, the multiplicative inverse of nonzero `a`, via
/// 418 squarings and 417 multiplications.
pub open spec fn pinverse(a: Seq<bool>) -> Seq<bool> {
    inv_acc(a, 418)
}

/// The running Frobenius power `c^(2^i)`.
pub open spec fn ht_pow(c: Seq<bool>, i: int) -> Seq<bool>
    decreases i,
{
    if i <= 0 {
        c
    } else {
        psqr(ht_pow(c, i - 1))
    }
}

/// Partial half-trace sum: XOR of the powers `c^(2^j)` for even `j < i`.
pub open spec fn ht_acc(c: Seq<bool>, i: int) -> Seq<bool>
    decreases i,
{
    if i <= 0 {
        pzero()
    } else if (i - 1) % 2 == 0 {
        padd(ht_acc(c, i - 1), ht_pow(c, i - 1))
    } else {
        ht_acc(c, i - 1)
    }
}

/// The half-trace `H(c) = sum of c^(4^j) for 0 <= j <= 209`, which solves
/// `z^2 + z = c` whenever `Tr(c) = 0` (M is odd).
pub open spec fn phalftrace(c: Seq<bool>) -> Seq<bool> {
    ht_acc(c, 419)
}

/// Square-and-multiply accumulator after the top `j` bits of the
/// exponent (whose highest set bit is `h`) have been processed: at each
/// bit multiply by `a` if the bit is set, then square unless the bit is
/// the lowest one.
pub open spec fn pow_chain(a: Seq<bool>, eb: Seq<bool>, h: int, j: int) -> Seq<bool>
    decreases j,
{
    if j <= 0 {
        pone()
    } else {
        let prev = pow_chain(a, eb, h, j - 1);
        let i = h + 1 - j;
        let m = if pb(eb, i) {
            pmulred(prev, a)
        } else {
            prev
        };
        if i > 0 {
            pmulred(m, m)
        } else {
            m
        }
    }
}

/// Left-to-right binary exponentiation of `a` by the exponent with bit
/// sequence `eb` (bit 0 least significant); the zero exponent gives 1.
pub open spec fn ppow(a: Seq<bool>, eb: Seq<bool>) -> Seq<bool> {
    if pis_zero(eb) {
        pone()
    } else {
        pow_chain(a, eb, pdeg(eb), pdeg(eb) + 1)
    }
}

/// The transformed constant of the quadratic solver: `b / a^2`.
pub open spec fn solve_c(a: Seq<bool>, b: Seq<bool>) -> Seq<bool> {
    pmulred(b, pinverse(psqr(a)))
}

} // verus!


