//! The quadratic equation solver used for binary-curve point
//! decompression: solves `x^2 + a*x + b = 0` over the field via the
//! half-trace, or reports that no root exists.

use vstd::prelude::*;

use crate::GF2Element;
use crate::poly::{pzero, pone, padd, pmulred, ht_pow, ht_acc, phalftrace, ptrace, solve_c};

verus! {

/// Failure of the quadratic solver.
#[derive(Debug, PartialEq, Eq, PartialOrd, Structural)]
pub enum SolveEqError {
    /// The compatibility condition failed: the trace of the transformed
    /// constant is nonzero, so the equation has no root in the field.
    NoSolution,
}

impl SolveEqError {
    /// A human-readable rendering of the error.
    pub fn message(&self) -> (r: &'static str) {
        match self {
            SolveEqError::NoSolution => "This equation has no solution",
        }
    }
}

/// The half-trace `H(c) = sum of c^(4^i) for 0 <= i <= (M-1)/2`: the sum
/// of the even Frobenius powers of `c`.  Solves `z^2 + z = c` whenever
/// `Tr(c) = 0` (the two roots being `H(c)` and `H(c) + 1`).
pub fn halftrace(el: &GF2Element) -> (r: GF2Element)
    requires
        el.wf(),
    ensures
        r.wf(),
        r@ == phalftrace(el@),
{
    let mut sdata: Vec<u64> = Vec::new();
    let mut w: usize = 0;
    while w < 7
        invariant
            w <= 7,
            el.wf(),
            sdata@.len() == w,
            forall|q: int| 0 <= q < w ==> sdata@[q] == el.data@[q],
        decreases 7 - w,
    {
        sdata.push(el.data[w]);
        w = w + 1;
    }
    let mut s = GF2Element { data: sdata };
    proof {
        assert(s.data@ =~= el.data@);
        assert(s@ == el@);
    }
    let mut out = GF2Element::zero();
    let mut i: usize = 0;
    while i < 419
        invariant
            i <= 419,
            el.wf(),
            s.wf(),
            out.wf(),
            s@ == ht_pow(el@, i as int),
            out@ == ht_acc(el@, i as int),
        decreases 419 - i,
    {
        if i % 2 == 0 {
            out = out.add(&s);
        }
        s = s.sqr();
        proof {
            assert(out@ == ht_acc(el@, i + 1));
            assert(s@ == ht_pow(el@, i + 1));
        }
        i = i + 1;
    }
    out
}

/// Solves `x^2 + a*x + b = 0` for nonzero `a`: substitutes `x = a*z`,
/// reducing to `z^2 + z = b / a^2`, and answers both roots or
/// `NoSolution` exactly when the trace of the transformed constant is
/// nonzero.  For `a` equal to zero no root can be meant (the reduction
/// divides by `a^2`); the chain is still evaluated and its exact —
/// degenerate — value is returned, as the contract states.
pub fn solve(a: &GF2Element, b: &GF2Element) -> (r: Result<
    (GF2Element, GF2Element),
    SolveEqError,
>)
    requires
        a.wf(),
        b.wf(),
    ensures
        match r {
            Result::Err(e) => e == SolveEqError::NoSolution && ptrace(solve_c(a@, b@)) != pzero(),
            Result::Ok(roots) => ptrace(solve_c(a@, b@)) == pzero() && roots.0.wf() && roots.1.wf()
                && roots.0@ == pmulred(phalftrace(solve_c(a@, b@)), a@) && roots.1@ == pmulred(
                padd(phalftrace(solve_c(a@, b@)), pone()),
                a@,
            ),
        },
{
    let c = b.mul(&a.sqr().inverse());
    let t = c.trace();
    if !t.is_zero() {
        return Err(SolveEqError::NoSolution);
    }
    let z1 = halftrace(&c);
    let z2 = z1.add(&GF2Element::one());
    let x1 = z1.mul(a);
    let x2 = z2.mul(a);
    Ok((x1, x2))
}

} // verus!
