//! Arithmetic in the binary extension field GF(2^419): fixed-width
//! polynomials over GF(2) reduced modulo `x^419 + x^21 + x^14 + x + 1`.
//!
//! Elements are seven little-endian 64-bit words; every public operation
//! keeps the canonical-form invariant that the stored polynomial has
//! degree below 419.

use vstd::prelude::*;

pub mod bits;
pub mod display;
pub mod from_str;
pub mod laws;
pub mod poly;
pub mod solve_sq_eq;

use crate::bits::{wbit, poly_bits, word_bits, pb, pdeg, get_bit, flip_bit, xor_words, shl1,
    scan_down, lemma_pb_poly_bits, lemma_pdeg_same_bits, lemma_pdeg_range, lemma_pdeg_max,
    lemma_pdeg_upper, lemma_pdeg_zero};
use crate::poly::{pzero, pone, padd, pmodbit, pmodstep, preduce, conv_upto, pconv, pmulred, psqr,
    pis_zero, lemma_pmodstep_deg, lemma_preduce_unfold, lemma_preduce_id, lemma_preduce_deg,
    lemma_conv_drop, trace_acc, ptrace, inv_acc, pinverse, pow_chain, ppow};

verus! {

/// Degree of the field extension.
pub const M: usize = 419;

/// Number of 64-bit words needed to store an element.
pub const DIM: usize = (M + 63) / 64;

/// Degree of the reduction polynomial (equal to the field degree).
pub const MOD_DEG: usize = 419;

/// A field element: the coefficient words of a polynomial over GF(2),
/// word `i` bit `j` holding the coefficient of `x^(64*i + j)`.
#[derive(Debug, Clone)]
pub struct GF2Element {
    /// Coefficient words, little-endian; callers that build a value by
    /// hand must route raw words through [`modulo`] to restore the
    /// degree invariant.
    pub data: Vec<u64>,
}

impl View for GF2Element {
    type V = Seq<bool>;

    open spec fn view(&self) -> Seq<bool> {
        poly_bits(self.data@)
    }
}

impl GF2Element {
    /// Canonical form: seven stored words and degree below `M`.
    pub open spec fn wf(&self) -> bool {
        self.data@.len() == 7 && pdeg(self@) < 419
    }

    /// The additive identity: the zero polynomial.
    pub fn zero() -> (r: Self)
        ensures
            r.wf(),
            r@ == pzero(),
    {
        Self::new()
    }

    /// The multiplicative identity: the constant polynomial 1.
    pub fn one() -> (r: Self)
        ensures
            r.wf(),
            r@ == pone(),
    {
        let mut data: Vec<u64> = Vec::new();
        data.push(1u64);
        let mut i: usize = 1;
        while i < 7
            invariant
                1 <= i <= 7,
                data@.len() == i,
                data@[0] == 1u64,
                forall|q: int| 1 <= q < i ==> data@[q] == 0u64,
            decreases 7 - i,
        {
            data.push(0u64);
            i = i + 1;
        }
        let r = GF2Element { data };
        proof {
            lemma_nth_word_zero();
            lemma_nth_word_one();
            assert(r@ =~= pone()) by {
                assert forall|k: int| 0 <= k < 896 implies wbit(r.data@, k) == (k == 0) by {
                    vstd::arithmetic::div_mod::lemma_fundamental_div_mod(k, 64);
                }
            }
            assert(pb(r@, 0));
            assert forall|k: int| k >= 1 implies !pb(r@, k) by {}
            lemma_pdeg_upper(r@, 1);
        }
        r
    }

    /// A fresh zero element.
    pub fn new() -> (r: Self)
        ensures
            r.wf(),
            r@ == pzero(),
    {
        let mut data: Vec<u64> = Vec::new();
        let mut i: usize = 0;
        while i < 7
            invariant
                i <= 7,
                data@.len() == i,
                forall|q: int| 0 <= q < i ==> data@[q] == 0u64,
            decreases 7 - i,
        {
            data.push(0u64);
            i = i + 1;
        }
        let r = GF2Element { data };
        proof {
            lemma_nth_word_zero();
            assert(r@ =~= pzero());
            assert forall|k: int| !pb(r@, k) by {}
            lemma_pdeg_zero(r@);
        }
        r
    }

    /// Field addition: coefficient-wise XOR.  Cannot raise the degree, so
    /// the result stays canonical without reduction.
    pub fn add(&self, other: &Self) -> (r: Self)
        requires
            self.wf(),
            other.wf(),
        ensures
            r.wf(),
            r@ == padd(self@, other@),
    {
        let data = xor_words(&self.data, &other.data);
        let r = GF2Element { data };
        proof {
            lemma_pb_poly_bits(self.data@);
            lemma_pb_poly_bits(other.data@);
            lemma_pb_poly_bits(r.data@);
            assert(r@ =~= padd(self@, other@));
            assert forall|k: int| k >= 419 implies !pb(r@, k) by {
                lemma_pdeg_max(self@, k);
                lemma_pdeg_max(other@, k);
            }
            lemma_pdeg_upper(r@, 419);
        }
        r
    }

    /// Reads the coefficient of `x^n`.
    pub fn get_coef(&self, n: usize) -> (r: bool)
        requires
            self.data@.len() == 7,
            n < 448,
        ensures
            r == pb(self@, n as int),
    {
        proof {
            lemma_pb_poly_bits(self.data@);
        }
        get_bit(self.data.as_slice(), n)
    }

    /// Degree of this element's polynomial (0 both for zero and for the
    /// constant 1).
    pub fn deg(&self) -> (r: usize)
        requires
            self.data@.len() == 7,
        ensures
            r == pdeg(self@),
    {
        let r = deg(self.data.as_slice());
        proof {
            lemma_pb_poly_bits(self.data@);
            lemma_pdeg_same_bits(word_bits(self.data@), self@);
        }
        r
    }
}

proof fn lemma_nth_word_zero()
    by (bit_vector)
    ensures
        forall|j: u64| !(#[trigger] crate::bits::nth_bit(0u64, j)),
{
}

proof fn lemma_nth_word_one()
    by (bit_vector)
    ensures
        forall|j: u64| (#[trigger] crate::bits::nth_bit(1u64, j)) == (j == 0),
{
}

/// Degree of the polynomial held in a word slice: the index of its
/// highest set bit, or 0 for the all-zero slice (which is thus reported
/// like the constant 1; callers must test for all-zero separately).
pub fn deg(arr: &[u64]) -> (r: usize)
    requires
        1 <= arr@.len(),
        arr@.len() * 64 <= usize::MAX,
    ensures
        r == pdeg(word_bits(arr@)),
{
    let n: usize = arr.len();
    scan_down(arr, n * 64 - 1)
}

/// Canonical reduction: maps a double-width (fourteen-word) polynomial to
/// the unique congruent representative of degree below `M`, by repeatedly
/// XOR-ing in the field polynomial shifted to match the leading term.
pub fn modulo(x: &Vec<u64>) -> (r: Vec<u64>)
    requires
        x@.len() == 14,
    ensures
        r@.len() == 7,
        poly_bits(r@) == preduce(poly_bits(x@)),
        pdeg(poly_bits(r@)) < 419,
{
    let mut cur: Vec<u64> = Vec::new();
    let mut i: usize = 0;
    while i < 14
        invariant
            i <= 14,
            x@.len() == 14,
            cur@.len() == i,
            forall|q: int| 0 <= q < i ==> cur@[q] == x@[q],
        decreases 14 - i,
    {
        cur.push(x[i]);
        i = i + 1;
    }
    proof {
        assert(cur@ =~= x@);
    }
    let mut d: usize = scan_down(cur.as_slice(), 895);
    proof {
        lemma_pdeg_same_bits(word_bits(cur@), poly_bits(cur@));
    }
    while d >= 419
        invariant
            cur@.len() == 14,
            d == pdeg(poly_bits(cur@)),
            preduce(poly_bits(cur@)) == preduce(poly_bits(x@)),
        decreases d,
    {
        let ghost before = poly_bits(cur@);
        proof {
            lemma_pdeg_range(before);
        }
        let t: usize = d - 419;
        flip_bit(&mut cur, t);
        flip_bit(&mut cur, t + 1);
        flip_bit(&mut cur, t + 14);
        flip_bit(&mut cur, t + 21);
        flip_bit(&mut cur, t + 419);
        proof {
            assert(poly_bits(cur@) =~= pmodstep(before)) by {
                assert forall|k: int| 0 <= k < 896 implies wbit(cur@, k) == (pb(before, k)
                    != pmodbit(k - t)) by {}
            }
            lemma_pmodstep_deg(before);
            lemma_preduce_unfold(before);
            lemma_pdeg_range(poly_bits(cur@));
            assert forall|k: int| (d - 1) < k < cur@.len() * 64 implies !wbit(cur@, k) by {
                lemma_pdeg_max(poly_bits(cur@), k);
            }
        }
        let nd: usize = scan_down(cur.as_slice(), d - 1);
        proof {
            lemma_pdeg_same_bits(word_bits(cur@), poly_bits(cur@));
        }
        d = nd;
    }
    let mut r: Vec<u64> = Vec::new();
    let mut j: usize = 0;
    while j < 7
        invariant
            j <= 7,
            cur@.len() == 14,
            r@.len() == j,
            forall|q: int| 0 <= q < j ==> r@[q] == cur@[q],
        decreases 7 - j,
    {
        r.push(cur[j]);
        j = j + 1;
    }
    proof {
        assert(poly_bits(r@) =~= poly_bits(cur@)) by {
            assert forall|k: int| 0 <= k < 896 implies wbit(r@, k) == wbit(cur@, k) by {
                vstd::arithmetic::div_mod::lemma_fundamental_div_mod(k, 64);
                if k >= 448 {
                    lemma_pdeg_max(poly_bits(cur@), k);
                }
            }
        }
        lemma_preduce_id(poly_bits(cur@));
    }
    r
}


impl GF2Element {
    /// Field multiplication: the carry-less convolution of the two
    /// operands, reduced to canonical form.  Implemented by shift-and-XOR
    /// accumulation over the bits of `self`.
    pub fn mul(&self, other: &Self) -> (r: Self)
        requires
            self.wf(),
            other.wf(),
        ensures
            r.wf(),
            r@ == pmulred(self@, other@),
    {
        let mut temp: Vec<u64> = Vec::new();
        let mut i: usize = 0;
        while i < 14
            invariant
                i <= 14,
                temp@.len() == i,
                forall|q: int| 0 <= q < i ==> temp@[q] == 0u64,
            decreases 14 - i,
        {
            temp.push(0u64);
            i = i + 1;
        }
        let mut bs: Vec<u64> = Vec::new();
        let mut j: usize = 0;
        while j < 7
            invariant
                j <= 7,
                self.wf(),
                other.wf(),
                bs@.len() == j,
                forall|q: int| 0 <= q < j ==> bs@[q] == other.data@[q],
            decreases 7 - j,
        {
            bs.push(other.data[j]);
            j = j + 1;
        }
        while j < 14
            invariant
                7 <= j <= 14,
                bs@.len() == j,
                forall|q: int| 0 <= q < 7 ==> bs@[q] == other.data@[q],
                forall|q: int| 7 <= q < j ==> bs@[q] == 0u64,
            decreases 14 - j,
        {
            bs.push(0u64);
            j = j + 1;
        }
        proof {
            lemma_nth_word_zero();
            lemma_pb_poly_bits(self.data@);
            lemma_pb_poly_bits(other.data@);
            assert forall|k: int| 0 <= k < 896 implies wbit(temp@, k) == conv_upto(
                self@, other@, k, 0) by {
                vstd::arithmetic::div_mod::lemma_fundamental_div_mod(k, 64);
            }
            assert forall|k: int| 0 <= k < 896 implies wbit(bs@, k) == pb(other@, k) by {
                vstd::arithmetic::div_mod::lemma_fundamental_div_mod(k, 64);
            }
        }
        let mut i2: usize = 0;
        while i2 < 448
            invariant
                i2 <= 448,
                self.wf(),
                other.wf(),
                temp@.len() == 14,
                bs@.len() == 14,
                forall|k: int|
                    0 <= k < 896 ==> #[trigger] wbit(bs@, k) == pb(other@, k - i2),
                forall|k: int|
                    0 <= k < 896 ==> #[trigger] wbit(temp@, k) == conv_upto(
                        self@, other@, k, i2 as int),
            decreases 448 - i2,
        {
            let abit = get_bit(self.data.as_slice(), i2);
            if abit {
                temp = xor_words(&temp, &bs);
            }
            bs = shl1(&bs);
            proof {
                lemma_pb_poly_bits(self.data@);
                assert forall|k: int| 0 <= k < 896 implies #[trigger] wbit(bs@, k) == pb(
                    other@, k - (i2 + 1)) by {}
                assert forall|k: int| 0 <= k < 896 implies #[trigger] wbit(temp@, k) == conv_upto(
                    self@, other@, k, i2 + 1) by {
                    assert(conv_upto(self@, other@, k, i2 + 1) == (conv_upto(self@, other@, k,
                        i2 as int) != (pb(self@, i2 as int) && pb(other@, k - i2))));
                }
            }
            i2 = i2 + 1;
        }
        proof {
            lemma_pb_poly_bits(self.data@);
            assert forall|k: int| 0 <= k < 896 implies #[trigger] wbit(temp@, k) == conv_upto(
                self@, other@, k, 896) by {
                lemma_conv_drop(self@, other@, k, 448, 896);
            }
            assert(poly_bits(temp@) =~= pconv(self@, other@));
        }
        let data = modulo(&temp);
        let r = GF2Element { data };
        proof {
            lemma_preduce_deg(pconv(self@, other@));
        }
        r
    }

    /// Field squaring, defined as multiplication by self.
    pub fn sqr(&self) -> (r: Self)
        requires
            self.wf(),
        ensures
            r.wf(),
            r@ == psqr(self@),
    {
        self.mul(self)
    }

    /// True exactly when this is the zero element.
    pub fn is_zero(&self) -> (r: bool)
        requires
            self.data@.len() == 7,
        ensures
            r == (self@ == pzero()),
    {
        let mut k: usize = 0;
        while k < 448
            invariant
                k <= 448,
                self.data@.len() == 7,
                forall|q: int| 0 <= q < k ==> !wbit(self.data@, q),
            decreases 448 - k,
        {
            if get_bit(self.data.as_slice(), k) {
                proof {
                    lemma_pb_poly_bits(self.data@);
                    assert(self@[k as int] == true);
                    assert(pzero()[k as int] == false);
                }
                return false;
            }
            k = k + 1;
        }
        proof {
            lemma_pb_poly_bits(self.data@);
            assert(self@ =~= pzero());
        }
        true
    }
}

impl PartialEq for GF2Element {
    /// Elements are equal exactly when their word sequences are equal.
    fn eq(&self, other: &Self) -> (r: bool) {
        let n: usize = self.data.len();
        if n != other.data.len() {
            return false;
        }
        let mut i: usize = 0;
        while i < n
            invariant
                i <= n,
                n == self.data@.len(),
                n == other.data@.len(),
                forall|q: int| 0 <= q < i ==> self.data@[q] == other.data@[q],
            decreases n - i,
        {
            if self.data[i] != other.data[i] {
                return false;
            }
            i = i + 1;
        }
        proof {
            assert(self.data@ =~= other.data@);
        }
        true
    }
}

impl Eq for GF2Element {

}

impl vstd::std_specs::cmp::PartialEqSpecImpl for GF2Element {
    open spec fn obeys_eq_spec() -> bool {
        true
    }

    open spec fn eq_spec(&self, other: &Self) -> bool {
        self.data@ == other.data@
    }
}


impl GF2Element {
    /// The trace map `Tr(a) = a + a^2 + ... + a^(2^418)`, computed by the
    /// Horner-style chain `out = a^2; repeat out = (out + a)^2; out + a`.
    pub fn trace(&self) -> (r: Self)
        requires
            self.wf(),
        ensures
            r.wf(),
            r@ == ptrace(self@),
    {
        let mut out = self.sqr();
        let mut i: usize = 2;
        while i < 419
            invariant
                2 <= i <= 419,
                self.wf(),
                out.wf(),
                out@ == trace_acc(self@, i - 1),
            decreases 419 - i,
        {
            out = out.add(self).sqr();
            i = i + 1;
        }
        out.add(self)
    }

    /// The multiplicative inverse `a^(2^419 - 2)` of a nonzero element,
    /// as the fixed chain of 418 squarings and 417 multiplications.
    /// The zero element has no inverse; as in the rest of this library the
    /// chain is still evaluated and silently yields zero, which is not an
    /// inverse of anything.
    pub fn inverse(&self) -> (r: Self)
        requires
            self.wf(),
        ensures
            r.wf(),
            r@ == pinverse(self@),
    {
        let mut out = self.sqr();
        let mut i: usize = 2;
        while i < 419
            invariant
                2 <= i <= 419,
                self.wf(),
                out.wf(),
                out@ == inv_acc(self@, i - 1),
            decreases 419 - i,
        {
            out = out.mul(self).sqr();
            i = i + 1;
        }
        out
    }

    /// Left-to-right binary exponentiation by an arbitrary-precision
    /// unsigned exponent, handed over as little-endian 64-bit words.
    /// The zero exponent gives 1, also for the zero base.
    pub fn pow(&self, e: &Vec<u64>) -> (r: Self)
        requires
            self.wf(),
            e@.len() * 64 <= usize::MAX,
        ensures
            r.wf(),
            r@ == ppow(self@, word_bits(e@)),
    {
        let ghost eb = word_bits(e@);
        proof {
            crate::bits::lemma_pb_word_bits(e@);
        }
        match highest_set_bit(e.as_slice()) {
            Option::None => {
                proof {
                    assert(pis_zero(eb));
                }
                Self::one()
            },
            Option::Some(h) => {
                proof {
                    crate::bits::lemma_pdeg_found(eb, h as int);
                    assert(pb(eb, h as int));
                    assert(!pis_zero(eb));
                }
                let mut result = Self::one();
                let mut j: usize = 0;
                while j < h
                    invariant
                        j <= h,
                        h < e@.len() * 64,
                        eb == word_bits(e@),
                        forall|k: int| #[trigger] pb(eb, k) == wbit(e@, k),
                        self.wf(),
                        result.wf(),
                        result@ == pow_chain(self@, eb, h as int, j as int),
                    decreases h - j,
                {
                    let i = h - j;
                    if get_bit(e.as_slice(), i) {
                        result = result.mul(self);
                    }
                    result = result.sqr();
                    proof {
                        assert(h as int + 1 - (j + 1) == i);
                        assert(result@ == pow_chain(self@, eb, h as int, j + 1));
                    }
                    j = j + 1;
                }
                if get_bit(e.as_slice(), 0) {
                    result = result.mul(self);
                }
                proof {
                    assert(h as int + 1 - (h + 1) == 0);
                    assert(result@ == pow_chain(self@, eb, h as int, h + 1));
                }
                result
            },
        }
    }
}

/// Index of the highest set bit of a word slice, or `None` when every
/// bit is clear (distinguishing zero from the constant 1, which `deg`
/// alone cannot).
fn highest_set_bit(w: &[u64]) -> (r: Option<usize>)
    requires
        w@.len() * 64 <= usize::MAX,
    ensures
        match r {
            Option::None => pis_zero(word_bits(w@)),
            Option::Some(h) => h < w@.len() * 64 && wbit(w@, h as int) && forall|k: int|
                k > h ==> !wbit(w@, k),
        },
{
    if w.len() == 0 {
        return None;
    }
    let d = scan_down(w, w.len() * 64 - 1);
    proof {
        crate::bits::lemma_pb_word_bits(w@);
        lemma_pdeg_range(word_bits(w@));
        crate::bits::lemma_pdeg_bit(word_bits(w@));
    }
    if get_bit(w, d) {
        proof {
            assert forall|k: int| k > d implies !wbit(w@, k) by {
                if 0 <= k < w@.len() * 64 {
                    lemma_pdeg_max(word_bits(w@), k);
                }
            }
        }
        Some(d)
    } else {
        proof {
            assert forall|k: int| !pb(word_bits(w@), k) by {
                if 0 < k < w@.len() * 64 {
                    if wbit(w@, k) {
                        crate::bits::lemma_pdeg_witness(word_bits(w@), k);
                    }
                }
            }
        }
        None
    }
}


/// The coefficient words of the reduction polynomial
/// `x^419 + x^21 + x^14 + x + 1`, little-endian.
pub fn field_modulus() -> (r: Vec<u64>)
    ensures
        r@.len() == 7,
        forall|k: int| #[trigger] wbit(r@, k) == pmodbit(k),
{
    let mut r: Vec<u64> = Vec::new();
    r.push(0x204003u64);
    let mut i: usize = 1;
    while i < 6
        invariant
            1 <= i <= 6,
            r@.len() == i,
            r@[0] == 0x204003u64,
            forall|q: int| 1 <= q < i ==> r@[q] == 0u64,
        decreases 6 - i,
    {
        r.push(0u64);
        i = i + 1;
    }
    r.push(0x800000000u64);
    proof {
        lemma_nth_word_zero();
        assert(forall|j: u64| (#[trigger] crate::bits::nth_bit(0x204003u64, j)) == (j == 0 || j
            == 1 || j == 14 || j == 21)) by (bit_vector);
        assert(forall|j: u64| (#[trigger] crate::bits::nth_bit(0x800000000u64, j)) == (j
            == 35)) by (bit_vector);
        assert forall|k: int| #[trigger] wbit(r@, k) == pmodbit(k) by {
            if 0 <= k < 448 {
                vstd::arithmetic::div_mod::lemma_fundamental_div_mod(k, 64);
            }
        }
    }
    r
}

} // verus!



