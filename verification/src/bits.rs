//! Bit-level view of little-endian `u64` word vectors.
//!
//! A word vector encodes a polynomial over GF(2): word `i`, bit `j`
//! (0-indexed from the low end) holds the coefficient of `x^(64*i + j)`.
//! Everything the field engine proves is stated over this bit view.

use vstd::prelude::*;

verus! {

/// Bit `j` of the single word `w`, `false` outside `0..64`.
pub open spec fn nth_bit(w: u64, j: u64) -> bool {
    j < 64 && ((w >> j) & 1u64) == 1u64
}

/// Bit `k` of a word vector, `false` outside the stored range.
pub open spec fn wbit(w: Seq<u64>, k: int) -> bool {
    0 <= k < w.len() * 64 && nth_bit(w[k / 64], (k % 64) as u64)
}

/// The full bit sequence encoded by a word vector.
pub open spec fn word_bits(w: Seq<u64>) -> Seq<bool> {
    Seq::new((w.len() * 64) as nat, |k: int| wbit(w, k))
}

/// Total bit accessor for a bit sequence: `false` outside its range.
pub open spec fn pb(s: Seq<bool>, k: int) -> bool {
    0 <= k < s.len() && s[k]
}

proof fn lemma_nth_xor()
    by (bit_vector)
    ensures
        forall|x: u64, y: u64, j: u64|
            j < 64 ==> (#[trigger] nth_bit(x ^ y, j)) == (nth_bit(x, j) != nth_bit(y, j)),
{
}

proof fn lemma_nth_flip()
    by (bit_vector)
    ensures
        forall|x: u64, i: u64, j: u64|
            i < 64 && j < 64 ==> (#[trigger] nth_bit(x ^ (1u64 << i), j)) == (if i == j {
                !nth_bit(x, j)
            } else {
                nth_bit(x, j)
            }),
{
}

proof fn lemma_nth_set()
    by (bit_vector)
    ensures
        forall|x: u64, i: u64, j: u64|
            i < 64 && j < 64 ==> (#[trigger] nth_bit(x | (1u64 << i), j)) == (i == j || nth_bit(
                x,
                j,
            )),
{
}

proof fn lemma_nth_shl1()
    by (bit_vector)
    ensures
        forall|x: u64, y: u64, j: u64|
            j < 64 ==> (#[trigger] nth_bit((x << 1u64) | (y >> 63u64), j)) == (if j == 0 {
                nth_bit(y, 63)
            } else {
                nth_bit(x, (j - 1) as u64)
            }),
{
}

proof fn lemma_nth_shl1_low()
    by (bit_vector)
    ensures
        forall|x: u64, j: u64|
            j < 64 ==> (#[trigger] nth_bit(x << 1u64, j)) == (j >= 1 && nth_bit(x, (j - 1) as u64)),
{
}

/// Reads bit `k` of a word slice.
pub fn get_bit(w: &[u64], k: usize) -> (r: bool)
    requires
        k < w@.len() * 64,
    ensures
        r == wbit(w@, k as int),
{
    let wi: usize = k / 64;
    let bi: u64 = (k % 64) as u64;
    assert(wi < w@.len()) by {
        assert(64 * (k as int / 64) + k as int % 64 == k as int) by {
            vstd::arithmetic::div_mod::lemma_fundamental_div_mod(k as int, 64);
        }
    }
    (w[wi] >> bi) & 1u64 == 1u64
}

/// `j == k` exactly when word index and bit offset both agree.
proof fn lemma_same_slot(j: int, k: int)
    requires
        0 <= j,
        0 <= k,
    ensures
        (j == k) == (j / 64 == k / 64 && j % 64 == k % 64),
{
    vstd::arithmetic::div_mod::lemma_fundamental_div_mod(j, 64);
    vstd::arithmetic::div_mod::lemma_fundamental_div_mod(k, 64);
}

/// Flips bit `k` of a word vector in place.
pub fn flip_bit(w: &mut Vec<u64>, k: usize)
    requires
        k < old(w)@.len() * 64,
    ensures
        final(w)@.len() == old(w)@.len(),
        forall|j: int| #[trigger] wbit(final(w)@, j) == (if j == k {
            !wbit(old(w)@, j)
        } else {
            wbit(old(w)@, j)
        }),
{
    let wi: usize = k / 64;
    let bi: u64 = (k % 64) as u64;
    proof {
        lemma_same_slot(k as int, k as int);
        assert(wi < w@.len());
    }
    let nv: u64 = w[wi] ^ (1u64 << bi);
    w[wi] = nv;
    proof {
        lemma_nth_flip();
        assert forall|j: int| #[trigger] wbit(w@, j) == (if j == k {
            !wbit(old(w)@, j)
        } else {
            wbit(old(w)@, j)
        }) by {
            if 0 <= j < w@.len() * 64 {
                lemma_same_slot(j, k as int);
            }
        }
    }
}

/// Sets bit `k` of a word vector in place.
pub fn set_bit(w: &mut Vec<u64>, k: usize)
    requires
        k < old(w)@.len() * 64,
    ensures
        final(w)@.len() == old(w)@.len(),
        forall|j: int| #[trigger] wbit(final(w)@, j) == (j == k || wbit(old(w)@, j)),
{
    let wi: usize = k / 64;
    let bi: u64 = (k % 64) as u64;
    proof {
        lemma_same_slot(k as int, k as int);
        assert(wi < w@.len());
    }
    let nv: u64 = w[wi] | (1u64 << bi);
    w[wi] = nv;
    proof {
        lemma_nth_set();
        assert forall|j: int| #[trigger] wbit(w@, j) == (j == k || wbit(old(w)@, j)) by {
            if 0 <= j < w@.len() * 64 {
                lemma_same_slot(j, k as int);
            }
        }
    }
}

/// Word-wise XOR of two equally long word vectors: polynomial addition.
pub fn xor_words(a: &Vec<u64>, b: &Vec<u64>) -> (r: Vec<u64>)
    requires
        a@.len() == b@.len(),
    ensures
        r@.len() == a@.len(),
        forall|k: int| #[trigger] wbit(r@, k) == (wbit(a@, k) != wbit(b@, k)),
{
    let n: usize = a.len();
    let mut r: Vec<u64> = Vec::new();
    let mut i: usize = 0;
    while i < n
        invariant
            i <= n,
            n == a@.len(),
            n == b@.len(),
            r@.len() == i,
            forall|q: int| 0 <= q < i ==> r@[q] == a@[q] ^ b@[q],
        decreases n - i,
    {
        r.push(a[i] ^ b[i]);
        i = i + 1;
    }
    proof {
        lemma_nth_xor();
        assert forall|k: int| #[trigger] wbit(r@, k) == (wbit(a@, k) != wbit(b@, k)) by {
            if 0 <= k < r@.len() * 64 {
                lemma_same_slot(k, k);
            }
        }
    }
    r
}

/// Shifts a word vector one bit towards higher exponents; the topmost
/// stored bit is discarded.
pub fn shl1(w: &Vec<u64>) -> (r: Vec<u64>)
    requires
        w@.len() >= 1,
    ensures
        r@.len() == w@.len(),
        forall|k: int|
            0 <= k < r@.len() * 64 ==> (#[trigger] wbit(r@, k) == (k >= 1 && wbit(w@, k - 1))),
{
    let n: usize = w.len();
    let mut r: Vec<u64> = Vec::new();
    r.push(w[0] << 1u64);
    let mut i: usize = 1;
    while i < n
        invariant
            1 <= i <= n,
            n == w@.len(),
            r@.len() == i,
            r@[0] == w@[0] << 1u64,
            forall|q: int| 1 <= q < i ==> r@[q] == (w@[q] << 1u64) | (w@[q - 1] >> 63u64),
        decreases n - i,
    {
        r.push((w[i] << 1u64) | (w[i - 1] >> 63u64));
        i = i + 1;
    }
    proof {
        lemma_nth_shl1();
        lemma_nth_shl1_low();
        assert forall|k: int| 0 <= k < r@.len() * 64 implies (#[trigger] wbit(r@, k) == (k >= 1
            && wbit(w@, k - 1))) by {
            {
                let wi = k / 64;
                let bi = k % 64;
                vstd::arithmetic::div_mod::lemma_fundamental_div_mod(k, 64);
                if wi == 0 {
                    if bi >= 1 {
                        vstd::arithmetic::div_mod::lemma_fundamental_div_mod_converse(
                            k - 1, 64, wi, bi - 1);
                    }
                } else {
                    if bi == 0 {
                        vstd::arithmetic::div_mod::lemma_fundamental_div_mod_converse(
                            k - 1, 64, wi - 1, 63);
                    } else {
                        vstd::arithmetic::div_mod::lemma_fundamental_div_mod_converse(
                            k - 1, 64, wi, bi - 1);
                    }
                }
            }
        }
    }
    r
}

/// Scans for the highest set bit at or below `start`; callers guarantee no
/// set bit lies above `start`.  Returns the polynomial degree (0 both for
/// the zero vector and for the constant 1).
pub fn scan_down(w: &[u64], start: usize) -> (r: usize)
    requires
        start < w@.len() * 64,
        forall|k: int| start < k < w@.len() * 64 ==> !wbit(w@, k),
    ensures
        r == pdeg(word_bits(w@)),
{
    let mut d: usize = start;
    loop
        invariant
            d <= start,
            start < w@.len() * 64,
            forall|k: int| d < k < w@.len() * 64 ==> !wbit(w@, k),
        ensures
            d <= start,
            forall|k: int| d < k < w@.len() * 64 ==> !wbit(w@, k),
            wbit(w@, d as int) || d == 0,
        decreases d,
    {
        if get_bit(w, d) {
            break;
        }
        if d == 0 {
            break;
        }
        d = d - 1;
    }
    proof {
        lemma_pb_word_bits(w@);
        if wbit(w@, d as int) {
            lemma_pdeg_found(word_bits(w@), d as int);
        } else {
            assert(d == 0);
            assert forall|k: int| !pb(word_bits(w@), k) by {
                if 0 < k < w@.len() * 64 {
                    assert(!wbit(w@, k));
                }
            }
            lemma_pdeg_zero(word_bits(w@));
        }
    }
    d
}

/// `pb` over `word_bits` is exactly `wbit`.
pub proof fn lemma_pb_word_bits(w: Seq<u64>)
    ensures
        forall|k: int| #[trigger] pb(word_bits(w), k) == wbit(w, k),
{
}

// ---------------------------------------------------------------------------
// Degree of a bit sequence
// ---------------------------------------------------------------------------

/// Highest index below `n` holding a set bit, or 0 if there is none.
pub open spec fn pdeg_below(s: Seq<bool>, n: int) -> int
    decreases n,
{
    if n <= 0 {
        0
    } else if pb(s, n - 1) {
        n - 1
    } else {
        pdeg_below(s, n - 1)
    }
}

/// Degree of the polynomial encoded by a bit sequence.  Returns 0 both for
/// the zero polynomial and for the constant 1; callers that care must test
/// for the all-zero sequence separately.
pub open spec fn pdeg(s: Seq<bool>) -> int {
    pdeg_below(s, s.len() as int)
}

proof fn lemma_pdeg_below_range(s: Seq<bool>, n: int)
    ensures
        0 <= pdeg_below(s, n),
        pdeg_below(s, n) <= (if n <= 0 { 0 } else { n - 1 }),
    decreases n,
{
    if n > 0 {
        lemma_pdeg_below_range(s, n - 1);
    }
}

proof fn lemma_pdeg_below_witness(s: Seq<bool>, n: int, k: int)
    requires
        0 <= k < n,
        pb(s, k),
    ensures
        pdeg_below(s, n) >= k,
    decreases n,
{
    if !pb(s, n - 1) {
        if k < n - 1 {
            lemma_pdeg_below_witness(s, n - 1, k);
        }
    }
}

proof fn lemma_pdeg_below_bit(s: Seq<bool>, n: int)
    ensures
        pdeg_below(s, n) == 0 || pb(s, pdeg_below(s, n)),
    decreases n,
{
    if n > 0 && !pb(s, n - 1) {
        lemma_pdeg_below_bit(s, n - 1);
    }
}

/// A set bit is a lower bound for the degree.
pub proof fn lemma_pdeg_witness(s: Seq<bool>, k: int)
    requires
        pb(s, k),
    ensures
        pdeg(s) >= k,
{
    lemma_pdeg_below_witness(s, s.len() as int, k);
}

/// No bit above the degree is set.
pub proof fn lemma_pdeg_max(s: Seq<bool>, k: int)
    requires
        k > pdeg(s),
    ensures
        !pb(s, k),
{
    if pb(s, k) {
        lemma_pdeg_below_witness(s, s.len() as int, k);
    }
}

/// The degree of a nonzero sequence carries a set bit.
pub proof fn lemma_pdeg_bit(s: Seq<bool>)
    ensures
        pdeg(s) == 0 || pb(s, pdeg(s)),
{
    lemma_pdeg_below_bit(s, s.len() as int);
}

/// The degree lies within the sequence.
pub proof fn lemma_pdeg_range(s: Seq<bool>)
    ensures
        0 <= pdeg(s),
        pdeg(s) <= (if s.len() == 0 { 0int } else { s.len() - 1 }),
{
    lemma_pdeg_below_range(s, s.len() as int);
}

/// A set bit with nothing above it is exactly the degree.
pub proof fn lemma_pdeg_found(s: Seq<bool>, d: int)
    requires
        pb(s, d),
        forall|k: int| k > d ==> !pb(s, k),
    ensures
        pdeg(s) == d,
{
    lemma_pdeg_witness(s, d);
    lemma_pdeg_bit(s);
    lemma_pdeg_range(s);
    if pdeg(s) > d {
        assert(pb(s, pdeg(s)));
        assert(false);
    }
}

/// The all-zero sequence has degree 0.
pub proof fn lemma_pdeg_zero(s: Seq<bool>)
    requires
        forall|k: int| !pb(s, k),
    ensures
        pdeg(s) == 0,
{
    lemma_pdeg_bit(s);
    lemma_pdeg_range(s);
}

/// Degree does not see anything beyond the set bits: two sequences with the
/// same set bits have the same degree.
pub proof fn lemma_pdeg_same_bits(s1: Seq<bool>, s2: Seq<bool>)
    requires
        forall|k: int| #[trigger] pb(s1, k) == pb(s2, k),
    ensures
        pdeg(s1) == pdeg(s2),
{
    lemma_pdeg_bit(s1);
    lemma_pdeg_range(s1);
    if pdeg(s1) == 0 && !pb(s1, 0) {
        assert forall|k: int| !pb(s2, k) by {
            if pb(s2, k) {
                assert(pb(s1, k));
                lemma_pdeg_witness(s1, k);
            }
        }
        lemma_pdeg_zero(s2);
    } else {
        assert(pb(s2, pdeg(s1)));
        assert forall|k: int| k > pdeg(s1) implies !pb(s2, k) by {
            lemma_pdeg_max(s1, k);
        }
        lemma_pdeg_found(s2, pdeg(s1));
    }
}

/// If no bit at or above `d` is set, the degree stays below `d`.
pub proof fn lemma_pdeg_upper(s: Seq<bool>, d: int)
    requires
        d >= 1,
        forall|k: int| k >= d ==> !pb(s, k),
    ensures
        pdeg(s) < d,
{
    lemma_pdeg_bit(s);
    lemma_pdeg_range(s);
    if pdeg(s) >= d {
        assert(pb(s, pdeg(s)));
        assert(false);
    }
}


/// The bit view of a word vector, padded into the fixed 896-bit model
/// window used by the field specifications.
pub open spec fn poly_bits(w: Seq<u64>) -> Seq<bool> {
    Seq::new(896, |k: int| wbit(w, k))
}

/// `pb` over `poly_bits` is exactly `wbit`, for vectors of up to 14 words.
pub proof fn lemma_pb_poly_bits(w: Seq<u64>)
    requires
        w.len() <= 14,
    ensures
        forall|k: int| #[trigger] pb(poly_bits(w), k) == wbit(w, k),
{
}

} // verus!

