//! Textual renderings of field elements: polynomial notation, fixed-width
//! binary and fixed-width hexadecimal.  Pure projections of the word
//! sequence, specified exactly, with no algebraic content.

use vstd::prelude::*;
use vstd::string::StringExecFns;

use crate::GF2Element;
use crate::bits::{nth_bit, wbit, word_bits, pb, get_bit};

verus! {

/// The character of a single digit value in `0..16`, lower case.
pub open spec fn digit_char(d: int) -> char {
    if d == 0 {
        '0'
    } else if d == 1 {
        '1'
    } else if d == 2 {
        '2'
    } else if d == 3 {
        '3'
    } else if d == 4 {
        '4'
    } else if d == 5 {
        '5'
    } else if d == 6 {
        '6'
    } else if d == 7 {
        '7'
    } else if d == 8 {
        '8'
    } else if d == 9 {
        '9'
    } else if d == 10 {
        'a'
    } else if d == 11 {
        'b'
    } else if d == 12 {
        'c'
    } else if d == 13 {
        'd'
    } else if d == 14 {
        'e'
    } else {
        'f'
    }
}

/// The decimal rendering of a non-negative number.
pub open spec fn dec_chars(n: int) -> Seq<char>
    decreases n,
{
    if n < 10 {
        seq![digit_char(n)]
    } else {
        dec_chars(n / 10).push(digit_char(n % 10))
    }
}

/// The polynomial terms `x^k + ` for every set bit with exponent in
/// `1..=k`, highest exponent first.
pub open spec fn poly_terms(s: Seq<bool>, k: int) -> Seq<char>
    decreases k,
{
    if k <= 0 {
        Seq::empty()
    } else if pb(s, k) {
        seq!['x', '^'] + dec_chars(k) + seq![' ', '+', ' '] + poly_terms(s, k - 1)
    } else {
        poly_terms(s, k - 1)
    }
}

/// The full polynomial rendering: the terms from `top` down, then `1` or
/// `0` for the constant coefficient, in square brackets.
pub open spec fn poly_string(s: Seq<bool>, top: int) -> Seq<char> {
    seq!['['] + poly_terms(s, top) + (if pb(s, 0) {
        seq!['1']
    } else {
        seq!['0']
    }) + seq![']']
}

/// One word as 64 binary digit characters, most significant bit first.
pub open spec fn word_bin_chars(w: u64) -> Seq<char> {
    Seq::new(64, |p: int| if nth_bit(w, (63 - p) as u64) {
        '1'
    } else {
        '0'
    })
}

/// The binary rendering of the words below index `i`, highest word
/// first, with all-zero words skipped entirely.
pub open spec fn bin_chars(ws: Seq<u64>, i: int) -> Seq<char>
    decreases i,
{
    if i <= 0 {
        Seq::empty()
    } else if ws[i - 1] == 0 {
        bin_chars(ws, i - 1)
    } else {
        word_bin_chars(ws[i - 1]) + bin_chars(ws, i - 1)
    }
}

/// One word as 16 hexadecimal digit characters, most significant first.
pub open spec fn word_hex_chars(w: u64) -> Seq<char> {
    Seq::new(16, |p: int| digit_char(((w >> (4 * (15 - p)) as u64) & 0xfu64) as int))
}

/// The hexadecimal rendering of the words below index `i`, highest word
/// first, 16 digits per word.
pub open spec fn hex_chars(ws: Seq<u64>, i: int) -> Seq<char>
    decreases i,
{
    if i <= 0 {
        Seq::empty()
    } else {
        word_hex_chars(ws[i - 1]) + hex_chars(ws, i - 1)
    }
}

/// One digit value as a borrowed one-character string.
fn digit_str(d: u64) -> (r: &'static str)
    requires
        d < 16,
    ensures
        r@ == seq![digit_char(d as int)],
{
    let r: &'static str = if d == 0 {
        "0"
    } else if d == 1 {
        "1"
    } else if d == 2 {
        "2"
    } else if d == 3 {
        "3"
    } else if d == 4 {
        "4"
    } else if d == 5 {
        "5"
    } else if d == 6 {
        "6"
    } else if d == 7 {
        "7"
    } else if d == 8 {
        "8"
    } else if d == 9 {
        "9"
    } else if d == 10 {
        "a"
    } else if d == 11 {
        "b"
    } else if d == 12 {
        "c"
    } else if d == 13 {
        "d"
    } else if d == 14 {
        "e"
    } else {
        "f"
    };
    proof {
        reveal_strlit("0");
        reveal_strlit("1");
        reveal_strlit("2");
        reveal_strlit("3");
        reveal_strlit("4");
        reveal_strlit("5");
        reveal_strlit("6");
        reveal_strlit("7");
        reveal_strlit("8");
        reveal_strlit("9");
        reveal_strlit("a");
        reveal_strlit("b");
        reveal_strlit("c");
        reveal_strlit("d");
        reveal_strlit("e");
        reveal_strlit("f");
        assert(r@ =~= seq![digit_char(d as int)]);
    }
    r
}

/// Appends the decimal rendering of `n`.
fn push_decimal(out: &mut String, n: usize)
    ensures
        final(out)@ == old(out)@ + dec_chars(n as int),
    decreases n,
{
    if n >= 10 {
        push_decimal(out, n / 10);
    }
    let d: u64 = (n % 10) as u64;
    out.append(digit_str(d));
    proof {
        assert(out@ =~= old(out)@ + dec_chars(n as int));
    }
}

/// Renders the polynomial held in a word slice in the notation
/// `[x^k + ... + 1]`, every set bit contributing one term, highest
/// exponent first.
pub fn dispaly_as_poly(arr: &[u64]) -> (r: Result<String, ()>)
    requires
        1 <= arr@.len(),
        arr@.len() * 64 <= usize::MAX,
    ensures
        r is Ok,
        (match r {
            Result::Ok(st) => st@ == poly_string(word_bits(arr@), arr@.len() * 64 - 1),
            Result::Err(u) => false,
        }),
{
    let ghost s = word_bits(arr@);
    let top: usize = arr.len() * 64 - 1;
    let mut f: String = String::new();
    f.append("[");
    proof {
        reveal_strlit("[");
        crate::bits::lemma_pb_word_bits(arr@);
        assert(f@ =~= seq!['[']);
    }
    let mut k: usize = top;
    while k >= 1
        invariant
            k <= top,
            s == word_bits(arr@),
            top == arr@.len() * 64 - 1,
            1 <= arr@.len(),
            arr@.len() * 64 <= usize::MAX,
            forall|q: int| #[trigger] pb(s, q) == wbit(arr@, q),
            f@ + poly_terms(s, k as int) == seq!['['] + poly_terms(s, top as int),
        decreases k,
    {
        if get_bit(arr, k) {
            f.append("x^");
            push_decimal(&mut f, k);
            f.append(" + ");
            proof {
                reveal_strlit("x^");
                reveal_strlit(" + ");
                assert(f@ + poly_terms(s, k - 1) =~= seq!['['] + poly_terms(s, top as int));
            }
        } else {
            proof {
                assert(poly_terms(s, k as int) == poly_terms(s, k - 1));
            }
        }
        k = k - 1;
    }
    if get_bit(arr, 0) {
        f.append("1");
        proof {
            reveal_strlit("1");
            assert(f@ =~= seq!['['] + poly_terms(s, top as int) + seq!['1']);
        }
    } else {
        f.append("0");
        proof {
            reveal_strlit("0");
            assert(f@ =~= seq!['['] + poly_terms(s, top as int) + seq!['0']);
        }
    }
    f.append("]");
    proof {
        reveal_strlit("]");
        assert(f@ =~= poly_string(s, top as int));
    }
    Ok(f)
}

impl GF2Element {
    /// Renders this element in polynomial notation, `[x^k + ... + 1]`.
    pub fn to_poly_string(&self) -> (r: String)
        requires
            self.data@.len() == 7,
        ensures
            r@ == poly_string(word_bits(self.data@), 447),
    {
        match dispaly_as_poly(self.data.as_slice()) {
            Result::Ok(st) => st,
            Result::Err(_) => {
                proof {
                    assert(false);
                }
                String::new()
            },
        }
    }

    /// Renders this element in binary, most significant word first, 64
    /// digits per word, skipping words that are entirely zero.
    pub fn to_bin_string(&self) -> (r: String)
        requires
            self.data@.len() == 7,
        ensures
            r@ == bin_chars(self.data@, 7),
    {
        let mut f: String = String::new();
        let mut i: usize = 7;
        while i >= 1
            invariant
                i <= 7,
                self.data@.len() == 7,
                f@ == bin_chars(self.data@, 7).subrange(
                    0,
                    bin_chars(self.data@, 7).len() - bin_chars(self.data@, i as int).len(),
                ),
                bin_chars(self.data@, i as int).len() <= bin_chars(self.data@, 7).len(),
                bin_chars(self.data@, 7) == f@ + bin_chars(self.data@, i as int),
            decreases i,
        {
            let w = self.data[i - 1];
            if w != 0 {
                let mut j: usize = 0;
                let ghost f0 = f@;
                while j < 64
                    invariant
                        j <= 64,
                        self.data@.len() == 7,
                        1 <= i <= 7,
                        w == self.data@[i - 1],
                        f@ == f0 + word_bin_chars(w).subrange(0, j as int),
                    decreases 64 - j,
                {
                    let bit = (w >> (63 - j) as u64) & 1u64 == 1u64;
                    if bit {
                        f.append("1");
                    } else {
                        f.append("0");
                    }
                    proof {
                        reveal_strlit("1");
                        reveal_strlit("0");
                        assert(f@ =~= f0 + word_bin_chars(w).subrange(0, j + 1));
                    }
                    j = j + 1;
                }
                proof {
                    assert(word_bin_chars(w).subrange(0, 64) =~= word_bin_chars(w));
                    assert(bin_chars(self.data@, i as int) == word_bin_chars(w) + bin_chars(
                        self.data@, i - 1));
                    assert(bin_chars(self.data@, 7) =~= f@ + bin_chars(self.data@, i - 1));
                }
            } else {
                proof {
                    assert(bin_chars(self.data@, i as int) == bin_chars(self.data@, i - 1));
                }
            }
            i = i - 1;
        }
        proof {
            assert(bin_chars(self.data@, 0) =~= Seq::<char>::empty());
            assert(f@ =~= bin_chars(self.data@, 7));
        }
        f
    }

    /// Renders this element as 112 hexadecimal digits, most significant
    /// word first, 16 digits per word.
    pub fn to_hex_string(&self) -> (r: String)
        requires
            self.data@.len() == 7,
        ensures
            r@ == hex_chars(self.data@, 7),
    {
        let mut f: String = String::new();
        let mut i: usize = 7;
        while i >= 1
            invariant
                i <= 7,
                self.data@.len() == 7,
                hex_chars(self.data@, 7) == f@ + hex_chars(self.data@, i as int),
            decreases i,
        {
            let w = self.data[i - 1];
            let mut p: usize = 0;
            let ghost f0 = f@;
            while p < 16
                invariant
                    p <= 16,
                    self.data@.len() == 7,
                    1 <= i <= 7,
                    w == self.data@[i - 1],
                    f@ == f0 + word_hex_chars(w).subrange(0, p as int),
                decreases 16 - p,
            {
                let d: u64 = (w >> (4 * (15 - p)) as u64) & 0xfu64;
                proof {
                    assert(forall|x: u64| #[trigger] (x & 0xfu64) < 16) by (bit_vector);
                }
                f.append(digit_str(d));
                proof {
                    assert(f@ =~= f0 + word_hex_chars(w).subrange(0, p + 1));
                }
                p = p + 1;
            }
            proof {
                assert(word_hex_chars(w).subrange(0, 16) =~= word_hex_chars(w));
                assert(hex_chars(self.data@, i as int) == word_hex_chars(w) + hex_chars(
                    self.data@, i - 1));
                assert(hex_chars(self.data@, 7) =~= f@ + hex_chars(self.data@, i - 1));
            }
            i = i - 1;
        }
        proof {
            assert(hex_chars(self.data@, 0) =~= Seq::<char>::empty());
            assert(f@ =~= hex_chars(self.data@, 7));
        }
        f
    }
}

} // verus!
