//! Construction of field elements from hexadecimal and binary digit
//! strings.  Both parsers assemble a raw word vector, digit by digit from
//! the low end, and hand it to [`crate::modulo`] so that no element ever
//! escapes in non-canonical form.

use vstd::prelude::*;
use vstd::string::StringSliceAdditionalSpecFns;

use crate::GF2Element;
use crate::bits::{wbit, poly_bits, set_bit};
use crate::poly::preduce;

verus! {

/// Failure of string-to-element conversion.
#[derive(Debug, PartialEq, Eq, PartialOrd, Structural)]
pub enum GF2ElementFromStrError {
    /// A character of the string is not a digit of the expected base.
    ConversionError,
    /// The string encodes more bits than an element can store.
    NotAnElementError,
}

impl GF2ElementFromStrError {
    /// A human-readable rendering of the error.
    pub fn message(&self) -> (r: &'static str) {
        match self {
            GF2ElementFromStrError::ConversionError => "couldn't interpret string",
            GF2ElementFromStrError::NotAnElementError => "couldn't interpret string",
        }
    }
}

/// Numeric value of an ASCII hexadecimal digit byte, -1 for anything else.
pub open spec fn hex_val(b: u8) -> int {
    if 48 <= b <= 57 {
        b - 48
    } else if 97 <= b <= 102 {
        b - 87
    } else if 65 <= b <= 70 {
        b - 55
    } else {
        -1
    }
}

/// Whether a byte is an ASCII hexadecimal digit.
pub open spec fn is_hex_digit(b: u8) -> bool {
    hex_val(b) >= 0
}

/// Numeric value of an ASCII binary digit byte, -1 for anything else.
pub open spec fn bin_val(b: u8) -> int {
    if b == 48 {
        0
    } else if b == 49 {
        1
    } else {
        -1
    }
}

/// Whether a byte is an ASCII binary digit.
pub open spec fn is_bin_digit(b: u8) -> bool {
    bin_val(b) >= 0
}

/// Bit `j` of a nibble value in `0..16`.
pub open spec fn nib_bit(v: int, j: int) -> bool {
    if j == 0 {
        v % 2 == 1
    } else if j == 1 {
        (v / 2) % 2 == 1
    } else if j == 2 {
        (v / 4) % 2 == 1
    } else {
        (v / 8) % 2 == 1
    }
}

/// The raw polynomial encoded by a big-endian hexadecimal digit string:
/// the last digit holds bits 0..4, the digit before it bits 4..8, and so
/// on.
pub open spec fn hex_raw(s: Seq<u8>) -> Seq<bool> {
    Seq::new(896, |k: int| k / 4 < s.len() && nib_bit(hex_val(s[s.len() - 1 - k / 4]), k % 4))
}

/// The raw polynomial encoded by a big-endian binary digit string.
pub open spec fn bin_raw(s: Seq<u8>) -> Seq<bool> {
    Seq::new(896, |k: int| k < s.len() && bin_val(s[s.len() - 1 - k]) == 1)
}

/// Decodes one hexadecimal digit byte.
fn hex_digit(b: u8) -> (r: Option<u64>)
    ensures
        match r {
            Option::Some(v) => is_hex_digit(b) && v == hex_val(b),
            Option::None => !is_hex_digit(b),
        },
{
    if 48 <= b && b <= 57 {
        Some((b - 48) as u64)
    } else if 97 <= b && b <= 102 {
        Some((b - 87) as u64)
    } else if 65 <= b && b <= 70 {
        Some((b - 55) as u64)
    } else {
        None
    }
}

proof fn lemma_nib_bits()
    by (bit_vector)
    ensures
        forall|v: u64, j: u64|
            v < 16 && j < 4 ==> ((#[trigger] (v >> j)) & 1u64 == 1u64) == (if j == 0 {
                v % 2 == 1
            } else if j == 1 {
                (v / 2) % 2 == 1
            } else if j == 2 {
                (v / 4) % 2 == 1
            } else {
                (v / 8) % 2 == 1
            }),
{
}

/// A fresh fourteen-word zero vector.
fn raw_zero() -> (r: Vec<u64>)
    ensures
        r@.len() == 14,
        forall|k: int| !wbit(r@, k),
{
    let mut r: Vec<u64> = Vec::new();
    let mut i: usize = 0;
    while i < 14
        invariant
            i <= 14,
            r@.len() == i,
            forall|q: int| 0 <= q < i ==> r@[q] == 0u64,
        decreases 14 - i,
    {
        r.push(0u64);
        i = i + 1;
    }
    proof {
        lemma_nth_raw_zero();
    }
    r
}

proof fn lemma_nth_raw_zero()
    by (bit_vector)
    ensures
        forall|j: u64| !(#[trigger] crate::bits::nth_bit(0u64, j)),
{
}

impl GF2Element {
    /// Parses a big-endian hexadecimal string into a field element.  The
    /// string may encode any polynomial that fits the element's storage
    /// (at most 112 digits); the raw words pass through reduction, so the
    /// result is canonical.  Longer strings are rejected as
    /// `NotAnElementError`, strings with a non-hexadecimal character as
    /// `ConversionError`; the empty string encodes zero.
    pub fn from_str(s: &str) -> (r: Result<GF2Element, GF2ElementFromStrError>)
        ensures
            match r {
                Result::Ok(el) => s.spec_bytes().len() <= 112 && (forall|i: int|
                    0 <= i < s.spec_bytes().len() ==> is_hex_digit(#[trigger] s.spec_bytes()[i]))
                    && el.wf() && el@ == preduce(hex_raw(s.spec_bytes())),
                Result::Err(e) => (e == GF2ElementFromStrError::NotAnElementError
                    && s.spec_bytes().len() > 112) || (e == GF2ElementFromStrError::ConversionError
                    && s.spec_bytes().len() <= 112 && (exists|i: int|
                    0 <= i < s.spec_bytes().len() && !is_hex_digit(#[trigger] s.spec_bytes()[i]))),
            },
    {
        let bytes: &[u8] = s.as_bytes();
        let n: usize = bytes.len();
        if n > 112 {
            return Err(GF2ElementFromStrError::NotAnElementError);
        }
        let mut raw: Vec<u64> = raw_zero();
        let mut p: usize = 0;
        while p < n
            invariant
                p <= n <= 112,
                bytes@ == s.spec_bytes(),
                n == bytes@.len(),
                raw@.len() == 14,
                forall|i: int| n - p <= i < n ==> is_hex_digit(#[trigger] bytes@[i]),
                forall|k: int|
                    0 <= k < 896 ==> #[trigger] wbit(raw@, k) == (k / 4 < p && nib_bit(
                        hex_val(bytes@[n - 1 - k / 4]),
                        k % 4,
                    )),
            decreases n - p,
        {
            let b = bytes[n - 1 - p];
            match hex_digit(b) {
                Option::None => {
                    return Err(GF2ElementFromStrError::ConversionError);
                },
                Option::Some(v) => {
                    let ghost prev = raw@;
                    if (v >> 0u64) & 1u64 == 1u64 {
                        set_bit(&mut raw, 4 * p);
                    }
                    if (v >> 1u64) & 1u64 == 1u64 {
                        set_bit(&mut raw, 4 * p + 1);
                    }
                    if (v >> 2u64) & 1u64 == 1u64 {
                        set_bit(&mut raw, 4 * p + 2);
                    }
                    if (v >> 3u64) & 1u64 == 1u64 {
                        set_bit(&mut raw, 4 * p + 3);
                    }
                    proof {
                        lemma_nib_bits();
                        assert forall|k: int| 0 <= k < 896 implies #[trigger] wbit(raw@, k) == (k
                            / 4 < p + 1 && nib_bit(hex_val(bytes@[n - 1 - k / 4]), k % 4)) by {
                            vstd::arithmetic::div_mod::lemma_fundamental_div_mod(k, 4);
                            if k / 4 == p {
                                let j = k % 4;
                                assert(wbit(raw@, k) == ((v >> (j as u64)) & 1u64 == 1u64));
                                assert(v < 16);
                            }
                        }
                    }
                },
            }
            p = p + 1;
        }
        let data = crate::modulo(&raw);
        let el = GF2Element { data };
        proof {
            assert(poly_bits(raw@) =~= hex_raw(bytes@));
        }
        Ok(el)
    }

    /// Parses a big-endian binary string into a field element, with the
    /// same policy as [`GF2Element::from_str`]: at most 448 digits, every
    /// character `0` or `1`, raw words routed through reduction.
    pub fn from_str_bin(s: &str) -> (r: Result<GF2Element, GF2ElementFromStrError>)
        ensures
            match r {
                Result::Ok(el) => s.spec_bytes().len() <= 448 && (forall|i: int|
                    0 <= i < s.spec_bytes().len() ==> is_bin_digit(#[trigger] s.spec_bytes()[i]))
                    && el.wf() && el@ == preduce(bin_raw(s.spec_bytes())),
                Result::Err(e) => (e == GF2ElementFromStrError::NotAnElementError
                    && s.spec_bytes().len() > 448) || (e == GF2ElementFromStrError::ConversionError
                    && s.spec_bytes().len() <= 448 && (exists|i: int|
                    0 <= i < s.spec_bytes().len() && !is_bin_digit(#[trigger] s.spec_bytes()[i]))),
            },
    {
        let bytes: &[u8] = s.as_bytes();
        let n: usize = bytes.len();
        if n > 448 {
            return Err(GF2ElementFromStrError::NotAnElementError);
        }
        let mut raw: Vec<u64> = raw_zero();
        let mut p: usize = 0;
        while p < n
            invariant
                p <= n <= 448,
                bytes@ == s.spec_bytes(),
                n == bytes@.len(),
                raw@.len() == 14,
                forall|i: int| n - p <= i < n ==> is_bin_digit(#[trigger] bytes@[i]),
                forall|k: int|
                    0 <= k < 896 ==> #[trigger] wbit(raw@, k) == (k < p && bin_val(
                        bytes@[n - 1 - k],
                    ) == 1),
            decreases n - p,
        {
            let b = bytes[n - 1 - p];
            if b == 49 {
                set_bit(&mut raw, p);
            } else if b != 48 {
                return Err(GF2ElementFromStrError::ConversionError);
            }
            p = p + 1;
        }
        let data = crate::modulo(&raw);
        let el = GF2Element { data };
        proof {
            assert(poly_bits(raw@) =~= bin_raw(bytes@));
        }
        Ok(el)
    }
}

} // verus!
