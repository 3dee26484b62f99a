//! Parsing and rendering: polynomial notation, hexadecimal and binary
//! strings, and the rejection of malformed or oversized input.

use gf2::GF2Element;
use gf2::from_str::GF2ElementFromStrError;

#[test]
fn display_test() {
    let mut data = vec![0u64; 7];
    data[0] = 0b1000001;
    let p = GF2Element { data };

    println!("{}", p.to_poly_string());
}

#[test]
fn poly_notation() {
    let mut data = vec![0u64; 7];
    data[0] = 0b1000001;
    let p = GF2Element { data };
    assert_eq!(p.to_poly_string(), "[x^6 + 1]");
    assert_eq!(GF2Element::zero().to_poly_string(), "[0]");
    assert_eq!(GF2Element::one().to_poly_string(), "[1]");
    assert_eq!(gf2::display::dispaly_as_poly(&gf2::field_modulus()).unwrap(),
        "[x^419 + x^21 + x^14 + x^1 + 1]");
}

#[test]
fn hex_round_trip() {
    let s = "009F3DB3DA40977DC47CA6385DE4F71AC696344C5F4A476619D4EF4D4903AF3EC84B7E40C3E41E14F1AF9AEBE60831234A42B286FE";
    let a = GF2Element::from_str(s).unwrap();
    let expected = format!("{:0>112}", s.to_lowercase());
    assert_eq!(a.to_hex_string(), expected);
}

#[test]
fn bin_round_trip() {
    let p = GF2Element::from_str_bin("1000001").unwrap();
    assert_eq!(p.to_bin_string(), format!("{:064b}", 0b1000001u64));
    assert_eq!(p.deg(), 6);
    assert!(p.get_coef(0));
    assert!(!p.get_coef(5));
    assert!(p.get_coef(6));
}

#[test]
fn parse_hex_case_insensitive() {
    let upper = GF2Element::from_str("ABCDEF").unwrap();
    let lower = GF2Element::from_str("abcdef").unwrap();
    assert_eq!(upper, lower);
}

#[test]
fn parse_empty_is_zero() {
    assert_eq!(GF2Element::from_str("").unwrap(), GF2Element::zero());
    assert_eq!(GF2Element::from_str_bin("").unwrap(), GF2Element::zero());
}

#[test]
fn parse_reduces_oversized_polynomials() {
    // 106 hex digits encode up to 424 bits: the raw polynomial can exceed
    // degree 418 and must come back reduced.
    let p = GF2Element::from_str("ffffffffffffffffffffffffffffffffffffffffffffffffffffffffffffffffffffffffffffffffffffffffffffffffffffffffff").unwrap();
    assert!(p.deg() < 419);
}

#[test]
fn parse_rejects_oversized_strings() {
    let long_hex = "0".repeat(113);
    assert_eq!(GF2Element::from_str(&long_hex), Err(GF2ElementFromStrError::NotAnElementError));
    let long_bin = "0".repeat(449);
    assert_eq!(
        GF2Element::from_str_bin(&long_bin),
        Err(GF2ElementFromStrError::NotAnElementError),
    );
}

#[test]
fn parse_rejects_bad_digits() {
    assert_eq!(GF2Element::from_str("00zz"), Err(GF2ElementFromStrError::ConversionError));
    assert_eq!(GF2Element::from_str_bin("10021"), Err(GF2ElementFromStrError::ConversionError));
    assert_eq!(
        GF2ElementFromStrError::ConversionError.message(),
        "couldn't interpret string",
    );
}
