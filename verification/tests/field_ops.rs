//! The core field operations on concrete values: degree, reduction,
//! multiplication, squaring, exponentiation, trace and inversion.

use gf2::GF2Element;

/// Converts a big-endian hexadecimal string into little-endian exponent
/// words for `pow`.
fn hex_to_words(s: &str) -> Vec<u64> {
    let mut words = vec![0u64; s.len() / 16 + 1];
    for (p, c) in s.bytes().rev().enumerate() {
        let v = (c as char).to_digit(16).unwrap() as u64;
        for j in 0..4 {
            if (v >> j) & 1 == 1 {
                let k = 4 * p + j;
                words[k / 64] |= 1u64 << (k % 64);
            }
        }
    }
    words
}

#[test]
fn deg_test() {
    let modulus = gf2::field_modulus();
    println!("{}", gf2::deg(&modulus));
    assert_eq!(gf2::deg(&modulus), 419);
}

#[test]
fn mul_test() {
    let a = GF2Element::from_str("009F3DB3DA40977DC47CA6385DE4F71AC696344C5F4A476619D4EF4D4903AF3EC84B7E40C3E41E14F1AF9AEBE60831234A42B286FE").unwrap();
    println!("{}", a.to_hex_string());
    println!("{}", a.to_bin_string());
    for field in &a.data {
        println!("{:64b}", &field)
    }
    let b = GF2Element::from_str("0644495AC876BCB7DE7B27DA630E1B4D9E6EFA674961B12F23E372C3D0E3A8C6F635AA501685A06117EAD666DD6F15C9C79BB1E831").unwrap();
    let c = a.mul(&b);
    println!("{}", c.to_hex_string());

    assert_eq!(c, GF2Element::from_str("03DFE436346D171186791672E60C881CAA0CEE01B0320A8DE7888C8749E95D32D153A872FB2F43E943B30F54460E49310B0631858D").unwrap());
}

#[test]
fn modulo_test() {
    let p = GF2Element::from_str("ffffffffffffffffffffffffffffffffffffffffffffffffffffffffffffffffffffffffffffffffffffffffffffffffffffffffff").unwrap();
    let r = GF2Element::from_str("7fffffffffffffffffffffffffffffffffffffffffffffffffffffffffffffffffffffffffffffffffffffffffffffffffc183fde").unwrap();
    assert_eq!(p, r);
}

#[test]
fn sqr_test() {
    let p = GF2Element::from_str("009F3DB3DA40977DC47CA6385DE4F71AC696344C5F4A476619D4EF4D4903AF3EC84B7E40C3E41E14F1AF9AEBE60831234A42B286FE").unwrap();
    let s = p.sqr();

    assert_eq!(s, GF2Element::from_str("03B5416F82167EDAAD8508B5C83D7BBEB9858EFCA89027DDCBA86AE7FDC6FD791B784A1430C380EAEC82C86EB3528C8BB1F8CA6BF7").unwrap());
}

#[test]
fn pow_test() {
    let p = GF2Element::from_str("009F3DB3DA40977DC47CA6385DE4F71AC696344C5F4A476619D4EF4D4903AF3EC84B7E40C3E41E14F1AF9AEBE60831234A42B286FE").unwrap();
    let e = hex_to_words("044B060AED749F4637B2151CB79A40D8CF329AFCB99B19054104E5098AC91FF5C34512510BAEAEC154C1C5ABD4571873F802C5A4BF");

    assert_eq!(p.pow(&e), GF2Element::from_str("069B317CE6B0E05391EEF785F32BD1CEE9C172B062422CF0EE9F65153B30691F4EC762C13F5AF6D4BF77EAD7B0102736EDC520DA98").unwrap());
}

#[test]
fn trace_test() {
    let p = GF2Element::from_str("073A5F1662A5634B30ABEF467039D38245C795D6C50B1600C2DA169BB74C819156CE000BDE8DDA14C395923ABBBE4EFA8BEC80EAE9").unwrap();
    assert_eq!(p.trace(), GF2Element::one());
}

#[test]
fn inverse_test() {
    let p = GF2Element::from_str("073A5F1662A5634B30ABEF467039D38245C795D6C50B1600C2DA169BB74C819156CE000BDE8DDA14C395923ABBBE4EFA8BEC80EAE9").unwrap();
    assert_eq!(p.inverse(), GF2Element::from_str("01A3B2DC0EC7F3B782D9CFB76CF4A1384813DB24DB59D9C740BF3A20AA109F216B928FE17060508F1E2E0615061DB84CBC34B82E89").unwrap());
}

#[test]
fn eq1() {
    let a = GF2Element::from_str("050E04B10B1CA453CDA09E9F9EAF055A3F6EE35A162EC9E390CC67888B2FDE0EA1DD5B2A2C9E6E373F3DE18B5621FF810F0C338D71").unwrap();
    let b = GF2Element::from_str("066A1CDA81DFBD5953500236E1D5264911779ECCBCBF1241AC2886FF71AB374B7DD0A28E6863801FF40507229FE65223587491D2CD").unwrap();
    let c = GF2Element::from_str("04C1190B05D7B06470D4D030368B91BF48FBC8D207BF309F7CB87C21451DABCD293D5A560A437808BDF4184C96951A1B3F698FBD70").unwrap();

    assert_eq!(a.add(&b).mul(&c), b.mul(&c).add(&a.mul(&c)));
}

#[test]
fn eq2() {
    let d = GF2Element::from_str("04C2B6619096510EBDB44DBEAD30DE6A2FDA6473EE664B40FFFE6559A57FB5BABF4D43E087C74E99B98B16C9AFD35D21C1D2413B6F").unwrap();
    // the group order 2^M - 1: bits 0 through 418 all set
    let mut e = vec![u64::MAX; 6];
    e.push((1u64 << 35) - 1);
    assert_eq!(GF2Element::one(), d.pow(&e));
}

#[test]
fn modulo_single_step() {
    // x^419 is congruent to x^21 + x^14 + x + 1 modulo the field polynomial.
    let mut raw = vec![0u64; 14];
    raw[6] = 1u64 << 35;
    let reduced = gf2::modulo(&raw);
    let mut expected = vec![0u64; 7];
    expected[0] = 0x204003;
    assert_eq!(reduced, expected);
}

#[test]
fn modulo_leaves_canonical_input() {
    let mut raw = vec![0u64; 14];
    raw[0] = 0xdeadbeef;
    raw[6] = 1u64 << 34;  // degree 418: already canonical
    let reduced = gf2::modulo(&raw);
    assert_eq!(reduced, raw[..7].to_vec());
}

#[test]
fn deg_conflates_zero_and_one() {
    // Documented ambiguity: both the zero polynomial and the constant 1
    // report degree 0; only an explicit zero test tells them apart.
    assert_eq!(gf2::deg(&[0u64; 7]), 0);
    assert_eq!(gf2::deg(&[1u64]), 0);
    assert!(GF2Element::zero().is_zero());
    assert!(!GF2Element::one().is_zero());
    assert_eq!(GF2Element::zero().deg(), 0);
    assert_eq!(GF2Element::one().deg(), 0);
}
