//! Concrete instances of the algebraic laws: the additive group, the
//! multiplicative identity, trace identities, exponentiation boundaries
//! and the inversion round trip.

use gf2::GF2Element;

fn sample_a() -> GF2Element {
    GF2Element::from_str("009F3DB3DA40977DC47CA6385DE4F71AC696344C5F4A476619D4EF4D4903AF3EC84B7E40C3E41E14F1AF9AEBE60831234A42B286FE").unwrap()
}

fn sample_b() -> GF2Element {
    GF2Element::from_str("0644495AC876BCB7DE7B27DA630E1B4D9E6EFA674961B12F23E372C3D0E3A8C6F635AA501685A06117EAD666DD6F15C9C79BB1E831").unwrap()
}

fn sample_c() -> GF2Element {
    GF2Element::from_str("04C1190B05D7B06470D4D030368B91BF48FBC8D207BF309F7CB87C21451DABCD293D5A560A437808BDF4184C96951A1B3F698FBD70").unwrap()
}

#[test]
fn additive_group() {
    let a = sample_a();
    let b = sample_b();
    let c = sample_c();
    assert_eq!(a.add(&GF2Element::zero()), a);
    assert_eq!(a.add(&a), GF2Element::zero());
    assert_eq!(a.add(&b), b.add(&a));
    assert_eq!(a.add(&b).add(&c), a.add(&b.add(&c)));
}

#[test]
fn multiplicative_identity() {
    let a = sample_a();
    assert_eq!(a.mul(&GF2Element::one()), a);
    assert_eq!(GF2Element::one().mul(&a), a);
}

#[test]
fn multiplication_commutes() {
    let a = sample_a();
    let b = sample_b();
    assert_eq!(a.mul(&b), b.mul(&a));
}

#[test]
fn inversion_round_trip() {
    let a = sample_a();
    assert_eq!(a.mul(&a.inverse()), GF2Element::one());
}

#[test]
fn trace_is_linear() {
    let a = sample_a();
    let b = sample_b();
    assert_eq!(a.add(&b).trace(), a.trace().add(&b.trace()));
}

#[test]
fn trace_of_square() {
    let a = sample_a();
    assert_eq!(a.sqr().trace(), a.trace());
}

#[test]
fn trace_is_zero_or_one() {
    for el in [sample_a(), sample_b(), sample_c()] {
        let t = el.trace();
        assert!(t == GF2Element::zero() || t == GF2Element::one());
    }
}

#[test]
fn pow_boundaries() {
    let a = sample_a();
    let zero_exp: Vec<u64> = vec![0u64; 2];
    let one_exp: Vec<u64> = vec![1u64];
    assert_eq!(a.pow(&zero_exp), GF2Element::one());
    assert_eq!(GF2Element::zero().pow(&zero_exp), GF2Element::one());
    assert_eq!(a.pow(&one_exp), a);
    assert_eq!(a.pow(&vec![2u64]), a.sqr());
}

#[test]
fn zero_and_one_are_distinct() {
    assert!(GF2Element::zero().is_zero());
    assert!(!GF2Element::one().is_zero());
    assert_ne!(GF2Element::zero(), GF2Element::one());
}
