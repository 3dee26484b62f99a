//! The quadratic equation solver: both roots satisfy the equation, and
//! the no-solution case surfaces as an error.

use gf2::GF2Element;
use gf2::solve_sq_eq::{solve, halftrace, SolveEqError};

#[test]
fn test_solve() {
    let a = GF2Element::from_str("050E04B10B1CA453CDA09E9F9EAF055A3F6EE35A162EC9E390CC67888B2FDE0EA1DD5B2A2C9E6E373F3DE18B5621FF810F0C338D71").unwrap();
    let b = GF2Element::from_str("066A1CDA81DFBD5953500236E1D5264911779ECCBCBF1241AC2886FF71AB374B7DD0A28E6863801FF40507229FE65223587491D2CD").unwrap();

    let (x1, x2) = solve(&a, &b).unwrap();
    println!("{}", x1.to_hex_string());
    println!("{}", x2.to_hex_string());
    assert_eq!(GF2Element::zero(), x1.sqr().add(&a.mul(&x1)).add(&b));
    assert_eq!(GF2Element::zero(), x2.sqr().add(&a.mul(&x2)).add(&b));
}

#[test]
fn solve_no_solution() {
    // With a = 1 the transformed constant is b itself; this b has trace 1,
    // so the compatibility condition fails.
    let a = GF2Element::one();
    let b = GF2Element::from_str("073A5F1662A5634B30ABEF467039D38245C795D6C50B1600C2DA169BB74C819156CE000BDE8DDA14C395923ABBBE4EFA8BEC80EAE9").unwrap();
    assert_eq!(b.trace(), GF2Element::one());
    assert_eq!(solve(&a, &b), Err(SolveEqError::NoSolution));
}

#[test]
fn solve_roots_differ_by_a() {
    // The two roots of x^2 + a*x + b = 0 are a*z and a*(z+1): they differ
    // by exactly a.
    let a = GF2Element::from_str("050E04B10B1CA453CDA09E9F9EAF055A3F6EE35A162EC9E390CC67888B2FDE0EA1DD5B2A2C9E6E373F3DE18B5621FF810F0C338D71").unwrap();
    let b = GF2Element::from_str("066A1CDA81DFBD5953500236E1D5264911779ECCBCBF1241AC2886FF71AB374B7DD0A28E6863801FF40507229FE65223587491D2CD").unwrap();
    let (x1, x2) = solve(&a, &b).unwrap();
    assert_eq!(x1.add(&x2), a);
}

#[test]
fn halftrace_solves_artin_schreier() {
    // For any c with Tr(c) = 0, z = H(c) satisfies z^2 + z = c.
    let a = GF2Element::from_str("050E04B10B1CA453CDA09E9F9EAF055A3F6EE35A162EC9E390CC67888B2FDE0EA1DD5B2A2C9E6E373F3DE18B5621FF810F0C338D71").unwrap();
    let b = GF2Element::from_str("066A1CDA81DFBD5953500236E1D5264911779ECCBCBF1241AC2886FF71AB374B7DD0A28E6863801FF40507229FE65223587491D2CD").unwrap();
    let c = b.mul(&a.sqr().inverse());
    assert_eq!(c.trace(), GF2Element::zero());
    let z = halftrace(&c);
    assert_eq!(z.sqr().add(&z), c);
}

#[test]
fn solve_error_message() {
    assert_eq!(SolveEqError::NoSolution.message(), "This equation has no solution");
}
