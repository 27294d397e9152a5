//! Tests of the Goldilocks field operations against an independent
//! 128-bit reference, and of the field's published constants.

use ntt::field::{
    gf_add, gf_mul, gf_pow, gf_random, gf_root_of_unity, gf_sub, GOLDILOCKS_P, INV_TWO,
    TWO_ADIC_GENERATOR,
};

const P: u128 = 18446744069414584321;

fn mulm(a: u64, b: u64) -> u64 {
    ((a as u128 * b as u128) % P) as u64
}

fn powm(mut b: u64, mut e: u64) -> u64 {
    let mut r: u64 = 1;
    while e > 0 {
        if e % 2 == 1 {
            r = mulm(r, b);
        }
        b = mulm(b, b);
        e /= 2;
    }
    r
}

/// The named constants: the prime, the inverse of two, and the two-adic
/// generator of order exactly 2^32.
#[test]
fn constants() {
    assert_eq!(GOLDILOCKS_P as u128, P);
    assert_eq!(mulm(2, INV_TWO), 1);
    assert_eq!(powm(TWO_ADIC_GENERATOR, 1u64 << 32), 1);
    assert_eq!(powm(TWO_ADIC_GENERATOR, 1u64 << 31), (P - 1) as u64);
}

/// Addition, subtraction and multiplication match the 128-bit reference,
/// including at the wrap-around edges.
#[test]
fn field_ops() {
    let p = GOLDILOCKS_P;
    let samples = [0u64, 1, 2, 12345, 0xFFFF_FFFF, p - 2, p - 1];
    for &a in &samples {
        for &b in &samples {
            assert_eq!(gf_add(a, b) as u128, (a as u128 + b as u128) % P);
            assert_eq!(
                gf_sub(a, b) as u128,
                (a as u128 + P - b as u128) % P,
            );
            assert_eq!(gf_mul(a, b), mulm(a, b));
        }
    }
}

/// Exponentiation by squaring matches the reference, with an exact value.
#[test]
fn field_pow() {
    assert_eq!(gf_pow(3, 0), 1);
    assert_eq!(gf_pow(3, 5), 243);
    assert_eq!(gf_pow(7, 1 << 20), powm(7, 1 << 20));
    assert_eq!(gf_pow(GOLDILOCKS_P - 1, 2), 1);
}

/// A root of order 2^k squares down the chain: its square is a root of
/// order 2^(k-1), and the order is exact.
#[test]
fn roots_of_unity() {
    for k in 0..6usize {
        let r = gf_root_of_unity(k);
        assert_eq!(powm(r, 1u64 << k), 1);
        if k >= 1 {
            assert_eq!(powm(r, 1u64 << (k - 1)), (P - 1) as u64);
        }
    }
    assert_eq!(gf_root_of_unity(0), 1);
    assert_eq!(gf_root_of_unity(1), (P - 1) as u64);
    assert_eq!(gf_root_of_unity(32), TWO_ADIC_GENERATOR);
}

/// Sampling stays inside the field.
#[test]
fn random_in_field() {
    for _ in 0..64 {
        assert!(gf_random() < GOLDILOCKS_P);
    }
}
