//! End-to-end tests of the Goldilocks transform engine, checked against an
//! independent textbook evaluation of the polynomial on the twiddle coset.

use ntt::plonky2::Plonky2Ntt;
use ntt::bits::bit_reverse;
use ntt::Ntt;

const P: u128 = 18446744069414584321;

fn addm(a: u64, b: u64) -> u64 {
    ((a as u128 + b as u128) % P) as u64
}

fn mulm(a: u64, b: u64) -> u64 {
    ((a as u128 * b as u128) % P) as u64
}

fn powm(mut b: u64, mut e: u64) -> u64 {
    let mut r: u64 = 1;
    while e > 0 {
        if e % 2 == 1 {
            r = mulm(r, b);
        }
        b = mulm(b, b);
        e /= 2;
    }
    r
}

fn eval_poly(coeffs: &[u64], x: u64) -> u64 {
    let mut acc: u64 = 0;
    for &c in coeffs.iter().rev() {
        acc = addm(mulm(acc, x), c);
    }
    acc
}

fn rev_index(i: usize, log_n: u32) -> usize {
    if log_n == 0 {
        0
    } else {
        i.reverse_bits() >> (usize::BITS - log_n)
    }
}

/// The forward transform equals the bit-reversed evaluations of the
/// polynomial on the coset of odd powers of the primitive 2n-th root that
/// built the twiddle table.
#[test]
fn forward() {
    for n in (0..12).map(|log_n| 1usize << log_n) {
        let engine = Plonky2Ntt::new(n);
        let a = engine.rand();
        let omega = engine.twiddle(n / 2);
        let omega_sq = mulm(omega, omega);
        let log_n = n.trailing_zeros();
        let expected: Vec<u64> = (0..n)
            .map(|j| {
                let point = mulm(omega, powm(omega_sq, rev_index(j, log_n) as u64));
                eval_poly(&a, point)
            })
            .collect();
        let mut buf = a.clone();
        engine.forward(&mut buf);
        assert_eq!(buf, expected);
    }
}

/// Forward, backward and normalize recover the sampled input at every
/// power-of-two size in the tested range.
#[test]
fn round_trip() {
    for n in (0..12).map(|log_n| 1usize << log_n) {
        let engine = Plonky2Ntt::new(n);
        let a = engine.rand();
        let mut buf = a.clone();
        engine.forward(&mut buf);
        engine.backward(&mut buf);
        engine.normalize(&mut buf);
        assert_eq!(buf, a);
    }
}

/// The boundary sizes: n = 1 is the identity transform, and n = 2 is a
/// single unpacked butterfly; both round-trip.
#[test]
fn boundary_sizes() {
    let one = Plonky2Ntt::new(1);
    let mut buf = vec![12345u64];
    one.forward(&mut buf);
    assert_eq!(buf, vec![12345u64]);
    one.backward(&mut buf);
    one.normalize(&mut buf);
    assert_eq!(buf, vec![12345u64]);

    let two = Plonky2Ntt::new(2);
    let a = vec![7u64, 9u64];
    let omega = two.twiddle(1);
    let mut buf = a.clone();
    two.forward(&mut buf);
    assert_eq!(buf[0], addm(7, mulm(9, omega)));
    assert_eq!(buf[1], addm(7, P as u64 - mulm(9, omega)));
    two.backward(&mut buf);
    two.normalize(&mut buf);
    assert_eq!(buf, a);
}

/// The twiddle entry at un-reversed index zero is the multiplicative
/// identity, at every size.
#[test]
fn twiddle_identity() {
    for n in (0..12).map(|log_n| 1usize << log_n) {
        let engine = Plonky2Ntt::new(n);
        assert_eq!(engine.twiddle(0), 1);
    }
}

/// The twiddle at table position n/2 un-reverses to exponent one: it is the
/// primitive 2n-th root itself, whose n-th power is the element of order
/// two.
#[test]
fn twiddle_root_order() {
    let n: usize = 8;
    let engine = Plonky2Ntt::new(n);
    let omega = engine.twiddle(n / 2);
    assert_eq!(powm(omega, n as u64), (P - 1) as u64);
    assert_eq!(powm(omega, 2 * n as u64), 1);
}

/// Applying the bit-reversal permutation twice gives back the original
/// sequence, and the one-shot reordering matches the known pattern.
#[test]
fn bit_reversal() {
    let mut v: Vec<u64> = (0..8).collect();
    bit_reverse(&mut v);
    assert_eq!(v, vec![0, 4, 2, 6, 1, 5, 3, 7]);
    bit_reverse(&mut v);
    assert_eq!(v, (0..8).collect::<Vec<u64>>());
    for log_n in 0..10 {
        let n = 1usize << log_n;
        let orig: Vec<u64> = (0..n as u64).map(|x| x.wrapping_mul(0x9e3779b97f4a7c15)).collect();
        let mut w = orig.clone();
        bit_reverse(&mut w);
        bit_reverse(&mut w);
        assert_eq!(w, orig);
    }
}

/// The concrete scenario: the Goldilocks field at n = 1024; a sampled
/// vector round-trips, and the first forward entry (natural index zero
/// after un-reversal) agrees with direct coset evaluation of the
/// polynomial at the first coset point.
#[test]
fn goldilocks_n_1024() {
    let n: usize = 1024;
    let engine = Plonky2Ntt::new(n);
    let a = engine.rand();
    let mut buf = a.clone();
    engine.forward(&mut buf);
    let omega = engine.twiddle(n / 2);
    assert_eq!(buf[0], eval_poly(&a, omega));
    engine.backward(&mut buf);
    engine.normalize(&mut buf);
    assert_eq!(buf, a);
}
