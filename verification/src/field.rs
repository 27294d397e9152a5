//! The Goldilocks prime field, on canonical `u64` residues.
//!
//! The transform engine works on plain words below the prime. Addition,
//! subtraction, multiplication and exponentiation are implemented here and
//! verified against the modular-arithmetic spec functions; roots of unity of
//! every two-power order up to 2^32 are obtained from the field's standard
//! two-adic generator.

use vstd::prelude::*;
use vstd::arithmetic::div_mod::{
    lemma_add_mod_noop, lemma_add_mod_noop_right, lemma_fundamental_div_mod_converse,
    lemma_mod_bound, lemma_mod_multiples_vanish, lemma_mul_mod_noop_general, lemma_small_mod,
};
use vstd::arithmetic::power2::{
    lemma2_to64, lemma_pow2_adds, lemma_pow2_pos, lemma_pow2_unfold, pow2,
};
use rand_core::{OsRng, RngCore};

verus! {

/// The Goldilocks prime, 2^64 - 2^32 + 1.
pub const GOLDILOCKS_P: u64 = 18446744069414584321;

/// Generator of the multiplicative subgroup of order 2^32: the standard
/// two-adic generator of the Goldilocks field.
pub const TWO_ADIC_GENERATOR: u64 = 7277203076849721926;

/// The two-adicity of the Goldilocks field: its multiplicative group has a
/// cyclic subgroup of order 2^32 and no larger two-power subgroup.
pub const TWO_ADICITY: usize = 32;

/// The inverse of two: (p + 1) / 2.
pub const INV_TWO: u64 = 9223372034707292161;

/// Lane count of this scalar backend: each butterfly works on one element
/// at a time, so every stage falls in the packed regime with lanes of one.
pub const PACKING_WIDTH: usize = 1;

/// A canonical field element: a machine word below the prime.
pub open spec fn in_field(x: u64) -> bool {
    x < GOLDILOCKS_P
}

/// Every element of the sequence is a canonical field element.
pub open spec fn all_in_field(s: Seq<u64>) -> bool {
    forall|i: int| 0 <= i < s.len() ==> in_field(#[trigger] s[i])
}

/// Field addition: the sum reduced modulo the prime.
pub open spec fn fadd(a: u64, b: u64) -> u64 {
    (((a as int) + (b as int)) % (GOLDILOCKS_P as int)) as u64
}

/// Field subtraction: the difference reduced modulo the prime.
pub open spec fn fsub(a: u64, b: u64) -> u64 {
    (((a as int) - (b as int)) % (GOLDILOCKS_P as int)) as u64
}

/// Field multiplication: the product reduced modulo the prime.
pub open spec fn fmul(a: u64, b: u64) -> u64 {
    (((a as int) * (b as int)) % (GOLDILOCKS_P as int)) as u64
}

/// The `e`-th power of `b` in the field.
pub open spec fn fpow(b: u64, e: nat) -> u64
    decreases e,
{
    if e == 0 {
        1u64
    } else {
        fmul(b, fpow(b, (e - 1) as nat))
    }
}

/// The three field operations return canonical elements.
pub proof fn lemma_field_ops_in_field(a: u64, b: u64)
    ensures
        in_field(fadd(a, b)),
        in_field(fsub(a, b)),
        in_field(fmul(a, b)),
{
    lemma_mod_bound((a as int) + (b as int), GOLDILOCKS_P as int);
    lemma_mod_bound((a as int) - (b as int), GOLDILOCKS_P as int);
    lemma_mod_bound((a as int) * (b as int), GOLDILOCKS_P as int);
}

/// Powers are canonical elements.
pub proof fn lemma_fpow_in_field(b: u64, e: nat)
    ensures
        in_field(fpow(b, e)),
    decreases e,
{
    if e == 0 {
    } else {
        lemma_field_ops_in_field(b, fpow(b, (e - 1) as nat));
    }
}

/// Multiplication by the identity is the identity map on canonical elements.
pub proof fn lemma_fmul_one(a: u64)
    requires
        in_field(a),
    ensures
        fmul(a, 1) == a,
{
    lemma_small_mod(a as nat, GOLDILOCKS_P as nat);
}

/// Field multiplication is associative.
pub proof fn lemma_fmul_assoc(a: u64, b: u64, c: u64)
    ensures
        fmul(fmul(a, b), c) == fmul(a, fmul(b, c)),
{
    let p = GOLDILOCKS_P as int;
    let (ai, bi, ci) = (a as int, b as int, c as int);
    lemma_mul_mod_noop_general(ai * bi, ci, p);
    lemma_mul_mod_noop_general(ai, bi * ci, p);
    assert((ai * bi) * ci == ai * (bi * ci)) by (nonlinear_arith);
}

/// Field multiplication is commutative.
pub proof fn lemma_fmul_comm(a: u64, b: u64)
    ensures
        fmul(a, b) == fmul(b, a),
{
    assert((a as int) * (b as int) == (b as int) * (a as int)) by (nonlinear_arith);
}

/// Powers compose additively: b^(m+n) is the product of b^m and b^n.
pub proof fn lemma_fpow_adds(b: u64, m: nat, n: nat)
    ensures
        fpow(b, m + n) == fmul(fpow(b, m), fpow(b, n)),
    decreases m,
{
    if m == 0 {
        lemma_fpow_in_field(b, n);
        lemma_fmul_comm(1u64, fpow(b, n));
        lemma_fmul_one(fpow(b, n));
    } else {
        let m1 = (m - 1) as nat;
        lemma_fpow_adds(b, m1, n);
        assert(fpow(b, m + n) == fmul(b, fpow(b, m1 + n)));
        assert(fmul(b, fmul(fpow(b, m1), fpow(b, n))) == fmul(fmul(b, fpow(b, m1)), fpow(
        b, n))) by {
            lemma_fmul_assoc(b, fpow(b, m1), fpow(b, n));
        }
    }
}

/// Powers compose multiplicatively: (b^m)^n is b^(m*n).
pub proof fn lemma_fpow_mul(b: u64, m: nat, n: nat)
    ensures
        fpow(fpow(b, m), n) == fpow(b, m * n),
    decreases n,
{
    if n == 0 {
        assert(m * 0 == 0);
    } else {
        let n1 = (n - 1) as nat;
        lemma_fpow_mul(b, m, n1);
        lemma_fpow_adds(b, m, m * n1);
        assert(m * n == m + m * n1) by (nonlinear_arith)
            requires
                n >= 1,
                n1 == n - 1,
        ;
        assert(fpow(fpow(b, m), n) == fmul(fpow(b, m), fpow(fpow(b, m), n1)));
    }
}

/// Squaring the base halves the exponent: (b*b)^m is b^(2m).
pub proof fn lemma_fpow_square(b: u64, m: nat)
    ensures
        fpow(fmul(b, b), m) == fpow(b, 2 * m),
    decreases m,
{
    if m == 0 {
    } else {
        let m1 = (m - 1) as nat;
        lemma_fpow_square(b, m1);
        assert(fpow(fmul(b, b), m) == fmul(fmul(b, b), fpow(b, 2 * m1)));
        assert(fpow(b, 2 * m) == fmul(b, fpow(b, (2 * m - 1) as nat)));
        assert(fpow(b, (2 * m - 1) as nat) == fmul(b, fpow(b, 2 * m1)));
        lemma_fmul_assoc(b, b, fpow(b, 2 * m1));
    }
}

/// Addition of the identity element of addition changes nothing.
pub proof fn lemma_fadd_zero(a: u64)
    requires
        in_field(a),
    ensures
        fadd(0, a) == a,
        fadd(a, 0) == a,
{
    lemma_small_mod(a as nat, GOLDILOCKS_P as nat);
}

/// Multiplication by zero gives zero.
pub proof fn lemma_fmul_zero(a: u64)
    ensures
        fmul(a, 0) == 0,
        fmul(0, a) == 0,
{
    lemma_small_mod(0nat, GOLDILOCKS_P as nat);
}

/// Multiplication distributes over addition.
pub proof fn lemma_fmul_distrib(t: u64, x: u64, y: u64)
    ensures
        fmul(t, fadd(x, y)) == fadd(fmul(t, x), fmul(t, y)),
{
    let p = GOLDILOCKS_P as int;
    let (ti, xi, yi) = (t as int, x as int, y as int);
    lemma_mul_mod_noop_general(ti, xi + yi, p);
    assert(ti * (xi + yi) == ti * xi + ti * yi) by (nonlinear_arith);
    lemma_add_mod_noop(ti * xi, ti * yi, p);
}

/// Two ways of summing four elements agree.
pub proof fn lemma_fadd_rearrange(a: u64, b: u64, c: u64, d: u64)
    requires
        in_field(c),
        in_field(d),
    ensures
        fadd(fadd(fadd(a, b), c), d) == fadd(fadd(a, c), fadd(b, d)),
{
    let p = GOLDILOCKS_P as int;
    let (ai, bi, ci, di) = (a as int, b as int, c as int, d as int);
    lemma_add_mod_noop(ai + bi, ci, p);
    lemma_small_mod(c as nat, GOLDILOCKS_P as nat);
    lemma_add_mod_noop(ai + bi + ci, di, p);
    lemma_small_mod(d as nat, GOLDILOCKS_P as nat);
    lemma_add_mod_noop(ai + ci, bi + di, p);
}

/// Subtraction is addition of the product with the element of order two's
/// negated unit: x - y equals x + (p-1)y.
pub proof fn lemma_fsub_as_fadd_neg(x: u64, y: u64)
    ensures
        fsub(x, y) == fadd(x, fmul((GOLDILOCKS_P - 1) as u64, y)),
{
    let p = GOLDILOCKS_P as int;
    let (xi, yi) = (x as int, y as int);
    lemma_add_mod_noop_right(xi, (p - 1) * yi, p);
    assert(xi + (p - 1) * yi == p * yi + (xi - yi)) by (nonlinear_arith);
    lemma_mod_multiples_vanish(yi, xi - yi, p);
}

/// If two elements multiply to the identity, so do their matching powers.
pub proof fn lemma_fpow_mul_inverse(x: u64, xi: u64, e: nat)
    requires
        fmul(x, xi) == 1,
    ensures
        fmul(fpow(x, e), fpow(xi, e)) == 1,
    decreases e,
{
    let p = GOLDILOCKS_P as int;
    if e == 0 {
        lemma_small_mod(1nat, GOLDILOCKS_P as nat);
    } else {
        let e1 = (e - 1) as nat;
        lemma_fpow_mul_inverse(x, xi, e1);
        let (px, pxi) = (fpow(x, e1), fpow(xi, e1));
        lemma_mul_mod_noop_general((x as int) * (px as int), (xi as int) * (pxi as int), p);
        lemma_mul_mod_noop_general((x as int) * (xi as int), (px as int) * (pxi as int), p);
        assert(((x as int) * (px as int)) * ((xi as int) * (pxi as int)) == ((x as int) * (
        xi as int)) * ((px as int) * (pxi as int))) by (nonlinear_arith);
        assert(fmul(fpow(x, e), fpow(xi, e)) == fmul(fmul(x, xi), fmul(px, pxi)));
        lemma_fmul_comm(1u64, fmul(px, pxi));
        lemma_field_ops_in_field(px, pxi);
        lemma_fmul_one(fmul(px, pxi));
    }
}

/// Powers of two below the prime agree with field powers of two.
pub proof fn lemma_fpow_two(k: nat)
    requires
        pow2(k) < GOLDILOCKS_P,
    ensures
        fpow(2u64, k) == pow2(k),
    decreases k,
{
    if k == 0 {
        vstd::arithmetic::power2::lemma2_to64();
    } else {
        vstd::arithmetic::power2::lemma_pow2_unfold(k);
        let k1 = (k - 1) as nat;
        assert(pow2(k) == 2 * pow2(k1));
        lemma_fpow_two(k1);
        lemma_small_mod(pow2(k), GOLDILOCKS_P as nat);
    }
}

/// One squaring step along the chain of iterated squares of a base; the
/// quotient of the squared value by the prime is supplied by the caller.
proof fn lemma_fpow_step(b: u64, s: u64, i: nat, q: int, t: u64)
    requires
        fpow(b, pow2(i)) == s,
        (s as int) * (s as int) == q * (GOLDILOCKS_P as int) + (t as int),
        t < GOLDILOCKS_P,
    ensures
        fpow(b, pow2(i + 1)) == t,
{
    lemma_pow2_unfold(i + 1);
    lemma_pow2_pos(i);
    lemma_fpow_adds(b, pow2(i), pow2(i));
    lemma_fundamental_div_mod_converse((s as int) * (s as int), GOLDILOCKS_P as int,
        q, t as int);
}

/// The two-adic generator has order exactly 2^32: its 2^32-th power is the
/// identity and its 2^31-th power is the element of order two.
#[verifier::rlimit(100)]
pub proof fn lemma_generator_order()
    ensures
        fpow(TWO_ADIC_GENERATOR, pow2(32)) == 1,
        fpow(TWO_ADIC_GENERATOR, pow2(31)) == GOLDILOCKS_P - 1,
{
    lemma2_to64();
    lemma_small_mod(TWO_ADIC_GENERATOR as nat, GOLDILOCKS_P as nat);
    assert(fpow(TWO_ADIC_GENERATOR, pow2(0)) == 7277203076849721926) by {
        assert(fpow(TWO_ADIC_GENERATOR, 1) == fmul(TWO_ADIC_GENERATOR, fpow(
        TWO_ADIC_GENERATOR, 0)));
    }
    lemma_fpow_step(TWO_ADIC_GENERATOR, 7277203076849721926, 0nat, 2870841836501485957, 3524815499551269279);
    lemma_fpow_step(TWO_ADIC_GENERATOR, 3524815499551269279, 1nat, 673523970361624662, 1905180297017055339);
    lemma_fpow_step(TWO_ADIC_GENERATOR, 1905180297017055339, 2nat, 196767079896782334, 2530564950562219707);
    lemma_fpow_step(TWO_ADIC_GENERATOR, 2530564950562219707, 3nat, 347148469394750790, 2147253751702802259);
    lemma_fpow_step(TWO_ADIC_GENERATOR, 2147253751702802259, 4nat, 249946476020474336, 4969973714567017225);
    lemma_fpow_step(TWO_ADIC_GENERATOR, 4969973714567017225, 5nat, 1339024308600979090, 3757607247483852735);
    lemma_fpow_step(TWO_ADIC_GENERATOR, 3757607247483852735, 6nat, 765425712700922635, 8877499657461974390);
    lemma_fpow_step(TWO_ADIC_GENERATOR, 8877499657461974390, 7nat, 4272298670794023937, 2709866199236980323);
    lemma_fpow_step(TWO_ADIC_GENERATOR, 2709866199236980323, 8nat, 398085146632606955, 5936499541590631774);
    lemma_fpow_step(TWO_ADIC_GENERATOR, 5936499541590631774, 9nat, 1910474101808482600, 8124823329697072476);
    lemma_fpow_step(TWO_ADIC_GENERATOR, 8124823329697072476, 10nat, 3578558573284568151, 6553637399136210105);
    lemma_fpow_step(TWO_ADIC_GENERATOR, 6553637399136210105, 11nat, 2328333010841184784, 1971462654193939361);
    lemma_fpow_step(TWO_ADIC_GENERATOR, 1971462654193939361, 12nat, 210696531716166276, 8982441859486529725);
    lemma_fpow_step(TWO_ADIC_GENERATOR, 8982441859486529725, 13nat, 4373902595246250249, 3411401055030829696);
    lemma_fpow_step(TWO_ADIC_GENERATOR, 3411401055030829696, 14nat, 630878658828532454, 5718075921287398682);
    lemma_fpow_step(TWO_ADIC_GENERATOR, 5718075921287398682, 15nat, 1772474975452097105, 8167150655112846419);
    lemma_fpow_step(TWO_ADIC_GENERATOR, 8167150655112846419, 16nat, 3615941630257952907, 1873558160482552414);
    lemma_fpow_step(TWO_ADIC_GENERATOR, 1873558160482552414, 17nat, 190289417335758810, 7126024226993609386);
    lemma_fpow_step(TWO_ADIC_GENERATOR, 7126024226993609386, 18nat, 2752801312395038895, 4308460244895131701);
    lemma_fpow_step(TWO_ADIC_GENERATOR, 4308460244895131701, 19nat, 1006293013660861070, 4355325209153869931);
    lemma_fpow_step(TWO_ADIC_GENERATOR, 4355325209153869931, 20nat, 1028303835414635643, 9113133275150391358);
    lemma_fpow_step(TWO_ADIC_GENERATOR, 9113133275150391358, 21nat, 4502106050701493907, 4255134452441852017);
    lemma_fpow_step(TWO_ADIC_GENERATOR, 4255134452441852017, 22nat, 981537399783105852, 6434636298004421797);
    lemma_fpow_step(TWO_ADIC_GENERATOR, 6434636298004421797, 23nat, 2244544843891794822, 4404853092538523347);
    lemma_fpow_step(TWO_ADIC_GENERATOR, 4404853092538523347, 24nat, 1051824142723195881, 2198989700608);
    lemma_fpow_step(TWO_ADIC_GENERATOR, 2198989700608, 25nat, 262136, 8);
    lemma_fpow_step(TWO_ADIC_GENERATOR, 8, 26nat, 0, 64);
    lemma_fpow_step(TWO_ADIC_GENERATOR, 64, 27nat, 0, 4096);
    lemma_fpow_step(TWO_ADIC_GENERATOR, 4096, 28nat, 0, 16777216);
    lemma_fpow_step(TWO_ADIC_GENERATOR, 16777216, 29nat, 0, 281474976710656);
    lemma_fpow_step(TWO_ADIC_GENERATOR, 281474976710656, 30nat, 4294967296, 18446744069414584320);
    lemma_fpow_step(TWO_ADIC_GENERATOR, 18446744069414584320, 31nat, 18446744069414584319, 1);
}

/// Field addition.
pub fn gf_add(a: u64, b: u64) -> (r: u64)
    requires
        in_field(a),
        in_field(b),
    ensures
        r == fadd(a, b),
{
    let s: u128 = a as u128 + b as u128;
    let r: u128 = s % (GOLDILOCKS_P as u128);
    proof {
        lemma_mod_bound(s as int, GOLDILOCKS_P as int);
    }
    r as u64
}

/// Field subtraction.
pub fn gf_sub(a: u64, b: u64) -> (r: u64)
    requires
        in_field(a),
        in_field(b),
    ensures
        r == fsub(a, b),
{
    let s: u128 = a as u128 + GOLDILOCKS_P as u128 - b as u128;
    let r: u128 = s % (GOLDILOCKS_P as u128);
    proof {
        lemma_mod_bound(s as int, GOLDILOCKS_P as int);
        lemma_mod_multiples_vanish(1, (a as int) - (b as int), GOLDILOCKS_P as int);
    }
    r as u64
}

/// Field multiplication.
pub fn gf_mul(a: u64, b: u64) -> (r: u64)
    requires
        in_field(a),
        in_field(b),
    ensures
        r == fmul(a, b),
{
    proof {
        assert((a as int) * (b as int) < 0x100000000000000000000000000000000)
            by (nonlinear_arith)
            requires
                a < 0x10000000000000000,
                b < 0x10000000000000000,
        ;
    }
    let s: u128 = a as u128 * b as u128;
    let r: u128 = s % (GOLDILOCKS_P as u128);
    proof {
        lemma_mod_bound(s as int, GOLDILOCKS_P as int);
    }
    r as u64
}

/// Field exponentiation by squaring.
pub fn gf_pow(base: u64, e: u64) -> (r: u64)
    requires
        in_field(base),
    ensures
        r == fpow(base, e as nat),
{
    let mut r: u64 = 1;
    let mut b: u64 = base;
    let mut k: u64 = e;
    proof {
        lemma_fmul_one(1u64);
        assert(fmul(1u64, fpow(base, e as nat)) == fpow(base, e as nat)) by {
            lemma_fpow_in_field(base, e as nat);
            lemma_fmul_comm(1u64, fpow(base, e as nat));
            lemma_fmul_one(fpow(base, e as nat));
        }
    }
    while k > 0
        invariant
            in_field(r),
            in_field(b),
            fmul(r, fpow(b, k as nat)) == fpow(base, e as nat),
        decreases k,
    {
        proof {
            let kn = k as nat;
            lemma_fpow_square(b, kn / 2);
            lemma_fpow_in_field(b, kn / 2 * 2);
            lemma_fpow_in_field(fmul(b, b), kn / 2);
            lemma_field_ops_in_field(b, b);
            lemma_field_ops_in_field(r, b);
            if kn % 2 == 1 {
                assert(kn == 2 * (kn / 2) + 1);
                assert(fpow(b, kn) == fmul(b, fpow(b, 2 * (kn / 2))));
                // r * (b * b^(2m)) == (r * b) * (b*b)^m
                lemma_fmul_assoc(r, b, fpow(b, 2 * (kn / 2)));
            } else {
                assert(kn == 2 * (kn / 2));
            }
        }
        if k % 2 == 1 {
            r = gf_mul(r, b);
        }
        b = gf_mul(b, b);
        k = k / 2;
    }
    proof {
        lemma_fmul_one(r);
    }
    r
}

/// A root of unity of order exactly 2^k, as the 2^(32-k)-th iterated square
/// of the two-adic generator.
pub fn gf_root_of_unity(k: usize) -> (r: u64)
    requires
        k <= 32,
    ensures
        in_field(r),
        fpow(r, pow2(k as nat)) == 1,
        k >= 1 ==> fpow(r, pow2((k - 1) as nat)) == GOLDILOCKS_P - 1,
{
    let mut r: u64 = TWO_ADIC_GENERATOR;
    let mut i: usize = 0;
    let steps: usize = TWO_ADICITY - k;
    proof {
        lemma2_to64();
        lemma_small_mod(TWO_ADIC_GENERATOR as nat, GOLDILOCKS_P as nat);
        assert(fpow(TWO_ADIC_GENERATOR, 1) == fmul(TWO_ADIC_GENERATOR, fpow(
        TWO_ADIC_GENERATOR, 0)));
        assert(fpow(TWO_ADIC_GENERATOR, pow2(0)) == TWO_ADIC_GENERATOR);
    }
    while i < steps
        invariant
            i <= steps,
            steps == 32 - k,
            r == fpow(TWO_ADIC_GENERATOR, pow2(i as nat)),
            in_field(r),
        decreases steps - i,
    {
        proof {
            lemma_pow2_unfold((i + 1) as nat);
            lemma_pow2_pos(i as nat);
            lemma_fpow_adds(TWO_ADIC_GENERATOR, pow2(i as nat), pow2(i as nat));
            lemma_field_ops_in_field(r, r);
        }
        r = gf_mul(r, r);
        i = i + 1;
    }
    proof {
        let e = pow2((32 - k) as nat);
        lemma_generator_order();
        // r^(2^k) == g^(2^(32-k) * 2^k) == g^(2^32) == 1
        lemma_fpow_mul(TWO_ADIC_GENERATOR, e, pow2(k as nat));
        lemma_pow2_adds((32 - k) as nat, k as nat);
        if k >= 1 {
            // r^(2^(k-1)) == g^(2^31), the element of order two
            lemma_fpow_mul(TWO_ADIC_GENERATOR, e, pow2((k - 1) as nat));
            lemma_pow2_adds((32 - k) as nat, (k - 1) as nat);
            assert(e * pow2((k - 1) as nat) == pow2(31));
        }
    }
    r
}

/// Relies on `rand_core`'s `OsRng`: one machine word drawn from the
/// operating system's entropy source.
#[verifier::external_body]
pub(crate) fn os_random_u64() -> u64 {
    OsRng.next_u64()
}

/// A field element sampled from the operating system's entropy source.
pub fn gf_random() -> (r: u64)
    ensures
        in_field(r),
{
    let x = os_random_u64();
    proof {
        lemma_mod_bound(x as int, GOLDILOCKS_P as int);
    }
    x % GOLDILOCKS_P
}

} // verus!
