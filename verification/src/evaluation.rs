//! What the forward network computes, stated as polynomial evaluation: each
//! output slot holds the polynomial evaluated at an odd power of the
//! primitive 2n-th root of unity, indexed in bit-reversed order.
//!
//! The proof tracks the buffer through the stages: after the first `level`
//! stages, the buffer splits into `2^level` blocks, and each block holds the
//! strided partial sums of the coefficients against the powers of that
//! block's coset point. At the last level the blocks are single evaluations.

use vstd::prelude::*;
use vstd::arithmetic::div_mod::lemma_fundamental_div_mod_converse;
use vstd::arithmetic::mul::{
    lemma_mul_is_associative, lemma_mul_is_commutative, lemma_mul_is_distributive_add,
};
use vstd::arithmetic::power2::{lemma_pow2_adds, lemma_pow2_pos, lemma_pow2_unfold, pow2};
use crate::bits::{lemma_rev_bits_pad, lemma_rev_bits_split, rev_bits};
use crate::field::{
    all_in_field, fadd, fmul, fpow, in_field, lemma_fadd_rearrange, lemma_fadd_zero,
    lemma_field_ops_in_field, lemma_fmul_assoc, lemma_fmul_comm, lemma_fmul_distrib,
    lemma_fmul_one, lemma_fmul_zero, lemma_fpow_adds, lemma_fpow_square,
    lemma_fsub_as_fadd_neg, GOLDILOCKS_P,
};
use crate::layers::{
    dit_layer, dit_network, dit_pair_hi, dit_pair_lo, lemma_dit_network_props, lemma_pair_facts,
};

verus! {

/// The partial sum of `count` coefficients taken at stride `s` from offset
/// `q`, each weighted by the matching power of `tau`.
pub open spec fn strided_sum(a: Seq<u64>, q: int, s: int, count: nat, tau: u64) -> u64
    decreases count,
{
    if count == 0 {
        0u64
    } else {
        let c1 = (count - 1) as nat;
        fadd(strided_sum(a, q, s, c1, tau), fmul(a[q + s * (c1 as int)], fpow(tau, c1)))
    }
}

/// The polynomial with coefficient sequence `a`, evaluated at `x`.
pub open spec fn eval_poly(a: Seq<u64>, x: u64) -> u64 {
    strided_sum(a, 0, 1, a.len(), x)
}

/// The evaluation point owned by block `k` after `level` stages: the power
/// of the 2n-th root whose exponent un-reverses `k` and shifts it to the
/// block's granularity, kept odd.
pub open spec fn coset_point(omega: u64, level: nat, k: nat, log_n: nat) -> u64 {
    fpow(omega, (2 * rev_bits(k, level) + 1) * pow2((log_n - level) as nat))
}

/// A sum over an even count splits into its even-offset and odd-offset
/// halves, with the square of the weight as their weight.
proof fn lemma_strided_sum_split(a: Seq<u64>, q: int, s: int, c: nat, t: u64)
    ensures
        strided_sum(a, q, s, 2 * c, t) == fadd(
            strided_sum(a, q, 2 * s, c, fmul(t, t)),
            fmul(t, strided_sum(a, q + s, 2 * s, c, fmul(t, t))),
        ),
    decreases c,
{
    let tt = fmul(t, t);
    if c == 0 {
        lemma_fmul_zero(t);
        lemma_fadd_zero(0u64);
    } else {
        let c1 = (c - 1) as nat;
        lemma_strided_sum_split(a, q, s, c1, t);
        let ae = a[q + 2 * s * (c1 as int)];
        let ao = a[(q + s) + 2 * s * (c1 as int)];
        assert(q + s * ((2 * c1) as int) == q + 2 * s * (c1 as int)) by (nonlinear_arith);
        assert(q + s * ((2 * c1 + 1) as int) == (q + s) + 2 * s * (c1 as int))
            by (nonlinear_arith);
        lemma_fpow_square(t, c1);
        assert(fpow(t, 2 * c1 + 1) == fmul(t, fpow(t, 2 * c1)));
        let sa = strided_sum(a, q, 2 * s, c1, tt);
        let sb = strided_sum(a, q + s, 2 * s, c1, tt);
        let ce = fmul(ae, fpow(tt, c1));
        let eo = fmul(ao, fpow(tt, c1));
        let de = fmul(ao, fpow(t, 2 * c1 + 1));
        assert(strided_sum(a, q, s, 2 * c1 + 1, t) == fadd(
            strided_sum(a, q, s, 2 * c1, t),
            ce,
        ));
        assert(strided_sum(a, q, s, 2 * c, t) == fadd(
            fadd(strided_sum(a, q, s, 2 * c1, t), ce),
            de,
        ));
        assert(strided_sum(a, q, 2 * s, c, tt) == fadd(sa, ce));
        assert(strided_sum(a, q + s, 2 * s, c, tt) == fadd(sb, eo));
        lemma_fmul_distrib(t, sb, eo);
        // the odd-side last term picks up one extra factor of the weight
        lemma_fmul_comm(t, ao);
        lemma_fmul_assoc(t, ao, fpow(tt, c1));
        lemma_fmul_assoc(ao, t, fpow(tt, c1));
        assert(fmul(t, eo) == de);
        lemma_field_ops_in_field(ae, fpow(tt, c1));
        lemma_field_ops_in_field(ao, fpow(t, 2 * c1 + 1));
        lemma_fadd_rearrange(sa, fmul(t, sb), ce, de);
    }
}

/// After `level` stages the buffer holds, in each block, the strided sums of
/// the coefficients against the powers of the block's coset point.
#[verifier::rlimit(100)]
proof fn lemma_dit_network_blocks(
    a: Seq<u64>,
    tw: Seq<u64>,
    omega: u64,
    level: nat,
    log_n: nat,
)
    requires
        level <= log_n,
        a.len() == pow2(log_n),
        tw.len() == pow2(log_n),
        all_in_field(a),
        in_field(omega),
        forall|j: int|
            0 <= j < pow2(log_n) ==> #[trigger] tw[j] == fpow(omega, rev_bits(j as nat, log_n)),
        fpow(omega, pow2(log_n)) == GOLDILOCKS_P - 1,
    ensures
        forall|i: int|
            0 <= i < pow2(log_n) ==> #[trigger] dit_network(a, tw, level, log_n)[i]
                == strided_sum(
                a,
                i % (pow2((log_n - level) as nat) as int),
                pow2((log_n - level) as nat) as int,
                pow2(level),
                coset_point(omega, level, (i / (pow2((log_n - level) as nat) as int)) as nat, log_n),
            ),
    decreases level,
{
    let s = pow2((log_n - level) as nat) as int;
    lemma_pow2_pos((log_n - level) as nat);
    if level == 0 {
        assert forall|i: int| 0 <= i < pow2(log_n) implies #[trigger] dit_network(
            a,
            tw,
            level,
            log_n,
        )[i] == strided_sum(
            a,
            i % s,
            s,
            pow2(level),
            coset_point(omega, level, (i / s) as nat, log_n),
        ) by {
            vstd::arithmetic::power2::lemma2_to64();
            lemma_fundamental_div_mod_converse(i, s, 0, i);
            let tau = coset_point(omega, level, (i / s) as nat, log_n);
            assert(strided_sum(a, i, s, 1, tau) == fadd(
                strided_sum(a, i, s, 0, tau),
                fmul(a[i + s * 0], fpow(tau, 0)),
            ));
            lemma_fmul_one(a[i]);
            lemma_fmul_comm(a[i], 1u64);
            lemma_fadd_zero(a[i]);
        }
    } else {
        let l1 = (level - 1) as nat;
        lemma_dit_network_blocks(a, tw, omega, l1, log_n);
        let g = dit_network(a, tw, l1, log_n);
        lemma_dit_network_props(a, tw, l1, log_n);
        let bigs = pow2((log_n - l1) as nat) as int;
        let m = pow2(l1) as int;
        let c = pow2(l1);
        let ww = (GOLDILOCKS_P - 1) as u64;
        lemma_pow2_unfold((log_n - l1) as nat);
        lemma_pow2_unfold(level);
        assert(bigs == 2 * s);
        assert forall|i: int| 0 <= i < pow2(log_n) implies #[trigger] dit_network(
            a,
            tw,
            level,
            log_n,
        )[i] == strided_sum(
            a,
            i % s,
            s,
            pow2(level),
            coset_point(omega, level, (i / s) as nat, log_n),
        ) by {
            lemma_pair_facts(i, l1, log_n);
            vstd::arithmetic::div_mod::lemma_fundamental_div_mod(i, bigs);
            let k = i / bigs;
            let pos = i % bigs;
            let t = tw[m + k];
            let d = dit_network(a, tw, level, log_n);
            assert(d == dit_layer(g, tw, l1, log_n));
            // the twiddle of block k at this layer is the lower child's
            // coset point
            assert(rev_bits((m + k) as nat, log_n) == rev_bits((m + k) as nat, level) * pow2(
                (log_n - level) as nat,
            )) by {
                lemma_pow2_unfold(level);
                assert(((m + k) as nat) < pow2(level));
                lemma_rev_bits_pad((m + k) as nat, level, log_n);
            }
            assert(rev_bits((m + k) as nat, level) == 2 * rev_bits(k as nat, l1) + 1) by {
                lemma_rev_bits_split(1nat, k as nat, level);
            }
            let tau_lo = coset_point(omega, level, (2 * k) as nat, log_n);
            let tau_hi = coset_point(omega, level, (2 * k + 1) as nat, log_n);
            let tau_par = coset_point(omega, l1, k as nat, log_n);
            assert(rev_bits((2 * k) as nat, level) == rev_bits(k as nat, l1)) by {
                assert(((2 * k) as nat) % 2 == 0 && ((2 * k) as nat) / 2 == k as nat);
                assert((0nat) * pow2(l1) == 0);
            }
            assert(rev_bits((2 * k + 1) as nat, level) == pow2(l1) + rev_bits(k as nat, l1))
                by {
                assert(((2 * k + 1) as nat) % 2 == 1 && ((2 * k + 1) as nat) / 2 == k as nat);
                assert((1nat) * pow2(l1) == pow2(l1));
            }
            assert(t == tau_lo);
            // squaring the lower child's point gives the parent's point
            assert(fmul(t, t) == tau_par) by {
                let xx = (2 * rev_bits(k as nat, l1) + 1) as int;
                let pp = pow2((log_n - level) as nat) as int;
                let e = (2 * rev_bits(k as nat, l1) + 1) * pow2((log_n - level) as nat);
                lemma_fpow_adds(omega, e, e);
                lemma_mul_is_associative(2, xx, pp);
                lemma_mul_is_associative(xx, 2, pp);
                lemma_mul_is_commutative(2, xx);
                assert(e + e == xx * (2 * pp));
                assert(2 * pp == pow2((log_n - l1) as nat) as int);
            }
            // the upper child's point is the lower one negated
            assert(tau_hi == fmul(ww, t)) by {
                let xx = (2 * rev_bits(k as nat, l1) + 1) as int;
                let pp = pow2((log_n - level) as nat) as int;
                let mm2 = pow2(l1) as int;
                let e = (2 * rev_bits(k as nat, l1) + 1) * pow2((log_n - level) as nat);
                let eh = (2 * (pow2(l1) + rev_bits(k as nat, l1)) + 1) * pow2(
                    (log_n - level) as nat,
                );
                lemma_pow2_adds(l1, (log_n - l1) as nat);
                lemma_mul_is_commutative(2 * mm2 + xx, pp);
                lemma_mul_is_distributive_add(pp, 2 * mm2, xx);
                lemma_mul_is_commutative(pp, 2 * mm2);
                lemma_mul_is_commutative(pp, xx);
                assert(eh == (2 * mm2) * pp + xx * pp);
                lemma_mul_is_associative(2, mm2, pp);
                lemma_mul_is_associative(mm2, 2, pp);
                lemma_mul_is_commutative(2, mm2);
                assert((2 * mm2) * pp == mm2 * (2 * pp));
                assert(mm2 * (2 * pp) == pow2(l1) * pow2((log_n - l1) as nat));
                assert(eh == pow2(log_n) + e);
                lemma_fpow_adds(omega, pow2(log_n), e);
            }
            // the upper child's squared point is the parent's point too
            assert(fmul(tau_hi, tau_hi) == tau_par) by {
                lemma_fmul_comm(ww, t);
                lemma_fmul_assoc(t, ww, fmul(ww, t));
                lemma_fmul_assoc(ww, ww, t);
                lemma_fmul_comm(fmul(ww, ww), t);
                lemma_fundamental_div_mod_converse(
                    18446744069414584320int * 18446744069414584320int,
                    18446744069414584321int,
                    18446744069414584319int,
                    1int,
                );
                assert(fmul(ww, ww) == 1);
                lemma_fmul_assoc(t, fmul(ww, ww), t);
                lemma_fmul_comm(t, fmul(fmul(ww, ww), t));
                lemma_fmul_comm(fmul(ww, ww), t);
                lemma_fmul_one(t);
                assert(fmul(tau_hi, tau_hi) == fmul(t, t));
            }
            if pos < s {
                // lower child: block 2k, offset unchanged
                let q = pos;
                assert(i == (2 * k) * s + q) by (nonlinear_arith)
                    requires
                        i == bigs * k + pos,
                        bigs == 2 * s,
                        q == pos,
                ;
                lemma_fundamental_div_mod_converse(i, s, 2 * k, q);
                assert(d[i] == dit_pair_lo(g[i], g[i + s], t));
                assert(g[i] == strided_sum(a, q, bigs, c, tau_par));
                assert(g[i + s] == strided_sum(a, q + s, bigs, c, tau_par)) by {
                    assert((i + s) % bigs == pos + s && (i + s) / bigs == k);
                }
                lemma_strided_sum_split(a, q, s, c, t);
                lemma_fmul_comm(strided_sum(a, q + s, bigs, c, tau_par), t);
            } else {
                // upper child: block 2k + 1, offset shifted down a half
                let q = pos - s;
                assert(i == (2 * k + 1) * s + q) by (nonlinear_arith)
                    requires
                        i == bigs * k + pos,
                        bigs == 2 * s,
                        q == pos - s,
                ;
                lemma_fundamental_div_mod_converse(i, s, 2 * k + 1, q);
                assert(d[i] == dit_pair_hi(g[i - s], g[i], t));
                assert(g[i - s] == strided_sum(a, q, bigs, c, tau_par)) by {
                    assert((i - s) % bigs == pos - s && (i - s) / bigs == k);
                }
                assert(g[i] == strided_sum(a, q + s, bigs, c, tau_par));
                lemma_strided_sum_split(a, q, s, c, tau_hi);
                let ghi = strided_sum(a, q + s, bigs, c, tau_par);
                lemma_fsub_as_fadd_neg(strided_sum(a, q, bigs, c, tau_par), fmul(ghi, t));
                lemma_fmul_comm(ghi, t);
                lemma_fmul_assoc(ww, t, ghi);
                assert(fmul(ww, fmul(ghi, t)) == fmul(tau_hi, ghi)) by {
                    lemma_fmul_comm(ghi, t);
                    lemma_fmul_assoc(ww, t, ghi);
                }
                assert(d[i] == fadd(
                    strided_sum(a, q, bigs, c, tau_par),
                    fmul(tau_hi, ghi),
                ));
            }
        }
    }
}

/// Law: the forward network maps the coefficients to the evaluations of
/// their polynomial at the odd powers of the 2n-th root of unity, in
/// bit-reversed order: output slot j holds the value at the point whose
/// exponent is twice the bit-reversal of j, plus one.
pub proof fn lemma_dit_network_evaluates(
    a: Seq<u64>,
    tw: Seq<u64>,
    omega: u64,
    log_n: nat,
    j: int,
)
    requires
        a.len() == pow2(log_n),
        tw.len() == pow2(log_n),
        all_in_field(a),
        in_field(omega),
        forall|jj: int|
            0 <= jj < pow2(log_n) ==> #[trigger] tw[jj] == fpow(
                omega,
                rev_bits(jj as nat, log_n),
            ),
        fpow(omega, pow2(log_n)) == GOLDILOCKS_P - 1,
        0 <= j < pow2(log_n),
    ensures
        dit_network(a, tw, log_n, log_n)[j] == eval_poly(
            a,
            fpow(omega, 2 * rev_bits(j as nat, log_n) + 1),
        ),
{
    lemma_dit_network_blocks(a, tw, omega, log_n, log_n);
    lemma_pow2_pos(log_n);
    assert(pow2((log_n - log_n) as nat) == 1) by {
        vstd::arithmetic::power2::lemma2_to64();
    }
    lemma_fundamental_div_mod_converse(j, 1, j, 0);
    assert(coset_point(omega, log_n, j as nat, log_n) == fpow(
        omega,
        2 * rev_bits(j as nat, log_n) + 1,
    )) by {
        assert((2 * rev_bits(j as nat, log_n) + 1) * 1 == 2 * rev_bits(j as nat, log_n) + 1);
    }
}

} // verus!
