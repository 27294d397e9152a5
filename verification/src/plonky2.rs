//! The transform engine: twiddle precomputation, the staged butterfly
//! passes, and normalization, over the Goldilocks field.
//!
//! Construction draws a primitive root of unity of order 2n, tabulates its
//! first n powers in bit-reversed order (and the same for its inverse), and
//! precomputes the inverse of n. The forward pass runs the
//! decimation-in-time stages in increasing layer order; the backward pass
//! runs the decimation-in-frequency stages in decreasing layer order; the
//! normalizing pass scales by the inverse of n.

use vstd::prelude::*;
use vstd::arithmetic::div_mod::{lemma_fundamental_div_mod, lemma_fundamental_div_mod_converse};
use vstd::arithmetic::power2::{
    lemma2_to64, lemma_pow2_pos, lemma_pow2_strictly_increases, lemma_pow2_unfold, pow2,
};
use crate::Ntt;
use crate::evaluation::{eval_poly, lemma_dit_network_evaluates};
use crate::bits::{
    bit_reverse, lemma_rev_bits_bound, lemma_rev_bits_zero, log2_exec, pow2_size, rev_bits,
    two_pow,
};
use crate::field::{
    all_in_field, fmul, fpow, fsub, gf_add, gf_mul, gf_pow, gf_random, gf_root_of_unity,
    gf_sub, in_field, lemma_field_ops_in_field, lemma_fmul_comm, lemma_fmul_one,
    lemma_fpow_adds, lemma_fpow_in_field, lemma_fpow_mul_inverse, lemma_fpow_two,
    GOLDILOCKS_P, INV_TWO, PACKING_WIDTH,
};
use crate::layers::{
    dif_network, dif_pair_hi, dif_pair_lo, dif_layer, dit_layer, dit_network, dit_pair_hi,
    dit_pair_lo, lemma_dif_network_props, lemma_network_round_trip,
    lemma_scale_one, lemma_scale_scale, scale_seq,
};

verus! {

/// A fixed-size radix-2 transform engine over the Goldilocks field: the
/// bit-reversed twiddle tables for a primitive 2n-th root of unity and its
/// inverse, the packing split of the stages, and the inverse of n.
pub struct Plonky2Ntt {
    n: usize,
    log_n: usize,
    log_n_packed: usize,
    twiddles: Vec<u64>,
    twiddle_invs: Vec<u64>,
    n_inv: u64,
    omega: Ghost<u64>,
    omega_inv: Ghost<u64>,
}

impl Plonky2Ntt {
    /// Well-formedness: the size is the fixed power of two, both twiddle
    /// tables hold the bit-reversed powers of a primitive 2n-th root of
    /// unity and of its inverse, and the stored inverse of n is correct.
    pub closed spec fn wf(&self) -> bool {
        &&& self.log_n <= 31
        &&& self.n as nat == pow2(self.log_n as nat)
        &&& self.log_n_packed <= self.log_n
        &&& self.twiddles@.len() == self.n
        &&& self.twiddle_invs@.len() == self.n
        &&& all_in_field(self.twiddles@)
        &&& all_in_field(self.twiddle_invs@)
        &&& in_field(self.omega@)
        &&& in_field(self.n_inv)
        &&& (forall|j: int|
            0 <= j < self.n ==> #[trigger] self.twiddles@[j] == fpow(
                self.omega@,
                rev_bits(j as nat, self.log_n as nat),
            ))
        &&& (forall|j: int|
            0 <= j < self.n ==> #[trigger] self.twiddle_invs@[j] == fpow(
                self.omega_inv@,
                rev_bits(j as nat, self.log_n as nat),
            ))
        &&& fmul(self.omega@, self.omega_inv@) == 1
        &&& (forall|j: int|
            0 <= j < self.n ==> fmul(#[trigger] self.twiddles@[j], self.twiddle_invs@[j]) == 1)
        &&& fmul(self.n as u64, self.n_inv) == 1
        &&& fpow(self.omega@, pow2((self.log_n + 1) as nat)) == 1
        &&& fpow(self.omega@, pow2(self.log_n as nat)) == GOLDILOCKS_P - 1
    }

    /// The number of butterfly stages, log2(n).
    pub closed spec fn log_size(&self) -> nat {
        self.log_n as nat
    }

    /// The number of stages executed on packed lanes.
    pub closed spec fn log_size_packed(&self) -> nat {
        self.log_n_packed as nat
    }

    /// The twiddle table: powers of the root of unity, bit-reversed.
    pub closed spec fn twiddle_seq(&self) -> Seq<u64> {
        self.twiddles@
    }

    /// The inverse twiddle table.
    pub closed spec fn twiddle_inv_seq(&self) -> Seq<u64> {
        self.twiddle_invs@
    }

    /// The precomputed inverse of n.
    pub closed spec fn inv_size(&self) -> u64 {
        self.n_inv
    }

    /// The primitive 2n-th root of unity the tables were built from.
    pub closed spec fn omega_spec(&self) -> u64 {
        self.omega@
    }

    /// What the forward pass computes: all decimation-in-time stages.
    pub open spec fn spec_forward(&self, a: Seq<u64>) -> Seq<u64> {
        dit_network(a, self.twiddle_seq(), self.log_size(), self.log_size())
    }

    /// What the backward pass computes: all decimation-in-frequency stages.
    pub open spec fn spec_backward(&self, a: Seq<u64>) -> Seq<u64> {
        dif_network(a, self.twiddle_inv_seq(), self.log_size(), self.log_size())
    }

    /// What the normalizing pass computes: scaling by the inverse of n.
    pub open spec fn spec_normalize(&self, a: Seq<u64>) -> Seq<u64> {
        scale_seq(a, self.inv_size())
    }

    /// One twiddle table entry.
    pub fn twiddle(&self, i: usize) -> (t: u64)
        requires
            self.wf(),
            i < self.twiddle_seq().len(),
        ensures
            t == self.twiddle_seq()[i as int],
    {
        self.twiddles[i]
    }

    /// The structure of the twiddle tables: entry j of each table is the
    /// rev(j)-th power of a primitive 2n-th root of unity, or of its
    /// inverse, and matching entries multiply to the identity.
    pub proof fn lemma_twiddle_structure(&self)
        requires
            self.wf(),
        ensures
            self.twiddle_seq().len() == pow2(self.log_size()),
            self.twiddle_inv_seq().len() == pow2(self.log_size()),
            all_in_field(self.twiddle_seq()),
            all_in_field(self.twiddle_inv_seq()),
            in_field(self.omega_spec()),
            fpow(self.omega_spec(), pow2(self.log_size() + 1)) == 1,
            fpow(self.omega_spec(), pow2(self.log_size())) == GOLDILOCKS_P - 1,
            forall|j: int|
                0 <= j < pow2(self.log_size()) ==> #[trigger] self.twiddle_seq()[j] == fpow(
                    self.omega_spec(),
                    rev_bits(j as nat, self.log_size()),
                ),
            forall|j: int|
                0 <= j < pow2(self.log_size()) ==> fmul(
                    #[trigger] self.twiddle_seq()[j],
                    self.twiddle_inv_seq()[j],
                ) == 1,
            fmul(pow2(self.log_size()) as u64, self.inv_size()) == 1,
    {
    }
}

/// Law: the twiddle table entry whose un-reversed index is zero is the
/// multiplicative identity.
pub proof fn lemma_twiddle_identity(ntt: &Plonky2Ntt)
    requires
        ntt.wf(),
    ensures
        ntt.twiddle_seq()[0] == 1,
{
    lemma_pow2_pos(ntt.log_size());
    lemma_rev_bits_zero(ntt.log_size());
}

/// Law: a forward pass, a backward pass and a normalizing pass, in that
/// order, recover the original buffer.
pub proof fn lemma_round_trip(ntt: &Plonky2Ntt, a: Seq<u64>)
    requires
        ntt.wf(),
        a.len() == pow2(ntt.log_size()),
        all_in_field(a),
    ensures
        ntt.spec_normalize(ntt.spec_backward(ntt.spec_forward(a))) == a,
{
    let k = ntt.log_size();
    lemma_network_round_trip(a, ntt.twiddle_seq(), ntt.twiddle_inv_seq(), k, k);
    assert(pow2(k) < GOLDILOCKS_P) by {
        lemma2_to64();
        if k < 31 {
            lemma_pow2_strictly_increases(k, 31);
        }
    }
    lemma_fpow_two(k);
    lemma_scale_scale(a, fpow(2u64, k), ntt.inv_size());
    lemma_scale_one(a);
}


/// Law: the forward pass computes the bit-reversed coset evaluations of the
/// input polynomial: output slot j holds the polynomial's value at the power
/// of the primitive 2n-th root of unity whose exponent is twice the
/// bit-reversal of j, plus one.
pub proof fn lemma_forward_coset_evaluation(ntt: &Plonky2Ntt, a: Seq<u64>, j: int)
    requires
        ntt.wf(),
        a.len() == pow2(ntt.log_size()),
        all_in_field(a),
        0 <= j < pow2(ntt.log_size()),
    ensures
        ntt.spec_forward(a)[j] == eval_poly(
            a,
            fpow(ntt.omega_spec(), 2 * rev_bits(j as nat, ntt.log_size()) + 1),
        ),
{
    ntt.lemma_twiddle_structure();
    lemma_dit_network_evaluates(a, ntt.twiddle_seq(), ntt.omega_spec(), ntt.log_size(), j);
}

/// Law: for transform size one there are no stages, and the forward pass is
/// the identity.
pub proof fn lemma_forward_identity_at_one(ntt: &Plonky2Ntt, a: Seq<u64>)
    requires
        ntt.wf(),
        ntt.log_size() == 0,
    ensures
        ntt.spec_forward(a) == a,
{
}

/// The first n powers of a field element, in natural order.
fn powers_of(base: u64, n: usize) -> (r: Vec<u64>)
    requires
        in_field(base),
    ensures
        r@.len() == n,
        all_in_field(r@),
        forall|i: int| 0 <= i < n ==> #[trigger] r@[i] == fpow(base, i as nat),
{
    let mut r: Vec<u64> = Vec::new();
    let mut acc: u64 = 1;
    let mut i: usize = 0;
    while i < n
        invariant
            i <= n,
            r@.len() == i,
            in_field(acc),
            in_field(base),
            acc == fpow(base, i as nat),
            forall|j: int| 0 <= j < i ==> #[trigger] r@[j] == fpow(base, j as nat),
        decreases n - i,
    {
        r.push(acc);
        proof {
            lemma_fmul_comm(acc, base);
            lemma_field_ops_in_field(acc, base);
            assert(fpow(base, (i + 1) as nat) == fmul(base, fpow(base, i as nat)));
        }
        acc = gf_mul(acc, base);
        i = i + 1;
    }
    proof {
        assert forall|j: int| 0 <= j < r@.len() implies in_field(#[trigger] r@[j]) by {
            lemma_fpow_in_field(base, j as nat);
        }
    }
    r
}

/// A power of two as a field exponent word.
fn two_pow_u64(k: usize) -> (r: u64)
    requires
        k <= 32,
    ensures
        r as nat == pow2(k as nat),
{
    let mut r: u64 = 1;
    let mut i: usize = 0;
    proof {
        lemma2_to64();
    }
    while i < k
        invariant
            i <= k,
            k <= 32,
            r as nat == pow2(i as nat),
        decreases k - i,
    {
        proof {
            lemma_pow2_unfold((i + 1) as nat);
            if (i as nat) + 1 < 32 {
                lemma_pow2_strictly_increases((i + 1) as nat, 32);
            }
            lemma2_to64();
        }
        r = r * 2;
        i = i + 1;
    }
    r
}

/// One decimation-in-time butterfly: b picks up the twiddle, then the pair
/// is replaced by its sum and difference.
fn dit(a: &mut u64, b: &mut u64, t: u64)
    requires
        in_field(*old(a)),
        in_field(*old(b)),
        in_field(t),
    ensures
        *final(a) == dit_pair_lo(*old(a), *old(b), t),
        *final(b) == dit_pair_hi(*old(a), *old(b), t),
{
    let bt = gf_mul(*b, t);
    let na = gf_add(*a, bt);
    let nb = gf_sub(*a, bt);
    *a = na;
    *b = nb;
}

/// One decimation-in-frequency butterfly: sum and difference first, then
/// the difference picks up the twiddle.
fn dif(a: &mut u64, b: &mut u64, t: u64)
    requires
        in_field(*old(a)),
        in_field(*old(b)),
        in_field(t),
    ensures
        *final(a) == dif_pair_lo(*old(a), *old(b)),
        *final(b) == dif_pair_hi(*old(a), *old(b), t),
{
    let d = gf_sub(*a, *b);
    let na = gf_add(*a, *b);
    *b = gf_mul(d, t);
    *a = na;
}

/// One decimation-in-time stage over the whole buffer.
#[verifier::rlimit(100)]
fn dit_stage(a: &mut Vec<u64>, tw: &Vec<u64>, layer: usize, log_n: usize)
    requires
        layer < log_n,
        log_n <= 31,
        old(a)@.len() == pow2(log_n as nat),
        tw@.len() == pow2(log_n as nat),
        all_in_field(old(a)@),
        all_in_field(tw@),
    ensures
        final(a)@.len() == old(a)@.len(),
        all_in_field(final(a)@),
        final(a)@ == dit_layer(old(a)@, tw@, layer as nat, log_n as nat),
{
    proof {
        lemma2_to64();
        lemma_pow2_strictly_increases(layer as nat, 31);
        lemma_pow2_strictly_increases((log_n - 1 - layer) as nat, 31);
    }
    let m = two_pow(layer);
    let half = two_pow(log_n - 1 - layer);
    let ghost orig = a@;
    let ghost dl = dit_layer(orig, tw@, layer as nat, log_n as nat);
    let ghost blk: int = 2 * half as int;
    proof {
        lemma_pow2_pos(layer as nat);
        lemma_pow2_pos((log_n - 1 - layer) as nat);
        lemma_pow2_unfold((log_n - layer) as nat);
        vstd::arithmetic::power2::lemma_pow2_adds(layer as nat, (log_n - layer) as nat);
        assert(pow2(log_n as nat) == m as nat * (2 * half as nat));
        if (layer as nat) + 1 < log_n as nat {
            lemma_pow2_strictly_increases((layer + 1) as nat, log_n as nat);
        }
        lemma_pow2_unfold((layer + 1) as nat);
    }
    let n = a.len();
    let mut k: usize = 0;
    while k < m
        invariant
            a@.len() == n,
            orig.len() == n,
            n as nat == pow2(log_n as nat),
            tw@.len() == n,
            all_in_field(orig),
            all_in_field(tw@),
            layer < log_n,
            log_n <= 31,
            m as nat == pow2(layer as nat),
            half as nat == pow2((log_n - 1 - layer) as nat),
            blk == 2 * half as int,
            n == m * (2 * half),
            2 * (m as nat) <= n as nat,
            half >= 1,
            k <= m,
            dl == dit_layer(orig, tw@, layer as nat, log_n as nat),
            dl.len() == n,
            forall|idx: int|
                0 <= idx < n ==> #[trigger] a@[idx] == (if idx / blk < k {
                    dl[idx]
                } else {
                    orig[idx]
                }),
        decreases m - k,
    {
        let t = tw[m + k];
        let mut j: usize = 0;
        while j < half
            invariant
                a@.len() == n,
                orig.len() == n,
                n as nat == pow2(log_n as nat),
                tw@.len() == n,
                all_in_field(orig),
                all_in_field(tw@),
                layer < log_n,
                log_n <= 31,
                m as nat == pow2(layer as nat),
                half as nat == pow2((log_n - 1 - layer) as nat),
                blk == 2 * half as int,
                n == m * (2 * half),
                2 * (m as nat) <= n as nat,
                half >= 1,
                k < m,
                j <= half,
                t == tw@[m + k],
                in_field(t),
                dl == dit_layer(orig, tw@, layer as nat, log_n as nat),
                dl.len() == n,
                forall|idx: int|
                    0 <= idx < n ==> #[trigger] a@[idx] == (if idx / blk < k || (idx / blk == k
                        && (idx % blk < j || (half <= idx % blk < half as int + j))) {
                        dl[idx]
                    } else {
                        orig[idx]
                    }),
            decreases half - j,
        {
            proof {
                assert(k * (2 * half) + 2 * half <= n) by (nonlinear_arith)
                    requires
                        k < m,
                        n == m * (2 * half),
                        half >= 1,
                ;
                assert(k * (2 * half) >= 0) by (nonlinear_arith)
                    requires
                        k >= 0,
                        half >= 1,
                ;
            }
            let i1 = k * (2 * half) + j;
            let i2 = i1 + half;
            proof {
                lemma_fundamental_div_mod_converse(i1 as int, blk, k as int, j as int);
                lemma_fundamental_div_mod_converse(i2 as int, blk, k as int, j as int
                    + half as int);
            }
            let ghost pre = a@;
            let mut x = a[i1];
            let mut y = a[i2];
            dit(&mut x, &mut y, t);
            a[i1] = x;
            a[i2] = y;
            proof {
                let ii1 = i1 as int;
                let ii2 = i2 as int;
                let mm = pow2(layer as nat) as int;
                assert(ii1 / blk == k as int && ii1 % blk == j as int);
                assert(ii2 / blk == k as int && ii2 % blk == j as int + half as int);
                assert(ii1 == blk * (k as int) + j) by (nonlinear_arith)
                    requires
                        ii1 == (k as int) * (2 * (half as int)) + j,
                        blk == 2 * (half as int),
                ;
                assert(ii2 == blk * (k as int) + j + half);
                assert(a@ == pre.update(ii1, x).update(ii2, y));
                assert(pre[ii1] == orig[ii1]);
                assert(pre[ii2] == orig[ii2]);
                assert(x == dit_pair_lo(orig[ii1], orig[ii2], t));
                assert(y == dit_pair_hi(orig[ii1], orig[ii2], t));
                assert(mm == m as int);
                assert(tw@[mm + ii1 / blk] == t);
                assert(dl[ii1] == dit_pair_lo(orig[ii1], orig[ii1 + half as int], tw@[mm + ii1
                    / blk]));
                assert(a@[ii1] == dl[ii1]);
                assert(dl[ii2] == dit_pair_hi(orig[ii2 - half as int], orig[ii2], tw@[mm + ii2
                    / blk]));
                assert(a@[ii2] == dl[ii2]);
                assert forall|idx: int| 0 <= idx < n implies a@[idx] == (if idx / blk < k || (
                idx / blk == k && (idx % blk < j + 1 || (half <= idx % blk < half as int + j
                    + 1))) {
                    dl[idx]
                } else {
                    orig[idx]
                }) by {
                    lemma_fundamental_div_mod(idx, blk);
                    if idx != ii1 && idx != ii2 {
                        assert(a@[idx] == pre[idx]);
                    }
                }
            }
            j = j + 1;
        }
        k = k + 1;
    }
    proof {
        assert forall|idx: int| 0 <= idx < n implies a@[idx] == dl[idx] by {
            lemma_fundamental_div_mod(idx, blk);
            assert(idx / blk < m) by (nonlinear_arith)
                requires
                    idx < m * blk,
                    blk > 0,
                    m > 0,
                    idx == (idx / blk) * blk + idx % blk,
                    0 <= idx % blk < blk,
                    0 <= idx / blk,
            ;
        }
        assert(a@ =~= dl);
        assert forall|idx: int| 0 <= idx < n implies in_field(#[trigger] a@[idx]) by {
            let mm = pow2(layer as nat) as int;
            if idx % blk < half as int {
                lemma_field_ops_in_field(orig[idx], fmul(orig[idx + half as int], tw@[mm + idx
                    / blk]));
            } else {
                lemma_field_ops_in_field(
                    orig[idx - half as int],
                    fmul(orig[idx], tw@[mm + idx / blk]),
                );
            }
        }
    }
}

/// One decimation-in-frequency stage over the whole buffer.
#[verifier::rlimit(100)]
fn dif_stage(a: &mut Vec<u64>, twi: &Vec<u64>, layer: usize, log_n: usize)
    requires
        layer < log_n,
        log_n <= 31,
        old(a)@.len() == pow2(log_n as nat),
        twi@.len() == pow2(log_n as nat),
        all_in_field(old(a)@),
        all_in_field(twi@),
    ensures
        final(a)@.len() == old(a)@.len(),
        all_in_field(final(a)@),
        final(a)@ == dif_layer(old(a)@, twi@, layer as nat, log_n as nat),
{
    proof {
        lemma2_to64();
        lemma_pow2_strictly_increases(layer as nat, 31);
        lemma_pow2_strictly_increases((log_n - 1 - layer) as nat, 31);
    }
    let m = two_pow(layer);
    let half = two_pow(log_n - 1 - layer);
    let ghost orig = a@;
    let ghost dl = dif_layer(orig, twi@, layer as nat, log_n as nat);
    let ghost blk: int = 2 * half as int;
    proof {
        lemma_pow2_pos(layer as nat);
        lemma_pow2_pos((log_n - 1 - layer) as nat);
        lemma_pow2_unfold((log_n - layer) as nat);
        vstd::arithmetic::power2::lemma_pow2_adds(layer as nat, (log_n - layer) as nat);
        assert(pow2(log_n as nat) == m as nat * (2 * half as nat));
        if (layer as nat) + 1 < log_n as nat {
            lemma_pow2_strictly_increases((layer + 1) as nat, log_n as nat);
        }
        lemma_pow2_unfold((layer + 1) as nat);
    }
    let n = a.len();
    let mut k: usize = 0;
    while k < m
        invariant
            a@.len() == n,
            orig.len() == n,
            n as nat == pow2(log_n as nat),
            twi@.len() == n,
            all_in_field(orig),
            all_in_field(twi@),
            layer < log_n,
            log_n <= 31,
            m as nat == pow2(layer as nat),
            half as nat == pow2((log_n - 1 - layer) as nat),
            blk == 2 * half as int,
            n == m * (2 * half),
            2 * (m as nat) <= n as nat,
            half >= 1,
            k <= m,
            dl == dif_layer(orig, twi@, layer as nat, log_n as nat),
            dl.len() == n,
            forall|idx: int|
                0 <= idx < n ==> #[trigger] a@[idx] == (if idx / blk < k {
                    dl[idx]
                } else {
                    orig[idx]
                }),
        decreases m - k,
    {
        let t = twi[m + k];
        let mut j: usize = 0;
        while j < half
            invariant
                a@.len() == n,
                orig.len() == n,
                n as nat == pow2(log_n as nat),
                twi@.len() == n,
                all_in_field(orig),
                all_in_field(twi@),
                layer < log_n,
                log_n <= 31,
                m as nat == pow2(layer as nat),
                half as nat == pow2((log_n - 1 - layer) as nat),
                blk == 2 * half as int,
                n == m * (2 * half),
                2 * (m as nat) <= n as nat,
                half >= 1,
                k < m,
                j <= half,
                t == twi@[m + k],
                in_field(t),
                dl == dif_layer(orig, twi@, layer as nat, log_n as nat),
                dl.len() == n,
                forall|idx: int|
                    0 <= idx < n ==> #[trigger] a@[idx] == (if idx / blk < k || (idx / blk == k
                        && (idx % blk < j || (half <= idx % blk < half as int + j))) {
                        dl[idx]
                    } else {
                        orig[idx]
                    }),
            decreases half - j,
        {
            proof {
                assert(k * (2 * half) + 2 * half <= n) by (nonlinear_arith)
                    requires
                        k < m,
                        n == m * (2 * half),
                        half >= 1,
                ;
                assert(k * (2 * half) >= 0) by (nonlinear_arith)
                    requires
                        k >= 0,
                        half >= 1,
                ;
            }
            let i1 = k * (2 * half) + j;
            let i2 = i1 + half;
            proof {
                lemma_fundamental_div_mod_converse(i1 as int, blk, k as int, j as int);
                lemma_fundamental_div_mod_converse(i2 as int, blk, k as int, j as int
                    + half as int);
            }
            let ghost pre = a@;
            let mut x = a[i1];
            let mut y = a[i2];
            dif(&mut x, &mut y, t);
            a[i1] = x;
            a[i2] = y;
            proof {
                let ii1 = i1 as int;
                let ii2 = i2 as int;
                let mm = pow2(layer as nat) as int;
                assert(ii1 / blk == k as int && ii1 % blk == j as int);
                assert(ii2 / blk == k as int && ii2 % blk == j as int + half as int);
                assert(ii1 == blk * (k as int) + j) by (nonlinear_arith)
                    requires
                        ii1 == (k as int) * (2 * (half as int)) + j,
                        blk == 2 * (half as int),
                ;
                assert(ii2 == blk * (k as int) + j + half);
                assert(a@ == pre.update(ii1, x).update(ii2, y));
                assert(pre[ii1] == orig[ii1]);
                assert(pre[ii2] == orig[ii2]);
                assert(x == dif_pair_lo(orig[ii1], orig[ii2]));
                assert(y == dif_pair_hi(orig[ii1], orig[ii2], t));
                assert(mm == m as int);
                assert(twi@[mm + ii1 / blk] == t);
                assert(dl[ii1] == dif_pair_lo(orig[ii1], orig[ii1 + half as int]));
                assert(a@[ii1] == dl[ii1]);
                assert(dl[ii2] == dif_pair_hi(orig[ii2 - half as int], orig[ii2], twi@[mm + ii2
                    / blk]));
                assert(a@[ii2] == dl[ii2]);
                assert forall|idx: int| 0 <= idx < n implies a@[idx] == (if idx / blk < k || (
                idx / blk == k && (idx % blk < j + 1 || (half <= idx % blk < half as int + j
                    + 1))) {
                    dl[idx]
                } else {
                    orig[idx]
                }) by {
                    lemma_fundamental_div_mod(idx, blk);
                    if idx != ii1 && idx != ii2 {
                        assert(a@[idx] == pre[idx]);
                    }
                }
            }
            j = j + 1;
        }
        k = k + 1;
    }
    proof {
        assert forall|idx: int| 0 <= idx < n implies a@[idx] == dl[idx] by {
            lemma_fundamental_div_mod(idx, blk);
            assert(idx / blk < m) by (nonlinear_arith)
                requires
                    idx < m * blk,
                    blk > 0,
                    m > 0,
                    idx == (idx / blk) * blk + idx % blk,
                    0 <= idx % blk < blk,
                    0 <= idx / blk,
            ;
        }
        assert(a@ =~= dl);
        assert forall|idx: int| 0 <= idx < n implies in_field(#[trigger] a@[idx]) by {
            let mm = pow2(layer as nat) as int;
            if idx % blk < half as int {
                lemma_field_ops_in_field(orig[idx], orig[idx + half as int]);
            } else {
                lemma_field_ops_in_field(
                    fsub(orig[idx - half as int], orig[idx]),
                    twi@[mm + idx / blk],
                );
            }
        }
    }
}

impl Ntt for Plonky2Ntt {
    type Elem = u64;

    /// Any power of two no larger than 2^31: one more doubling must still
    /// fit under the field's two-adicity.
    open spec fn buildable(n: usize) -> bool {
        pow2_size(n as nat) && n <= 0x80000000
    }

    open spec fn valid(&self) -> bool {
        self.wf()
    }

    closed spec fn size(&self) -> nat {
        self.n as nat
    }

    open spec fn elem_ok(e: u64) -> bool {
        in_field(e)
    }

    open spec fn forward_post(&self, pre: Seq<u64>, post: Seq<u64>) -> bool {
        post == self.spec_forward(pre)
    }

    open spec fn backward_post(&self, pre: Seq<u64>, post: Seq<u64>) -> bool {
        post == self.spec_backward(pre)
    }

    open spec fn normalize_post(&self, pre: Seq<u64>, post: Seq<u64>) -> bool {
        post == self.spec_normalize(pre)
    }

    fn new(n: usize) -> (r: Self) {
        let log_n = log2_exec(n);
        proof {
            lemma2_to64();
            if log_n > 31 {
                if log_n > 32 {
                    lemma_pow2_strictly_increases(32, log_n as nat);
                }
                assert(pow2(log_n as nat) >= 0x100000000);
                assert(false);
            }
        }
        let log_w = log2_exec(PACKING_WIDTH);
        let log_n_packed = if log_w >= log_n {
            0
        } else {
            log_n - log_w
        };
        let omega = gf_root_of_unity(log_n + 1);
        let e = two_pow_u64(log_n + 1);
        proof {
            lemma_pow2_pos((log_n + 1) as nat);
        }
        let omega_inv = gf_pow(omega, e - 1);
        proof {
            lemma_fpow_adds(omega, 1nat, (e - 1) as nat);
            lemma_fmul_one(omega);
            assert(fpow(omega, 1) == fmul(omega, fpow(omega, 0)));
            assert(fmul(omega, omega_inv) == fpow(omega, e as nat));
            lemma_fpow_in_field(omega, (e - 1) as nat);
        }
        let mut twiddles = powers_of(omega, n);
        bit_reverse(&mut twiddles);
        let mut twiddle_invs = powers_of(omega_inv, n);
        bit_reverse(&mut twiddle_invs);
        proof {
            assert forall|j: int| 0 <= j < n implies {
                &&& #[trigger] twiddles@[j] == fpow(omega, rev_bits(j as nat, log_n as nat))
                &&& in_field(twiddles@[j])
                &&& fmul(twiddles@[j], twiddle_invs@[j]) == 1
            } by {
                lemma_rev_bits_bound(j as nat, log_n as nat);
                assert(twiddles@[j] == fpow(omega, rev_bits(j as nat, log_n as nat)));
                assert(twiddle_invs@[j] == fpow(omega_inv, rev_bits(j as nat, log_n as nat)));
                lemma_fpow_mul_inverse(omega, omega_inv, rev_bits(j as nat, log_n as nat));
                lemma_fpow_in_field(omega, rev_bits(j as nat, log_n as nat));
            }
            assert forall|j: int| 0 <= j < n implies {
                &&& #[trigger] twiddle_invs@[j] == fpow(omega_inv, rev_bits(j as nat, log_n as nat))
                &&& in_field(twiddle_invs@[j])
            } by {
                lemma_rev_bits_bound(j as nat, log_n as nat);
                assert(twiddle_invs@[j] == fpow(omega_inv, rev_bits(j as nat, log_n as nat)));
                lemma_fpow_in_field(omega_inv, rev_bits(j as nat, log_n as nat));
            }
        }
        let n_inv = gf_pow(INV_TWO, log_n as u64);
        proof {
            // 2 * INV_TWO == p + 1, so the two multiply to the identity
            lemma_fundamental_div_mod_converse(
                2 * (INV_TWO as int),
                GOLDILOCKS_P as int,
                1,
                1,
            );
            assert(fmul(2u64, INV_TWO) == 1);
            lemma_fpow_mul_inverse(2u64, INV_TWO, log_n as nat);
            if (log_n as nat) < 31 {
                lemma_pow2_strictly_increases(log_n as nat, 31);
            }
            lemma_fpow_two(log_n as nat);
            lemma_fpow_in_field(INV_TWO, log_n as nat);
        }
        let result = Plonky2Ntt {
            n,
            log_n,
            log_n_packed,
            twiddles,
            twiddle_invs,
            n_inv,
            omega: Ghost(omega),
            omega_inv: Ghost(omega_inv),
        };
        result
    }

    fn rand(&self) -> (r: Vec<u64>) {
        let mut r: Vec<u64> = Vec::new();
        let mut i: usize = 0;
        while i < self.n
            invariant
                i <= self.n,
                r@.len() == i,
                forall|j: int| 0 <= j < i ==> in_field(#[trigger] r@[j]),
            decreases self.n - i,
        {
            r.push(gf_random());
            i = i + 1;
        }
        r
    }

    fn forward(&self, a: &mut Vec<u64>) {
        let ghost a0 = a@;
        let mut layer: usize = 0;
        // packed regime: stages below the packing boundary
        while layer < self.log_n_packed
            invariant
                self.wf(),
                a@.len() == self.n,
                all_in_field(a@),
                a0.len() == self.n,
                all_in_field(a0),
                layer <= self.log_n_packed,
                a@ == dit_network(a0, self.twiddles@, layer as nat, self.log_n as nat),
            decreases self.log_n_packed - layer,
        {
            dit_stage(a, &self.twiddles, layer, self.log_n);
            layer = layer + 1;
        }
        // scalar regime: the remaining stages up to the top layer
        while layer < self.log_n
            invariant
                self.wf(),
                a@.len() == self.n,
                all_in_field(a@),
                a0.len() == self.n,
                all_in_field(a0),
                layer <= self.log_n,
                a@ == dit_network(a0, self.twiddles@, layer as nat, self.log_n as nat),
            decreases self.log_n - layer,
        {
            dit_stage(a, &self.twiddles, layer, self.log_n);
            layer = layer + 1;
        }
    }

    fn backward(&self, a: &mut Vec<u64>) {
        let ghost a0 = a@;
        let ghost target = dif_network(
            a0,
            self.twiddle_invs@,
            self.log_n as nat,
            self.log_n as nat,
        );
        let mut layer: usize = self.log_n;
        // scalar regime first: top stages in decreasing layer order
        while layer > self.log_n_packed
            invariant
                self.wf(),
                a@.len() == self.n,
                all_in_field(a@),
                a0.len() == self.n,
                all_in_field(a0),
                self.log_n_packed <= layer <= self.log_n,
                dif_network(a@, self.twiddle_invs@, layer as nat, self.log_n as nat) == target,
            decreases layer,
        {
            layer = layer - 1;
            dif_stage(a, &self.twiddle_invs, layer, self.log_n);
        }
        // packed regime last, still in decreasing layer order
        while layer > 0
            invariant
                self.wf(),
                a@.len() == self.n,
                all_in_field(a@),
                a0.len() == self.n,
                all_in_field(a0),
                layer <= self.log_n,
                dif_network(a@, self.twiddle_invs@, layer as nat, self.log_n as nat) == target,
            decreases layer,
        {
            layer = layer - 1;
            dif_stage(a, &self.twiddle_invs, layer, self.log_n);
        }
        proof {
            lemma_dif_network_props(a0, self.twiddle_invs@, self.log_n as nat, self.log_n as nat);
        }
    }

    fn normalize(&self, a: &mut Vec<u64>) {
        let ghost a0 = a@;
        let mut i: usize = 0;
        let n = a.len();
        while i < n
            invariant
                self.wf(),
                a@.len() == n,
                a0.len() == n,
                all_in_field(a0),
                i <= n,
                forall|j: int|
                    0 <= j < n ==> #[trigger] a@[j] == (if j < i {
                        fmul(a0[j], self.n_inv)
                    } else {
                        a0[j]
                    }),
        decreases n - i,
        {
            let x = a[i];
            let y = gf_mul(x, self.n_inv);
            a[i] = y;
            i = i + 1;
        }
        proof {
            assert(a@ =~= scale_seq(a0, self.n_inv));
            assert forall|j: int| 0 <= j < n implies in_field(#[trigger] a@[j]) by {
                lemma_field_ops_in_field(a0[j], self.n_inv);
            }
        }
    }
}

} // verus!
