//! The radix-2 butterfly network, as a mathematical model.
//!
//! A forward (decimation-in-time) stage at a given layer splits the buffer
//! into blocks, pairs the lower and upper half of each block, and combines
//! each pair with a twiddle factor taken at the block's index. The inverse
//! (decimation-in-frequency) stage mirrors it with the inverse twiddles.
//! Applied at the same layer with inverse twiddles, the inverse stage undoes
//! the forward stage up to a factor of two; over all log2(n) layers the
//! composed network scales by n, which normalization removes.

use vstd::prelude::*;
use vstd::arithmetic::div_mod::{
    lemma_add_mod_noop, lemma_fundamental_div_mod, lemma_fundamental_div_mod_converse,
    lemma_mul_mod_noop_general, lemma_sub_mod_noop,
};
use vstd::arithmetic::power2::{
    lemma_pow2_adds, lemma_pow2_pos, lemma_pow2_strictly_increases, lemma_pow2_unfold, pow2,
};
use crate::field::{
    all_in_field, fadd, fmul, fpow, fsub, in_field, lemma_field_ops_in_field, lemma_fmul_assoc,
    lemma_fmul_comm, lemma_fmul_one, GOLDILOCKS_P,
};

verus! {

/// Lower output of a decimation-in-time butterfly: a + b*t.
pub open spec fn dit_pair_lo(a: u64, b: u64, t: u64) -> u64 {
    fadd(a, fmul(b, t))
}

/// Upper output of a decimation-in-time butterfly: a - b*t.
pub open spec fn dit_pair_hi(a: u64, b: u64, t: u64) -> u64 {
    fsub(a, fmul(b, t))
}

/// Lower output of a decimation-in-frequency butterfly: a + b.
pub open spec fn dif_pair_lo(a: u64, b: u64) -> u64 {
    fadd(a, b)
}

/// Upper output of a decimation-in-frequency butterfly: (a - b)*t.
pub open spec fn dif_pair_hi(a: u64, b: u64, t: u64) -> u64 {
    fmul(fsub(a, b), t)
}

/// One decimation-in-time stage: for block multiplier m = 2^layer and
/// half-block size 2^(log_n - layer - 1), butterfly each index-aligned pair
/// of the lower and upper half of every block, with the twiddle at index
/// m + block.
pub open spec fn dit_layer(a: Seq<u64>, tw: Seq<u64>, layer: nat, log_n: nat) -> Seq<u64> {
    let half = pow2((log_n - layer - 1) as nat) as int;
    let blk = 2 * half;
    let m = pow2(layer) as int;
    Seq::new(
        a.len(),
        |i: int|
            if i % blk < half {
                dit_pair_lo(a[i], a[i + half], tw[m + i / blk])
            } else {
                dit_pair_hi(a[i - half], a[i], tw[m + i / blk])
            },
    )
}

/// One decimation-in-frequency stage: the mirror of `dit_layer`, with the
/// same pairing and twiddle indexing.
pub open spec fn dif_layer(a: Seq<u64>, twi: Seq<u64>, layer: nat, log_n: nat) -> Seq<u64> {
    let half = pow2((log_n - layer - 1) as nat) as int;
    let blk = 2 * half;
    let m = pow2(layer) as int;
    Seq::new(
        a.len(),
        |i: int|
            if i % blk < half {
                dif_pair_lo(a[i], a[i + half])
            } else {
                dif_pair_hi(a[i - half], a[i], twi[m + i / blk])
            },
    )
}

/// The first `layers` decimation-in-time stages, applied in increasing layer
/// order.
pub open spec fn dit_network(a: Seq<u64>, tw: Seq<u64>, layers: nat, log_n: nat) -> Seq<u64>
    decreases layers,
{
    if layers == 0 {
        a
    } else {
        dit_layer(dit_network(a, tw, (layers - 1) as nat, log_n), tw, (layers - 1) as nat, log_n)
    }
}

/// The first `layers` decimation-in-frequency stages, applied in decreasing
/// layer order.
pub open spec fn dif_network(a: Seq<u64>, twi: Seq<u64>, layers: nat, log_n: nat) -> Seq<u64>
    decreases layers,
{
    if layers == 0 {
        a
    } else {
        dif_network(dif_layer(a, twi, (layers - 1) as nat, log_n), twi, (layers - 1) as nat, log_n)
    }
}

/// Every element multiplied by `s`.
pub open spec fn scale_seq(a: Seq<u64>, s: u64) -> Seq<u64> {
    Seq::new(a.len(), |i: int| fmul(a[i], s))
}

/// Index facts for the block decomposition at one layer.
proof fn lemma_block_facts(i: int, layer: nat, log_n: nat)
    requires
        layer < log_n,
        0 <= i < pow2(log_n),
    ensures
        ({
            let half = pow2((log_n - layer - 1) as nat) as int;
            let blk = 2 * half;
            &&& half >= 1
            &&& pow2(log_n) == pow2(layer) * blk
            &&& 0 <= i / blk
            &&& i / blk < pow2(layer)
            &&& 0 <= i % blk < blk
            &&& i == (i / blk) * blk + i % blk
            &&& pow2(layer) + i / blk < pow2(log_n)
        }),
{
    let half = pow2((log_n - layer - 1) as nat) as int;
    let blk = 2 * half;
    let m = pow2(layer) as int;
    lemma_pow2_pos((log_n - layer - 1) as nat);
    lemma_pow2_pos(layer);
    lemma_pow2_unfold((log_n - layer) as nat);
    lemma_pow2_adds(layer, (log_n - layer) as nat);
    assert(pow2(log_n) == pow2(layer) * blk);
    lemma_fundamental_div_mod(i, blk);
    assert(0 <= i % blk < blk);
    assert(0 <= i / blk);
    assert(i / blk < m) by (nonlinear_arith)
        requires
            i < m * blk,
            blk > 0,
            m > 0,
            i == (i / blk) * blk + i % blk,
            0 <= i % blk < blk,
            0 <= i / blk,
    ;
    assert(m + i / blk < 2 * m);
    assert(2 * m == pow2(layer + 1)) by {
        lemma_pow2_unfold(layer + 1);
    }
    if layer + 1 < log_n {
        lemma_pow2_strictly_increases(layer + 1, log_n);
    }
}

/// Division and remainder of the pair partner inside the same block.
proof fn lemma_partner_index(i: int, k: int, pos: int, blk: int)
    requires
        blk > 0,
        0 <= pos < blk,
        i == k * blk + pos,
        k >= 0,
    ensures
        i / blk == k,
        i % blk == pos,
{
    lemma_fundamental_div_mod_converse(i, blk, k, pos);
}

/// Range and decomposition facts for a butterfly pair at one layer: the
/// partner of index `i` lies in the same block, on the other side of the
/// half boundary, and within the buffer.
pub(crate) proof fn lemma_pair_facts(i: int, layer: nat, log_n: nat)
    requires
        layer < log_n,
        0 <= i < pow2(log_n),
    ensures
        ({
            let half = pow2((log_n - layer - 1) as nat) as int;
            let blk = 2 * half;
            &&& half >= 1
            &&& 0 <= i / blk < pow2(layer)
            &&& 0 <= i % blk < blk
            &&& pow2(layer) + i / blk < pow2(log_n)
            &&& (i % blk < half ==> {
                &&& 0 <= i + half < pow2(log_n)
                &&& (i + half) / blk == i / blk
                &&& (i + half) % blk == i % blk + half
            })
            &&& (i % blk >= half ==> {
                &&& 0 <= i - half < pow2(log_n)
                &&& (i - half) / blk == i / blk
                &&& (i - half) % blk == i % blk - half
            })
        }),
{
    let half = pow2((log_n - layer - 1) as nat) as int;
    let blk = 2 * half;
    let m = pow2(layer) as int;
    lemma_block_facts(i, layer, log_n);
    let k = i / blk;
    let pos = i % blk;
    if pos < half {
        assert(i + half == k * blk + (pos + half));
        lemma_partner_index(i + half, k, pos + half, blk);
        assert(i + half < m * blk) by (nonlinear_arith)
            requires
                i + half == k * blk + (pos + half),
                pos + half < blk,
                k < m,
                blk > 0,
        ;
    } else {
        assert(i - half == k * blk + (pos - half));
        lemma_partner_index(i - half, k, pos - half, blk);
        assert(k * blk >= 0) by (nonlinear_arith)
            requires
                k >= 0,
                blk > 0,
        ;
    }
}

/// A decimation-in-time butterfly followed by the matching
/// decimation-in-frequency butterfly with the inverse twiddle doubles both
/// inputs.
proof fn lemma_butterfly_cancel(x: u64, y: u64, t: u64, ti: u64)
    requires
        in_field(x),
        in_field(y),
        in_field(t),
        in_field(ti),
        fmul(t, ti) == 1,
    ensures
        dif_pair_lo(dit_pair_lo(x, y, t), dit_pair_hi(x, y, t)) == fmul(x, 2),
        dif_pair_hi(dit_pair_lo(x, y, t), dit_pair_hi(x, y, t), ti) == fmul(y, 2),
{
    let p = GOLDILOCKS_P as int;
    let (xi, yi, tt, tii) = (x as int, y as int, t as int, ti as int);
    let m = fmul(y, t);
    let mi = m as int;
    // lower output: ((x+m) mod p + (x-m) mod p) mod p == 2x mod p
    lemma_add_mod_noop(xi + mi, xi - mi, p);
    assert(dif_pair_lo(dit_pair_lo(x, y, t), dit_pair_hi(x, y, t)) == fmul(x, 2));
    // upper output: the difference collapses to 2m mod p
    lemma_sub_mod_noop(xi + mi, xi - mi, p);
    let d = fsub(dit_pair_lo(x, y, t), dit_pair_hi(x, y, t));
    assert(d as int == (2 * mi) % p);
    // (2m mod p) * ti mod p == 2*y*(t*ti) mod p == 2y mod p
    lemma_mul_mod_noop_general(2 * mi, tii, p);
    assert((d as int * tii) % p == (2 * mi * tii) % p);
    assert(2 * mi * tii == mi * (2 * tii)) by (nonlinear_arith);
    lemma_mul_mod_noop_general(yi * tt, 2 * tii, p);
    assert((mi * (2 * tii)) % p == (yi * tt * (2 * tii)) % p);
    assert(yi * tt * (2 * tii) == (2 * yi) * (tt * tii)) by (nonlinear_arith);
    lemma_mul_mod_noop_general(2 * yi, tt * tii, p);
    assert(((2 * yi) * (tt * tii)) % p == ((2 * yi) * (((tt * tii) % p))) % p);
    assert((2 * yi) * 1 == 2 * yi);
    assert(dif_pair_hi(dit_pair_lo(x, y, t), dit_pair_hi(x, y, t), ti) == fmul(y, 2));
}

/// Scaling both inputs scales both outputs of a decimation-in-frequency
/// butterfly.
proof fn lemma_butterfly_scale(x: u64, y: u64, t: u64, s: u64)
    ensures
        dif_pair_lo(fmul(x, s), fmul(y, s)) == fmul(dif_pair_lo(x, y), s),
        dif_pair_hi(fmul(x, s), fmul(y, s), t) == fmul(dif_pair_hi(x, y, t), s),
{
    let p = GOLDILOCKS_P as int;
    let (xi, yi, tt, si) = (x as int, y as int, t as int, s as int);
    // lower: (xs mod p + ys mod p) mod p == (x+y)s mod p == ((x+y) mod p)s mod p
    lemma_add_mod_noop(xi * si, yi * si, p);
    assert(xi * si + yi * si == (xi + yi) * si) by (nonlinear_arith);
    lemma_mul_mod_noop_general(xi + yi, si, p);
    assert(dif_pair_lo(fmul(x, s), fmul(y, s)) == fmul(dif_pair_lo(x, y), s));
    // upper: ((xs mod p - ys mod p) mod p)t mod p == ((x-y)t mod p)s mod p
    lemma_sub_mod_noop(xi * si, yi * si, p);
    assert(xi * si - yi * si == (xi - yi) * si) by (nonlinear_arith);
    assert(fsub(fmul(x, s), fmul(y, s)) as int == ((xi - yi) * si) % p);
    lemma_mul_mod_noop_general((xi - yi) * si, tt, p);
    assert((((xi - yi) * si) % p * tt) % p == ((xi - yi) * si * tt) % p);
    lemma_mul_mod_noop_general(xi - yi, tt, p);
    assert((((xi - yi) % p) * tt) % p == ((xi - yi) * tt) % p);
    lemma_mul_mod_noop_general((xi - yi) * tt, si, p);
    assert((((xi - yi) * tt) % p * si) % p == ((xi - yi) * tt * si) % p);
    assert((xi - yi) * si * tt == (xi - yi) * tt * si) by (nonlinear_arith);
}

/// A stage keeps the length and the canonical range.
proof fn lemma_dit_layer_props(a: Seq<u64>, tw: Seq<u64>, layer: nat, log_n: nat)
    ensures
        dit_layer(a, tw, layer, log_n).len() == a.len(),
        all_in_field(dit_layer(a, tw, layer, log_n)),
{
    let d = dit_layer(a, tw, layer, log_n);
    assert forall|i: int| 0 <= i < d.len() implies in_field(#[trigger] d[i]) by {
        let half = pow2((log_n - layer - 1) as nat) as int;
        let blk = 2 * half;
        if i % blk < half {
            lemma_field_ops_in_field(a[i], fmul(a[i + half], tw[pow2(layer) as int + i / blk]));
        } else {
            lemma_field_ops_in_field(
                a[i - half],
                fmul(a[i], tw[pow2(layer) as int + i / blk]),
            );
        }
    }
}

/// A mirror stage keeps the length and the canonical range.
proof fn lemma_dif_layer_props(a: Seq<u64>, twi: Seq<u64>, layer: nat, log_n: nat)
    ensures
        dif_layer(a, twi, layer, log_n).len() == a.len(),
        all_in_field(dif_layer(a, twi, layer, log_n)),
{
    let d = dif_layer(a, twi, layer, log_n);
    assert forall|i: int| 0 <= i < d.len() implies in_field(#[trigger] d[i]) by {
        let half = pow2((log_n - layer - 1) as nat) as int;
        let blk = 2 * half;
        if i % blk < half {
            lemma_field_ops_in_field(a[i], a[i + half]);
        } else {
            lemma_field_ops_in_field(fsub(a[i - half], a[i]), twi[pow2(layer) as int + i / blk]);
        }
    }
}

/// The inverse network keeps the length and the canonical range.
pub proof fn lemma_dif_network_props(a: Seq<u64>, twi: Seq<u64>, layers: nat, log_n: nat)
    requires
        all_in_field(a),
    ensures
        dif_network(a, twi, layers, log_n).len() == a.len(),
        all_in_field(dif_network(a, twi, layers, log_n)),
    decreases layers,
{
    if layers > 0 {
        let l1 = (layers - 1) as nat;
        lemma_dif_layer_props(a, twi, l1, log_n);
        lemma_dif_network_props(dif_layer(a, twi, l1, log_n), twi, l1, log_n);
    }
}

/// The forward network keeps the length and the canonical range.
pub proof fn lemma_dit_network_props(a: Seq<u64>, tw: Seq<u64>, layers: nat, log_n: nat)
    requires
        all_in_field(a),
    ensures
        dit_network(a, tw, layers, log_n).len() == a.len(),
        all_in_field(dit_network(a, tw, layers, log_n)),
    decreases layers,
{
    if layers > 0 {
        let l1 = (layers - 1) as nat;
        lemma_dit_network_props(a, tw, l1, log_n);
        lemma_dit_layer_props(dit_network(a, tw, l1, log_n), tw, l1, log_n);
    }
}

/// One inverse stage with inverse twiddles undoes the matching forward stage
/// up to an elementwise factor of two.
proof fn lemma_layer_cancel(a: Seq<u64>, tw: Seq<u64>, twi: Seq<u64>, layer: nat, log_n: nat)
    requires
        layer < log_n,
        a.len() == pow2(log_n),
        tw.len() == pow2(log_n),
        twi.len() == pow2(log_n),
        all_in_field(a),
        all_in_field(tw),
        all_in_field(twi),
        forall|j: int| 0 <= j < pow2(log_n) ==> fmul(#[trigger] tw[j], twi[j]) == 1,
    ensures
        dif_layer(dit_layer(a, tw, layer, log_n), twi, layer, log_n) == scale_seq(a, 2),
{
    let d = dit_layer(a, tw, layer, log_n);
    let r = dif_layer(d, twi, layer, log_n);
    let half = pow2((log_n - layer - 1) as nat) as int;
    let blk = 2 * half;
    let m = pow2(layer) as int;
    assert forall|i: int| 0 <= i < r.len() implies r[i] == scale_seq(a, 2)[i] by {
        lemma_pair_facts(i, layer, log_n);
        let k = i / blk;
        let pos = i % blk;
        if pos < half {
            assert(in_field(a[i + half]));
            assert(d[i] == dit_pair_lo(a[i], a[i + half], tw[m + k]));
            assert(d[i + half] == dit_pair_hi(a[i], a[i + half], tw[m + k]));
            lemma_butterfly_cancel(a[i], a[i + half], tw[m + k], twi[m + k]);
        } else {
            assert(in_field(a[i - half]));
            assert(d[i - half] == dit_pair_lo(a[i - half], a[i], tw[m + k]));
            assert(d[i] == dit_pair_hi(a[i - half], a[i], tw[m + k]));
            lemma_butterfly_cancel(a[i - half], a[i], tw[m + k], twi[m + k]);
        }
    }
    assert(r =~= scale_seq(a, 2));
}

/// An inverse stage commutes with elementwise scaling.
proof fn lemma_dif_layer_scale(a: Seq<u64>, twi: Seq<u64>, s: u64, layer: nat, log_n: nat)
    requires
        layer < log_n,
        a.len() == pow2(log_n),
    ensures
        dif_layer(scale_seq(a, s), twi, layer, log_n) == scale_seq(
            dif_layer(a, twi, layer, log_n),
            s,
        ),
{
    let lhs = dif_layer(scale_seq(a, s), twi, layer, log_n);
    let rhs = scale_seq(dif_layer(a, twi, layer, log_n), s);
    let half = pow2((log_n - layer - 1) as nat) as int;
    let blk = 2 * half;
    let m = pow2(layer) as int;
    assert forall|i: int| 0 <= i < lhs.len() implies lhs[i] == rhs[i] by {
        lemma_pair_facts(i, layer, log_n);
        let k = i / blk;
        let pos = i % blk;
        if pos < half {
            lemma_butterfly_scale(a[i], a[i + half], twi[m + k], s);
        } else {
            lemma_butterfly_scale(a[i - half], a[i], twi[m + k], s);
        }
    }
    assert(lhs =~= rhs);
}

/// The whole inverse network commutes with elementwise scaling.
proof fn lemma_dif_network_scale(a: Seq<u64>, twi: Seq<u64>, s: u64, layers: nat, log_n: nat)
    requires
        layers <= log_n,
        a.len() == pow2(log_n),
    ensures
        dif_network(scale_seq(a, s), twi, layers, log_n) == scale_seq(
            dif_network(a, twi, layers, log_n),
            s,
        ),
    decreases layers,
{
    if layers > 0 {
        let l1 = (layers - 1) as nat;
        lemma_dif_layer_scale(a, twi, s, l1, log_n);
        lemma_dif_network_scale(dif_layer(a, twi, l1, log_n), twi, s, l1, log_n);
    }
}

/// Scaling twice is scaling by the product.
pub proof fn lemma_scale_scale(a: Seq<u64>, s1: u64, s2: u64)
    ensures
        scale_seq(scale_seq(a, s1), s2) == scale_seq(a, fmul(s1, s2)),
{
    let lhs = scale_seq(scale_seq(a, s1), s2);
    let rhs = scale_seq(a, fmul(s1, s2));
    assert forall|i: int| 0 <= i < lhs.len() implies lhs[i] == rhs[i] by {
        lemma_fmul_assoc(a[i], s1, s2);
    }
    assert(lhs =~= rhs);
}

/// Scaling by the identity changes nothing.
pub proof fn lemma_scale_one(a: Seq<u64>)
    requires
        all_in_field(a),
    ensures
        scale_seq(a, 1) == a,
{
    assert forall|i: int| 0 <= i < a.len() implies scale_seq(a, 1)[i] == a[i] by {
        lemma_fmul_one(a[i]);
    }
    assert(scale_seq(a, 1) =~= a);
}

/// The inverse network run on the forward network's output, both over the
/// same `layers` count, scales the input elementwise by 2^layers.
pub proof fn lemma_network_round_trip(
    a: Seq<u64>,
    tw: Seq<u64>,
    twi: Seq<u64>,
    layers: nat,
    log_n: nat,
)
    requires
        layers <= log_n,
        a.len() == pow2(log_n),
        tw.len() == pow2(log_n),
        twi.len() == pow2(log_n),
        all_in_field(a),
        all_in_field(tw),
        all_in_field(twi),
        forall|j: int| 0 <= j < pow2(log_n) ==> fmul(#[trigger] tw[j], twi[j]) == 1,
    ensures
        dif_network(dit_network(a, tw, layers, log_n), twi, layers, log_n) == scale_seq(
            a,
            fpow(2u64, layers),
        ),
    decreases layers,
{
    if layers == 0 {
        lemma_scale_one(a);
    } else {
        let l1 = (layers - 1) as nat;
        let g = dit_network(a, tw, l1, log_n);
        lemma_dit_network_props(a, tw, l1, log_n);
        lemma_layer_cancel(g, tw, twi, l1, log_n);
        assert(dit_network(a, tw, layers, log_n) == dit_layer(g, tw, l1, log_n));
        assert(dif_network(dit_network(a, tw, layers, log_n), twi, layers, log_n)
            == dif_network(dif_layer(dit_layer(g, tw, l1, log_n), twi, l1, log_n), twi, l1, log_n));
        assert(dif_network(dit_network(a, tw, layers, log_n), twi, layers, log_n)
            == dif_network(scale_seq(g, 2), twi, l1, log_n));
        lemma_dif_network_scale(g, twi, 2u64, l1, log_n);
        lemma_network_round_trip(a, tw, twi, l1, log_n);
        lemma_scale_scale(a, fpow(2u64, l1), 2u64);
        assert(fmul(fpow(2u64, l1), 2u64) == fpow(2u64, layers)) by {
            lemma_fmul_comm(fpow(2u64, l1), 2u64);
        }
    }
}

} // verus!
