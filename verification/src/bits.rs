//! The bit-reversal permutation: reordering index `i` to the reversal of its
//! low log2(n) bits, the natural output order of the decimation-in-time
//! butterfly network.

use vstd::prelude::*;
use vstd::arithmetic::div_mod::{
    lemma_fundamental_div_mod, lemma_fundamental_div_mod_converse,
};
use vstd::arithmetic::power2::{
    lemma2_to64, lemma_pow2_adds, lemma_pow2_pos, lemma_pow2_strictly_increases,
    lemma_pow2_unfold, pow2,
};

verus! {

/// Whether `n` is a power of two.
pub open spec fn pow2_size(n: nat) -> bool {
    exists|k: nat| pow2(k) == n
}

/// The exponent of a power of two.
pub open spec fn log2_of_pow2(n: nat) -> nat
    decreases n,
{
    if n <= 1 {
        0
    } else {
        1 + log2_of_pow2(n / 2)
    }
}

/// The reversal of the low `bits` bits of `i`.
pub open spec fn rev_bits(i: nat, bits: nat) -> nat
    decreases bits,
{
    if bits == 0 {
        0
    } else {
        (i % 2) * pow2((bits - 1) as nat) + rev_bits(i / 2, (bits - 1) as nat)
    }
}

/// The sequence reordered by bit-reversed index.
pub open spec fn bit_rev_seq<T>(s: Seq<T>, bits: nat) -> Seq<T> {
    Seq::new(s.len(), |j: int| s[rev_bits(j as nat, bits) as int])
}

/// `log2_of_pow2` inverts `pow2`.
pub proof fn lemma_log2_pow2(k: nat)
    ensures
        log2_of_pow2(pow2(k)) == k,
    decreases k,
{
    lemma_pow2_pos(k);
    if k == 0 {
        lemma2_to64();
    } else {
        lemma_pow2_unfold(k);
        let k1 = (k - 1) as nat;
        lemma_pow2_pos(k1);
        lemma_log2_pow2(k1);
        assert(pow2(k) / 2 == pow2(k1));
    }
}

/// A reversed index stays below the same power of two.
pub proof fn lemma_rev_bits_bound(i: nat, bits: nat)
    requires
        i < pow2(bits),
    ensures
        rev_bits(i, bits) < pow2(bits),
    decreases bits,
{
    if bits == 0 {
        lemma2_to64();
    } else {
        let b1 = (bits - 1) as nat;
        lemma_pow2_unfold(bits);
        lemma_rev_bits_bound(i / 2, b1);
        assert((i % 2) * pow2(b1) <= pow2(b1)) by {
            if i % 2 == 0 {
                assert(0 * pow2(b1) == 0);
            } else {
                assert(1 * pow2(b1) == pow2(b1));
            }
        }
    }
}

/// Reversing zero gives zero.
pub proof fn lemma_rev_bits_zero(bits: nat)
    ensures
        rev_bits(0, bits) == 0,
    decreases bits,
{
    if bits > 0 {
        lemma_rev_bits_zero((bits - 1) as nat);
        assert((0nat % 2) * pow2((bits - 1) as nat) == 0);
    }
}

/// Reversing a value split as top bit `s` and low bits `t` appends `s` as the
/// new low bit below the reversal of `t`.
pub proof fn lemma_rev_bits_split(s: nat, t: nat, bits: nat)
    requires
        bits >= 1,
        s < 2,
        t < pow2((bits - 1) as nat),
    ensures
        rev_bits(s * pow2((bits - 1) as nat) + t, bits) == 2 * rev_bits(t, (bits - 1) as nat)
            + s,
    decreases bits,
{
    let b1 = (bits - 1) as nat;
    let x = s * pow2(b1) + t;
    if bits == 1 {
        lemma2_to64();
        assert(t == 0);
        assert(x == s * 1 + 0);
        assert(rev_bits(s, 1) == (s % 2) * pow2(0) + rev_bits(s / 2, 0));
        lemma_rev_bits_zero(0);
    } else {
        let b2 = (bits - 2) as nat;
        lemma_pow2_unfold(b1);
        lemma_pow2_pos(b2);
        lemma_fundamental_div_mod(t as int, 2);
        assert(x == 2 * (s * pow2(b2) + t / 2) + t % 2) by (nonlinear_arith)
            requires
                pow2(b1) == 2 * pow2(b2),
                x == s * pow2(b1) + t,
                t == 2 * (t / 2) + t % 2,
        ;
        lemma_fundamental_div_mod_converse(x as int, 2, (s * pow2(b2) + t / 2) as int, (t
            % 2) as int);
        assert(x / 2 == s * pow2(b2) + t / 2);
        assert(x % 2 == t % 2);
        assert(t / 2 < pow2(b2));
        lemma_rev_bits_split(s, t / 2, b1);
        assert(rev_bits(x, bits) == (t % 2) * pow2(b1) + rev_bits(s * pow2(b2) + t / 2, b1));
        assert(rev_bits(t, b1) == (t % 2) * pow2(b2) + rev_bits(t / 2, b2));
        assert((t % 2) * pow2(b1) + 2 * rev_bits(t / 2, b2) + s == 2 * ((t % 2) * pow2(b2)
            + rev_bits(t / 2, b2)) + s) by (nonlinear_arith)
            requires
                pow2(b1) == 2 * pow2(b2),
        ;
    }
}

/// Reversing over a wider field of bits shifts the reversal of the value's
/// own bits up by the width difference.
pub proof fn lemma_rev_bits_pad(x: nat, small: nat, big: nat)
    requires
        x < pow2(small),
        small <= big,
    ensures
        rev_bits(x, big) == rev_bits(x, small) * pow2((big - small) as nat),
    decreases small,
{
    if small == 0 {
        lemma2_to64();
        lemma_rev_bits_zero(big);
    } else {
        let s1 = (small - 1) as nat;
        let b1 = (big - 1) as nat;
        lemma_pow2_unfold(small);
        lemma_rev_bits_pad(x / 2, s1, b1);
        lemma_pow2_pos((big - small) as nat);
        lemma_pow2_adds(s1, (big - small) as nat);
        assert(rev_bits(x, small) == (x % 2) * pow2(s1) + rev_bits(x / 2, s1));
        assert(rev_bits(x, big) == (x % 2) * pow2(b1) + rev_bits(x / 2, b1));
        assert(rev_bits(x / 2, b1) == rev_bits(x / 2, s1) * pow2((big - small) as nat));
        assert((x % 2) * pow2(b1) == ((x % 2) * pow2(s1)) * pow2((big - small) as nat)
            && rev_bits(x / 2, s1) * pow2((big - small) as nat) + ((x % 2) * pow2(s1)) * pow2(
            (big - small) as nat) == ((x % 2) * pow2(s1) + rev_bits(x / 2, s1)) * pow2((big
            - small) as nat)) by (nonlinear_arith)
            requires
                pow2(b1) == pow2(s1) * pow2((big - small) as nat),
        ;
    }
}

/// Bit reversal is an involution on indices below `pow2(bits)`.
pub proof fn lemma_rev_bits_involution(i: nat, bits: nat)
    requires
        i < pow2(bits),
    ensures
        rev_bits(rev_bits(i, bits), bits) == i,
    decreases bits,
{
    if bits == 0 {
        lemma2_to64();
    } else {
        let b1 = (bits - 1) as nat;
        lemma_pow2_unfold(bits);
        let lo = i % 2;
        let hi = i / 2;
        assert(hi < pow2(b1));
        lemma_rev_bits_bound(hi, b1);
        lemma_rev_bits_split(lo, rev_bits(hi, b1), bits);
        lemma_rev_bits_involution(hi, b1);
        lemma_fundamental_div_mod(i as int, 2);
    }
}

/// Applying the bit-reversal reordering twice gives the original sequence.
pub proof fn lemma_bit_rev_seq_involution<T>(s: Seq<T>, bits: nat)
    requires
        s.len() == pow2(bits),
    ensures
        bit_rev_seq(bit_rev_seq(s, bits), bits) == s,
{
    let r = bit_rev_seq(bit_rev_seq(s, bits), bits);
    assert forall|j: int| 0 <= j < s.len() implies r[j] == s[j] by {
        lemma_rev_bits_bound(j as nat, bits);
        lemma_rev_bits_involution(j as nat, bits);
    }
    assert(r =~= s);
}

/// Compute `pow2(k)` as a machine word.
pub(crate) fn two_pow(k: usize) -> (r: usize)
    requires
        pow2(k as nat) <= usize::MAX,
    ensures
        r == pow2(k as nat),
{
    let mut r: usize = 1;
    let mut i: usize = 0;
    proof {
        lemma2_to64();
    }
    while i < k
        invariant
            i <= k,
            r == pow2(i as nat),
            pow2(k as nat) <= usize::MAX,
        decreases k - i,
    {
        proof {
            if (i as nat) + 1 < k as nat {
                lemma_pow2_strictly_increases((i + 1) as nat, k as nat);
            }
            lemma_pow2_unfold((i + 1) as nat);
        }
        r = r * 2;
        i = i + 1;
    }
    r
}

/// The exponent of a power-of-two machine word.
pub(crate) fn log2_exec(n: usize) -> (k: usize)
    requires
        pow2_size(n as nat),
    ensures
        pow2(k as nat) == n as nat,
        k as nat == log2_of_pow2(n as nat),
{
    let ghost k0 = choose|k: nat| pow2(k) == n as nat;
    let mut m: usize = n;
    let mut k: usize = 0;
    proof {
        lemma_pow2_pos(k0);
        lemma2_to64();
    }
    while m > 1
        invariant
            1 <= m,
            m as nat * pow2(k as nat) == n as nat,
            pow2(k0) == n as nat,
            k <= 64,
            pow2_size(m as nat),
        decreases m,
    {
        proof {
            let j = choose|j: nat| pow2(j) == m as nat;
            lemma_pow2_pos(j);
            if j == 0 {
                lemma2_to64();
                assert(false);
            }
            lemma_pow2_unfold(j);
            assert(m as nat == 2 * pow2((j - 1) as nat));
            assert(m as nat / 2 == pow2((j - 1) as nat));
            assert(m as nat % 2 == 0);
            lemma_pow2_unfold((k + 1) as nat);
            assert((m as nat / 2) * pow2((k + 1) as nat) == n as nat) by (nonlinear_arith)
                requires
                    m as nat % 2 == 0,
                    m as nat * pow2(k as nat) == n as nat,
                    pow2((k + 1) as nat) == 2 * pow2(k as nat),
            ;
            lemma_pow2_pos((j - 1) as nat);
            lemma_pow2_pos(k as nat);
            assert(pow2((k + 1) as nat) <= n as nat) by (nonlinear_arith)
                requires
                    (m as nat / 2) * pow2((k + 1) as nat) == n as nat,
                    m as nat / 2 >= 1,
                    pow2((k + 1) as nat) > 0,
            ;
            lemma2_to64();
            if k + 1 > 64 {
                lemma_pow2_strictly_increases(64, (k + 1) as nat);
                assert(pow2((k + 1) as nat) > 0x10000000000000000);
                assert(false);
            }
        }
        m = m / 2;
        k = k + 1;
    }
    proof {
        assert(m == 1);
        assert(pow2(k as nat) == n as nat);
        if (k as nat) < k0 {
            lemma_pow2_strictly_increases(k as nat, k0);
        }
        if (k as nat) > k0 {
            lemma_pow2_strictly_increases(k0, k as nat);
        }
        lemma_log2_pow2(k0);
    }
    k
}

/// Permute the buffer in place so that the element at index `i` moves to the
/// index obtained by reversing the low log2(n) bits of `i`. For `n <= 2` the
/// reversal is the identity and nothing moves. The length must be a power of
/// two; a caller that cannot guarantee it must check first.
pub fn bit_reverse<T: Copy>(a: &mut Vec<T>)
    requires
        pow2_size(old(a)@.len() as nat),
    ensures
        final(a)@.len() == old(a)@.len(),
        final(a)@ == bit_rev_seq(old(a)@, log2_of_pow2(old(a)@.len() as nat)),
{
    let n = a.len();
    let ghost bits = log2_of_pow2(n as nat);
    let ghost orig = a@;
    proof {
        let k0 = choose|k: nat| pow2(k) == n as nat;
        lemma_pow2_pos(k0);
        lemma_log2_pow2(k0);
        assert(pow2(bits) == n as nat);
    }
    if n > 2 {
        let log_n = log2_exec(n);
        let mut i: usize = 0;
        while i < n
            invariant
                a@.len() == n,
                orig.len() == n,
                pow2(log_n as nat) == n as nat,
                log_n as nat == bits,
                pow2(bits) == n as nat,
                i <= n,
                forall|t: int|
                    0 <= t < n ==> #[trigger] a@[t] == (if t < i || rev_bits(t as nat, bits)
                        < i as nat {
                        orig[rev_bits(t as nat, bits) as int]
                    } else {
                        orig[t]
                    }),
            decreases n - i,
        {
            let ghost pre = a@;
            let j = rev_index(i, log_n);
            proof {
                lemma_rev_bits_bound(i as nat, bits);
                lemma_rev_bits_involution(i as nat, bits);
            }
            if i < j {
                let x = a[i];
                let y = a[j];
                a[i] = y;
                a[j] = x;
            }
            proof {
                assert forall|t: int| 0 <= t < n implies a@[t] == (if t < i + 1 || rev_bits(
                    t as nat,
                    bits,
                ) < (i + 1) as nat {
                    orig[rev_bits(t as nat, bits) as int]
                } else {
                    orig[t]
                }) by {
                    lemma_rev_bits_bound(t as nat, bits);
                    lemma_rev_bits_involution(t as nat, bits);
                }
            }
            i = i + 1;
        }
        proof {
            assert forall|t: int| 0 <= t < n implies a@[t] == bit_rev_seq(orig, bits)[t] by {
                lemma_rev_bits_bound(t as nat, bits);
            }
            assert(a@ =~= bit_rev_seq(orig, bits));
        }
    } else {
        proof {
            lemma2_to64();
            assert forall|t: int| 0 <= t < n implies bit_rev_seq(orig, bits)[t] == orig[t] by {
                if n == 1 {
                    assert(bits == 0) by {
                        if bits >= 1 {
                            lemma_pow2_strictly_increases(0, bits);
                        }
                    }
                    assert(rev_bits(0, 0) == 0);
                } else {
                    assert(n == 2);
                    assert(bits == 1) by {
                        if bits == 0 {
                            assert(pow2(0) == 1);
                        }
                        if bits >= 2 {
                            lemma_pow2_strictly_increases(1, bits);
                        }
                    }
                    assert(rev_bits(0, 1) == (0nat % 2) * pow2(0) + rev_bits(0, 0));
                    assert(rev_bits(1, 1) == (1nat % 2) * pow2(0) + rev_bits(0, 0));
                }
            }
            assert(a@ =~= bit_rev_seq(orig, bits));
        }
    }
}

/// Reverse the low `bits` bits of `i`.
fn rev_index(i: usize, bits: usize) -> (r: usize)
    requires
        i < pow2(bits as nat),
        pow2(bits as nat) <= usize::MAX,
    ensures
        r == rev_bits(i as nat, bits as nat),
{
    let mut x: usize = i;
    let mut acc: usize = 0;
    let mut t: usize = 0;
    proof {
        lemma2_to64();
    }
    while t < bits
        invariant
            t <= bits,
            acc < pow2(t as nat),
            pow2(bits as nat) <= usize::MAX,
            rev_bits(i as nat, bits as nat) == acc * pow2((bits - t) as nat) + rev_bits(
                x as nat,
                (bits - t) as nat,
            ),
        decreases bits - t,
    {
        proof {
            let rem = (bits - t) as nat;
            lemma_pow2_unfold(rem);
            lemma_pow2_unfold((t + 1) as nat);
            lemma_pow2_pos((rem - 1) as nat);
            lemma_pow2_pos(t as nat);
            if (t as nat) + 1 < bits as nat {
                lemma_pow2_strictly_increases((t + 1) as nat, bits as nat);
            }
            assert(rev_bits(x as nat, rem) == (x as nat % 2) * pow2((rem - 1) as nat)
                + rev_bits(x as nat / 2, (rem - 1) as nat));
            assert(acc * pow2(rem) + (x as nat % 2) * pow2((rem - 1) as nat) == (2 * acc + x
                as nat % 2) * pow2((rem - 1) as nat)) by (nonlinear_arith)
                requires
                    pow2(rem) == 2 * pow2((rem - 1) as nat),
            ;
        }
        acc = acc * 2 + x % 2;
        x = x / 2;
        t = t + 1;
    }
    proof {
        assert(rev_bits(x as nat, 0) == 0);
        assert(acc * pow2(0) == acc * 1);
    }
    acc
}

} // verus!
