//! Bit-reversal permutation.
use crate::ntt::spec::{bit_reverse, reduced, rev_bits};
use crate::params::{is_power_of_two, lemma_power_of_two_log2, log2};
use vstd::arithmetic::mul::*;
use vstd::arithmetic::power2::*;
use vstd::prelude::*;

verus! {

pub proof fn lemma_rev_bits_bound(i: nat, k: nat)
    ensures
        rev_bits(i, k) < pow2(k),
    decreases k,
{
    lemma_pow2_pos(k);
    if k > 0 {
        lemma_rev_bits_bound(i / 2, (k - 1) as nat);
        lemma_pow2_unfold(k);
        lemma_mul_inequality((i % 2) as int, 1, pow2((k - 1) as nat) as int);
    }
}

/// The base-2 logarithm of a power of two.
pub fn log2_exec(n: usize) -> (r: u32)
    requires
        is_power_of_two(n as nat),
    ensures
        r == log2(n as nat),
        r < 64,
{
    let mut m = n;
    let mut k: u32 = 0;
    proof {
        lemma_power_of_two_log2(n as nat);
        if log2(n as nat) >= 64 {
            if log2(n as nat) > 64 {
                lemma_pow2_strictly_increases(64, log2(n as nat));
            }
            lemma2_to64_rest();
        }
    }
    while m > 1
        invariant
            m >= 1,
            is_power_of_two(m as nat),
            log2(n as nat) == k + log2(m as nat),
            pow2(log2(m as nat)) == m,
            k + log2(m as nat) < 64,
        decreases m,
    {
        proof {
            lemma_pow2_unfold(log2(m as nat));
        }
        m = m / 2;
        k = k + 1;
    }
    k
}

/// The reversal of the lowest `k` bits of `i`.
pub fn reverse_index(i: usize, k: u32) -> (r: usize)
    requires
        k < 64,
        pow2(k as nat) <= usize::MAX,
    ensures
        r == rev_bits(i as nat, k as nat),
{
    let mut r: usize = 0;
    let mut x: usize = i;
    let mut t: u32 = 0;
    proof {
        lemma2_to64();
    }
    while t < k
        invariant
            t <= k < 64,
            pow2(k as nat) <= usize::MAX,
            rev_bits(i as nat, k as nat) == r * pow2((k - t) as nat) + rev_bits(x as nat, (k - t) as nat),
            r < pow2(t as nat),
        decreases k - t,
    {
        proof {
            let e = (k - t - 1) as nat;
            lemma_pow2_unfold((k - t) as nat);
            lemma_pow2_unfold((t + 1) as nat);
            assert(r * (2 * pow2(e)) == (2 * r) * pow2(e)) by (nonlinear_arith);
            lemma_mul_is_distributive_add_other_way(pow2(e) as int, 2 * r, (x % 2) as int);
            if t + 1 < k {
                lemma_pow2_strictly_increases((t + 1) as nat, k as nat);
            }
        }
        r = 2 * r + x % 2;
        x = x / 2;
        t = t + 1;
    }
    proof {
        lemma2_to64();
        assert(t == k);
        assert(rev_bits(x as nat, 0) == 0);
        assert(r * pow2(0) == r);
    }
    r
}

/// Copies `input` into bit-reversed order: word `i` moves to position `rev(i)`.
pub fn bit_reverse_copy(input: &[u64]) -> (out: Vec<u64>)
    requires
        is_power_of_two(input@.len()),
    ensures
        out@ == bit_reverse(input@),
{
    let n = input.len();
    let bits = log2_exec(n);
    let mut out: Vec<u64> = Vec::with_capacity(n);
    proof {
        lemma_power_of_two_log2(n as nat);
    }
    let mut r: usize = 0;
    while r < n
        invariant
            n == input@.len(),
            bits == log2(n as nat),
            bits < 64,
            pow2(bits as nat) == n,
            r <= n,
            out@.len() == r,
            forall|j: int| 0 <= j < r ==> out@[j] == bit_reverse(input@)[j],
        decreases n - r,
    {
        let i = reverse_index(r, bits);
        proof {
            lemma_rev_bits_bound(r as nat, bits as nat);
        }
        out.push(input[i]);
        r = r + 1;
    }
    assert(out@ =~= bit_reverse(input@));
    out
}

/// Permuting words keeps them below `q`.
pub proof fn lemma_bit_reverse_reduced(a: Seq<u64>, q: u64)
    requires
        is_power_of_two(a.len()),
        reduced(a, q),
    ensures
        reduced(bit_reverse(a), q),
{
    lemma_power_of_two_log2(a.len());
    assert forall|r: int| 0 <= r < a.len() implies #[trigger] bit_reverse(a)[r] < q by {
        lemma_rev_bits_bound(r as nat, log2(a.len()));
    }
}


/// Reversing `k + 1` bits of `i + c * 2^k` (with `i < 2^k` and `c` a bit) puts `c` in
/// the lowest place.
pub proof fn lemma_rev_bits_top(i: nat, c: nat, k: nat)
    requires
        i < pow2(k),
        c < 2,
    ensures
        rev_bits(i + c * pow2(k), k + 1) == 2 * rev_bits(i, k) + c,
    decreases k,
{
    let v = i + c * pow2(k);
    if k == 0 {
        lemma2_to64();
        assert(v == c);
        assert(rev_bits(v, 1) == (v % 2) * pow2(0) + rev_bits(v / 2, 0));
    } else {
        let k1 = (k - 1) as nat;
        lemma_pow2_unfold(k);
        lemma_pow2_pos(k1);
        lemma_rev_bits_top(i / 2, c, k1);
        if c == 0 {
            assert(v == i);
        } else {
            assert(v == i + 2 * pow2(k1));
        }
        assert(v % 2 == i % 2 && v / 2 == i / 2 + c * pow2(k1));
        assert(rev_bits(v, k + 1) == (v % 2) * pow2(k) + rev_bits(v / 2, k));
        assert(rev_bits(i, k) == (i % 2) * pow2(k1) + rev_bits(i / 2, k1));
        if i % 2 == 0 {
            assert((v % 2) * pow2(k) == 0) by (nonlinear_arith)
                requires
                    v % 2 == 0,
            ;
            assert((i % 2) * pow2(k1) == 0) by (nonlinear_arith)
                requires
                    i % 2 == 0,
            ;
        } else {
            assert((v % 2) * pow2(k) == pow2(k)) by (nonlinear_arith)
                requires
                    v % 2 == 1,
            ;
            assert((i % 2) * pow2(k1) == pow2(k1)) by (nonlinear_arith)
                requires
                    i % 2 == 1,
            ;
        }
    }
}

/// Bit reversal on `k` bits is an involution on `[0, 2^k)`.
pub proof fn lemma_rev_bits_involution(i: nat, k: nat)
    requires
        i < pow2(k),
    ensures
        rev_bits(rev_bits(i, k), k) == i,
    decreases k,
{
    if k == 0 {
        lemma2_to64();
    } else {
        let k1 = (k - 1) as nat;
        let b = i / 2;
        let c = i % 2;
        lemma_pow2_unfold(k);
        let r1 = rev_bits(b, k1);
        lemma_rev_bits_bound(b, k1);
        lemma_rev_bits_involution(b, k1);
        lemma_rev_bits_top(r1, c, k1);
        assert(rev_bits(i, k) == r1 + c * pow2(k1));
    }
}

} // verus!
