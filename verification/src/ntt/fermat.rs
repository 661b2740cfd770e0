//! Fermat's little theorem for the base 2, and so for every power of two, as the base-2
//! round of the primality test establishes it.
use crate::params::{mr_bases, odd_part, passes_primality_test, small_primes, strong_probable_prime, two_adic};
use vstd::arithmetic::div_mod::*;
use vstd::arithmetic::mul::*;
use vstd::arithmetic::power::*;
use vstd::arithmetic::power2::*;
use vstd::prelude::*;

verus! {

/// `m` is its odd part times `2^s`, with `s` its number of factors 2.
proof fn lemma_odd_part_times(m: nat)
    ensures
        odd_part(m) * pow2(two_adic(m)) == m,
    decreases m,
{
    if m == 0 || m % 2 == 1 {
        lemma2_to64();
        assert(m * pow2(0) == m);
    } else {
        let h = m / 2;
        assert(m == 2 * h);
        lemma_odd_part_times(h);
        let t = two_adic(h);
        lemma_pow2_unfold(t + 1);
        assert(two_adic(m) == t + 1);
        assert(odd_part(m) == odd_part(h));
        assert(odd_part(h) * (2 * pow2(t)) == 2 * (odd_part(h) * pow2(t))) by (nonlinear_arith);
        assert(pow2(two_adic(m)) == 2 * pow2(t));
        assert(odd_part(m) * pow2(two_adic(m)) == odd_part(h) * (2 * pow2(t)));
    }
}

/// A power congruent to 1 stays 1 when its exponent is doubled `k` times.
proof fn lemma_one_stays_one(a: int, e: nat, k: nat, q: int)
    requires
        q >= 2,
        pow(a, e) % q == 1,
    ensures
        pow(a, e * pow2(k)) % q == 1,
{
    lemma_pow_multiplies(a, e, pow2(k));
    lemma_pow_mod_noop(pow(a, e), pow2(k), q);
    lemma1_pow(pow2(k));
    lemma_small_mod(1, q as nat);
}

/// Fermat's little theorem for the base 2: an odd `q` that passes the primality test
/// (a listed small prime, or a strong probable prime to the base 2) has `2^(q-1) = 1`.
pub proof fn lemma_fermat_two(q: int)
    requires
        passes_primality_test(q),
        q % 2 == 1,
    ensures
        (pow2((q - 1) as nat) as int) % q == 1,
{
    lemma2_to64();
    if small_primes().contains(q) {
        let i = choose|i: int| 0 <= i < small_primes().len() && small_primes()[i] == q;
        assert(q == 3 || q == 5 || q == 7 || q == 11 || q == 13 || q == 17 || q == 19 || q == 23 || q == 29
            || q == 31 || q == 37);
        // the listed odd primes, one by one
        if q == 3 {
            assert(pow2(2) % 3 == 1);
        } else if q == 5 {
            assert(pow2(4) % 5 == 1);
        } else if q == 7 {
            assert(pow2(6) % 7 == 1);
        } else if q == 11 {
            assert(pow2(10) % 11 == 1);
        } else if q == 13 {
            assert(pow2(12) % 13 == 1);
        } else if q == 17 {
            assert(pow2(16) % 17 == 1);
        } else if q == 19 {
            assert(pow2(18) % 19 == 1);
        } else if q == 23 {
            assert(pow2(22) % 23 == 1);
        } else if q == 29 {
            assert(pow2(28) % 29 == 1);
        } else if q == 31 {
            assert(pow2(30) % 31 == 1);
        } else {
            lemma2_to64_rest();
            assert(pow2(36) == 68719476736);
            assert(68719476736nat % 37 == 1);
        }
    } else {
        let m = (q - 1) as nat;
        let d = odd_part(m);
        let s = two_adic(m);
        assert(mr_bases()[0] == 2);
        lemma_small_mod(2, q as nat);
        assert(strong_probable_prime(q, mr_bases()[0] % q));
        assert(strong_probable_prime(q, 2));
        lemma_odd_part_times(m);
        lemma_pow2(m);
        if pow(2, d) % q == 1 {
            lemma_one_stays_one(2, d, s, q);
        } else {
            let r = choose|r: nat| r < s && #[trigger] (pow(2, d * pow2(r)) % q) == q - 1;
            let x = pow(2, d * pow2(r));
            // x^2 = (-1)^2 = 1
            lemma_pow_mod_noop(x, 2, q);
            crate::ntt::roots::lemma_minus_one_power(q, 2);
            lemma_pow_multiplies(2, d * pow2(r), 2);
            lemma_pow2_unfold(r + 1);
            assert((d * pow2(r)) * 2 == d * pow2(r + 1)) by (nonlinear_arith)
                requires
                    pow2(r + 1) == 2 * pow2(r),
            ;
            lemma_one_stays_one(2, d * pow2(r + 1), (s - r - 1) as nat, q);
            lemma_pow2_adds(r + 1, (s - r - 1) as nat);
            assert((d * pow2(r + 1)) * pow2((s - r - 1) as nat) == d * pow2(s)) by (nonlinear_arith)
                requires
                    pow2(r + 1) * pow2((s - r - 1) as nat) == pow2(s),
            ;
        }
    }
}

/// Every power of two `n` has `n^(p-1) = 1` modulo a `p` with `2^(p-1) = 1`.
pub proof fn lemma_fermat_power_of_two(k: nat, p: nat)
    requires
        p >= 2,
        (pow2((p - 1) as nat) as int) % (p as int) == 1,
    ensures
        pow(pow2(k) as int, (p - 1) as nat) % (p as int) == 1,
{
    lemma_pow2(k);
    lemma_pow2((p - 1) as nat);
    lemma_pow_multiplies(2, k, (p - 1) as nat);
    lemma_pow_multiplies(2, (p - 1) as nat, k);
    lemma_mul_is_commutative(k as int, (p - 1) as int);
    lemma_pow_mod_noop(pow(2, (p - 1) as nat), k, p as int);
    lemma1_pow(k);
    lemma_small_mod(1, p);
}

} // verus!
