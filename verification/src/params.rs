//! Ring parameters: an NTT-friendly prime modulus and its roots of unity.
use crate::error::NttError;
use crate::modarith::{mul_mod, pow_mod, pow_mod_spec};
use vstd::arithmetic::div_mod::*;
use vstd::arithmetic::mul::*;
use vstd::arithmetic::power::*;
use vstd::arithmetic::power2::*;
use vstd::bits::*;
use vstd::prelude::*;

verus! {

/// `n` is a power of two (1, 2, 4, ...).
pub open spec fn is_power_of_two(n: nat) -> bool
    decreases n,
{
    if n == 0 {
        false
    } else if n == 1 {
        true
    } else {
        n % 2 == 0 && is_power_of_two(n / 2)
    }
}

/// The base-2 logarithm of a power of two.
pub open spec fn log2(n: nat) -> nat
    decreases n,
{
    if n <= 1 {
        0
    } else {
        1 + log2(n / 2)
    }
}

pub proof fn lemma_power_of_two_log2(n: nat)
    requires
        is_power_of_two(n),
    ensures
        pow2(log2(n)) == n,
    decreases n,
{
    if n == 1 {
        lemma2_to64();
    } else {
        lemma_power_of_two_log2(n / 2);
        lemma_pow2_unfold(log2(n));
    }
}

/// Decides whether `n` is a power of two.
pub fn power_of_two(n: usize) -> (r: bool)
    ensures
        r == is_power_of_two(n as nat),
{
    if n == 0 {
        return false;
    }
    let mut m = n;
    while m > 1
        invariant
            m >= 1,
            is_power_of_two(n as nat) == is_power_of_two(m as nat),
        decreases m,
    {
        if m % 2 != 0 {
            return false;
        }
        m = m / 2;
    }
    true
}

/// The odd part `d` of `m = d * 2^s`.
pub open spec fn odd_part(m: nat) -> nat
    decreases m,
{
    if m == 0 || m % 2 == 1 {
        m
    } else {
        odd_part(m / 2)
    }
}

/// The exponent `s` of `m = d * 2^s` with `d` odd.
pub open spec fn two_adic(m: nat) -> nat
    decreases m,
{
    if m == 0 || m % 2 == 1 {
        0
    } else {
        1 + two_adic(m / 2)
    }
}

/// The primes below 40 that are tried as divisors before Miller-Rabin.
pub open spec fn small_primes() -> Seq<int> {
    seq![2int, 3, 5, 7, 11, 13, 17, 19, 23, 29, 31, 37]
}

/// The Miller-Rabin bases used for 64-bit inputs.
pub open spec fn mr_bases() -> Seq<int> {
    seq![2int, 325, 9375, 28178, 450775, 9780504, 1795265022]
}

/// `n` is a strong probable prime to base `a`.
pub open spec fn strong_probable_prime(n: int, a: int) -> bool {
    let d = odd_part((n - 1) as nat);
    let s = two_adic((n - 1) as nat);
    pow(a, d) % n == 1 || exists|r: nat| r < s && #[trigger] (pow(a, d * pow2(r)) % n) == n - 1
}

/// The verdict of the deterministic 64-bit primality test: trial division by
/// the small primes, then Miller-Rabin with the fixed bases.
pub open spec fn passes_primality_test(n: int) -> bool {
    &&& n >= 2
    &&& forall|i: int| 0 <= i < 12 ==> #[trigger] (n % small_primes()[i]) != 0 || n == small_primes()[i]
    &&& (small_primes().contains(n) || forall|i: int|
        0 <= i < 7 ==> #[trigger] (mr_bases()[i] % n) == 0 || strong_probable_prime(n, mr_bases()[i] % n))
}

proof fn lemma_square_pow_mod(a: int, e: nat, n: int)
    requires
        n > 0,
    ensures
        ((pow(a, e) % n) * (pow(a, e) % n)) % n == pow(a, 2 * e) % n,
{
    lemma_mul_mod_noop(pow(a, e), pow(a, e), n);
    lemma_pow_adds(a, e, e);
}

/// Whether `n` passes the strong probable prime test to base `a`.
fn strong_probable_prime_exec(n: u64, a: u64, d: u64, s: u32) -> (r: bool)
    requires
        n >= 3,
        n % 2 == 1,
        d == odd_part((n - 1) as nat),
        s == two_adic((n - 1) as nat),
        d > 0,
    ensures
        r == strong_probable_prime(n as int, a as int),
{
    let mut x = pow_mod(a, d, n);
    proof {
        lemma2_to64();
        assert(d * pow2(0) == d);
        assert(((n - 1) as nat) % 2 == 0);
        assert(s >= 1);
    }
    if x == 1 || x == n - 1 {
        proof {
            if x == n - 1 && x != 1 {
                let r0: nat = 0;
                assert(pow(a as int, odd_part((n - 1) as nat) * pow2(r0)) % (n as int) == n - 1);
            }
        }
        return true;
    }
    let mut i: u32 = 1;
    while i < s
        invariant
            n >= 3,
            d == odd_part((n - 1) as nat),
            s == two_adic((n - 1) as nat),
            1 <= i,
            i <= s || s == 0,
            x == pow(a as int, (d * pow2((i - 1) as nat)) as nat) % (n as int),
            pow(a as int, d as nat) % (n as int) != 1,
            forall|r: nat| r < i ==> #[trigger] (pow(a as int, (d * pow2(r)) as nat) % (n as int)) != n - 1,
        decreases s - i,
    {
        let ghost e = (d * pow2((i - 1) as nat)) as nat;
        x = mul_mod(x, x, n);
        proof {
            lemma_square_pow_mod(a as int, e, n as int);
            lemma_pow2_unfold(i as nat);
            let p = pow2((i - 1) as nat);
            assert(d * (2 * p) == 2 * (d * p)) by (nonlinear_arith);
            assert(2 * e == d * pow2(i as nat));
        }
        if x == n - 1 {
            return true;
        }
        i = i + 1;
    }
    proof {
        assert forall|r: nat| r < s implies #[trigger] (pow(a as int, (d * pow2(r)) as nat) % (n as int)) != n - 1 by {
            assert(r < i);
        }
    }
    false
}

/// Deterministic Miller-Rabin primality test for 64-bit inputs.
fn is_prime_u64(n: u64) -> (r: bool)
    ensures
        r == passes_primality_test(n as int),
{
    if n < 2 {
        return false;
    }
    let small: [u64; 12] = [2, 3, 5, 7, 11, 13, 17, 19, 23, 29, 31, 37];
    assert(small@ =~= small_primes().map_values(|x: int| x as u64));
    let mut i: usize = 0;
    while i < 12
        invariant
            n >= 2,
            small@ =~= small_primes().map_values(|x: int| x as u64),
            i <= 12,
            forall|j: int| 0 <= j < i ==> (n as int) % small_primes()[j] != 0 && n != small_primes()[j],
        decreases 12 - i,
    {
        let p = small[i];
        assert(p == small_primes()[i as int]);
        if n == p {
            proof {
                assert forall|j: int| 0 <= j < 12 implies #[trigger] ((n as int) % small_primes()[j]) != 0
                    || n == small_primes()[j] by {
                    if j > i {
                        assert(small_primes()[j] > small_primes()[i as int]);
                        lemma_small_mod(n as nat, small_primes()[j] as nat);
                    }
                }
                assert(small_primes()[i as int] == n);
            }
            return true;
        }
        if n % p == 0 {
            assert((n as int) % small_primes()[i as int] == 0 && n != small_primes()[i as int]);
            return false;
        }
        i = i + 1;
    }
    assert(!small_primes().contains(n as int));

    let mut d = n - 1;
    let mut s: u32 = 0;
    proof {
        lemma2_to64();
    }
    while d & 1 == 0
        invariant
            n >= 3,
            d >= 1,
            d * pow2(s as nat) == n - 1,
            odd_part(d as nat) == odd_part((n - 1) as nat),
            two_adic((n - 1) as nat) == s + two_adic(d as nat),
            s < 64,
        decreases d,
    {
        assert(d & 1 == d % 2) by (bit_vector);
        assert(d >> 1 == d / 2) by (bit_vector);
        proof {
            lemma_pow2_unfold((s + 1) as nat);
            lemma_mul_is_associative((d / 2) as int, 2, pow2(s as nat) as int);
            assert(d == (d / 2) * 2);
            assert((d / 2) * pow2((s + 1) as nat) == n - 1);
            lemma_mul_inequality(1, (d / 2) as int, pow2((s + 1) as nat) as int);
            if s + 1 >= 64 {
                if s + 1 > 64 {
                    lemma_pow2_strictly_increases(64, (s + 1) as nat);
                }
                lemma2_to64_rest();
                assert(false);
            }
        }
        d >>= 1;
        s += 1;
    }
    assert(d & 1 == d % 2) by (bit_vector);

    assert(n % 2 != 0) by {
        assert((n as int) % small_primes()[0] != 0);
    }
    let bases: [u64; 7] = [2, 325, 9_375, 28_178, 450_775, 9_780_504, 1_795_265_022];
    assert(bases@ =~= mr_bases().map_values(|x: int| x as u64));
    let mut k: usize = 0;
    while k < 7
        invariant
            n >= 3,
            n % 2 == 1,
            !small_primes().contains(n as int),
            forall|i: int| 0 <= i < 12 ==> #[trigger] ((n as int) % small_primes()[i]) != 0 || n == small_primes()[i],
            d == odd_part((n - 1) as nat),
            s == two_adic((n - 1) as nat),
            d > 0,
            bases@ =~= mr_bases().map_values(|x: int| x as u64),
            k <= 7,
            forall|j: int| 0 <= j < k ==> #[trigger] (mr_bases()[j] % (n as int)) == 0
                || strong_probable_prime(n as int, mr_bases()[j] % (n as int)),
        decreases 7 - k,
    {
        assert(bases[k as int] == mr_bases()[k as int]);
        let a = bases[k] % n;
        if a != 0 {
            if !strong_probable_prime_exec(n, a, d, s) {
                assert(!(mr_bases()[k as int] % (n as int) == 0 || strong_probable_prime(n as int, mr_bases()[k as int] % (n as int))));
                return false;
            }
        }
        k = k + 1;
    }
    true
}

/// A number in range for an NTT prime of the given width: `2^(bits-1) <= c < 2^bits`
/// and `c ≡ 1 (mod 2n)`.
pub open spec fn is_ntt_prime_candidate(c: int, n: int, bits: nat) -> bool {
    &&& pow2((bits - 1) as nat) <= c < pow2(bits)
    &&& c % (2 * n) == 1
}

/// The least candidate that passes the primality test.
pub open spec fn is_least_ntt_prime(c: int, n: int, bits: nat) -> bool {
    &&& is_ntt_prime_candidate(c, n, bits)
    &&& passes_primality_test(c)
    &&& forall|d: int| #[trigger] is_ntt_prime_candidate(d, n, bits) && d < c ==> !passes_primality_test(d)
}

/// The modulus that parameter generation selects for `(n, bits)`, if any.
pub open spec fn ntt_prime_for(n: int, bits: nat) -> Option<u64> {
    if exists|c: u64| is_least_ntt_prime(c as int, n, bits) {
        Some(choose|c: u64| is_least_ntt_prime(c as int, n, bits))
    } else {
        None
    }
}

proof fn lemma_least_ntt_prime_unique(c: int, e: int, n: int, bits: nat)
    requires
        is_least_ntt_prime(c, n, bits),
        is_least_ntt_prime(e, n, bits),
    ensures
        c == e,
{
    if c < e {
        assert(is_ntt_prime_candidate(c, n, bits));
    } else if e < c {
        assert(is_ntt_prime_candidate(e, n, bits));
    }
}

proof fn lemma_no_candidate_between(x: int, t: int, m: int)
    requires
        m >= 2,
        x % m == 1,
        0 < t < m,
    ensures
        (x + t) % m != 1,
{
    lemma_add_mod_noop(x, t, m);
    lemma_small_mod(t as nat, m as nat);
    if 1 + t < m {
        lemma_small_mod((1 + t) as nat, m as nat);
    } else {
        lemma_mod_self_0(m);
    }
}

/// Finds the least prime `q` with the requested bit width and `q ≡ 1 mod 2N`.
fn find_ntt_prime(n: usize, bits: u32) -> (r: Option<u64>)
    requires
        n >= 1,
        1 <= bits,
    ensures
        bits < 63 && 2 * n <= u64::MAX ==> r == ntt_prime_for(n as int, bits as nat),
        bits >= 63 || 2 * n > u64::MAX ==> r is None,
{
    let step = match 2u64.checked_mul(n as u64) {
        Some(s) => s,
        None => return None,
    };

    if bits >= 63 {
        return None;
    }

    proof {
        lemma_u64_pow2_no_overflow((bits - 1) as nat);
        lemma_u64_pow2_no_overflow(bits as nat);
        lemma_u64_shl_is_mul(1, (bits - 1) as u64);
        lemma_u64_shl_is_mul(1, bits as u64);
    }
    let lo = 1u64 << (bits - 1);
    let hi = 1u64 << bits;
    assert(lo == pow2((bits - 1) as nat) && hi == pow2(bits as nat));

    let rem = lo % step;
    let add = if rem <= 1 { 1 - rem } else { step + 1 - rem };
    proof {
        // every candidate in [lo, lo + add) misses the residue 1
        assert forall|c: int| #[trigger] is_ntt_prime_candidate(c, n as int, bits as nat) implies c >= lo + add by {
            if c < lo + add {
                let t = c - lo;
                lemma_add_mod_noop(lo as int, t, step as int);
                lemma_small_mod(t as nat, step as nat);
                lemma_mod_bound(lo as int, step as int);
                if rem + t < step {
                    lemma_small_mod((rem + t) as nat, step as nat);
                } else {
                    assert(rem + t == step);
                    lemma_mod_self_0(step as int);
                }
            }
        }
        lemma_add_mod_noop(lo as int, add as int, step as int);
        lemma_mod_bound(lo as int, step as int);
        lemma_small_mod(add as nat, step as nat);
        if rem <= 1 {
            lemma_small_mod((rem + add) as nat, step as nat);
        } else {
            lemma_mod_add_multiples_vanish(1, step as int);
            lemma_small_mod(1, step as nat);
        }
    }
    let mut q = match lo.checked_add(add) {
        Some(v) => v,
        None => {
            return None;
        },
    };

    while q < hi
        invariant
            step == 2 * n,
            step >= 2,
            1 <= bits < 63,
            hi == pow2(bits as nat),
            q >= pow2((bits - 1) as nat),
            q % step == 1,
            forall|c: int| #[trigger] is_ntt_prime_candidate(c, n as int, bits as nat) && c < q
                ==> !passes_primality_test(c),
        decreases u64::MAX - q,
    {
        if is_prime_u64(q) {
            proof {
                assert(is_least_ntt_prime(q as int, n as int, bits as nat));
                let c = choose|c: u64| is_least_ntt_prime(c as int, n as int, bits as nat);
                lemma_least_ntt_prime_unique(c as int, q as int, n as int, bits as nat);
            }
            return Some(q);
        }
        proof {
            assert forall|c: int| #[trigger] is_ntt_prime_candidate(c, n as int, bits as nat) && c < q + step
                implies !passes_primality_test(c) by {
                if c > q {
                    lemma_no_candidate_between(q as int, c - q, step as int);
                }
            }
        }
        proof {
            lemma_mod_add_multiples_vanish(q as int, step as int);
        }
        q = match q.checked_add(step) {
            Some(v) => v,
            None => {
                proof {
                    assert forall|c: u64| !is_least_ntt_prime(c as int, n as int, bits as nat) by {
                        if is_least_ntt_prime(c as int, n as int, bits as nat) {
                            assert(c < hi);
                        }
                    }
                }
                return None;
            },
        };
    }
    proof {
        assert forall|c: u64| !is_least_ntt_prime(c as int, n as int, bits as nat) by {
            if is_least_ntt_prime(c as int, n as int, bits as nat) {
                assert(c < hi);
            }
        }
    }
    None
}

/// `root` is `h^((q-1)/order) mod q`, checked to have order exactly `order` with
/// `root^(order/2) = -1`: `root != 1`, `root^order = 1`, `root^(order/2) = q - 1`.
pub open spec fn root_from_base(h: int, q: int, order: int) -> int {
    pow_mod_spec(h, ((q - 1) / order) as nat, q)
}

pub open spec fn is_good_root_base(h: int, q: int, order: int) -> bool {
    let root = root_from_base(h, q, order);
    &&& root != 1
    &&& pow_mod_spec(root, order as nat, q) == 1
    &&& pow_mod_spec(root, (order / 2) as nat, q) == q - 1
}

/// The range of bases that the root search tries, in order: `2 <= h < max(10000, q)`.
pub open spec fn root_search_limit(q: int) -> int {
    if q > 10000 {
        q
    } else {
        10000
    }
}

pub open spec fn is_least_root_base(h: int, q: int, order: int) -> bool {
    &&& 2 <= h < root_search_limit(q)
    &&& is_good_root_base(h, q, order)
    &&& forall|g: int| 2 <= g < h ==> !#[trigger] is_good_root_base(g, q, order)
}

/// The root of order `order` that the search selects modulo `q`, if any.
pub open spec fn primitive_root_for(q: int, order: int) -> Option<u64> {
    if order >= 2 && (q - 1) % order == 0 && exists|h: u64| is_least_root_base(h as int, q, order) {
        Some(root_from_base((choose|h: u64| is_least_root_base(h as int, q, order)) as int, q, order) as u64)
    } else {
        None
    }
}

proof fn lemma_least_root_base_unique(h: int, g: int, q: int, order: int)
    requires
        is_least_root_base(h, q, order),
        is_least_root_base(g, q, order),
    ensures
        h == g,
{
    if h < g {
        assert(is_good_root_base(h, q, order));
    } else if g < h {
        assert(is_good_root_base(g, q, order));
    }
}

/// Tests one base of the root search.
fn try_root_base(h: u64, exponent: u64, q: u64, order_u64: u64) -> (r: Option<u64>)
    requires
        q >= 1,
        order_u64 >= 2,
        (q - 1) % (order_u64 as int) == 0,
        exponent == (q - 1) / (order_u64 as int),
    ensures
        r is Some <==> is_good_root_base(h as int, q as int, order_u64 as int),
        r matches Some(root) ==> root == root_from_base(h as int, q as int, order_u64 as int),
{
    let root = pow_mod(h, exponent, q);
    if root != 1 && pow_mod(root, order_u64, q) == 1 && pow_mod(root, order_u64 / 2, q) == q - 1 {
        Some(root)
    } else {
        None
    }
}

/// Finds an element of exact order `order` (a power of two) in `Z_q`, by
/// projecting `h = 2, 3, ...` into the subgroup: `root = h^((q-1)/order)`.
fn find_primitive_root_of_order(q: u64, order: u64) -> (r: Option<u64>)
    requires
        q >= 1,
    ensures
        r == primitive_root_for(q as int, order as int),
{
    let order_u64 = order;
    if order < 2 || (q - 1) % order_u64 != 0 {
        return None;
    }

    let exponent = (q - 1) / order_u64;

    let mut h: u64 = 2;
    while h < 10_000
        invariant
            2 <= h <= 10_000,
            q >= 1,
            order_u64 == order,
            order_u64 >= 2,
            (q - 1) % (order_u64 as int) == 0,
            exponent == (q - 1) / (order_u64 as int),
            forall|g: int| 2 <= g < h ==> !#[trigger] is_good_root_base(g, q as int, order as int),
        decreases 10_000 - h,
    {
        if let Some(root) = try_root_base(h, exponent, q, order_u64) {
            proof {
                assert(is_least_root_base(h as int, q as int, order as int));
                let c = choose|c: u64| is_least_root_base(c as int, q as int, order as int);
                lemma_least_root_base_unique(c as int, h as int, q as int, order as int);
            }
            return Some(root);
        }
        h += 1;
    }

    // The probability of success is high, but keep a deterministic fallback.
    while h < q
        invariant
            10_000 <= h,
            q >= 1,
            order_u64 == order,
            order_u64 >= 2,
            (q - 1) % (order_u64 as int) == 0,
            exponent == (q - 1) / (order_u64 as int),
            forall|g: int| 2 <= g < h ==> !#[trigger] is_good_root_base(g, q as int, order as int),
        decreases q - h,
    {
        if let Some(root) = try_root_base(h, exponent, q, order_u64) {
            proof {
                assert(is_least_root_base(h as int, q as int, order as int));
                let c = choose|c: u64| is_least_root_base(c as int, q as int, order as int);
                lemma_least_root_base_unique(c as int, h as int, q as int, order as int);
            }
            return Some(root);
        }
        h += 1;
    }

    proof {
        assert forall|c: u64| !is_least_root_base(c as int, q as int, order as int) by {
            if is_least_root_base(c as int, q as int, order as int) {
                assert(c < h);
            }
        }
    }
    None
}

/// Parameters of the ring `Z_q[X]/(X^N + 1)`.
#[derive(Debug, Clone)]
pub struct RingParams {
    pub n: usize,
    pub modulus: u64,
    pub modulus_bits: u32,
    pub primitive_2n_root: u64,
    pub primitive_n_root: u64,
}

impl RingParams {
    /// What the transforms need of the parameters: a power-of-two dimension,
    /// a modulus of at least 2 that fits its stated width, and a width below 64.
    pub open spec fn wf(self) -> bool {
        &&& is_power_of_two(self.n as nat)
        &&& self.modulus >= 2
        &&& self.modulus_bits <= 64
    }

    /// The root facts that parameter selection establishes: `q = 1 (mod 2n)`, a root
    /// `ψ < q` with `ψ^(2n) = 1` and `ψ^n = -1`, and `ω = ψ^2`.
    pub open spec fn has_roots(self) -> bool {
        let n = self.n as nat;
        let q = self.modulus as int;
        let psi = self.primitive_2n_root as int;
        &&& self.wf()
        &&& q % (2 * n as int) == 1
        &&& psi < q
        &&& pow_mod_spec(psi, 2 * n, q) == 1
        &&& pow_mod_spec(psi, n, q) == q - 1
        &&& self.primitive_n_root == pow_mod_spec(psi, 2, q)
    }

    /// Selects the least prime `q ≡ 1 (mod 2N)` of the given width and a root of
    /// order `2N` modulo `q`.
    pub fn new(n: usize, modulus_bits: u32) -> (r: Result<Self, NttError>)
        ensures
            !is_power_of_two(n as nat) ==> r == Err::<Self, NttError>(NttError::NotPowerOfTwo),
            is_power_of_two(n as nat) && !(4 <= modulus_bits <= 62) ==> r == Err::<Self, NttError>(
                NttError::ModulusBitsOutOfRange,
            ),
            is_power_of_two(n as nat) && 4 <= modulus_bits <= 62 ==> {
                match ntt_prime_for(n as int, modulus_bits as nat) {
                    None => r == Err::<Self, NttError>(NttError::NoNttPrime),
                    Some(q) => match primitive_root_for(q as int, 2 * n) {
                        None => r == Err::<Self, NttError>(NttError::NoPrimitiveRoot),
                        Some(psi) => r == Ok::<Self, NttError>(
                            RingParams {
                                n,
                                modulus: q,
                                modulus_bits,
                                primitive_2n_root: psi,
                                primitive_n_root: pow_mod_spec(psi as int, 2, q as int) as u64,
                            },
                        ),
                    },
                }
            },
            r matches Ok(p) ==> {
                &&& p.has_roots()
                &&& pow2((modulus_bits - 1) as nat) <= p.modulus < pow2(modulus_bits as nat)
                &&& passes_primality_test(p.modulus as int)
            },
    {
        if !power_of_two(n) {
            return Err(NttError::NotPowerOfTwo);
        }
        if !(4 <= modulus_bits && modulus_bits <= 62) {
            return Err(NttError::ModulusBitsOutOfRange);
        }
        proof {
            lemma_power_of_two_log2(n as nat);
            lemma_pow2_pos(log2(n as nat));
        }
        let modulus = match find_ntt_prime(n, modulus_bits) {
            Some(q) => q,
            None => {
                proof {
                    if 2 * n > u64::MAX {
                        assert forall|c: u64| !is_least_ntt_prime(c as int, n as int, modulus_bits as nat) by {
                            if is_least_ntt_prime(c as int, n as int, modulus_bits as nat) {
                                lemma_pow2_strictly_increases(modulus_bits as nat, 64);
                                if modulus_bits > 4 {
                                    lemma_pow2_strictly_increases(3, (modulus_bits - 1) as nat);
                                }
                                lemma2_to64();
                                lemma2_to64_rest();
                                lemma_small_mod(c as nat, (2 * n) as nat);
                            }
                        }
                    }
                }
                return Err(NttError::NoNttPrime);
            },
        };
        proof {
            assert(2 * n <= u64::MAX);
            let c = choose|c: u64| is_least_ntt_prime(c as int, n as int, modulus_bits as nat);
            assert(is_least_ntt_prime(modulus as int, n as int, modulus_bits as nat));
            assert((modulus as int) % (2 * n) == 1);
        }
        let primitive_2n_root = match find_primitive_root_of_order(modulus, 2 * (n as u64)) {
            Some(r) => r,
            None => return Err(NttError::NoPrimitiveRoot),
        };
        let primitive_n_root = pow_mod(primitive_2n_root, 2, modulus);
        proof {
            let order: int = (2 * n) as int;
            let h = choose|h: u64| #[trigger] is_least_root_base(h as int, modulus as int, order);
            assert(is_good_root_base(h as int, modulus as int, order));
            assert((2 * n) / 2 == n);
        }
        Ok(RingParams { n, modulus, modulus_bits, primitive_2n_root, primitive_n_root })
    }
}

} // verus!
