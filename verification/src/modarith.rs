//! Arithmetic in `Z_q` on 64-bit words.
use vstd::arithmetic::div_mod::*;
use vstd::arithmetic::mul::*;
use vstd::arithmetic::power::*;
use vstd::prelude::*;

verus! {

/// `a - b` as the library computes it: plain when `a >= b`, else wrapped once by `q`.
pub open spec fn sub_mod_spec(a: int, b: int, q: int) -> int {
    if a >= b {
        a - b
    } else {
        q - (b - a)
    }
}

/// `base^exp mod q`, except that an empty product is returned unreduced as 1.
pub open spec fn pow_mod_spec(base: int, exp: nat, q: int) -> int {
    if exp == 0 {
        1
    } else {
        pow(base, exp) % q
    }
}

/// The representative of `x` in `(-q/2, q/2]` (for odd `q`), as a signed integer.
pub open spec fn centered_spec(x: int, q: int) -> int {
    if x <= q / 2 {
        x
    } else {
        x - q
    }
}

/// `(a + b) mod q`.
pub fn add_mod(a: u64, b: u64, q: u64) -> (r: u64)
    requires
        q > 0,
    ensures
        r == (a + b) % (q as int),
{
    ((a as u128 + b as u128) % q as u128) as u64
}

/// `a - b`, wrapped by `q` when `a < b`; equals `(a - b) mod q` when both are below `q`.
pub fn sub_mod(a: u64, b: u64, q: u64) -> (r: u64)
    requires
        a >= b || b - a <= q,
    ensures
        r == sub_mod_spec(a as int, b as int, q as int),
        a < q && b < q ==> r == (a - b) % (q as int) && r < q,
{
    proof {
        if a < q && b < q {
            if a >= b {
                lemma_small_mod((a - b) as nat, q as nat);
            } else {
                lemma_mod_add_multiples_vanish(a - b, q as int);
                lemma_small_mod((q - (b - a)) as nat, q as nat);
            }
        }
    }
    if a >= b {
        a - b
    } else {
        q - (b - a)
    }
}

/// `(a * b) mod q`.
pub fn mul_mod(a: u64, b: u64, q: u64) -> (r: u64)
    requires
        q > 0,
    ensures
        r == (a * b) % (q as int),
{
    proof {
        lemma_mul_upper_bound(a as int, u64::MAX as int, b as int, u64::MAX as int);
        assert(u64::MAX * u64::MAX <= u128::MAX) by (nonlinear_arith);
    }
    ((a as u128 * b as u128) % q as u128) as u64
}

proof fn lemma_pow_mod_step(out: int, b: int, e: nat, q: int)
    requires
        q > 0,
    ensures
        ({
            let bit: nat = e % 2;
            let half: nat = e / 2;
            let out2 = if bit == 1 { (out * b) % q } else { out };
            let b2 = (b * b) % q;
            (out2 * pow(b2, half)) % q == (out * pow(b, e)) % q
        }),
{
    let bit: nat = e % 2;
    let half: nat = e / 2;
    let b2 = (b * b) % q;
    // pow(b, e) == pow(b, bit) * pow(b*b, half)
    assert(e == 2 * half + bit);
    lemma_pow_adds(b, 2 * half, bit);
    lemma_pow_multiplies(b, 2, half);
    lemma_square_is_pow2(b);
    assert(pow(b, 2) == b * b);
    assert(pow(b, e) == pow(b * b, half) * pow(b, bit));
    // pow(b2, half) ≡ pow(b*b, half)
    lemma_pow_mod_noop(b * b, half, q);
    let p = pow(b * b, half);
    let pr = pow(b2, half);
    assert(pr % q == p % q);
    if bit == 1 {
        lemma_pow1(b);
        let out2 = (out * b) % q;
        // (out2 * pr) % q == (out * b * p) % q
        lemma_mul_mod_noop_left(out * b, pr, q);
        lemma_mul_mod_noop_right(out * b, pr, q);
        lemma_mul_mod_noop_right(out * b, p, q);
        lemma_mul_is_associative(out, b, p);
        lemma_mul_is_commutative(p, b);
        lemma_mul_is_associative(out, p, b);
        assert(out * pow(b, e) == out * (p * b));
    } else {
        lemma_pow0(b);
        assert(pow(b, e) == p);
        lemma_mul_mod_noop_right(out, pr, q);
        lemma_mul_mod_noop_right(out, p, q);
    }
}

/// `base^exp mod q` by square-and-multiply (an exponent of 0 gives 1).
pub fn pow_mod(base: u64, exp: u64, q: u64) -> (r: u64)
    requires
        exp > 0 ==> q > 0,
    ensures
        r == pow_mod_spec(base as int, exp as nat, q as int),
        exp > 0 ==> r < q,
        q > 1 ==> r < q,
{
    if exp == 0 {
        return 1;
    }
    let ghost b0 = base;
    let ghost e0 = exp;
    let mut base = base;
    let mut exp = exp;
    let mut out = 1u64;
    proof {
        lemma_pow0(base as int);
        lemma_mul_basics(pow(b0 as int, e0 as nat));
    }
    while exp > 0
        invariant
            q > 0,
            (out * pow(base as int, exp as nat)) % (q as int) == pow(b0 as int, e0 as nat) % (q as int),
            exp <= e0,
            e0 == 0 ==> out == 1,
            e0 > 0 && exp == 0 ==> out < q,
            out == 1 || out < q,
        decreases exp,
    {
        let ghost oo = out;
        let ghost ob = base;
        let ghost oe = exp;
        assert(exp & 1 == exp % 2) by (bit_vector);
        assert(exp >> 1 == exp / 2) by (bit_vector);
        if exp & 1 == 1 {
            out = mul_mod(out, base, q);
        }
        base = mul_mod(base, base, q);
        exp >>= 1;
        proof {
            lemma_pow_mod_step(oo as int, ob as int, oe as nat, q as int);
            assert(oe > 0 && oe / 2 == 0 ==> oe % 2 == 1);
        }
    }
    proof {
        lemma_pow0(base as int);
        if e0 > 0 {
            lemma_small_mod(out as nat, q as nat);
        }
        if q > 1 && out == 1 {
            lemma_small_mod(1, q as nat);
        }
    }
    out
}

/// `a^(q-2) mod q`, the inverse of `a` when `q` is prime and `q ∤ a`.
pub fn inv_mod(a: u64, q: u64) -> (r: u64)
    requires
        q >= 2,
    ensures
        r == pow_mod_spec(a as int, (q - 2) as nat, q as int),
        r < q,
{
    pow_mod(a, q - 2, q)
}

/// `x` moved into the symmetric range around zero.
pub fn centered(x: u64, q: u64) -> (r: i128)
    ensures
        r == centered_spec(x as int, q as int),
{
    if x <= q / 2 {
        x as i128
    } else {
        x as i128 - q as i128
    }
}

/// `x mod q` in `[0, q)` for a signed `x`.
pub fn from_centered(x: i128, q: u64) -> (r: u64)
    requires
        q > 0,
    ensures
        r == (x as int) % (q as int),
{
    let q_i = q as i128;
    let mut y = x % q_i;
    assert(x >= 0 ==> y == (x as int) % (q as int));
    assert(x < 0 ==> y == -((-x) as int % (q as int)));
    proof {
        if x < 0 {
            let qi = q as int;
            let nx = -(x as int);
            let d = nx / qi;
            let m = nx % qi;
            lemma_fundamental_div_mod(nx, qi);
            lemma_mod_bound(nx, qi);
            if m == 0 {
                lemma_mul_unary_negation(d, qi);
                lemma_mul_is_commutative(d, qi);
                assert(x as int == (-d) * qi + 0);
                lemma_fundamental_div_mod_converse_mod(x as int, qi, -d, 0);
            } else {
                lemma_mul_unary_negation(d + 1, qi);
                lemma_mul_is_commutative(d + 1, qi);
                lemma_mul_is_distributive_add_other_way(qi, d, 1);
                lemma_mul_is_commutative(d, qi);
                assert(x as int == (-d - 1) * qi + (qi - m));
                lemma_fundamental_div_mod_converse_mod(x as int, qi, -d - 1, qi - m);
            }
        }
    }
    if y < 0 {
        y += q_i;
    }
    y as u64
}

} // verus!
