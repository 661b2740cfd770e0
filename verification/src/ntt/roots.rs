//! Facts about the roots of unity that the parameters carry.
use crate::ntt::dft::lemma_pow_m_congruent;
use crate::ntt::spec::{pow_m, transform_root};
use crate::params::{is_power_of_two, RingParams};
use vstd::arithmetic::div_mod::*;
use vstd::arithmetic::mul::*;
use vstd::arithmetic::power::*;
use vstd::prelude::*;

verus! {

/// `(-1)^e` modulo `q`.
pub proof fn lemma_minus_one_power(q: int, e: nat)
    requires
        q >= 2,
    ensures
        pow(q - 1, e) % q == (if e % 2 == 0 {
            1
        } else {
            q - 1
        }),
    decreases e,
{
    lemma_small_mod(1, q as nat);
    lemma_small_mod((q - 1) as nat, q as nat);
    if e == 0 {
        lemma_pow0(q - 1);
    } else {
        let e1 = (e - 1) as nat;
        lemma_minus_one_power(q, e1);
        lemma_pow_adds(q - 1, e1, 1);
        lemma_pow1(q - 1);
        lemma_mul_mod_noop_left(pow(q - 1, e1), q - 1, q);
        if e1 % 2 == 0 {
            assert(1 * (q - 1) == q - 1);
        } else {
            assert((q - 1) * (q - 1) == q * (q - 2) + 1) by (nonlinear_arith);
            lemma_mod_multiples_vanish(q - 2, 1, q);
        }
    }
}

/// The root of order `2n` has `ψ^n = -1`, and the modulus is odd.
pub proof fn lemma_psi_half(params: RingParams)
    requires
        params.has_roots(),
    ensures
        pow(params.primitive_2n_root as int, params.n as nat) % (params.modulus as int) == params.modulus - 1,
        (params.modulus as int) % 2 == 1,
{
    let n = params.n as nat;
    let q = params.modulus as int;
    assert(n >= 1) by {
        assert(is_power_of_two(n));
    }
    // q is odd
    lemma_fundamental_div_mod(q, 2 * n as int);
    assert(q == 2 * (n * (q / (2 * n as int))) + 1) by (nonlinear_arith)
        requires
            q == (2 * n) * (q / (2 * n as int)) + 1,
    ;
    lemma_mod_multiples_vanish(n * (q / (2 * n as int)), 1, 2);
}

/// Since `ψ^n = -1`, both transform roots satisfy `r^(n/2) = -1`.
pub proof fn lemma_transform_root_half(params: RingParams, inverse: bool)
    requires
        params.has_roots(),
        params.n >= 2,
    ensures
        pow(transform_root(params, inverse) as int, (params.n / 2) as nat) % (params.modulus as int)
            == params.modulus - 1,
        (params.modulus as int) % 2 == 1,
{
    let n = params.n as nat;
    let q = params.modulus as int;
    let psi = params.primitive_2n_root as int;
    let h = (n / 2) as nat;
    lemma_psi_half(params);
    // ω^(n/2) = ψ^n
    let w = params.primitive_n_root;
    lemma_pow_mod_noop(pow(psi, 2), h, q);
    lemma_pow_multiplies(psi, 2, h);
    assert(2 * h == n) by {
        assert(is_power_of_two(n));
    }
    assert(pow(w as int, h) % q == q - 1);
    if inverse {
        let e = (q - 2) as nat;
        lemma_pow_m_congruent(w, e, params.modulus);
        let wi = pow_m(w, e, params.modulus);
        lemma_pow_mod_noop(wi as int, h, q);
        lemma_pow_mod_noop(pow(w as int, e), h, q);
        lemma_pow_multiplies(w as int, e, h);
        lemma_pow_multiplies(w as int, h, e);
        lemma_mul_is_commutative(e as int, h as int);
        lemma_pow_mod_noop(pow(w as int, h), e, q);
        lemma_minus_one_power(q, e);
        assert(e % 2 == 1) by {
            lemma_mod_sub_multiples_vanish(q - 2 + 2, 2);
        }
    }
}

} // verus!
