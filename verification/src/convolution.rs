//! The convolution theorems behind the product through the transforms: the transform
//! of a cyclic convolution is the pointwise product of the transforms, and the twist by
//! a root of order `2N` turns the cyclic product into the negacyclic one.
use crate::ntt::dft::{
    lemma_add_congruent, lemma_direct_sum_congruent, lemma_mul_congruent, lemma_pow_half_period, lemma_pow_m_congruent,
    lemma_pow_m_pow_m, lemma_pow_period,
};
use crate::ntt::inverse::{
    lemma_strided_as_sum, lemma_sum_congruent, lemma_sum_ext, lemma_sum_rotate, lemma_sum_scale, lemma_sum_swap,
    sum_of,
};
use crate::ntt::dft::lemma_direct_transform_reduced;
use crate::ntt::inverse::lemma_direct_round_trip;
use crate::ntt::laws::law_radix2_matches_direct;
use crate::ntt::naive::direct_transform;
use crate::ntt::radix2::radix2_output;
use crate::ntt::fermat::lemma_fermat_two;
use crate::ntt::roots::{lemma_psi_half, lemma_transform_root_half};
use crate::params::{is_power_of_two, passes_primality_test, RingParams};
use crate::ntt::spec::{mul_m, pow_m, reduced};
use crate::validation::{negacyclic_product, negacyclic_via_ntt, twist, negacyclic_coeff, negacyclic_row, negacyclic_rows, negacyclic_term};
use vstd::arithmetic::div_mod::*;
use vstd::arithmetic::mul::*;
use vstd::arithmetic::power::*;
use vstd::prelude::*;

verus! {

/// Coefficient `k` of the cyclic convolution of the first `n` words of `a` and `b`, over
/// the integers: `sum_i a_i b_((k - i) mod n)`.
pub open spec fn cyclic_sum(a: Seq<u64>, b: Seq<u64>, n: nat, k: int) -> int {
    sum_of(|i: int| a[i] * b[(k + n - i) % (n as int)], n)
}

/// The cyclic convolution of the first `n` words of `a` and `b`, reduced modulo `q`.
pub open spec fn cyclic_product(a: Seq<u64>, b: Seq<u64>, q: u64, n: nat) -> Seq<u64> {
    Seq::new(n, |k: int| (cyclic_sum(a, b, n, k) % (q as int)) as u64)
}

/// The transform sum `sum_j x_j w^(jm)` over the integers.
pub open spec fn transform_sum(x: Seq<u64>, w: int, n: nat, m: int) -> int {
    sum_of(|j: int| x[j] * pow(w, (j * m) as nat), n)
}

/// The rotated transform sum of `b`: `sum_k b_((k - i) mod n) w^(km) = w^(im) B_m`.
proof fn lemma_rotated_transform(b: Seq<u64>, w: int, q: int, n: nat, m: int, i: int)
    requires
        q >= 2,
        n >= 1,
        b.len() == n,
        pow(w, n) % q == 1,
        0 <= i < n,
        0 <= m < n,
    ensures
        sum_of(|k: int| b[(k + n - i) % (n as int)] * pow(w, (k * m) as nat), n) % q == (pow(w, (i * m) as nat)
            * transform_sum(b, w, n, m)) % q,
{
    let ni = n as int;
    let lhs = |k: int| b[(k + n - i) % ni] * pow(w, (k * m) as nat);
    let hb = |j: int| b[j] * pow(w, ((j + i) * m) as nat);
    let rot = |k: int| hb((k + (n - i) as nat) % ni);
    assert forall|k: int| 0 <= k < n implies #[trigger] lhs(k) % q == rot(k) % q by {
        let r = (k + n - i) % ni;
        if k >= i {
            lemma_fundamental_div_mod_converse(k + n - i, ni, 1, k - i);
            assert(r + i == k);
            lemma_pow0(w);
        } else {
            lemma_fundamental_div_mod_converse(k + n - i, ni, 0, k + n - i);
            assert(r + i == k + n);
            assert((k + n) * m == n * m + k * m) by (nonlinear_arith);
            assert(k * m >= 0 && m >= 0) by (nonlinear_arith)
                requires
                    k >= 0,
                    m >= 0,
            ;
            lemma_pow_period(w, n, m as nat, (k * m) as nat, q);
        }
        assert(((k + (n - i) as nat) % ni) == r);
        lemma_mul_congruent(b[r] as int, b[r] as int, pow(w, (k * m) as nat), pow(w, ((r + i) * m) as nat), q);
    }
    lemma_sum_congruent(lhs, rot, n, q);
    lemma_sum_rotate(hb, n, (n - i) as nat);
    let pim = pow(w, (i * m) as nat);
    let tb = |j: int| b[j] * pow(w, (j * m) as nat);
    let scaled = |j: int| pim * tb(j);
    assert forall|j: int| 0 <= j < n implies #[trigger] hb(j) == scaled(j) by {
        assert((j + i) * m == i * m + j * m) by (nonlinear_arith);
        assert(i * m >= 0 && j * m >= 0) by (nonlinear_arith)
            requires
                i >= 0,
                j >= 0,
                m >= 0,
        ;
        lemma_pow_adds(w, (i * m) as nat, (j * m) as nat);
        assert(pim * (b[j] * pow(w, (j * m) as nat)) == b[j] * (pim * pow(w, (j * m) as nat))) by (nonlinear_arith);
    }
    lemma_sum_ext(hb, scaled, n);
    lemma_sum_scale(tb, pim, n);
}

/// The transform of a cyclic convolution, over the integers modulo `q`, is the product of
/// the transforms (coefficient `m`).
proof fn lemma_cyclic_coefficient(a: Seq<u64>, b: Seq<u64>, w: int, q: int, n: nat, m: int)
    requires
        q >= 2,
        n >= 1,
        a.len() == n,
        b.len() == n,
        pow(w, n) % q == 1,
        0 <= m < n,
    ensures
        sum_of(|k: int| cyclic_sum(a, b, n, k) * pow(w, (k * m) as nat), n) % q == (transform_sum(a, w, n, m)
            * transform_sum(b, w, n, m)) % q,
{
    let ni = n as int;
    let f = |i: int, k: int| a[i] * (b[(k + n - i) % ni] * pow(w, (k * m) as nat));
    let outer = |k: int| cyclic_sum(a, b, n, k) * pow(w, (k * m) as nat);
    let by_k = |k: int| sum_of(|i: int| f(i, k), n);
    assert forall|k: int| 0 <= k < n implies #[trigger] outer(k) == by_k(k) by {
        let p = pow(w, (k * m) as nat);
        let terms = |i: int| a[i] * b[(k + n - i) % ni];
        lemma_sum_scale(terms, p, n);
        let scaled = |i: int| p * terms(i);
        let fi = |i: int| f(i, k);
        assert forall|i: int| 0 <= i < n implies #[trigger] scaled(i) == fi(i) by {
            assert(p * (a[i] * b[(k + n - i) % ni]) == a[i] * (b[(k + n - i) % ni] * p)) by (nonlinear_arith);
        }
        lemma_sum_ext(scaled, fi, n);
        lemma_mul_is_commutative(p, cyclic_sum(a, b, n, k));
    }
    lemma_sum_ext(outer, by_k, n);
    lemma_sum_swap(f, n, n);
    let by_i = |i: int| sum_of(|k: int| f(i, k), n);
    let bm = transform_sum(b, w, n, m);
    let target = |i: int| (a[i] * pow(w, (i * m) as nat)) * bm;
    assert forall|i: int| 0 <= i < n implies #[trigger] by_i(i) % q == target(i) % q by {
        let inner = |k: int| b[(k + n - i) % ni] * pow(w, (k * m) as nat);
        lemma_sum_scale(inner, a[i] as int, n);
        let fk = |k: int| f(i, k);
        let scaled = |k: int| a[i] * inner(k);
        assert forall|k: int| 0 <= k < n implies #[trigger] fk(k) == scaled(k) by {}
        lemma_sum_ext(fk, scaled, n);
        lemma_rotated_transform(b, w, q, n, m, i);
        lemma_mul_congruent(a[i] as int, a[i] as int, sum_of(inner, n), pow(w, (i * m) as nat) * bm, q);
        assert(a[i] * (pow(w, (i * m) as nat) * bm) == (a[i] * pow(w, (i * m) as nat)) * bm) by (nonlinear_arith);
    }
    lemma_sum_congruent(by_i, target, n, q);
    let ta = |i: int| a[i] * pow(w, (i * m) as nat);
    lemma_sum_scale(ta, bm, n);
    let scaled = |i: int| bm * ta(i);
    assert forall|i: int| 0 <= i < n implies #[trigger] target(i) == scaled(i) by {
        lemma_mul_is_commutative(bm, ta(i));
    }
    lemma_sum_ext(target, scaled, n);
    lemma_mul_is_commutative(bm, transform_sum(a, w, n, m));
}


/// The transform of the cyclic product is the pointwise product of the transforms.
pub proof fn lemma_cyclic_transform(a: Seq<u64>, b: Seq<u64>, w: u64, q: u64, n: nat)
    requires
        q >= 2,
        n >= 1,
        a.len() == n,
        b.len() == n,
        pow(w as int, n) % (q as int) == 1,
    ensures
        direct_transform(cyclic_product(a, b, q, n), w, q) == Seq::new(
            n,
            |m: int| mul_m(direct_transform(a, w, q)[m], direct_transform(b, w, q)[m], q),
        ),
{
    let qi = q as int;
    let wi = w as int;
    let d = cyclic_product(a, b, q, n);
    let lhs = direct_transform(d, w, q);
    let rhs = Seq::new(n, |m: int| mul_m(direct_transform(a, w, q)[m], direct_transform(b, w, q)[m], q));
    assert forall|m: int| 0 <= m < n implies #[trigger] lhs[m] == rhs[m] by {
        lemma_direct_sum_congruent(d, w, q, m as nat, n);
        lemma_strided_as_sum(d, wi, m as nat, n);
        let dk = |j: int| d[j] * pow(wi, (j * m) as nat);
        let ck = |k: int| cyclic_sum(a, b, n, k) * pow(wi, (k * m) as nat);
        assert forall|k: int| 0 <= k < n implies #[trigger] dk(k) % qi == ck(k) % qi by {
            assert(cyclic_sum(a, b, n, k) >= 0) by {
                lemma_cyclic_sum_nonnegative(a, b, n, k, n);
            }
            lemma_mod_bound(cyclic_sum(a, b, n, k), qi);
            lemma_mod_twice(cyclic_sum(a, b, n, k), qi);
            lemma_mul_congruent(d[k] as int, cyclic_sum(a, b, n, k), pow(wi, (k * m) as nat), pow(wi, (k * m) as nat), qi);
        }
        lemma_sum_congruent(dk, ck, n, qi);
        lemma_cyclic_coefficient(a, b, wi, qi, n, m);
        lemma_direct_sum_congruent(a, w, q, m as nat, n);
        lemma_strided_as_sum(a, wi, m as nat, n);
        lemma_direct_sum_congruent(b, w, q, m as nat, n);
        lemma_strided_as_sum(b, wi, m as nat, n);
        let ah = direct_transform(a, w, q)[m];
        let bh = direct_transform(b, w, q)[m];
        lemma_mul_congruent(ah as int, transform_sum(a, wi, n, m), bh as int, transform_sum(b, wi, n, m), qi);
        lemma_mod_bound(ah * bh, qi);
        lemma_small_mod(lhs[m] as nat, q as nat);
        lemma_small_mod(rhs[m] as nat, q as nat);
        lemma_mod_twice(ah * bh, qi);
    }
    assert(lhs =~= rhs);
}

/// A cyclic sum of words is nonnegative.
proof fn lemma_cyclic_sum_nonnegative(a: Seq<u64>, b: Seq<u64>, n: nat, k: int, m: nat)
    ensures
        sum_of(|i: int| a[i] * b[(k + n - i) % (n as int)], m) >= 0,
    decreases m,
{
    if m > 0 {
        lemma_cyclic_sum_nonnegative(a, b, n, k, (m - 1) as nat);
        let i = m - 1;
        lemma_mul_nonnegative(a[i] as int, b[(k + n - i) % (n as int)] as int);
    }
}


/// The signed product that coefficient `k` of the negacyclic product takes from row `i`:
/// `a_i b_(k-i)` when `i <= k`, else `-a_i b_(k-i+n)`.
pub open spec fn negacyclic_part(a: Seq<u64>, b: Seq<u64>, n: int, k: int, i: int) -> int {
    if i <= k {
        a[i] * b[k - i]
    } else {
        -(a[i] * b[k - i + n])
    }
}

/// Row `i` of the schoolbook sum has the single term at `j = (k - i) mod n`.
proof fn lemma_row_single(a: Seq<u64>, b: Seq<u64>, q: u64, n: int, k: int, i: int, m: int)
    requires
        0 <= k < n,
        0 <= i < n,
        0 <= m <= n,
    ensures
        negacyclic_row(a, b, q, n, k, i, m) == (if (if i <= k { k - i } else { k - i + n }) < m {
            negacyclic_term(a, b, q, n, k, i, if i <= k { k - i } else { k - i + n })
        } else {
            0
        }),
    decreases m,
{
    if m > 0 {
        lemma_row_single(a, b, q, n, k, i, m - 1);
    }
}

/// The rows of the schoolbook sum as a `sum_of`.
proof fn lemma_rows_as_sum(a: Seq<u64>, b: Seq<u64>, q: u64, n: int, k: int, i: nat)
    ensures
        negacyclic_rows(a, b, q, n, k, i as int) == sum_of(|r: int| negacyclic_row(a, b, q, n, k, r, n), i),
    decreases i,
{
    if i > 0 {
        lemma_rows_as_sum(a, b, q, n, k, (i - 1) as nat);
    }
}

/// Coefficient `k` of the schoolbook negacyclic product is the sum of the signed parts,
/// modulo `q`.
proof fn lemma_negacyclic_coeff_parts(a: Seq<u64>, b: Seq<u64>, q: u64, n: nat, k: int)
    requires
        q >= 2,
        n >= 1,
        a.len() == n,
        b.len() == n,
        0 <= k < n,
    ensures
        negacyclic_coeff(a, b, q, n as int, k) == sum_of(|i: int| negacyclic_part(a, b, n as int, k, i), n) % (q as int),
{
    let ni = n as int;
    let qi = q as int;
    lemma_rows_as_sum(a, b, q, ni, k, n);
    let rows = |r: int| negacyclic_row(a, b, q, ni, k, r, ni);
    let parts = |i: int| negacyclic_part(a, b, ni, k, i);
    assert forall|i: int| 0 <= i < n implies #[trigger] rows(i) % qi == parts(i) % qi by {
        lemma_row_single(a, b, q, ni, k, i, ni);
        let j = if i <= k { k - i } else { k - i + ni };
        let p = a[i] * b[j];
        lemma_mod_bound(p, qi);
        lemma_mod_twice(p, qi);
        if i > k {
            lemma_sub_mod_noop(0, p, qi);
            lemma_sub_mod_noop(0, p % qi, qi);
        }
    }
    lemma_sum_congruent(rows, parts, n, qi);
    assert((|r: int| negacyclic_row(a, b, q, ni, k, r, ni)) =~= rows);
}


/// Twisting by `psi` before and by `psi^(q-2)` after turns the cyclic product into the
/// negacyclic one, when `psi^N = -1` and `q = 1 (mod 2N)`.
pub proof fn lemma_untwist(a: Seq<u64>, b: Seq<u64>, psi: u64, q: u64, n: nat)
    requires
        q >= 2,
        n >= 1,
        a.len() == n,
        b.len() == n,
        (q as int) % (2 * n as int) == 1,
        pow(psi as int, n) % (q as int) == q - 1,
    ensures
        twist(
            cyclic_product(twist(a, psi, q, n), twist(b, psi, q, n), q, n),
            pow_m(psi, (q - 2) as nat, q),
            q,
            n,
        ) == negacyclic_product(a, b, q),
{
    let qi = q as int;
    let ni = n as int;
    let pi = psi as int;
    let a2 = twist(a, psi, q, n);
    let b2 = twist(b, psi, q, n);
    let d = cyclic_product(a2, b2, q, n);
    let psii = pow_m(psi, (q - 2) as nat, q);
    let out = twist(d, psii, q, n);
    let want = negacyclic_product(a, b, q);
    // q - 1 = 2n c, psi^(2n) = 1
    let c = qi / (2 * ni);
    lemma_fundamental_div_mod(qi, 2 * ni);
    assert(qi - 1 == (2 * ni) * c);
    assert(c >= 0) by {
        lemma_div_pos_is_pos(qi, 2 * ni);
    }
    lemma_pow_half_period(pi, n, 0, qi);
    lemma_small_mod(1, q as nat);
    assert forall|k: int| 0 <= k < n implies #[trigger] out[k] == want[k] by {
        let pk = pow(pi, ((q - 2) as nat * (k as nat)) as nat);
        lemma_pow_m_pow_m(psi, (q - 2) as nat, k as nat, q);
        let cyc = cyclic_sum(a2, b2, n, k);
        assert(cyc >= 0) by {
            lemma_cyclic_sum_nonnegative(a2, b2, n, k, n);
        }
        lemma_mod_bound(cyc, qi);
        lemma_mod_twice(cyc, qi);
        // out_k = cyc * pk, spread over the rows
        let terms = |i: int| a2[i] * b2[(k + n - i) % ni];
        lemma_sum_scale(terms, pk, n);
        let scaled = |i: int| pk * terms(i);
        let parts = |i: int| negacyclic_part(a, b, ni, k, i);
        assert forall|i: int| 0 <= i < n implies #[trigger] scaled(i) % qi == parts(i) % qi by {
            lemma_twisted_term(a, b, psi, q, n, k, i, c);
        }
        lemma_sum_congruent(scaled, parts, n, qi);
        lemma_mul_congruent(d[k] as int, cyc, psii_pow(psii, k, q), pk, qi);
        lemma_mul_is_commutative(cyc, pk);
        lemma_negacyclic_coeff_parts(a, b, q, n, k);
        lemma_mod_bound(d[k] * psii_pow(psii, k, q), qi);
        lemma_mod_twice(d[k] * psii_pow(psii, k, q), qi);
        lemma_mod_bound(sum_of(parts, n), qi);
        lemma_mod_twice(sum_of(parts, n), qi);
    }
    assert(out =~= want);
}

/// `pow_m(c, k, q)` as an integer.
pub open spec fn psii_pow(c: u64, k: int, q: u64) -> int {
    pow_m(c, k as nat, q) as int
}

/// One twisted term of the cyclic sum, times `psi^((q-2)k)`, is the signed part of the
/// negacyclic product.
proof fn lemma_twisted_term(a: Seq<u64>, b: Seq<u64>, psi: u64, q: u64, n: nat, k: int, i: int, c: int)
    requires
        q >= 2,
        n >= 1,
        a.len() == n,
        b.len() == n,
        0 <= k < n,
        0 <= i < n,
        c >= 0,
        q - 1 == (2 * n) * c,
        pow(psi as int, n) % (q as int) == q - 1,
        pow(psi as int, 2 * n) % (q as int) == 1,
    ensures
        ({
            let ni = n as int;
            let a2 = twist(a, psi, q, n);
            let b2 = twist(b, psi, q, n);
            let pk = pow(psi as int, ((q - 2) as nat * (k as nat)) as nat);
            (pk * (a2[i] * b2[(k + n - i) % ni])) % (q as int) == negacyclic_part(a, b, ni, k, i) % (q as int)
        }),
{
    let qi = q as int;
    let ni = n as int;
    let pi = psi as int;
    let a2 = twist(a, psi, q, n);
    let b2 = twist(b, psi, q, n);
    let j = (k + n - i) % ni;
    let pk = pow(pi, ((q - 2) as nat * (k as nat)) as nat);
    if k >= i {
        lemma_fundamental_div_mod_converse(k + n - i, ni, 1, k - i);
    } else {
        lemma_fundamental_div_mod_converse(k + n - i, ni, 0, k + n - i);
    }
    assert(0 <= j < n);
    // the twisted words
    lemma_pow_m_congruent(psi, i as nat, q);
    lemma_pow_m_congruent(psi, j as nat, q);
    lemma_mul_congruent(a[i] as int, a[i] as int, pow_m(psi, i as nat, q) as int, pow(pi, i as nat), qi);
    lemma_mul_congruent(b[j] as int, b[j] as int, pow_m(psi, j as nat, q) as int, pow(pi, j as nat), qi);
    lemma_mod_bound(a[i] * pow_m(psi, i as nat, q), qi);
    lemma_mod_twice(a[i] * pow_m(psi, i as nat, q), qi);
    lemma_mod_bound(b[j] * pow_m(psi, j as nat, q), qi);
    lemma_mod_twice(b[j] * pow_m(psi, j as nat, q), qi);
    let ta = a[i] * pow(pi, i as nat);
    let tb = b[j] * pow(pi, j as nat);
    lemma_mul_congruent(a2[i] as int, ta, b2[j] as int, tb, qi);
    lemma_mul_congruent(pk, pk, a2[i] * b2[j], ta * tb, qi);
    // collect the powers of psi
    let e = (i + j + (q - 2) * k) as nat;
    assert((q - 2) * k >= 0) by (nonlinear_arith)
        requires
            q >= 2,
            k >= 0,
    ;
    lemma_pow_adds(pi, i as nat, j as nat);
    lemma_pow_adds(pi, (i + j) as nat, ((q - 2) as nat * (k as nat)) as nat);
    let ab = a[i] * b[j];
    assert(pk * (ta * tb) == ab * pow(pi, e)) by (nonlinear_arith)
        requires
            ta == a[i] * pow(pi, i as nat),
            tb == b[j] * pow(pi, j as nat),
            pow(pi, (i + j) as nat) == pow(pi, i as nat) * pow(pi, j as nat),
            pow(pi, e) == pow(pi, (i + j) as nat) * pk,
            ab == a[i] * b[j],
    ;
    if i <= k {
        assert(i + j == k);
        assert(e == (2 * n) * (c * k) + 0) by (nonlinear_arith)
            requires
                e == i + j + (q - 2) * k,
                i + j == k,
                q - 1 == (2 * n) * c,
        ;
        assert(c * k >= 0) by (nonlinear_arith)
            requires
                c >= 0,
                k >= 0,
        ;
        lemma_pow_period(pi, 2 * n, (c * k) as nat, 0, qi);
        lemma_pow0(pi);
        lemma_mul_congruent(ab, ab, pow(pi, e), 1, qi);
    } else {
        assert(i + j == k + n);
        assert(e == (2 * n) * (c * k) + n) by (nonlinear_arith)
            requires
                e == i + j + (q - 2) * k,
                i + j == k + n,
                q - 1 == (2 * n) * c,
        ;
        assert(c * k >= 0) by (nonlinear_arith)
            requires
                c >= 0,
                k >= 0,
        ;
        lemma_pow_period(pi, 2 * n, (c * k) as nat, n, qi);
        lemma_mul_congruent(ab, ab, pow(pi, e), pow(pi, n), qi);
        lemma_pow_half_period(pi, n, ab, qi);
        lemma_mul_is_commutative(ab, pow(pi, n));
    }
}


/// Twisting always gives reduced words.
pub proof fn lemma_twist_reduced(a: Seq<u64>, c: u64, q: u64, n: nat)
    requires
        q >= 2,
        a.len() >= n,
    ensures
        reduced(twist(a, c, q, n), q),
{
    assert forall|i: int| 0 <= i < n implies #[trigger] twist(a, c, q, n)[i] < q by {
        lemma_mod_bound(a[i] * pow_m(c, i as nat, q), q as int);
    }
}

/// Law: for a modulus that passes the primality test, the negacyclic product through the
/// transforms (twist by
/// `ψ`, forward transforms, pointwise product, backward transform, untwist by `ψ^(q-2)`)
/// is exactly the schoolbook negacyclic product in `Z_q[X]/(X^N + 1)`.
pub proof fn law_negacyclic_via_transforms(a: Seq<u64>, b: Seq<u64>, params: RingParams)
    requires
        params.has_roots(),
        passes_primality_test(params.modulus as int),
        a.len() == params.n,
        b.len() == params.n,
    ensures
        negacyclic_via_ntt(a, b, params) == negacyclic_product(a, b, params.modulus),
{
    let q = params.modulus;
    let qi = q as int;
    let n = params.n as nat;
    let psi = params.primitive_2n_root;
    let w = params.primitive_n_root;
    lemma_psi_half(params);
    assert(n >= 1) by {
        assert(is_power_of_two(n));
    }
    // ω^n = ψ^(2n) = 1
    lemma_pow_mod_noop(pow(psi as int, 2), n, qi);
    lemma_pow_multiplies(psi as int, 2, n);
    assert(pow(w as int, n) % qi == 1);
    let a2 = twist(a, psi, q, n);
    let b2 = twist(b, psi, q, n);
    lemma_twist_reduced(a, psi, q, n);
    lemma_twist_reduced(b, psi, q, n);
    law_radix2_matches_direct(a2, params, false);
    law_radix2_matches_direct(b2, params, false);
    let a_hat = radix2_output(a2, params, false, None);
    let b_hat = radix2_output(b2, params, false, None);
    let c_hat = Seq::new(n, |i: int| mul_m(a_hat[i], b_hat[i], q));
    let d = cyclic_product(a2, b2, q, n);
    lemma_cyclic_transform(a2, b2, w, q, n);
    assert(c_hat == direct_transform(d, w, q));
    assert(reduced(d, q)) by {
        assert forall|k: int| 0 <= k < n implies #[trigger] d[k] < q by {
            lemma_cyclic_sum_nonnegative(a2, b2, n, k, n);
            lemma_mod_bound(cyclic_sum(a2, b2, n, k), qi);
        }
    }
    lemma_direct_transform_reduced(d, w, q);
    law_radix2_matches_direct(c_hat, params, true);
    if n >= 2 {
        lemma_transform_root_half(params, false);
    }
    lemma_fermat_two(qi);
    lemma_direct_round_trip(d, w, q, params.n as u64);
    assert(radix2_output(c_hat, params, true, None) == d);
    lemma_untwist(a, b, psi, q, n);
}

} // verus!
