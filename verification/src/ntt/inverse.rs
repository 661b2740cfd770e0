//! The backward transform undoes the forward one: orthogonality of the roots of unity
//! and Fermat's little theorem for the base 2.
use crate::ntt::dft::{
    lemma_add_congruent, lemma_mul_congruent, lemma_pow_half_period, lemma_pow_m_congruent, lemma_pow_period,
    strided_sum,
};
use crate::ntt::naive::direct_transform;
use crate::ntt::dft::lemma_direct_sum_congruent;
use crate::ntt::fermat::lemma_fermat_power_of_two;
use crate::ntt::spec::{pow_m, reduced, scale};
use crate::params::{is_power_of_two, lemma_power_of_two_log2, log2};
use vstd::arithmetic::div_mod::*;
use vstd::arithmetic::mul::*;
use vstd::arithmetic::power::*;
use vstd::arithmetic::power2::*;
use vstd::prelude::*;

verus! {

/// `f(0) + f(1) + ... + f(m-1)`.
pub open spec fn sum_of(f: spec_fn(int) -> int, m: nat) -> int
    decreases m,
{
    if m == 0 {
        0
    } else {
        sum_of(f, (m - 1) as nat) + f(m - 1)
    }
}

/// Sums of termwise congruent terms are congruent.
pub proof fn lemma_sum_congruent(f: spec_fn(int) -> int, g: spec_fn(int) -> int, m: nat, q: int)
    requires
        q > 0,
        forall|k: int| 0 <= k < m ==> #[trigger] f(k) % q == g(k) % q,
    ensures
        sum_of(f, m) % q == sum_of(g, m) % q,
    decreases m,
{
    if m > 0 {
        lemma_sum_congruent(f, g, (m - 1) as nat, q);
        lemma_add_congruent(sum_of(f, (m - 1) as nat), sum_of(g, (m - 1) as nat), f(m - 1), g(m - 1), q);
    }
}

/// Sums of termwise equal terms are equal.
pub proof fn lemma_sum_ext(f: spec_fn(int) -> int, g: spec_fn(int) -> int, m: nat)
    requires
        forall|k: int| 0 <= k < m ==> #[trigger] f(k) == g(k),
    ensures
        sum_of(f, m) == sum_of(g, m),
    decreases m,
{
    if m > 0 {
        lemma_sum_ext(f, g, (m - 1) as nat);
    }
}

/// A constant factor comes out of a sum.
pub proof fn lemma_sum_scale(f: spec_fn(int) -> int, c: int, m: nat)
    ensures
        sum_of(|k: int| c * f(k), m) == c * sum_of(f, m),
    decreases m,
{
    if m > 0 {
        lemma_sum_scale(f, c, (m - 1) as nat);
        lemma_mul_is_distributive_add(c, sum_of(f, (m - 1) as nat), f(m - 1));
    }
}

/// A sum of sums is the sum of the two sums.
pub proof fn lemma_sum_add(f: spec_fn(int) -> int, g: spec_fn(int) -> int, m: nat)
    ensures
        sum_of(|k: int| f(k) + g(k), m) == sum_of(f, m) + sum_of(g, m),
    decreases m,
{
    if m > 0 {
        lemma_sum_add(f, g, (m - 1) as nat);
    }
}

/// The order of a finite double sum does not matter.
pub proof fn lemma_sum_swap(f: spec_fn(int, int) -> int, a: nat, b: nat)
    ensures
        sum_of(|k: int| sum_of(|j: int| f(j, k), b), a) == sum_of(|j: int| sum_of(|k: int| f(j, k), a), b),
    decreases a,
{
    if a > 0 {
        let a1 = (a - 1) as nat;
        lemma_sum_swap(f, a1, b);
        let g = |j: int| sum_of(|k: int| f(j, k), a1);
        let h = |j: int| f(j, a1 as int);
        lemma_sum_add(g, h, b);
        let lhs = |j: int| sum_of(|k: int| f(j, k), a);
        let rhs = |j: int| g(j) + h(j);
        assert forall|j: int| 0 <= j < b implies #[trigger] lhs(j) == rhs(j) by {
            assert(sum_of(|k: int| f(j, k), a) == sum_of(|k: int| f(j, k), a1) + f(j, a1 as int));
        }
        lemma_sum_ext(lhs, rhs, b);
        let col = |k: int| sum_of(|j: int| f(j, k), b);
        assert(sum_of(col, a) == sum_of(col, a1) + col(a1 as int));
        assert((|j: int| f(j, a1 as int)) =~= h);
        assert(col(a1 as int) == sum_of(h, b));
        assert((|k: int| g(k) + h(k)) =~= rhs);
        assert((|k: int| sum_of(|j: int| f(j, k), b)) =~= col);
    } else {
        lemma_sum_zero(|j: int| sum_of(|k: int| f(j, k), a), b);
    }
}

/// A sum of zeros is zero.
pub proof fn lemma_sum_zero(f: spec_fn(int) -> int, m: nat)
    requires
        forall|k: int| 0 <= k < m ==> #[trigger] f(k) == 0,
    ensures
        sum_of(f, m) == 0,
    decreases m,
{
    if m > 0 {
        lemma_sum_zero(f, (m - 1) as nat);
    }
}

/// Peeling off the first term of a sum.
pub proof fn lemma_sum_front(f: spec_fn(int) -> int, m: nat)
    ensures
        sum_of(f, m + 1) == f(0) + sum_of(|k: int| f(k + 1), m),
    decreases m,
{
    let g = |k: int| f(k + 1);
    assert(sum_of(f, m + 1) == sum_of(f, m) + f(m as int));
    if m > 0 {
        lemma_sum_front(f, (m - 1) as nat);
        assert(sum_of(g, m) == sum_of(g, (m - 1) as nat) + g(m - 1));
    } else {
        assert(sum_of(f, 0) == 0);
        assert(sum_of(g, 0) == 0);
    }
}

/// Rotating the indices of a sum by one place.
proof fn lemma_sum_rotate_one(g: spec_fn(int) -> int, n: nat)
    requires
        n >= 1,
    ensures
        sum_of(|k: int| g((k + 1) % (n as int)), n) == sum_of(g, n),
{
    let ni = n as int;
    let r = |k: int| g((k + 1) % ni);
    let h = |k: int| g(k + 1);
    assert forall|k: int| 0 <= k < n - 1 implies #[trigger] r(k) == h(k) by {
        lemma_small_mod((k + 1) as nat, n);
    }
    lemma_sum_ext(r, h, (n - 1) as nat);
    lemma_mod_self_0(ni);
    assert(sum_of(r, n) == sum_of(r, (n - 1) as nat) + r(ni - 1));
    lemma_sum_front(g, (n - 1) as nat);
}

/// A sum over a cyclic rotation of its indices.
pub proof fn lemma_sum_rotate(f: spec_fn(int) -> int, n: nat, s: nat)
    requires
        n >= 1,
    ensures
        sum_of(|k: int| f((k + s) % (n as int)), n) == sum_of(f, n),
    decreases s,
{
    let ni = n as int;
    let rot = |k: int| f((k + s) % ni);
    if s == 0 {
        assert forall|k: int| 0 <= k < n implies #[trigger] rot(k) == f(k) by {
            lemma_small_mod(k as nat, n);
        }
        lemma_sum_ext(rot, f, n);
    } else {
        let s1 = (s - 1) as nat;
        lemma_sum_rotate(f, n, s1);
        let g = |k: int| f((k + s1) % ni);
        lemma_sum_rotate_one(g, n);
        let g1 = |k: int| g((k + 1) % ni);
        assert forall|k: int| 0 <= k < n implies #[trigger] g1(k) == rot(k) by {
            lemma_add_mod_noop_right(s1 as int, k + 1, ni);
        }
        lemma_sum_ext(g1, rot, n);
    }
}

/// A sum with a single nonzero term.
pub proof fn lemma_sum_single(c: int, i: int, m: nat)
    requires
        0 <= i < m,
    ensures
        sum_of(|j: int| if j == i { c } else { 0 }, m) == c,
    decreases m,
{
    let f = |j: int| if j == i { c } else { 0 };
    if m > 0 {
        if i < m - 1 {
            lemma_sum_single(c, i, (m - 1) as nat);
        } else {
            lemma_sum_zero(f, (m - 1) as nat);
        }
    }
}

/// `1 + z + ... + z^(m-1)`.
pub open spec fn geometric(z: int, m: nat) -> int {
    sum_of(|k: int| pow(z, k as nat), m)
}

/// `(z - 1)(1 + z + ... + z^(m-1)) = z^m - 1`.
pub proof fn lemma_geometric(z: int, m: nat)
    ensures
        (z - 1) * geometric(z, m) == pow(z, m) - 1,
    decreases m,
{
    lemma_pow0(z);
    if m > 0 {
        let m1 = (m - 1) as nat;
        lemma_geometric(z, m1);
        assert(geometric(z, m) == geometric(z, m1) + pow(z, m1));
        lemma_pow_adds(z, m1, 1);
        lemma_pow1(z);
        assert((z - 1) * (geometric(z, m1) + pow(z, m1)) == (z - 1) * geometric(z, m1) + pow(z, m1) * z
            - pow(z, m1)) by (nonlinear_arith);
    }
}

/// `1 + z + ... + z^(a+b-1)` splits after `a` terms.
proof fn lemma_geometric_split(z: int, a: nat, b: nat)
    ensures
        geometric(z, a + b) == geometric(z, a) + pow(z, a) * geometric(z, b),
    decreases b,
{
    if b > 0 {
        let b1 = (b - 1) as nat;
        lemma_geometric_split(z, a, b1);
        lemma_pow_adds(z, a, b1);
        assert(geometric(z, a + b) == geometric(z, (a + b1) as nat) + pow(z, (a + b1) as nat));
        assert(geometric(z, b) == geometric(z, b1) + pow(z, b1));
        let g = geometric(z, b1);
        let p = pow(z, a);
        assert(p * g + p * pow(z, b1) == p * (g + pow(z, b1))) by (nonlinear_arith);
    } else {
        assert(geometric(z, 0) == 0);
        assert(pow(z, a) * 0 == 0);
    }
}

/// Congruent bases give congruent sums of powers.
proof fn lemma_geometric_congruent(x: int, y: int, m: nat, q: int)
    requires
        q > 0,
        x % q == y % q,
    ensures
        geometric(x, m) % q == geometric(y, m) % q,
    decreases m,
{
    if m > 0 {
        let m1 = (m - 1) as nat;
        lemma_geometric_congruent(x, y, m1, q);
        lemma_pow_mod_noop(x, m1, q);
        lemma_pow_mod_noop(y, m1, q);
        lemma_add_congruent(geometric(x, m1), geometric(y, m1), pow(x, m1), pow(y, m1), q);
    }
}

/// Modulo any `q`, when `z^h = -1` the first `2h` powers of `z` sum to zero: they pair up
/// as `z^k + z^(k+h) = z^k (1 + z^h)`.
proof fn lemma_geometric_pairs_vanish(z: int, h: nat, q: int)
    requires
        q >= 2,
        pow(z, h) % q == q - 1,
    ensures
        geometric(z, 2 * h) % q == 0,
{
    lemma_geometric_split(z, h, h);
    let g = geometric(z, h);
    assert(g + pow(z, h) * g == g * (1 + pow(z, h))) by (nonlinear_arith);
    lemma_add_mod_noop(1, pow(z, h), q);
    lemma_small_mod(1, q as nat);
    lemma_mod_self_0(q);
    assert((1 + pow(z, h)) % q == 0);
    lemma_mul_mod_noop_right(g, 1 + pow(z, h), q);
    assert(g * 0 == 0);
    lemma_small_mod(0, q as nat);
}

/// Orthogonality in any `Z_q`: for a root `w` with `w^(2^(l-1)) = -1` and `0 < d < 2^l`,
/// the powers of `w^d` over a full period sum to zero.
pub proof fn lemma_orthogonal(w: int, l: nat, d: nat, q: int)
    requires
        q >= 2,
        l >= 1,
        pow(w, pow2((l - 1) as nat)) % q == q - 1,
        0 < d < pow2(l),
    ensures
        geometric(pow(w, d), pow2(l)) % q == 0,
    decreases l,
{
    let h = pow2((l - 1) as nat);
    let z = pow(w, d);
    lemma_pow2_unfold(l);
    if d % 2 == 1 {
        // z^h = (w^h)^d = (-1)^d = -1
        lemma_pow_multiplies(w, d, h);
        lemma_pow_multiplies(w, h, d);
        lemma_mul_is_commutative(d as int, h as int);
        lemma_pow_mod_noop(pow(w, h), d, q);
        crate::ntt::roots::lemma_minus_one_power(q, d);
        lemma_geometric_pairs_vanish(z, h, q);
    } else {
        // z = (w^2)^(d/2), with (w^2)^(2^(l-2)) = -1; recurse on half the period
        let m = d / 2;
        assert(pow2(0) == 1) by {
            lemma2_to64();
        }
        assert(l >= 2);
        lemma_pow2_unfold((l - 1) as nat);
        let w2 = pow(w, 2);
        lemma_pow_multiplies(w, 2, m);
        lemma_pow_multiplies(w, 2, pow2((l - 2) as nat));
        assert((l - 2) as nat == ((l - 1) as nat - 1) as nat);
        lemma_orthogonal(w2, (l - 1) as nat, m, q);
        assert(pow(w2, m) == z);
        // the full period is two half periods, each summing to zero
        lemma_geometric_split(z, h, h);
        let g = geometric(z, h);
        lemma_mul_mod_noop_right(pow(z, h), g, q);
        lemma_add_mod_noop(g, pow(z, h) * g, q);
        lemma_small_mod(0, q as nat);
        assert(pow(z, h) * 0 == 0);
    }
}

/// The plain transform sum as a `sum_of`.
pub proof fn lemma_strided_as_sum(x: Seq<u64>, r: int, k: nat, m: nat)
    ensures
        strided_sum(x, r, 0, 1, m, k) == sum_of(|j: int| x[j] * pow(r, (j * k) as nat), m),
    decreases m,
{
    if m > 0 {
        lemma_strided_as_sum(x, r, k, (m - 1) as nat);
        assert(1 * ((m - 1) as nat) * k == ((m - 1) * k) as nat);
    }
}

/// `m` terms congruent to 1 sum to `m`.
proof fn lemma_sum_of_ones(f: spec_fn(int) -> int, m: nat, q: int)
    requires
        q > 0,
        forall|k: int| 0 <= k < m ==> #[trigger] f(k) % q == 1int % q,
    ensures
        sum_of(f, m) % q == (m as int) % q,
    decreases m,
{
    if m > 0 {
        lemma_sum_of_ones(f, (m - 1) as nat, q);
        lemma_add_congruent(sum_of(f, (m - 1) as nat), (m - 1) as int, f(m - 1), 1, q);
    }
}

/// The inner sum of the round trip: for `j = i` it is `n`, otherwise 0, modulo `q`.
proof fn lemma_round_trip_inner(w: u64, q: u64, n: nat, l: nat, i: int, j: int)
    requires
        q >= 2,
        n == pow2(l),
        (q as int) % (2 * n as int) == 1,
        n >= 2 ==> pow(w as int, n / 2) % (q as int) == q - 1,
        0 <= i < n,
        0 <= j < n,
    ensures
        ({
            let wi = pow_m(w, (q - 2) as nat, q) as int;
            let zeta = pow(w as int, j as nat) * pow(wi, i as nat);
            geometric(zeta, n) % (q as int) == (if j == i { n as int } else { 0 }) % (q as int)
        }),
{
    let qi = q as int;
    let wi = pow_m(w, (q - 2) as nat, q) as int;
    let zeta = pow(w as int, j as nat) * pow(wi, i as nat);
    lemma_pow2_pos(l);
    assert(pow2(0) == 1) by {
        lemma2_to64();
    }
    // q = 1 + 2n c, so q >= 3 and q - 1 = n (2c)
    let c = qi / (2 * n as int);
    lemma_fundamental_div_mod(qi, 2 * n as int);
    assert(qi - 1 == n * (2 * c)) by (nonlinear_arith)
        requires
            qi == (2 * n) * c + 1,
    ;
    assert(c >= 1) by (nonlinear_arith)
        requires
            qi == (2 * n) * c + 1,
            qi >= 2,
            n >= 1,
    ;
    assert(qi >= 3) by (nonlinear_arith)
        requires
            qi == (2 * n) * c + 1,
            c >= 1,
            n >= 1,
    ;
    // w^n = 1
    if n >= 2 {
        lemma_pow2_unfold(l);
        lemma_pow_half_period(w as int, n / 2, 0, qi);
        assert(2 * (n / 2) == n);
    }
    // wi = w^(q-2)
    lemma_pow_m_congruent(w, (q - 2) as nat, q);
    // zeta = w^e with e = j + (q-2) i, modulo q
    let e = (j + (qi - 2) * i) as nat;
    assert((qi - 2) * i >= 0) by (nonlinear_arith)
        requires
            qi >= 3,
            i >= 0,
    ;
    lemma_pow_mod_noop(wi, i as nat, qi);
    lemma_pow_mod_noop(pow(w as int, (q - 2) as nat), i as nat, qi);
    lemma_pow_multiplies(w as int, (q - 2) as nat, i as nat);
    lemma_mul_congruent(
        pow(w as int, j as nat),
        pow(w as int, j as nat),
        pow(wi, i as nat),
        pow(w as int, ((q - 2) as nat * (i as nat)) as nat),
        qi,
    );
    lemma_pow_adds(w as int, j as nat, ((q - 2) as nat * (i as nat)) as nat);
    assert(zeta % qi == pow(w as int, e) % qi);
    lemma_small_mod(1, q as nat);
    lemma_small_mod(0, q as nat);
    if j == i {
        // e = (q-1) i = n (2 c i): zeta = 1
        assert(e == n * (2 * c * i) + 0) by (nonlinear_arith)
            requires
                e == j + (qi - 2) * i,
                j == i,
                qi - 1 == n * (2 * c),
        ;
        if n >= 2 {
            lemma_pow_period(w as int, n, (2 * c * i) as nat, 0, qi);
        } else {
            lemma_pow1(w as int);
            assert(pow(w as int, n) == w as int);
            lemma1_pow((2 * c * i) as nat);
            assert(n == 1);
            lemma_pow_multiplies(w as int, 1, (2 * c * i) as nat);
            assert(i == 0);
            assert(e == 0);
        }
        lemma_pow0(w as int);
        assert(zeta % qi == 1);
        let terms = |k: int| pow(zeta, k as nat);
        assert forall|k: int| 0 <= k < n implies #[trigger] terms(k) % qi == 1int % qi by {
            lemma_pow_mod_noop(zeta, k as nat, qi);
            lemma1_pow(k as nat);
        }
        lemma_sum_of_ones(terms, n, qi);
    } else {
        // zeta is an n-th root of unity other than 1
        assert(n >= 2);
        lemma_pow2_unfold(l);
        let d = if j > i { j - i } else { j - i + n };
        assert(0 < d < n);
        assert(e == n * (if j > i { 2 * c * i } else { 2 * c * i - 1 }) + d) by (nonlinear_arith)
            requires
                e == j + (qi - 2) * i,
                qi - 1 == n * (2 * c),
                d == (if j > i { j - i } else { j - i + n }),
        ;
        assert(j < i ==> 2 * c * i - 1 >= 0) by (nonlinear_arith)
            requires
                c >= 1,
                i >= 0,
                j >= 0,
        ;
        lemma_pow_period(w as int, n, (if j > i { 2 * c * i } else { 2 * c * i - 1 }) as nat, d as nat, qi);
        assert(pow2((l - 1) as nat) == n / 2);
        // zeta = w^d modulo q, whose powers over a period sum to zero
        lemma_orthogonal(w as int, l, d as nat, qi);
        lemma_geometric_congruent(zeta, pow(w as int, d as nat), n, qi);
    }
}


/// Word `i` of the backward direct transform of the forward one is `n x[i]`, modulo `q`.
proof fn lemma_round_trip_sum(x: Seq<u64>, w: u64, q: u64, l: nat, i: int)
    requires
        q >= 2,
        x.len() == pow2(l),
        (q as int) % (2 * x.len() as int) == 1,
        x.len() >= 2 ==> pow(w as int, x.len() / 2) % (q as int) == q - 1,
        x.len() == 1 || pow(w as int, x.len()) % (q as int) == 1,
        x.len() == 1 || pow(pow_m(w, (q - 2) as nat, q) as int, x.len()) % (q as int) == 1,
        0 <= i < x.len(),
    ensures
        (direct_transform(direct_transform(x, w, q), pow_m(w, (q - 2) as nat, q), q)[i] as int) % (q as int) == (
        x[i] * x.len()) % (q as int),
{
    let n = x.len();
    let qi = q as int;
    let wi = pow_m(w, (q - 2) as nat, q);
    let y = direct_transform(x, w, q);
    let wl = w as int;
    let wil = wi as int;
    // word i of the backward transform, as a plain sum
    lemma_direct_sum_congruent(y, wi, q, i as nat, n);
    lemma_strided_as_sum(y, wil, i as nat, n);
    let a = |k: int| y[k] * pow(wil, (k * i) as nat);
    let t = |k: int| sum_of(|j: int| x[j] * pow(wl, (j * k) as nat), n);
    let b = |k: int| t(k) * pow(wil, (k * i) as nat);
    assert forall|k: int| 0 <= k < n implies #[trigger] a(k) % qi == b(k) % qi by {
        lemma_direct_sum_congruent(x, w, q, k as nat, n);
        lemma_strided_as_sum(x, wl, k as nat, n);
        lemma_mul_congruent(y[k] as int, t(k), pow(wil, (k * i) as nat), pow(wil, (k * i) as nat), qi);
    }
    lemma_sum_congruent(a, b, n, qi);
    // distribute the outer factor and swap the sums
    let f = |j: int, k: int| x[j] * (pow(wl, (j * k) as nat) * pow(wil, (k * i) as nat));
    let cc = |k: int| sum_of(|j: int| f(j, k), n);
    assert forall|k: int| 0 <= k < n implies #[trigger] b(k) == cc(k) by {
        let fk = |j: int| x[j] * pow(wl, (j * k) as nat);
        let c = pow(wil, (k * i) as nat);
        lemma_sum_scale(fk, c, n);
        let scaled = |j: int| c * fk(j);
        let fj = |j: int| f(j, k);
        assert forall|j: int| 0 <= j < n implies #[trigger] scaled(j) == fj(j) by {
            assert(c * (x[j] * pow(wl, (j * k) as nat)) == x[j] * (pow(wl, (j * k) as nat) * c)) by (nonlinear_arith);
        }
        lemma_sum_ext(scaled, fj, n);
        lemma_mul_is_commutative(t(k), c);
    }
    lemma_sum_ext(b, cc, n);
    lemma_sum_swap(f, n, n);
    let d = |j: int| sum_of(|k: int| f(j, k), n);
    // each inner sum is x[j] times a geometric sum
    let g = |j: int| x[j] * geometric(pow(wl, j as nat) * pow(wil, i as nat), n);
    assert forall|j: int| 0 <= j < n implies #[trigger] d(j) == g(j) by {
        let zeta = pow(wl, j as nat) * pow(wil, i as nat);
        let pj = |k: int| pow(wl, (j * k) as nat) * pow(wil, (k * i) as nat);
        lemma_sum_scale(pj, x[j] as int, n);
        let fk = |k: int| f(j, k);
        let xk = |k: int| x[j] * pj(k);
        assert forall|k: int| 0 <= k < n implies #[trigger] fk(k) == xk(k) by {}
        lemma_sum_ext(fk, xk, n);
        let zk = |k: int| pow(zeta, k as nat);
        assert forall|k: int| 0 <= k < n implies #[trigger] pj(k) == zk(k) by {
            lemma_pow_distributes(pow(wl, j as nat), pow(wil, i as nat), k as nat);
            lemma_pow_multiplies(wl, j as nat, k as nat);
            lemma_pow_multiplies(wil, i as nat, k as nat);
            assert((j * k) as nat == (j as nat) * (k as nat)) by (nonlinear_arith)
                requires
                    j >= 0,
                    k >= 0,
            ;
            assert((k * i) as nat == (i as nat) * (k as nat)) by (nonlinear_arith)
                requires
                    i >= 0,
                    k >= 0,
            ;
        }
        lemma_sum_ext(pj, zk, n);
    }
    lemma_sum_ext(d, g, n);
    // only the term j = i survives
    let h = |j: int| if j == i { x[i] * n } else { 0 };
    assert forall|j: int| 0 <= j < n implies #[trigger] g(j) % qi == h(j) % qi by {
        lemma_round_trip_inner(w, q, n, l, i, j);
        let zeta = pow(wl, j as nat) * pow(wil, i as nat);
        lemma_mul_congruent(x[j] as int, x[j] as int, geometric(zeta, n), if j == i { n as int } else { 0 }, qi);
    }
    lemma_sum_congruent(g, h, n, qi);
    lemma_sum_single(x[i] * n, i, n);
}


/// Modulo a `q = 1 (mod 2n)` with `2^(q-1) = 1`, the direct transform with `w^(q-2)`
/// followed by the scaling with `n^(q-2)` undoes the direct transform with `w`, on every
/// reduced input of length `n = 2^l`, when `w^(n/2) = -1`.
pub proof fn lemma_direct_round_trip(x: Seq<u64>, w: u64, q: u64, nn: u64)
    requires
        is_power_of_two(x.len()),
        nn == x.len(),
        q >= 2,
        (pow2((q - 1) as nat) as int) % (q as int) == 1,
        (q as int) % (2 * x.len() as int) == 1,
        reduced(x, q),
        x.len() >= 2 ==> pow(w as int, x.len() / 2) % (q as int) == q - 1,
    ensures
        scale(
            direct_transform(direct_transform(x, w, q), pow_m(w, (q - 2) as nat, q), q),
            pow_m(nn, (q - 2) as nat, q),
            q,
        ) == x,
{
    let n = x.len();
    let l = log2(n);
    let qi = q as int;
    lemma_power_of_two_log2(n);
    lemma_pow2_pos(l);
    let wi = pow_m(w, (q - 2) as nat, q);
    // q is odd
    let c = qi / (2 * n as int);
    lemma_fundamental_div_mod(qi, 2 * n as int);
    assert(qi == 2 * (n * c) + 1) by (nonlinear_arith)
        requires
            qi == (2 * n) * c + 1,
    ;
    lemma_mod_multiples_vanish(n * c, 1, 2);
    // w^n = 1 and (w^(q-2))^n = 1
    if n >= 2 {
        assert(2 * (n / 2) == n) by {
            assert(is_power_of_two(n));
        }
        lemma_pow_half_period(w as int, n / 2, 0, qi);
        lemma_pow_m_congruent(w, (q - 2) as nat, q);
        lemma_pow_mod_noop(wi as int, n, qi);
        lemma_pow_mod_noop(pow(w as int, (q - 2) as nat), n, qi);
        lemma_pow_multiplies(w as int, (q - 2) as nat, n);
        lemma_pow_multiplies(w as int, n, (q - 2) as nat);
        lemma_mul_is_commutative((q - 2) as int, n as int);
        lemma_pow_mod_noop(pow(w as int, n), (q - 2) as nat, qi);
        lemma1_pow((q - 2) as nat);
        lemma_small_mod(1, q as nat);
    }
    let y = direct_transform(x, w, q);
    let z = direct_transform(y, wi, q);
    let ninv = pow_m(nn, (q - 2) as nat, q);
    let out = scale(z, ninv, q);
    lemma_pow_m_congruent(nn, (q - 2) as nat, q);
    lemma_fermat_power_of_two(l, q as nat);
    assert(pow2(l) == n);
    assert(((q as nat) - 1) as nat == (q - 1) as nat);
    assert(pow(n as int, (q - 1) as nat) % qi == 1);
    lemma_small_mod(1, q as nat);
    lemma_pow_adds(n as int, 1, (q - 2) as nat);
    lemma_pow1(n as int);
    assert forall|i: int| 0 <= i < n implies #[trigger] out[i] == x[i] by {
        lemma_round_trip_sum(x, w, q, l, i);
        let xn = x[i] * n;
        lemma_mul_congruent(z[i] as int, xn, ninv as int, pow(n as int, (q - 2) as nat), qi);
        assert(xn * pow(n as int, (q - 2) as nat) == x[i] * pow(n as int, (q - 1) as nat)) by (nonlinear_arith)
            requires
                xn == x[i] * n,
                pow(n as int, (1 + (q - 2)) as nat) == n * pow(n as int, (q - 2) as nat),
                (1 + (q - 2)) as nat == (q - 1) as nat,
        ;
        lemma_mul_congruent(x[i] as int, x[i] as int, pow(n as int, (q - 1) as nat), 1, qi);
        lemma_small_mod(x[i] as nat, q as nat);
        lemma_mod_bound(z[i] * ninv, qi);
        lemma_mod_twice(z[i] * ninv, qi);
    }
    assert(out =~= x);
}

} // verus!
