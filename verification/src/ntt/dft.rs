//! The butterfly networks as discrete Fourier transforms over `Z_q`.
use crate::ntt::shape::lemma_stage_shape;
use crate::ntt::bitrev::lemma_rev_bits_bound;
use crate::ntt::naive::{direct_sum, direct_transform};
use crate::ntt::spec::{add_m, bit_reverse, dit_after, dit_stage, no_flips, no_injection, dit_step, mul_m, no_flip, pow_m, reduced, rev_bits, sub_m};
use crate::params::{is_power_of_two, lemma_power_of_two_log2, log2};
use vstd::arithmetic::power2::*;
use crate::modarith::{pow_mod_spec, sub_mod_spec};
use vstd::arithmetic::div_mod::*;
use vstd::arithmetic::mul::*;
use vstd::arithmetic::power::*;
use vstd::prelude::*;

verus! {

/// `sum_{j < m} x[c + j*stride] * r^(stride*j*k)` over the integers: the `k`-th
/// coefficient of the `m`-point transform of the words `c, c + stride, ...` of `x`
/// with root `r^stride`.
pub open spec fn strided_sum(x: Seq<u64>, r: int, c: int, stride: nat, m: nat, k: nat) -> int
    decreases m,
{
    if m == 0 {
        0
    } else {
        strided_sum(x, r, c, stride, (m - 1) as nat, k) + x[c + (m - 1) * stride] * pow(
            r,
            stride * ((m - 1) as nat) * k,
        )
    }
}

/// `pow_m` is `b^e` modulo `q`.
pub proof fn lemma_pow_m_congruent(b: u64, e: nat, q: u64)
    requires
        q >= 2,
    ensures
        (pow_m(b, e, q) as int) % (q as int) == pow(b as int, e) % (q as int),
        pow_m(b, e, q) < q,
{
    if e == 0 {
        lemma_pow0(b as int);
        lemma_small_mod(1, q as nat);
    } else {
        let v = pow(b as int, e) % (q as int);
        lemma_mod_bound(pow(b as int, e), q as int);
        lemma_mod_twice(pow(b as int, e), q as int);
        assert(pow_mod_spec(b as int, e, q as int) == v);
    }
}

/// A power of a power, both taken modulo `q`.
pub proof fn lemma_pow_m_pow_m(r: u64, a: nat, k: nat, q: u64)
    requires
        q >= 2,
    ensures
        (pow_m(pow_m(r, a, q), k, q) as int) % (q as int) == pow(r as int, a * k) % (q as int),
{
    let p = pow_m(r, a, q);
    lemma_pow_m_congruent(r, a, q);
    lemma_pow_m_congruent(p, k, q);
    lemma_pow_mod_noop(p as int, k, q as int);
    lemma_pow_mod_noop(pow(r as int, a), k, q as int);
    lemma_pow_multiplies(r as int, a, k);
}

/// Multiplying congruent factors gives congruent products.
pub proof fn lemma_mul_congruent(a: int, b: int, c: int, d: int, q: int)
    requires
        q > 0,
        a % q == b % q,
        c % q == d % q,
    ensures
        (a * c) % q == (b * d) % q,
{
    lemma_mul_mod_noop(a, c, q);
    lemma_mul_mod_noop(b, d, q);
}

/// Adding congruent terms gives congruent sums.
pub proof fn lemma_add_congruent(a: int, b: int, c: int, d: int, q: int)
    requires
        q > 0,
        a % q == b % q,
        c % q == d % q,
    ensures
        (a + c) % q == (b + d) % q,
{
    lemma_add_mod_noop(a, c, q);
    lemma_add_mod_noop(b, d, q);
}

/// A power that is 1 modulo `q` can be dropped from the exponent.
pub proof fn lemma_pow_period(r: int, p: nat, j: nat, b: nat, q: int)
    requires
        q >= 2,
        pow(r, p) % q == 1,
    ensures
        pow(r, p * j + b) % q == pow(r, b) % q,
{
    lemma_mul_nonnegative(p as int, j as int);
    let pj = (p * j) as nat;
    lemma_pow_adds(r, pj, b);
    lemma_pow_multiplies(r, p, j);
    lemma_pow_mod_noop(pow(r, p), j, q);
    lemma1_pow(j);
    lemma_small_mod(1, q as nat);
    lemma_mul_mod_noop_left(pow(r, pj), pow(r, b), q);
}

/// A power that is `-1` modulo `q` negates what it multiplies, and squares to 1.
pub proof fn lemma_pow_half_period(r: int, h: nat, y: int, q: int)
    requires
        q >= 2,
        pow(r, h) % q == q - 1,
    ensures
        (pow(r, h) * y) % q == (-y) % q,
        pow(r, 2 * h) % q == 1,
{
    lemma_mul_mod_noop_left(pow(r, h), y, q);
    assert((q - 1) * y == q * y + (-y)) by (nonlinear_arith);
    lemma_mod_multiples_vanish(y, -y, q);
    lemma_pow_adds(r, h, h);
    lemma_mul_mod_noop(pow(r, h), pow(r, h), q);
    assert((q - 1) * (q - 1) == q * (q - 2) + 1) by (nonlinear_arith);
    lemma_mod_multiples_vanish(q - 2, 1, q);
    lemma_small_mod(1, q as nat);
}

/// Splitting a transform into its even- and odd-indexed halves.
pub proof fn lemma_strided_split(x: Seq<u64>, r: int, c: int, s: nat, m: nat, k: nat)
    ensures
        strided_sum(x, r, c, s, 2 * m, k) == strided_sum(x, r, c, 2 * s, m, k) + pow(r, s * k)
            * strided_sum(x, r, c + s, 2 * s, m, k),
    decreases m,
{
    if m > 0 {
        let m1 = (m - 1) as nat;
        lemma_strided_split(x, r, c, s, m1, k);
        let e = strided_sum(x, r, c, 2 * s, m1, k);
        let o = strided_sum(x, r, c + s, 2 * s, m1, k);
        let p = pow(r, s * k);
        let te = pow(r, (2 * s) * m1 * k);
        // the two new terms on the left
        assert(strided_sum(x, r, c, s, (2 * m1 + 1) as nat, k) == strided_sum(x, r, c, s, 2 * m1, k)
            + x[c + (2 * m1) * s] * pow(r, s * ((2 * m1) as nat) * k));
        assert(strided_sum(x, r, c, s, 2 * m, k) == strided_sum(x, r, c, s, (2 * m1 + 1) as nat, k)
            + x[c + (2 * m1 + 1) * s] * pow(r, s * ((2 * m1 + 1) as nat) * k));
        assert(c + (2 * m1) * s == c + m1 * (2 * s)) by (nonlinear_arith);
        assert(c + (2 * m1 + 1) * s == (c + s) + m1 * (2 * s)) by (nonlinear_arith);
        assert(s * ((2 * m1) as nat) * k == (2 * s) * m1 * k) by (nonlinear_arith);
        assert(s * ((2 * m1 + 1) as nat) * k == s * k + (2 * s) * m1 * k) by (nonlinear_arith);
        lemma_mul_nonnegative(s as int, k as int);
        lemma_mul_nonnegative((2 * s) as int, m1 as int);
        lemma_pow_adds(r, (s * k) as nat, ((2 * s) * m1 * k) as nat);
        let xo = x[(c + s) + m1 * (2 * s)] as int;
        assert(xo * (p * te) == p * (xo * te)) by (nonlinear_arith);
        assert(p * (o + xo * te) == p * o + p * (xo * te)) by (nonlinear_arith);
    }
}

/// Shifting the coefficient index by a period of the root changes nothing modulo `q`.
pub proof fn lemma_strided_shift(x: Seq<u64>, r: int, c: int, s: nat, m: nat, k: nat, h: nat, q: int)
    requires
        q >= 2,
        pow(r, s * h) % q == 1,
    ensures
        strided_sum(x, r, c, s, m, k + h) % q == strided_sum(x, r, c, s, m, k) % q,
    decreases m,
{
    if m > 0 {
        let m1 = (m - 1) as nat;
        lemma_strided_shift(x, r, c, s, m1, k, h, q);
        lemma_mul_nonnegative(s as int, h as int);
        lemma_mul_nonnegative(s as int, m1 as int);
        assert(s * m1 * (k + h) == (s * h) * m1 + s * m1 * k) by (nonlinear_arith);
        lemma_pow_period(r, (s * h) as nat, m1, (s * m1 * k) as nat, q);
        let w = x[c + m1 * s] as int;
        lemma_mul_congruent(w, w, pow(r, s * m1 * (k + h)), pow(r, s * m1 * k), q);
        lemma_add_congruent(
            strided_sum(x, r, c, s, m1, k + h),
            strided_sum(x, r, c, s, m1, k),
            w * pow(r, s * m1 * (k + h)),
            w * pow(r, s * m1 * k),
            q,
        );
    }
}


/// Index arithmetic of a stage with half-block `h`: where word `i` and its partner sit
/// in the two half-size transforms that the stage combines.
pub proof fn lemma_stage_index(i: int, h: int)
    requires
        i >= 0,
        h >= 1,
    ensures
        i % (2 * h) < h ==> {
            &&& i / h == 2 * (i / (2 * h))
            &&& i % h == i % (2 * h)
            &&& (i + h) / h == 2 * (i / (2 * h)) + 1
            &&& (i + h) % h == i % (2 * h)
            &&& (i + h) / (2 * h) == i / (2 * h)
            &&& (i + h) % (2 * h) == i % (2 * h) + h
        },
        i % (2 * h) >= h ==> {
            &&& i >= h
            &&& i / h == 2 * (i / (2 * h)) + 1
            &&& i % h == i % (2 * h) - h
            &&& (i - h) / h == 2 * (i / (2 * h))
            &&& (i - h) % h == i % (2 * h) - h
            &&& (i - h) % (2 * h) == i % (2 * h) - h
            &&& (i - h) / (2 * h) == i / (2 * h)
        },
{
    let b = i / (2 * h);
    let k = i % (2 * h);
    lemma_fundamental_div_mod(i, 2 * h);
    lemma_mod_bound(i, 2 * h);
    lemma_div_pos_is_pos(i, 2 * h);
    assert(2 * h * b == (2 * b) * h) by (nonlinear_arith);
    assert((2 * b + 1) * h == (2 * b) * h + h) by (nonlinear_arith);
    assert(b * (2 * h) == (2 * b) * h) by (nonlinear_arith);
    if k < h {
        lemma_fundamental_div_mod_converse(i, h, 2 * b, k);
        lemma_fundamental_div_mod_converse(i + h, h, 2 * b + 1, k);
        lemma_fundamental_div_mod_converse(i + h, 2 * h, b, k + h);
    } else {
        assert(h * (2 * b) >= 0) by (nonlinear_arith)
            requires
                h >= 1,
                b >= 0,
        ;
        lemma_fundamental_div_mod_converse(i, h, 2 * b + 1, k - h);
        lemma_fundamental_div_mod_converse(i - h, h, 2 * b, k - h);
        lemma_fundamental_div_mod_converse(i - h, 2 * h, b, k - h);
    }
}

/// The partner `i + h` of a word in the lower half of its block stays in range.
pub proof fn lemma_partner_below(i: int, h: int, c: int)
    requires
        h >= 1,
        0 <= i < (2 * h) * c,
        i % (2 * h) < h,
    ensures
        i + h < (2 * h) * c,
{
    let len = 2 * h;
    let bb = i / len;
    lemma_fundamental_div_mod(i, len);
    lemma_div_pos_is_pos(i, len);
    if bb >= c {
        lemma_mul_inequality(c, bb, len);
        lemma_mul_is_commutative(c, len);
        lemma_mul_is_commutative(bb, len);
    }
    lemma_mul_inequality(bb + 1, c, len);
    lemma_mul_is_distributive_add_other_way(len, bb, 1);
    lemma_mul_is_commutative(bb + 1, len);
    lemma_mul_is_commutative(c, len);
}

/// The upper output of a fault-free butterfly, modulo `q`.
pub proof fn lemma_lo_value(u: u64, w: u64, tw: u64, q: u64, e: int, o: int, p: int)
    requires
        q >= 2,
        (u as int) % (q as int) == e % (q as int),
        (w as int) % (q as int) == o % (q as int),
        (tw as int) % (q as int) == p % (q as int),
    ensures
        (add_m(u, mul_m(w, tw, q), q) as int) % (q as int) == (e + p * o) % (q as int),
        add_m(u, mul_m(w, tw, q), q) < q,
{
    let qi = q as int;
    lemma_mul_congruent(w as int, o, tw as int, p, qi);
    lemma_mod_bound(w * tw, qi);
    lemma_mod_twice(w * tw, qi);
    let v = mul_m(w, tw, q);
    assert(v as int == (w * tw) % qi);
    lemma_mul_is_commutative(o, p);
    lemma_add_congruent(u as int, e, v as int, p * o, qi);
    lemma_mod_bound(u + v, qi);
    lemma_mod_twice(u + v, qi);
}

/// The lower output of a fault-free butterfly, modulo `q`.
pub proof fn lemma_hi_value(u: u64, w: u64, tw: u64, q: u64, e: int, o: int, p: int)
    requires
        q >= 2,
        (u as int) % (q as int) == e % (q as int),
        (w as int) % (q as int) == o % (q as int),
        (tw as int) % (q as int) == p % (q as int),
    ensures
        (sub_m(u, mul_m(w, tw, q), q) as int) % (q as int) == (e - p * o) % (q as int),
        u < q ==> sub_m(u, mul_m(w, tw, q), q) < q,
{
    let qi = q as int;
    lemma_mul_congruent(w as int, o, tw as int, p, qi);
    lemma_mod_bound(w * tw, qi);
    lemma_mod_twice(w * tw, qi);
    let v = mul_m(w, tw, q);
    assert(v as int == (w * tw) % qi);
    lemma_mul_is_commutative(o, p);
    let d = sub_mod_spec(u as int, v as int, qi);
    if u >= v {
        assert(d == u - v);
    } else {
        assert(d == qi + (u - v));
        lemma_mod_add_multiples_vanish(u - v, qi);
    }
    assert(sub_m(u, v, q) as int == d);
    lemma_sub_mod_noop(u as int, v as int, qi);
    lemma_sub_mod_noop(e, p * o, qi);
}


/// After `s` fault-free stages from the bit-reversed words of `x` (length `2^l`), word
/// `i` is, modulo `q`, coefficient `i mod 2^s` of the `2^s`-point transform with root
/// `r^(2^(l-s))` of the words `c, c + 2^(l-s), ...` of `x`, where `c` reverses the
/// `l - s` low bits of `i / 2^s`.
pub open spec fn partial_transform(a: Seq<u64>, x: Seq<u64>, r: int, q: u64, l: nat, s: nat) -> bool {
    forall|i: int|
        0 <= i < a.len() ==> (#[trigger] a[i] as int) % (q as int) == strided_sum(
            x,
            r,
            rev_bits((i / pow2(s) as int) as nat, (l - s) as nat) as int,
            pow2((l - s) as nat),
            pow2(s),
            (i % pow2(s) as int) as nat,
        ) % (q as int)
}

/// The two reversals that meet in a stage: `2b` and `2b + 1` on `k + 1` bits.
pub proof fn lemma_rev_bits_halves(b: nat, k: nat)
    ensures
        rev_bits(2 * b, k + 1) == rev_bits(b, k),
        rev_bits(2 * b + 1, k + 1) == pow2(k) + rev_bits(b, k),
{
    assert((2 * b) % 2 == 0 && (2 * b) / 2 == b);
    assert((2 * b + 1) % 2 == 1 && (2 * b + 1) / 2 == b);
}

/// One fault-free stage turns each pair of half-size transforms into a transform of
/// twice the size (word `i` of the result).
proof fn lemma_stage_word(a: Seq<u64>, x: Seq<u64>, r: u64, q: u64, s: nat, i: int)
    requires
        is_power_of_two(x.len()),
        s < log2(x.len()),
        q >= 2,
        a.len() == x.len(),
        0 <= i < x.len(),
        pow(r as int, x.len() / 2) % (q as int) == q - 1,
        partial_transform(a, x, r as int, q, log2(x.len()), s),
    ensures
        ({
            let b = dit_stage(a, pow2(s + 1) as int, dit_step(r, x.len(), s, q), q, no_flip());
            let l = log2(x.len());
            &&& (b[i] as int) % (q as int) == strided_sum(
                x,
                r as int,
                rev_bits((i / pow2(s + 1) as int) as nat, (l - (s + 1)) as nat) as int,
                pow2((l - (s + 1)) as nat),
                pow2(s + 1),
                (i % pow2(s + 1) as int) as nat,
            ) % (q as int)
            &&& reduced(a, q) ==> b[i] < q
        }),
{
    let n = x.len();
    let l = log2(n);
    let qi = q as int;
    let ri = r as int;
    lemma_stage_shape(n, s);
    lemma_power_of_two_log2(n);
    let h = pow2(s);
    let len = pow2(s + 1);
    let sp = pow2((l - s - 1) as nat);
    let big = pow2((l - s) as nat);
    lemma_pow2_pos(s);
    lemma_pow2_unfold((l - s) as nat);
    lemma_pow2_adds((l - s) as nat, s);
    lemma_pow2_adds((l - s - 1) as nat, s);
    lemma_pow2_unfold(l);
    assert(big * h == n);
    assert(sp * h == n / 2);
    lemma_pow_half_period(ri, (n / 2) as nat, 0, qi);
    assert(2 * (n / 2) == n);
    let wl = dit_step(r, n, s, q);
    assert(wl == pow_m(r, sp, q));
    let b = dit_stage(a, len as int, wl, q, no_flip());
    let bb = i / (len as int);
    let k = i % (len as int);
    lemma_stage_index(i, h as int);
    lemma_mod_bound(i, len as int);
    lemma_div_pos_is_pos(i, len as int);
    lemma_fundamental_div_mod(i, len as int);
    assert(n == len * sp) by {
        lemma_pow2_adds((l - s - 1) as nat, s + 1);
    }
    let c = rev_bits(bb as nat, (l - s - 1) as nat) as int;
    lemma_rev_bits_halves(bb as nat, (l - s - 1) as nat);
    assert((l - s - 1) as nat + 1 == (l - s) as nat);
    lemma_strided_split(x, ri, c, sp, h, k as nat);
    assert(2 * sp == big && 2 * h == len);
    if k < h {
        lemma_partner_below(i, h as int, sp as int);
        let e = strided_sum(x, ri, c, big, h, k as nat);
        let o = strided_sum(x, ri, c + sp, big, h, k as nat);
        assert((a[i] as int) % qi == e % qi);
        assert((a[i + h] as int) % qi == o % qi);
        let tw = pow_m(wl, k as nat, q);
        lemma_pow_m_pow_m(r, sp, k as nat, q);
        lemma_lo_value(a[i], a[i + h], tw, q, e, o, pow(ri, sp * (k as nat)));
        assert(b[i] == add_m(a[i], mul_m(a[i + h], tw, q), q));
    } else {
        let k0 = k - h;
        let e0 = strided_sum(x, ri, c, big, h, k0 as nat);
        let o0 = strided_sum(x, ri, c + sp, big, h, k0 as nat);
        assert((a[i - h] as int) % qi == e0 % qi);
        assert((a[i] as int) % qi == o0 % qi);
        let tw = pow_m(wl, k0 as nat, q);
        let p0 = pow(ri, sp * (k0 as nat));
        lemma_pow_m_pow_m(r, sp, k0 as nat, q);
        lemma_hi_value(a[i - h], a[i], tw, q, e0, o0, p0);
        assert(b[i] == sub_m(a[i - h], mul_m(a[i], tw, q), q));
        // the target, with the coefficient index shifted back by the period
        let e1 = strided_sum(x, ri, c, big, h, k as nat);
        let o1 = strided_sum(x, ri, c + sp, big, h, k as nat);
        assert(k as nat == k0 as nat + h);
        lemma_strided_shift(x, ri, c, big, h, k0 as nat, h, qi);
        lemma_strided_shift(x, ri, c + sp, big, h, k0 as nat, h, qi);
        let pk = pow(ri, sp * (k as nat));
        assert(sp * k == sp * h + sp * k0) by (nonlinear_arith)
            requires
                k == k0 + h,
        ;
        assert(sp * (k as nat) == sp * h + sp * (k0 as nat));
        lemma_pow_adds(ri, sp * h, sp * (k0 as nat));
        lemma_mul_congruent(pk, pk, o1, o0, qi);
        assert(pk * o0 == pow(ri, sp * h) * (p0 * o0)) by (nonlinear_arith)
            requires
                pk == pow(ri, sp * h) * p0,
        ;
        lemma_pow_half_period(ri, sp * h, p0 * o0, qi);
        lemma_add_congruent(e1, e0, pk * o1, -(p0 * o0), qi);
    }
}


/// After `s` fault-free stages from the bit-reversed words of `x`, the words hold the
/// partial transforms of `partial_transform`.
pub proof fn lemma_dit_partial(x: Seq<u64>, r: u64, q: u64, s: nat)
    requires
        is_power_of_two(x.len()),
        s <= log2(x.len()),
        q >= 2,
        log2(x.len()) >= 1 ==> pow(r as int, x.len() / 2) % (q as int) == q - 1,
    ensures
        ({
            let a = dit_after(bit_reverse(x), q, r, s, no_injection(), no_flips());
            &&& a.len() == x.len()
            &&& partial_transform(a, x, r as int, q, log2(x.len()), s)
            &&& reduced(x, q) ==> reduced(a, q)
        }),
    decreases s,
{
    let n = x.len();
    let l = log2(n);
    if s == 0 {
        let a = bit_reverse(x);
        lemma_pow2_pos(l);
        lemma_power_of_two_log2(n);
        assert(pow2(0) == 1) by {
            lemma2_to64();
        }
        assert forall|i: int| 0 <= i < a.len() implies (#[trigger] a[i] as int) % (q as int) == strided_sum(
            x,
            r as int,
            rev_bits((i / pow2(s) as int) as nat, (l - s) as nat) as int,
            pow2((l - s) as nat),
            pow2(s),
            (i % pow2(s) as int) as nat,
        ) % (q as int) by {
            let c = rev_bits(i as nat, l);
            lemma_rev_bits_bound(i as nat, l);
            lemma_pow0(r as int);
            assert(strided_sum(x, r as int, c as int, n, 0, 0) == 0);
            assert(n * ((1 - 1) as nat) * 0 == 0);
            assert(strided_sum(x, r as int, c as int, n, 1, 0) == x[c as int] as int);
        }
        if reduced(x, q) {
            assert forall|i: int| 0 <= i < a.len() implies #[trigger] a[i] < q by {
                lemma_rev_bits_bound(i as nat, l);
            }
        }
    } else {
        let t = (s - 1) as nat;
        lemma_dit_partial(x, r, q, t);
        let prev = dit_after(bit_reverse(x), q, r, t, no_injection(), no_flips());
        let a = dit_after(bit_reverse(x), q, r, s, no_injection(), no_flips());
        assert(a == dit_stage(prev, pow2(s) as int, dit_step(r, n, t, q), q, no_flip()));
        assert forall|i: int| 0 <= i < a.len() implies (#[trigger] a[i] as int) % (q as int) == strided_sum(
            x,
            r as int,
            rev_bits((i / pow2(s) as int) as nat, (l - s) as nat) as int,
            pow2((l - s) as nat),
            pow2(s),
            (i % pow2(s) as int) as nat,
        ) % (q as int) && (reduced(prev, q) ==> a[i] < q) by {
            lemma_stage_word(prev, x, r, q, t, i);
        }
    }
}

/// The direct sum, modulo `q`, is the plain transform sum when `r^n = 1`.
pub proof fn lemma_direct_sum_congruent(x: Seq<u64>, r: u64, q: u64, k: nat, m: nat)
    requires
        q >= 2,
        x.len() >= 1,
        m <= x.len(),
        k < x.len(),
        x.len() == 1 || pow(r as int, x.len()) % (q as int) == 1,
    ensures
        (direct_sum(x, r, q, k as int, m as int) as int) % (q as int) == strided_sum(x, r as int, 0, 1, m, k)
            % (q as int),
        direct_sum(x, r, q, k as int, m as int) < q,
    decreases m,
{
    let qi = q as int;
    let n = x.len();
    if m == 0 {
        lemma_small_mod(0, q as nat);
    } else {
        let m1 = (m - 1) as nat;
        lemma_direct_sum_congruent(x, r, q, k, m1);
        let prev = direct_sum(x, r, q, k as int, m1 as int);
        let mk: int = (m1 * k) as int;
        let e = (mk % (n as int)) as nat;
        lemma_mod_bound(mk, n as int);
        lemma_fundamental_div_mod(mk, n as int);
        let tw = pow_m(r, e, q);
        lemma_pow_m_congruent(r, e, q);
        assert(1 * m1 * k == m1 * k);
        if n == 1 {
            assert(m1 == 0 && k == 0);
            assert(e == 0);
        } else {
            lemma_div_pos_is_pos(mk, n as int);
            lemma_pow_period(r as int, n, (mk / (n as int)) as nat, e, qi);
            lemma_mul_is_commutative(n as int, mk / (n as int));
        }
        assert(pow(r as int, e) % qi == pow(r as int, 1 * m1 * k) % qi);
        lemma_lo_value(prev, x[m1 as int], tw, q, strided_sum(x, r as int, 0, 1, m1, k), x[m1 as int] as int, pow(r as int, 1 * m1 * k));
        assert(direct_sum(x, r, q, k as int, m as int) == add_m(prev, mul_m(x[m1 as int], tw, q), q));
        lemma_mul_is_commutative(x[m1 as int] as int, pow(r as int, 1 * m1 * k));
    }
}

/// The direct transform returns reduced words.
pub proof fn lemma_direct_transform_reduced(x: Seq<u64>, r: u64, q: u64)
    requires
        q >= 2,
    ensures
        reduced(direct_transform(x, r, q), q),
{
    assert forall|k: int| 0 <= k < x.len() implies #[trigger] direct_transform(x, r, q)[k] < q by {
        let m = x.len() as int;
        if m > 0 {
            let prev = direct_sum(x, r, q, k, m - 1);
            let t = mul_m(x[m - 1], pow_m(r, (((m - 1) * k) % m) as nat, q), q);
            lemma_mod_bound(prev + t, q as int);
        }
    }
}

/// Law: on reduced input of length `n = 2^l`, the fault-free butterfly network on the
/// bit-reversed words computes the direct transform `out[k] = sum_j x[j] r^(jk) mod q`,
/// for any root `r` with `r^(n/2) = -1` modulo `q`.
pub proof fn lemma_dit_is_direct(x: Seq<u64>, r: u64, q: u64)
    requires
        is_power_of_two(x.len()),
        q >= 2,
        reduced(x, q),
        x.len() >= 2 ==> pow(r as int, x.len() / 2) % (q as int) == q - 1,
    ensures
        dit_after(bit_reverse(x), q, r, log2(x.len()), no_injection(), no_flips()) == direct_transform(x, r, q),
{
    let n = x.len();
    let l = log2(n);
    lemma_power_of_two_log2(n);
    if l >= 1 {
        lemma_pow2_unfold(l);
        lemma_pow2_pos((l - 1) as nat);
    }
    lemma_dit_partial(x, r, q, l);
    if n >= 2 {
        lemma_pow_half_period(r as int, (n / 2) as nat, 0, q as int);
        assert(2 * (n / 2) == n);
    }
    let a = dit_after(bit_reverse(x), q, r, l, no_injection(), no_flips());
    let d = direct_transform(x, r, q);
    assert(pow2(0) == 1) by {
        lemma2_to64();
    }
    assert forall|i: int| 0 <= i < n implies #[trigger] a[i] == d[i] by {
        lemma_small_mod(i as nat, n);
        lemma_div_of0(n as int);
        assert(i / (n as int) == 0) by {
            lemma_fundamental_div_mod_converse(i, n as int, 0, i);
        }
        lemma_direct_sum_congruent(x, r, q, i as nat, n);
        lemma_small_mod(a[i] as nat, q as nat);
        lemma_small_mod(d[i] as nat, q as nat);
    }
    assert(a =~= d);
}

} // verus!
