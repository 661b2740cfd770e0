//! The decimation-in-frequency network as a discrete Fourier transform over `Z_q`.
use crate::ntt::bitrev::{lemma_rev_bits_bound, lemma_rev_bits_involution};
use crate::ntt::dft::{
    lemma_add_congruent, lemma_direct_sum_congruent, lemma_mul_congruent, lemma_partner_below,
    lemma_pow_half_period, lemma_pow_m_pow_m, lemma_pow_period, lemma_rev_bits_halves, lemma_stage_index,
    strided_sum,
};
use crate::ntt::naive::direct_transform;
use crate::ntt::spec::{
    add_m, bit_reverse, dif_after, dif_stage, mul_m, no_injection, pow_m, reduced, rev_bits, sub_m,
};
use crate::modarith::sub_mod_spec;
use crate::params::{is_power_of_two, lemma_power_of_two_log2, log2};
use vstd::arithmetic::div_mod::*;
use vstd::arithmetic::mul::*;
use vstd::arithmetic::power::*;
use vstd::arithmetic::power2::*;
use vstd::prelude::*;

verus! {

/// `sum_{u < m} x[j + u*stride] * r^((j + u*stride) * e)` over the integers: the part of
/// the transform at frequency `e` that comes from the words `j, j + stride, ...`.
pub open spec fn class_sum(x: Seq<u64>, r: int, j: int, stride: nat, m: nat, e: nat) -> int
    decreases m,
{
    if m == 0 {
        0
    } else {
        let idx = j + (m - 1) * stride;
        class_sum(x, r, j, stride, (m - 1) as nat, e) + x[idx] * pow(r, (idx * e) as nat)
    }
}

/// Splitting a residue class into its even- and odd-indexed halves.
pub proof fn lemma_class_split(x: Seq<u64>, r: int, j: int, h: nat, c: nat, e: nat)
    ensures
        class_sum(x, r, j, h, 2 * c, e) == class_sum(x, r, j, 2 * h, c, e) + class_sum(x, r, j + h, 2 * h, c, e),
    decreases c,
{
    if c > 0 {
        let c1 = (c - 1) as nat;
        lemma_class_split(x, r, j, h, c1, e);
        assert(class_sum(x, r, j, h, (2 * c1 + 1) as nat, e) == class_sum(x, r, j, h, 2 * c1, e) + x[j + (2
            * c1) * h] * pow(r, ((j + (2 * c1) * h) * e) as nat));
        assert(j + (2 * c1) * h == j + c1 * (2 * h)) by (nonlinear_arith);
        assert(j + (2 * c1 + 1) * h == (j + h) + c1 * (2 * h)) by (nonlinear_arith);
    }
}

/// Raising the frequency by `t`, where `r^(stride*t) = 1`, multiplies by `r^(j*t)`.
pub proof fn lemma_class_twist(x: Seq<u64>, r: int, j: int, stride: nat, m: nat, e: nat, t: nat, q: int)
    requires
        q >= 2,
        j >= 0,
        pow(r, stride * t) % q == 1,
    ensures
        class_sum(x, r, j, stride, m, e + t) % q == (pow(r, (j * t) as nat) * class_sum(x, r, j, stride, m, e))
            % q,
    decreases m,
{
    if m > 0 {
        let m1 = (m - 1) as nat;
        lemma_class_twist(x, r, j, stride, m1, e, t, q);
        let idx = j + m1 * stride;
        lemma_mul_nonnegative(m1 as int, stride as int);
        let w = x[idx] as int;
        let pjt = pow(r, (j * t) as nat);
        lemma_mul_nonnegative(j, t as int);
        lemma_mul_nonnegative(idx, e as int);
        assert(idx * (e + t) == (stride * t) * m1 + (idx * e + j * t)) by (nonlinear_arith)
            requires
                idx == j + m1 * stride,
        ;
        lemma_pow_period(r, stride * t, m1, (idx * e + j * t) as nat, q);
        lemma_pow_adds(r, (idx * e) as nat, (j * t) as nat);
        let pe = pow(r, (idx * e) as nat);
        lemma_mul_congruent(w, w, pow(r, (idx * (e + t)) as nat), pe * pjt, q);
        assert(w * (pe * pjt) == pjt * (w * pe)) by (nonlinear_arith);
        let prev = class_sum(x, r, j, stride, m1, e);
        lemma_add_congruent(
            class_sum(x, r, j, stride, m1, e + t),
            pjt * prev,
            w * pow(r, (idx * (e + t)) as nat),
            pjt * (w * pe),
            q,
        );
        lemma_mul_is_distributive_add(pjt, prev, w * pe);
    }
}

/// The words after `t` decimation-in-frequency stages on `x` (length `2^l`): in block
/// `b` of `M = 2^(l-t)` words, word `j` is, modulo `q`, the part at frequency
/// `rev(b)` (reversed on `t` bits) that comes from the words `j, j + M, ...` of `x`.
pub open spec fn dif_partial(a: Seq<u64>, x: Seq<u64>, r: int, q: u64, l: nat, t: nat) -> bool {
    forall|i: int|
        0 <= i < a.len() ==> (#[trigger] a[i] as int) % (q as int) == class_sum(
            x,
            r,
            i % pow2((l - t) as nat) as int,
            pow2((l - t) as nat),
            pow2(t),
            rev_bits((i / pow2((l - t) as nat) as int) as nat, t),
        ) % (q as int)
}

/// The lower output of a fault-free decimation-in-frequency butterfly, modulo `q`.
proof fn lemma_dif_hi_value(u: u64, w: u64, tw: u64, q: u64, e: int, o: int, p: int)
    requires
        q >= 2,
        w < q,
        (u as int) % (q as int) == e % (q as int),
        (w as int) % (q as int) == o % (q as int),
        (tw as int) % (q as int) == p % (q as int),
    ensures
        (mul_m(sub_m(u, w, q), tw, q) as int) % (q as int) == (p * (e - o)) % (q as int),
        mul_m(sub_m(u, w, q), tw, q) < q,
{
    let qi = q as int;
    let d = sub_mod_spec(u as int, w as int, qi);
    if u >= w {
        assert(d == u - w);
    } else {
        assert(d == qi + (u - w));
        lemma_mod_add_multiples_vanish(u - w, qi);
    }
    let dv = sub_m(u, w, q);
    assert(dv as int == d);
    lemma_sub_mod_noop(u as int, w as int, qi);
    lemma_sub_mod_noop(e, o, qi);
    assert((dv as int) % qi == (e - o) % qi);
    lemma_mul_congruent(dv as int, e - o, tw as int, p, qi);
    lemma_mul_is_commutative(e - o, p);
    lemma_mod_bound(dv * tw, qi);
    lemma_mod_twice(dv * tw, qi);
}

/// One decimation-in-frequency stage, word `i`.
proof fn lemma_dif_stage_word(a: Seq<u64>, x: Seq<u64>, r: u64, q: u64, t: nat, i: int)
    requires
        is_power_of_two(x.len()),
        t < log2(x.len()),
        q >= 2,
        a.len() == x.len(),
        0 <= i < x.len(),
        reduced(a, q),
        pow(r as int, x.len() / 2) % (q as int) == q - 1,
        dif_partial(a, x, r as int, q, log2(x.len()), t),
    ensures
        ({
            let b = dif_stage(a, (x.len() / pow2(t)) as int, pow_m(r, pow2(t), q), q);
            let l = log2(x.len());
            &&& (b[i] as int) % (q as int) == class_sum(
                x,
                r as int,
                i % pow2((l - (t + 1)) as nat) as int,
                pow2((l - (t + 1)) as nat),
                pow2(t + 1),
                rev_bits((i / pow2((l - (t + 1)) as nat) as int) as nat, t + 1),
            ) % (q as int)
            &&& b[i] < q
        }),
{
    let n = x.len();
    let l = log2(n);
    let qi = q as int;
    let ri = r as int;
    lemma_power_of_two_log2(n);
    let tt = pow2(t);
    let m = pow2((l - t) as nat);
    let h = pow2((l - t - 1) as nat);
    lemma_pow2_pos(t);
    lemma_pow2_pos((l - t - 1) as nat);
    lemma_pow2_unfold((l - t) as nat);
    lemma_pow2_unfold(t + 1);
    lemma_pow2_unfold(l);
    lemma_pow2_adds((l - t) as nat, t);
    lemma_pow2_adds((l - t - 1) as nat, t);
    assert(m * tt == n);
    assert(h * tt == n / 2);
    lemma_fundamental_div_mod_converse(n as int, tt as int, m as int, 0);
    assert(n / tt == m);
    let len = m as int;
    let wl = pow_m(r, tt, q);
    let b = dif_stage(a, len, wl, q);
    assert(len / 2 == h);
    lemma_pow_half_period(ri, (n / 2) as nat, 0, qi);
    assert(2 * (n / 2) == n);
    lemma_mul_is_commutative(m as int, tt as int);
    lemma_mul_is_commutative(h as int, tt as int);
    let bb = i / len;
    let j = i % len;
    lemma_stage_index(i, h as int);
    lemma_mod_bound(i, len);
    lemma_div_pos_is_pos(i, len);
    let beta = rev_bits(bb as nat, t);
    lemma_rev_bits_halves(bb as nat, t);
    assert((l - (t + 1)) as nat == (l - t - 1) as nat);
    if j < h {
        lemma_partner_below(i, h as int, tt as int);
        let e = class_sum(x, ri, j, m, tt, beta);
        let o = class_sum(x, ri, j + h, m, tt, beta);
        assert((a[i] as int) % qi == e % qi);
        assert((a[i + h] as int) % qi == o % qi);
        assert(b[i] == add_m(a[i], a[i + h], q));
        lemma_add_congruent(a[i] as int, e, a[i + h] as int, o, qi);
        lemma_mod_bound(a[i] + a[i + h], qi);
        lemma_mod_twice(a[i] + a[i + h], qi);
        lemma_class_split(x, ri, j, h, tt, beta);
    } else {
        let j0 = j - h;
        let e = class_sum(x, ri, j0, m, tt, beta);
        let o = class_sum(x, ri, j0 + h, m, tt, beta);
        assert((a[i - h] as int) % qi == e % qi);
        assert((a[i] as int) % qi == o % qi);
        let tw = pow_m(wl, j0 as nat, q);
        let p = pow(ri, tt * (j0 as nat));
        lemma_pow_m_pow_m(r, tt, j0 as nat, q);
        assert(b[i] == mul_m(sub_m(a[i - h], a[i], q), tw, q));
        lemma_dif_hi_value(a[i - h], a[i], tw, q, e, o, p);
        // the target at frequency beta + 2^t
        lemma_class_split(x, ri, j0, h, tt, beta + tt);
        lemma_class_twist(x, ri, j0, m, tt, beta, tt, qi);
        lemma_class_twist(x, ri, j0 + h, m, tt, beta, tt, qi);
        let pj = pow(ri, (j0 * tt) as nat);
        let ph = pow(ri, ((j0 + h) * tt) as nat);
        assert((j0 + h) * tt == h * tt + j0 * tt) by (nonlinear_arith);
        assert(j0 * tt == tt * j0) by (nonlinear_arith);
        lemma_mul_nonnegative(j0, tt as int);
        lemma_pow_adds(ri, h * tt, (j0 * tt) as nat);
        assert(ph * o == pow(ri, h * tt) * (pj * o)) by (nonlinear_arith)
            requires
                ph == pow(ri, h * tt) * pj,
        ;
        lemma_pow_half_period(ri, h * tt, pj * o, qi);
        lemma_add_congruent(
            class_sum(x, ri, j0, m, tt, beta + tt),
            pj * e,
            class_sum(x, ri, j0 + h, m, tt, beta + tt),
            -(pj * o),
            qi,
        );
        assert(pj * e + -(pj * o) == p * (e - o)) by (nonlinear_arith)
            requires
                pj == p,
        ;
    }
}

/// After `t` decimation-in-frequency stages the words hold the parts of
/// `dif_partial`, all below `q`.
pub proof fn lemma_dif_partial(x: Seq<u64>, r: u64, q: u64, t: nat)
    requires
        is_power_of_two(x.len()),
        t <= log2(x.len()),
        q >= 2,
        reduced(x, q),
        log2(x.len()) >= 1 ==> pow(r as int, x.len() / 2) % (q as int) == q - 1,
    ensures
        ({
            let a = dif_after(x, q, r, t, no_injection());
            &&& a.len() == x.len()
            &&& dif_partial(a, x, r as int, q, log2(x.len()), t)
            &&& reduced(a, q)
        }),
    decreases t,
{
    let n = x.len();
    let l = log2(n);
    lemma_power_of_two_log2(n);
    if t == 0 {
        assert(pow2(0) == 1) by {
            lemma2_to64();
        }
        assert forall|i: int| 0 <= i < x.len() implies (#[trigger] x[i] as int) % (q as int) == class_sum(
            x,
            r as int,
            i % pow2((l - t) as nat) as int,
            pow2((l - t) as nat),
            pow2(t),
            rev_bits((i / pow2((l - t) as nat) as int) as nat, t),
        ) % (q as int) by {
            lemma_small_mod(i as nat, n);
            lemma_fundamental_div_mod_converse(i, n as int, 0, i);
            lemma_pow0(r as int);
            assert(class_sum(x, r as int, i, n, 0, 0) == 0);
            assert(class_sum(x, r as int, i, n, 1, 0) == x[i] as int);
        }
    } else {
        let t1 = (t - 1) as nat;
        lemma_dif_partial(x, r, q, t1);
        let prev = dif_after(x, q, r, t1, no_injection());
        let a = dif_after(x, q, r, t, no_injection());
        assert(a == dif_stage(prev, (n / pow2(t1)) as int, pow_m(r, pow2(t1), q), q));
        assert forall|i: int| 0 <= i < a.len() implies (#[trigger] a[i] as int) % (q as int) == class_sum(
            x,
            r as int,
            i % pow2((l - t) as nat) as int,
            pow2((l - t) as nat),
            pow2(t),
            rev_bits((i / pow2((l - t) as nat) as int) as nat, t),
        ) % (q as int) && a[i] < q by {
            lemma_dif_stage_word(prev, x, r, q, t1, i);
        }
    }
}

/// The frequency-`k` sum of the single residue class of stride 1 is the plain
/// transform sum.
proof fn lemma_class_is_strided(x: Seq<u64>, r: int, m: nat, k: nat)
    ensures
        class_sum(x, r, 0, 1, m, k) == strided_sum(x, r, 0, 1, m, k),
    decreases m,
{
    if m > 0 {
        lemma_class_is_strided(x, r, (m - 1) as nat, k);
        assert((0 + (m - 1) * 1) * k == 1 * ((m - 1) as nat) * k);
    }
}

/// On reduced input of length `n = 2^l`, the fault-free decimation-in-frequency network
/// followed by bit reversal computes the direct transform, for any root `r` with
/// `r^(n/2) = -1` modulo `q`.
pub proof fn lemma_dif_is_direct(x: Seq<u64>, r: u64, q: u64)
    requires
        is_power_of_two(x.len()),
        q >= 2,
        reduced(x, q),
        x.len() >= 2 ==> pow(r as int, x.len() / 2) % (q as int) == q - 1,
    ensures
        bit_reverse(dif_after(x, q, r, log2(x.len()), no_injection())) == direct_transform(x, r, q),
{
    let n = x.len();
    let l = log2(n);
    lemma_power_of_two_log2(n);
    if l >= 1 {
        lemma_pow2_unfold(l);
        lemma_pow2_pos((l - 1) as nat);
    }
    lemma_dif_partial(x, r, q, l);
    if n >= 2 {
        lemma_pow_half_period(r as int, (n / 2) as nat, 0, q as int);
        assert(2 * (n / 2) == n);
    }
    let a = dif_after(x, q, r, l, no_injection());
    let out = bit_reverse(a);
    let d = direct_transform(x, r, q);
    assert(pow2(0) == 1) by {
        lemma2_to64();
    }
    assert forall|k: int| 0 <= k < n implies #[trigger] out[k] == d[k] by {
        let i = rev_bits(k as nat, l) as int;
        lemma_rev_bits_bound(k as nat, l);
        lemma_rev_bits_involution(k as nat, l);
        assert(out[k] == a[i]);
        assert(i % 1 == 0 && i / 1 == i);
        lemma_class_is_strided(x, r as int, n, k as nat);
        lemma_direct_sum_congruent(x, r, q, k as nat, n);
        lemma_small_mod(a[i] as nat, q as nat);
        lemma_small_mod(d[k] as nat, q as nat);
    }
    assert(out =~= d);
}

} // verus!
