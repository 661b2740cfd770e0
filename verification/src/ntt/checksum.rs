//! Stage checksums: the sums a mitigated stage predicts from its input, the sums it
//! measures on its output, and the proof that a fault-free stage always matches.
use crate::ntt::spec::{add_m, dit_stage, mul_m, no_flip, sub_m, twiddle};
use crate::ntt::shape::lemma_lo_facts;
use vstd::arithmetic::div_mod::*;
use vstd::arithmetic::mul::*;
use vstd::prelude::*;

verus! {

/// `f(a) + ... + f(b - 1)`.
pub open spec fn range_total(f: spec_fn(int) -> int, a: int, b: int) -> int
    decreases b - a,
{
    if b <= a {
        0
    } else {
        range_total(f, a, b - 1) + f(b - 1)
    }
}

/// `g(0), ..., g(k - 1)` accumulated with `add_m`, starting from 0.
pub open spec fn fold_mod(g: spec_fn(int) -> u64, k: int, q: u64) -> u64
    decreases k,
{
    if k <= 0 {
        0
    } else {
        add_m(fold_mod(g, k - 1, q), g(k - 1), q)
    }
}

/// `g` read as integers.
pub open spec fn widen(g: spec_fn(int) -> u64) -> spec_fn(int) -> int {
    |i: int| g(i) as int
}

/// Lower word of the `t`-th butterfly, in the order a stage visits them
/// (block by block, `half` butterflies per block).
pub open spec fn bf_lo(t: int, half: int) -> int {
    (t / half) * (2 * half) + t % half
}

/// The fault-free product `w^j * x[hi]` of the butterfly whose lower word is `lo`.
pub open spec fn clean_product(x: Seq<u64>, lo: int, half: int, wl: u64, q: u64) -> u64 {
    mul_m(x[lo + half], twiddle(wl, lo % (2 * half), q), q)
}

/// The words of `y`.
pub open spec fn word_terms(y: Seq<u64>) -> spec_fn(int) -> u64 {
    |i: int| y[i]
}

/// `i * y[i] mod q`.
pub open spec fn weighted_terms(y: Seq<u64>, q: u64) -> spec_fn(int) -> u64 {
    |i: int| mul_m(i as u64, y[i], q)
}

/// `2 u mod q` for the lower input word `u` of each butterfly.
pub open spec fn doubled_terms(x: Seq<u64>, len: int, q: u64) -> spec_fn(int) -> u64 {
    |t: int| add_m(x[bf_lo(t, len / 2)], x[bf_lo(t, len / 2)], q)
}

/// `(lo + hi) u + (lo - hi) w v mod q` for the butterfly `(lo, hi)` with inputs `u, v`.
pub open spec fn index_term(x: Seq<u64>, lo: int, half: int, wl: u64, q: u64) -> u64 {
    let hi = lo + half;
    let sum_idx = add_m((lo % (q as int)) as u64, (hi % (q as int)) as u64, q);
    let diff_idx = sub_m((lo % (q as int)) as u64, (hi % (q as int)) as u64, q);
    add_m(mul_m(sum_idx, x[lo], q), mul_m(diff_idx, clean_product(x, lo, half, wl, q), q), q)
}

/// The index terms of the butterflies in visiting order.
pub open spec fn index_terms(x: Seq<u64>, len: int, wl: u64, q: u64) -> spec_fn(int) -> u64 {
    |t: int| index_term(x, bf_lo(t, len / 2), len / 2, wl, q)
}

/// The sum `S1` of the output words matches the sum predicted from the input.
pub open spec fn stage_sum_ok(y: Seq<u64>, x: Seq<u64>, len: int, q: u64) -> bool {
    fold_mod(word_terms(y), y.len() as int, q) == fold_mod(doubled_terms(x, len, q), (x.len() / 2) as int, q)
}

/// The index-weighted sum `S2` of the output matches the one predicted from the input.
pub open spec fn stage_index_ok(y: Seq<u64>, x: Seq<u64>, len: int, wl: u64, q: u64) -> bool {
    fold_mod(weighted_terms(y, q), y.len() as int, q) == fold_mod(index_terms(x, len, wl, q), (x.len() / 2) as int, q)
}

pub proof fn lemma_range_split(f: spec_fn(int) -> int, a: int, b: int, c: int)
    requires
        a <= b <= c,
    ensures
        range_total(f, a, c) == range_total(f, a, b) + range_total(f, b, c),
    decreases c - b,
{
    if c > b {
        lemma_range_split(f, a, b, c - 1);
    }
}

/// Terms congruent modulo `q` give congruent totals.
pub proof fn lemma_range_congruent(f: spec_fn(int) -> int, g: spec_fn(int) -> int, a: int, b: int, q: int)
    requires
        q > 0,
        forall|i: int| a <= i < b ==> #[trigger] f(i) % q == g(i) % q,
    ensures
        range_total(f, a, b) % q == range_total(g, a, b) % q,
    decreases b - a,
{
    if b > a {
        lemma_range_congruent(f, g, a, b - 1, q);
        lemma_add_mod_noop(range_total(f, a, b - 1), f(b - 1), q);
        lemma_add_mod_noop(range_total(g, a, b - 1), g(b - 1), q);
    }
}

/// A fold with `add_m` is the total reduced modulo `q`.
pub proof fn lemma_fold_mod_total(g: spec_fn(int) -> u64, k: int, q: u64)
    requires
        q > 0,
        k >= 0,
    ensures
        fold_mod(g, k, q) as int == range_total(widen(g), 0, k) % (q as int),
    decreases k,
{
    if k > 0 {
        lemma_fold_mod_total(g, k - 1, q);
        let prev = range_total(widen(g), 0, k - 1);
        lemma_mod_bound(prev, q as int);
        lemma_add_mod_noop(prev, g(k - 1) as int, q as int);
        lemma_add_mod_noop(prev % (q as int), g(k - 1) as int, q as int);
        lemma_mod_twice(prev, q as int);
        lemma_mod_bound(fold_mod(g, k - 1, q) + g(k - 1), q as int);
    } else {
        lemma_small_mod(0, q as nat);
    }
}

/// Visiting butterfly `t = k * half + j` touches word `k * len + j`.
pub proof fn lemma_bf_lo(k: int, half: int, j: int)
    requires
        k >= 0,
        half >= 1,
        0 <= j < half,
    ensures
        bf_lo(k * half + j, half) == k * (2 * half) + j,
        (k * (2 * half) + j) % (2 * half) == j,
        k * (2 * half) + j >= 0,
{
    lemma_fundamental_div_mod_converse(k * half + j, half, k, j);
    lemma_mul_nonnegative(k, 2 * half);
    lemma_fundamental_div_mod_converse(k * (2 * half) + j, 2 * half, k, j);
}

/// Each word of `f` counted once per butterfly: `f(lo) + f(hi)`.
pub open spec fn pair_terms(f: spec_fn(int) -> int, half: int) -> spec_fn(int) -> int {
    |t: int| f(bf_lo(t, half)) + f(bf_lo(t, half) + half)
}

proof fn lemma_block_pairs(f: spec_fn(int) -> int, half: int, k: int, h: int)
    requires
        k >= 0,
        half >= 1,
        0 <= h <= half,
    ensures
        range_total(pair_terms(f, half), k * half, k * half + h) == range_total(f, k * (2 * half), k * (2 * half)
            + h) + range_total(f, k * (2 * half) + half, k * (2 * half) + half + h),
    decreases h,
{
    if h > 0 {
        lemma_block_pairs(f, half, k, h - 1);
        lemma_bf_lo(k, half, h - 1);
    }
}

/// Summing word by word equals summing butterfly by butterfly over the first `k` blocks.
pub proof fn lemma_pairs(f: spec_fn(int) -> int, half: int, k: int)
    requires
        k >= 0,
        half >= 1,
    ensures
        range_total(f, 0, k * (2 * half)) == range_total(pair_terms(f, half), 0, k * half),
    decreases k,
{
    if k > 0 {
        let k1 = k - 1;
        lemma_pairs(f, half, k1);
        lemma_mul_nonnegative(k1, half);
        lemma_mul_nonnegative(k1, 2 * half);
        lemma_mul_is_distributive_add_other_way(half, k1, 1);
        lemma_mul_is_distributive_add_other_way(2 * half, k1, 1);
        lemma_range_split(pair_terms(f, half), 0, k1 * half, k * half);
        lemma_block_pairs(f, half, k1, half);
        lemma_range_split(f, 0, k1 * (2 * half), k1 * (2 * half) + half);
        lemma_range_split(f, 0, k1 * (2 * half) + half, k * (2 * half));
    } else {
        lemma_mul_basics(2 * half);
        lemma_mul_basics(half);
    }
}

/// A fault-free butterfly keeps `y0 + y1 = 2u` modulo `q`.
proof fn lemma_pair_sum(x: Seq<u64>, lo: int, half: int, wl: u64, q: u64)
    requires
        q >= 2,
        half >= 1,
        0 <= lo,
        lo % (2 * half) < half,
        lo + half < x.len(),
    ensures
        ({
            let y = dit_stage(x, 2 * half, wl, q, no_flip());
            (y[lo] + y[lo + half]) % (q as int) == (add_m(x[lo], x[lo], q) as int) % (q as int)
        }),
{
    let len = 2 * half;
    let y = dit_stage(x, len, wl, q, no_flip());
    let u = x[lo] as int;
    let v = clean_product(x, lo, half, wl, q) as int;
    let qi = q as int;
    lemma_lo_facts(lo, len);
    lemma_lo_facts(lo + half, len);
    lemma_fundamental_div_mod(lo, len);
    lemma_mul_is_commutative(len, lo / len);
    lemma_fundamental_div_mod_converse(lo + half, len, lo / len, lo % len + half);
    assert(y[lo] == add_m(x[lo], clean_product(x, lo, half, wl, q), q));
    assert(y[lo + half] == sub_m(x[lo], clean_product(x, lo, half, wl, q), q));
    assert((y[lo + half] as int) % qi == (u - v) % qi) by {
        if u < v {
            lemma_mod_add_multiples_vanish(u - v, qi);
        }
    }
    lemma_add_mod_noop(u + v, u - v, qi);
    lemma_mod_twice(u + v, qi);
    lemma_add_mod_noop(y[lo] as int, y[lo + half] as int, qi);
    lemma_mod_twice(u + u, qi);
}

/// The index terms of a fault-free butterfly: `lo y0 + hi y1` is its index term modulo `q`.
proof fn lemma_pair_index(x: Seq<u64>, lo: int, half: int, wl: u64, q: u64)
    requires
        q >= 2,
        half >= 1,
        0 <= lo,
        lo % (2 * half) < half,
        lo + half < x.len(),
        x.len() <= u64::MAX,
    ensures
        ({
            let y = dit_stage(x, 2 * half, wl, q, no_flip());
            (mul_m(lo as u64, y[lo], q) + mul_m((lo + half) as u64, y[lo + half], q)) % (q as int)
                == (index_term(x, lo, half, wl, q) as int) % (q as int)
        }),
{
    let len = 2 * half;
    let hi = lo + half;
    let y = dit_stage(x, len, wl, q, no_flip());
    let u = x[lo] as int;
    let v = clean_product(x, lo, half, wl, q) as int;
    let qi = q as int;
    lemma_lo_facts(lo, len);
    lemma_lo_facts(hi, len);
    lemma_fundamental_div_mod(lo, len);
    lemma_mul_is_commutative(len, lo / len);
    lemma_fundamental_div_mod_converse(hi, len, lo / len, lo % len + half);
    let y0 = y[lo] as int;
    let y1 = y[hi] as int;
    assert(y[lo] == add_m(x[lo], clean_product(x, lo, half, wl, q), q));
    assert(y[hi] == sub_m(x[lo], clean_product(x, lo, half, wl, q), q));
    // y0 = u + v, y1 = u - v (mod q)
    assert(y0 % qi == (u + v) % qi) by {
        lemma_mod_twice(u + v, qi);
    }
    assert(y1 % qi == (u - v) % qi) by {
        if u < v {
            lemma_mod_add_multiples_vanish(u - v, qi);
        }
    }
    // left side: lo*y0 + hi*y1 == lo*(u+v) + hi*(u-v) (mod q)
    lemma_mul_mod_noop_right(lo, y0, qi);
    lemma_mul_mod_noop_right(lo, u + v, qi);
    lemma_mul_mod_noop_right(hi, y1, qi);
    lemma_mul_mod_noop_right(hi, u - v, qi);
    let l1 = mul_m(lo as u64, y[lo], q) as int;
    let l2 = mul_m(hi as u64, y[hi], q) as int;
    assert(l1 == (lo * y0) % qi);
    assert(l2 == (hi * y1) % qi);
    lemma_add_mod_noop(lo * y0, hi * y1, qi);
    lemma_add_mod_noop(lo * (u + v), hi * (u - v), qi);
    lemma_mod_twice(lo * y0, qi);
    lemma_mod_twice(hi * y1, qi);
    lemma_add_mod_noop(l1, l2, qi);
    assert((l1 + l2) % qi == (lo * (u + v) + hi * (u - v)) % qi);
    // right side
    let lq = lo % qi;
    let hq = hi % qi;
    lemma_mod_bound(lo, qi);
    lemma_mod_bound(hi, qi);
    let s = add_m(lq as u64, hq as u64, q) as int;
    let d = sub_m(lq as u64, hq as u64, q) as int;
    assert(s % qi == (lo + hi) % qi) by {
        lemma_add_mod_noop(lo, hi, qi);
        lemma_mod_twice(lq + hq, qi);
    }
    assert(d % qi == (lo - hi) % qi) by {
        lemma_sub_mod_noop(lo, hi, qi);
        if lq < hq {
            lemma_mod_add_multiples_vanish(lq - hq, qi);
        }
    }
    let r1 = mul_m(s as u64, x[lo], q) as int;
    let r2 = mul_m(d as u64, clean_product(x, lo, half, wl, q), q) as int;
    assert(r1 % qi == ((lo + hi) * u) % qi) by {
        lemma_mod_twice(s * u, qi);
        lemma_mul_mod_noop_left(s, u, qi);
        lemma_mul_mod_noop_left(lo + hi, u, qi);
    }
    assert(r2 % qi == ((lo - hi) * v) % qi) by {
        lemma_mod_twice(d * v, qi);
        lemma_mul_mod_noop_left(d, v, qi);
        lemma_mul_mod_noop_left(lo - hi, v, qi);
    }
    assert(index_term(x, lo, half, wl, q) as int == (r1 + r2) % qi);
    lemma_mod_twice(r1 + r2, qi);
    lemma_add_mod_noop(r1, r2, qi);
    lemma_add_mod_noop((lo + hi) * u, (lo - hi) * v, qi);
    assert(lo * (u + v) + hi * (u - v) == (lo + hi) * u + (lo - hi) * v) by (nonlinear_arith);
}

/// Law: a fault-free stage always passes both stage checksums.
pub proof fn lemma_clean_stage_checksums(x: Seq<u64>, len: int, wl: u64, q: u64)
    requires
        q >= 2,
        2 <= len,
        len % 2 == 0,
        (x.len() as int) % len == 0,
        x.len() <= u64::MAX,
    ensures
        stage_sum_ok(dit_stage(x, len, wl, q, no_flip()), x, len, q),
        stage_index_ok(dit_stage(x, len, wl, q, no_flip()), x, len, wl, q),
{
    let half = len / 2;
    let n = x.len() as int;
    let y = dit_stage(x, len, wl, q, no_flip());
    let qi = q as int;
    let k = n / len;
    lemma_fundamental_div_mod(n, len);
    lemma_mul_is_commutative(len, k);
    assert(len == 2 * half);
    assert(k * half == n / 2) by {
        lemma_mul_is_associative(k, 2, half);
        lemma_mul_is_commutative(k, 2);
        lemma_mul_is_associative(2, k, half);
        lemma_mul_is_commutative(2, k * half);
        lemma_fundamental_div_mod_converse(n, 2, k * half, 0);
    }
    assert(k >= 0) by {
        lemma_div_pos_is_pos(n, len);
    }
    // S1
    let f1 = widen(word_terms(y));
    let g1 = widen(doubled_terms(x, len, q));
    lemma_pairs(f1, half, k);
    assert forall|t: int| 0 <= t < k * half implies #[trigger] pair_terms(f1, half)(t) % qi == g1(t) % qi by {
        let j = t % half;
        let kk = t / half;
        lemma_fundamental_div_mod(t, half);
        lemma_mod_bound(t, half);
        lemma_div_pos_is_pos(t, half);
        lemma_mul_is_commutative(half, kk);
        lemma_bf_lo(kk, half, j);
        let lo = bf_lo(t, half);
        assert(kk < k) by {
            lemma_mul_is_distributive_add_other_way(half, kk, 1);
            if kk >= k {
                lemma_mul_inequality(k, kk, half);
            }
        }
        assert(lo + half < n) by {
            lemma_mul_is_distributive_add_other_way(len, kk, 1);
            lemma_mul_inequality(kk + 1, k, len);
            lemma_mul_is_commutative(kk + 1, len);
        }
        lemma_pair_sum(x, lo, half, wl, q);
    }
    lemma_range_congruent(pair_terms(f1, half), g1, 0, k * half, qi);
    lemma_fold_mod_total(word_terms(y), n, q);
    lemma_fold_mod_total(doubled_terms(x, len, q), n / 2, q);
    // S2
    let f2 = widen(weighted_terms(y, q));
    let g2 = widen(index_terms(x, len, wl, q));
    lemma_pairs(f2, half, k);
    assert forall|t: int| 0 <= t < k * half implies #[trigger] pair_terms(f2, half)(t) % qi == g2(t) % qi by {
        let j = t % half;
        let kk = t / half;
        lemma_fundamental_div_mod(t, half);
        lemma_mod_bound(t, half);
        lemma_div_pos_is_pos(t, half);
        lemma_mul_is_commutative(half, kk);
        lemma_bf_lo(kk, half, j);
        let lo = bf_lo(t, half);
        assert(kk < k) by {
            lemma_mul_is_distributive_add_other_way(half, kk, 1);
            if kk >= k {
                lemma_mul_inequality(k, kk, half);
            }
        }
        assert(lo + half < n) by {
            lemma_mul_is_distributive_add_other_way(len, kk, 1);
            lemma_mul_inequality(kk + 1, k, len);
            lemma_mul_is_commutative(kk + 1, len);
        }
        lemma_pair_index(x, lo, half, wl, q);
    }
    lemma_range_congruent(pair_terms(f2, half), g2, 0, k * half, qi);
    lemma_fold_mod_total(weighted_terms(y, q), n, q);
    lemma_fold_mod_total(index_terms(x, len, wl, q), n / 2, q);
}

} // verus!
