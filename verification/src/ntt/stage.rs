//! One decimation-in-time butterfly stage, computed in place.
use crate::fault::{FaultSite, FaultSpec};
use crate::modarith::{add_mod, mul_mod, pow_mod, sub_mod};
use crate::ntt::faults::maybe_flip_arithmetic_site;
use crate::ntt::spec::{
    add_m, dit_hi_out, dit_lo_out, dit_product, dit_stage, fault_fits, fault_value, flip_value, mul_m,
    no_flip, site_flip, stage_flip, sub_m, twiddle, pow_m,
};
use crate::ntt::{has_room, with_butterflies, NttSystemMetrics};
use vstd::arithmetic::div_mod::*;
use vstd::arithmetic::mul::*;
use vstd::arithmetic::power::*;
use vstd::prelude::*;

verus! {

/// Index `t` of the block that starts at a multiple of `len`.
pub proof fn lemma_block_index(start: int, len: int, t: int)
    requires
        len > 0,
        start >= 0,
        start % len == 0,
        0 <= t < len,
    ensures
        (start + t) % len == t,
{
    lemma_fundamental_div_mod(start, len);
    lemma_mul_is_commutative(len, start / len);
    lemma_fundamental_div_mod_converse_mod(start + t, len, start / len, t);
}

/// A block that starts below `n` ends within `n`, when `len` divides `n`.
pub proof fn lemma_block_fits(start: int, len: int, n: int)
    requires
        len > 0,
        start >= 0,
        start % len == 0,
        n % len == 0,
        start < n,
    ensures
        start + len <= n,
{
    lemma_fundamental_div_mod(start, len);
    lemma_fundamental_div_mod(n, len);
    let a = start / len;
    let b = n / len;
    if a >= b {
        lemma_mul_inequality(b, a, len);
        lemma_mul_is_commutative(a, len);
        lemma_mul_is_commutative(b, len);
    } else {
        lemma_mul_inequality(a + 1, b, len);
        lemma_mul_is_distributive_add_other_way(len, a, 1);
        lemma_mul_is_commutative(a, len);
        lemma_mul_is_commutative(b, len);
    }
}

/// The next twiddle: `w * wl` from `wl^j` gives `wl^(j+1)`.
pub proof fn lemma_twiddle_step(wl: u64, j: nat, q: u64)
    requires
        q >= 2,
    ensures
        mul_m(twiddle(wl, j as int, q), wl, q) == twiddle(wl, (j + 1) as int, q),
        twiddle(wl, j as int, q) < q,
{
    lemma_pow1(wl as int);
    lemma_small_mod(1, q as nat);
    if j == 0 {
        assert(twiddle(wl, 0, q) == 1);
        assert(mul_m(1, wl, q) == (wl as int) % (q as int));
    } else {
        let p = pow(wl as int, j);
        lemma_mod_bound(p, q as int);
        assert(twiddle(wl, j as int, q) == p % (q as int));
        lemma_mul_mod_noop_left(p, wl as int, q as int);
        lemma_pow_adds(wl as int, j, 1);
        assert(pow(wl as int, j + 1) == p * wl);
    }
}

/// A value below `q` stays below `q` under any fault of the model.
pub proof fn lemma_site_flip_bound(v: u64, q: u64, stage: int, slot: int, fault: Option<FaultSpec>, site: FaultSite)
    requires
        q > 0,
        v < q,
    ensures
        site_flip(v, q, stage, slot, fault, site) < q,
{
}

/// Without a fault, the model perturbs nothing.
pub proof fn lemma_stage_flip_none(q: u64, stage: int)
    ensures
        stage_flip(q, stage, None) == no_flip(),
{
    assert(stage_flip(q, stage, None) =~= no_flip());
}

/// One DIT stage over blocks of `len` words, with the arithmetic-site faults of
/// `fault` at `stage`, counting one butterfly's operations per butterfly.
pub fn dit_stage_in_place(
    a: &mut Vec<u64>,
    q: u64,
    w_len: u64,
    len: usize,
    stage: usize,
    fault: Option<&FaultSpec>,
    m: &mut NttSystemMetrics,
)
    requires
        q >= 2,
        2 <= len <= old(a).len(),
        len % 2 == 0,
        old(a).len() % len == 0,
        fault_fits(fault_value(fault)),
        has_room(*old(m), old(a).len() as int),
    ensures
        final(a)@ == dit_stage(old(a)@, len as int, w_len, q, stage_flip(q, stage as int, fault_value(fault))),
        *final(m) == with_butterflies(*old(m), (old(a).len() / 2) as int),
{
    let n = a.len();
    let half = len / 2;
    let ghost a0 = a@;
    let ghost m0 = *m;
    let ghost flip = stage_flip(q, stage as int, fault_value(fault));
    let ghost out = dit_stage(a0, len as int, w_len, q, flip);
    let mut start: usize = 0;
    while start < n
        invariant
            n == a.len(),
            a0.len() == n,
            half == len / 2,
            q >= 2,
            2 <= len <= n,
            len % 2 == 0,
            n % len == 0,
            start % len == 0,
            start <= n,
            fault_fits(fault_value(fault)),
            has_room(m0, n as int),
            flip == stage_flip(q, stage as int, fault_value(fault)),
            out == dit_stage(a0, len as int, w_len, q, flip),
            forall|i: int| 0 <= i < start ==> a@[i] == out[i],
            forall|i: int| start <= i < n ==> a@[i] == a0[i],
            *m == with_butterflies(m0, (start / 2) as int),
        decreases n - start,
    {
        proof {
            lemma_block_fits(start as int, len as int, n as int);
        }
        let mut w: u64 = 1;
        let mut j: usize = 0;
        proof {
            lemma_pow0(w_len as int);
        }
        while j < half
            invariant
                n == a.len(),
                a0.len() == n,
                half == len / 2,
                q >= 2,
                2 <= len <= n,
                len % 2 == 0,
                start % len == 0,
                start + len <= n,
                j <= half,
                fault_fits(fault_value(fault)),
                has_room(m0, n as int),
                flip == stage_flip(q, stage as int, fault_value(fault)),
                out == dit_stage(a0, len as int, w_len, q, flip),
                w == twiddle(w_len, j as int, q),
                forall|i: int| 0 <= i < start + j ==> a@[i] == out[i],
                forall|i: int| start + half <= i < start + half + j ==> a@[i] == out[i],
                forall|i: int| start + j <= i < start + half ==> a@[i] == a0[i],
                forall|i: int| start + half + j <= i < n ==> a@[i] == a0[i],
                *m == with_butterflies(m0, (start / 2 + j) as int),
            decreases half - j,
        {
            let lo = start + j;
            let hi = start + j + half;
            proof {
                lemma_block_index(start as int, len as int, j as int);
                lemma_block_index(start as int, len as int, (j + half) as int);
                lemma_twiddle_step(w_len, j as nat, q);
            }
            let u = a[lo];
            let mut v = mul_mod(a[hi], w, q);
            v = maybe_flip_arithmetic_site(v, q, stage, hi, fault, FaultSite::MulOutput);
            proof {
                lemma_site_flip_bound(mul_m(a0[hi as int], w, q), q, stage as int, hi as int, fault_value(fault), FaultSite::MulOutput);
                assert(v == dit_product(a0, lo as int, half as int, w_len, q, flip));
            }
            let mut y0 = add_mod(u, v, q);
            y0 = maybe_flip_arithmetic_site(y0, q, stage, lo, fault, FaultSite::AddOutput);
            y0 = maybe_flip_arithmetic_site(y0, q, stage, lo, fault, FaultSite::ButterflyOutput);
            y0 = maybe_flip_arithmetic_site(y0, q, stage, lo, fault, FaultSite::RegisterWrite);
            assert(y0 == dit_lo_out(a0, lo as int, half as int, w_len, q, flip));
            a.set(lo, y0);
            let mut y1 = sub_mod(u, v, q);
            y1 = maybe_flip_arithmetic_site(y1, q, stage, hi, fault, FaultSite::SubOutput);
            y1 = maybe_flip_arithmetic_site(y1, q, stage, hi, fault, FaultSite::ButterflyOutput);
            y1 = maybe_flip_arithmetic_site(y1, q, stage, hi, fault, FaultSite::RegisterWrite);
            assert(y1 == dit_hi_out(a0, lo as int, half as int, w_len, q, flip));
            a.set(hi, y1);
            w = mul_mod(w, w_len, q);

            m.num_mod_adds += 1;
            m.num_mod_subs += 1;
            m.num_mod_muls += 2;
            m.num_twiddle_loads += 1;
            m.num_memory_reads += 2;
            m.num_memory_writes += 2;
            j = j + 1;
        }
        proof {
            assert((start + len) / 2 == start / 2 + half) by {
                lemma_fundamental_div_mod(start as int, len as int);
                assert(start == len * (start / len));
            }
        }
        proof {
            lemma_mod_add_multiples_vanish(start as int, len as int);
        }
        start = start + len;
    }
    proof {
        assert(a@ =~= out);
    }
}

/// One fault-free DIT stage from `src` into `dst`; every word of `dst` is written.
pub fn dit_stage_out_of_place(
    src: &Vec<u64>,
    dst: &mut Vec<u64>,
    q: u64,
    w_len: u64,
    len: usize,
    m: &mut NttSystemMetrics,
)
    requires
        q >= 2,
        old(dst).len() == src.len(),
        2 <= len <= src.len(),
        len % 2 == 0,
        src.len() % len == 0,
        has_room(*old(m), src.len() as int),
    ensures
        final(dst)@ == dit_stage(src@, len as int, w_len, q, no_flip()),
        *final(m) == with_butterflies(*old(m), (src.len() / 2) as int),
{
    let n = src.len();
    let half = len / 2;
    let ghost m0 = *m;
    let ghost out = dit_stage(src@, len as int, w_len, q, no_flip());
    let mut start: usize = 0;
    while start < n
        invariant
            n == src.len(),
            n == dst.len(),
            half == len / 2,
            q >= 2,
            2 <= len <= n,
            len % 2 == 0,
            n % len == 0,
            start % len == 0,
            start <= n,
            has_room(m0, n as int),
            out == dit_stage(src@, len as int, w_len, q, no_flip()),
            forall|i: int| 0 <= i < start ==> dst@[i] == out[i],
            *m == with_butterflies(m0, (start / 2) as int),
        decreases n - start,
    {
        proof {
            lemma_block_fits(start as int, len as int, n as int);
        }
        let mut w: u64 = 1;
        let mut j: usize = 0;
        proof {
            lemma_pow0(w_len as int);
        }
        while j < half
            invariant
                n == src.len(),
                n == dst.len(),
                half == len / 2,
                q >= 2,
                2 <= len <= n,
                len % 2 == 0,
                start % len == 0,
                start + len <= n,
                j <= half,
                has_room(m0, n as int),
                out == dit_stage(src@, len as int, w_len, q, no_flip()),
                w == twiddle(w_len, j as int, q),
                forall|i: int| 0 <= i < start + j ==> dst@[i] == out[i],
                forall|i: int| start + half <= i < start + half + j ==> dst@[i] == out[i],
                *m == with_butterflies(m0, (start / 2 + j) as int),
            decreases half - j,
        {
            let left = start + j;
            let right = start + j + half;
            proof {
                lemma_block_index(start as int, len as int, j as int);
                lemma_block_index(start as int, len as int, (j + half) as int);
                lemma_twiddle_step(w_len, j as nat, q);
            }
            let u = src[left];
            let v = mul_mod(src[right], w, q);
            dst.set(left, add_mod(u, v, q));
            dst.set(right, sub_mod(u, v, q));
            w = mul_mod(w, w_len, q);

            m.num_mod_adds += 1;
            m.num_mod_subs += 1;
            m.num_mod_muls += 2;
            m.num_twiddle_loads += 1;
            m.num_memory_reads += 2;
            m.num_memory_writes += 2;
            j = j + 1;
        }
        proof {
            assert((start + len) / 2 == start / 2 + half) by {
                lemma_fundamental_div_mod(start as int, len as int);
                assert(start == len * (start / len));
            }
            lemma_mod_add_multiples_vanish(start as int, len as int);
        }
        start = start + len;
    }
    proof {
        assert(dst@ =~= out);
    }
}

/// One fault-free radix-2 stage with twiddle step `root^(n/len)`.
pub fn radix2_stage_in_place(a: &mut Vec<u64>, n: usize, q: u64, root: u64, len: usize, m: &mut NttSystemMetrics)
    requires
        old(a).len() == n,
        q >= 2,
        2 <= len <= n,
        len % 2 == 0,
        n % len == 0,
        has_room(*old(m), n as int),
    ensures
        final(a)@ == dit_stage(old(a)@, len as int, pow_m(root, (n / len) as nat, q), q, no_flip()),
        *final(m) == with_butterflies(*old(m), (n / 2) as int),
{
    let w_len = pow_mod(root, (n / len) as u64, q);
    dit_stage_in_place(a, q, w_len, len, 0, None, m);
    proof {
        lemma_stage_flip_none(q, 0);
    }
}

} // verus!
