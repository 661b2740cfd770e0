//! One transient fault inside one butterfly, under the butterfly check with
//! recomputation: the check fails once, one recomputation repairs it.
use crate::fault::{FaultSite, FaultSpec};
use crate::mitigation::{MitigationAction, MitigationKind, MitigationOptions};
use crate::ntt::bitrev::lemma_bit_reverse_reduced;
use crate::ntt::checksum::{bf_lo, lemma_bf_lo};
use crate::ntt::laws::{
    law_butterfly_check_flags_changed, law_butterfly_recompute_repairs, lemma_odd_cancels_two, lemma_recomputed_after,
    lemma_root_modulus_odd,
};
use crate::ntt::mitigated::{
    butterfly_exact, inconsistent_count, inexact_count, mitigated_after, mitigated_input, mitigated_output, tally_after,
};
use crate::ntt::radix2::radix2_output;
use crate::ntt::shape::lemma_stage_shape;
use crate::ntt::spec::{
    add_m, bit_reverse, dit_hi_out, dit_lo_out, dit_step, flip_value, input_faults, mul_m, no_flip, reduced,
    stage_flip, sub_m, transform_root, twiddle,
};
use crate::params::{is_power_of_two, log2, RingParams};
use vstd::arithmetic::div_mod::*;
use vstd::arithmetic::mul::*;
use vstd::arithmetic::power2::*;
use vstd::bits::*;
use vstd::prelude::*;

verus! {

/// The lower word of the butterfly whose word `slot` lies in a stage over blocks of `len`.
pub open spec fn struck_lo(slot: int, len: int) -> int {
    if slot % len < len / 2 {
        slot
    } else {
        slot - len / 2
    }
}

/// `f` is one transient fault inside one butterfly of a transform of `n` words: it strikes
/// an arithmetic result (one bit, or two adjacent bits; no second fault) in a stage of the
/// transform, at a word that its butterfly writes there (a sum in a lower word, a product
/// or a difference in an upper word, an output or a register write in either).
pub open spec fn one_butterfly_fault(f: FaultSpec, n: nat) -> bool {
    let len = pow2((f.stage + 1) as nat) as int;
    &&& f.site != FaultSite::Input
    &&& !f.second_enabled
    &&& f.stage < log2(n)
    &&& f.slot < n
    &&& f.bit < 64
    &&& f.site == FaultSite::AddOutput ==> (f.slot as int) % len < len / 2
    &&& (f.site == FaultSite::MulOutput || f.site == FaultSite::SubOutput) ==> (f.slot as int) % len >= len / 2
}

/// An odd `q` divides no power of two.
proof fn lemma_odd_divides_no_pow2(q: int, b: nat)
    requires
        q >= 3,
        q % 2 == 1,
    ensures
        (pow2(b) as int) % q != 0,
    decreases b,
{
    if b == 0 {
        lemma2_to64();
        lemma_small_mod(1, q as nat);
    } else {
        lemma_odd_divides_no_pow2(q, (b - 1) as nat);
        lemma_pow2_unfold(b);
        if (pow2(b) as int) % q == 0 {
            lemma_odd_cancels_two(q, pow2((b - 1) as nat) as int);
        }
    }
}

/// An odd `q` above 3 divides no power of two times 3.
proof fn lemma_odd_divides_no_three_pow2(q: int, b: nat)
    requires
        q > 3,
        q % 2 == 1,
    ensures
        (3 * (pow2(b) as int)) % q != 0,
    decreases b,
{
    if b == 0 {
        lemma2_to64();
        lemma_small_mod(3, q as nat);
    } else {
        lemma_odd_divides_no_three_pow2(q, (b - 1) as nat);
        lemma_pow2_unfold(b);
        assert(3 * (pow2(b) as int) == 2 * (3 * (pow2((b - 1) as nat) as int)));
        if (3 * (pow2(b) as int)) % q == 0 {
            lemma_odd_cancels_two(q, 3 * (pow2((b - 1) as nat) as int));
        }
    }
}

/// A flipped word is below `q`.
proof fn lemma_flip_below(v: u64, q: u64, bit: u32, adjacent: bool)
    requires
        q > 0,
    ensures
        flip_value(v, q, bit, adjacent) < q,
{
    let x = if bit < 64 {
        v ^ (1u64 << bit)
    } else {
        v
    };
    let y = if adjacent && bit + 1 < 64 {
        x ^ (1u64 << ((bit + 1) as u32))
    } else {
        x
    };
    lemma_mod_bound(y as int, q as int);
}

/// Modulo an odd `q`, flipping one bit of a word below `q` changes it, and so does
/// flipping two adjacent bits when `q` is above 3.
proof fn lemma_flip_changes(v: u64, q: u64, bit: u32, adjacent: bool)
    requires
        q >= 3,
        q % 2 == 1,
        v < q,
        bit < 64,
        adjacent ==> q > 3,
    ensures
        flip_value(v, q, bit, adjacent) != v,
{
    let d: u64 = 1u64 << bit;
    assert(d == (1u64 << (bit as u64))) by (bit_vector)
        requires
            d == 1u64 << bit,
            bit < 64,
    ;
    lemma_u64_pow2_no_overflow(bit as nat);
    lemma_u64_shl_is_mul(1u64, bit as u64);
    assert(d == pow2(bit as nat));
    let x = v ^ d;
    lemma_odd_divides_no_pow2(q as int, bit as nat);
    lemma_small_mod(v as nat, q as nat);
    if adjacent && bit + 1 < 64 {
        let e: u64 = 1u64 << ((bit + 1) as u32);
        let w = x ^ e;
        assert(w == v + 3 * d || w == v + d || w + d == v || w + 3 * d == v) by (bit_vector)
            requires
                x == v ^ d,
                w == x ^ e,
                d == 1u64 << bit,
                e == 1u64 << ((bit + 1) as u32),
                bit + 1 < 64,
        ;
        lemma_odd_divides_no_three_pow2(q as int, bit as nat);
        if w == v + 3 * d || w == v + d {
            lemma_mod_equivalence(w as int, v as int, q as int);
        } else {
            lemma_small_mod(w as nat, q as nat);
        }
    } else {
        assert(x == v + d || x + d == v) by (bit_vector)
            requires
                x == v ^ d,
                d == 1u64 << bit,
                bit < 64,
        ;
        if x == v + d {
            lemma_mod_equivalence(x as int, v as int, q as int);
        } else {
            lemma_small_mod(x as nat, q as nat);
        }
    }
}

/// The perturbation of a single fault at its own stage.
proof fn lemma_single_flip(f: FaultSpec, q: u64, v: u64, slot: int, site: FaultSite)
    requires
        !f.second_enabled,
    ensures
        stage_flip(q, f.stage as int, Some(f))(v, slot, site) == if f.site == site && f.slot == slot {
            flip_value(v, q, f.bit, f.adjacent)
        } else {
            v
        },
{
}

/// In the stage that `f` strikes, the butterfly whose lower word is `lo` differs from its
/// fault-free outputs exactly when it is the butterfly of the struck word.
proof fn lemma_struck_butterfly(x: Seq<u64>, lo: int, len: int, wl: u64, q: u64, f: FaultSpec)
    requires
        q >= 3,
        q % 2 == 1,
        reduced(x, q),
        2 <= len,
        len % 2 == 0,
        0 <= lo,
        lo % len < len / 2,
        lo + len / 2 < x.len(),
        f.site != FaultSite::Input,
        f.adjacent ==> q > 3,
        !f.second_enabled,
        f.bit < 64,
        f.site == FaultSite::AddOutput ==> (f.slot as int) % len < len / 2,
        (f.site == FaultSite::MulOutput || f.site == FaultSite::SubOutput) ==> (f.slot as int) % len >= len / 2,
    ensures
        butterfly_exact(x, lo, len / 2, wl, q, stage_flip(q, f.stage as int, Some(f))) <==> lo != struck_lo(
            f.slot as int,
            len,
        ),
{
    let half = len / 2;
    let hi = lo + half;
    let flip = stage_flip(q, f.stage as int, Some(f));
    let s = f.slot as int;
    let u = x[lo];
    let p = mul_m(x[hi], twiddle(wl, lo % (2 * half), q), q);
    lemma_mod_bound(x[hi] * twiddle(wl, lo % (2 * half), q), q as int);
    assert(p < q);
    lemma_mod_bound(u + p, q as int);
    let a = add_m(u, p, q);
    let d = sub_m(u, p, q);
    assert(d < q) by {
        if u < p {
            assert(d == q - (p - u));
        }
    }
    // where the word `hi` sits in its block
    assert(hi % len == lo % len + half) by {
        lemma_fundamental_div_mod(lo, len);
        lemma_fundamental_div_mod_converse_mod(hi, len, lo / len, lo % len + half);
    }
    lemma_single_flip(f, q, p, hi, FaultSite::MulOutput);
    if lo != struck_lo(s, len) {
        // no call of the perturbation in this butterfly names the struck word and site
        assert(s != lo || (f.site != FaultSite::AddOutput && f.site != FaultSite::ButterflyOutput && f.site
            != FaultSite::RegisterWrite));
        assert(s != hi || (f.site != FaultSite::MulOutput && f.site != FaultSite::SubOutput && f.site
            != FaultSite::ButterflyOutput && f.site != FaultSite::RegisterWrite));
        assert(flip(p, hi, FaultSite::MulOutput) == p);
        lemma_single_flip(f, q, a, lo, FaultSite::AddOutput);
        lemma_single_flip(f, q, a, lo, FaultSite::ButterflyOutput);
        lemma_single_flip(f, q, a, lo, FaultSite::RegisterWrite);
        lemma_single_flip(f, q, d, hi, FaultSite::SubOutput);
        lemma_single_flip(f, q, d, hi, FaultSite::ButterflyOutput);
        lemma_single_flip(f, q, d, hi, FaultSite::RegisterWrite);
        assert(dit_lo_out(x, lo, half, wl, q, flip) == dit_lo_out(x, lo, half, wl, q, no_flip()));
        assert(dit_hi_out(x, lo, half, wl, q, flip) == dit_hi_out(x, lo, half, wl, q, no_flip()));
    } else {
        if f.site == FaultSite::MulOutput {
            assert(s == hi);
            let v = flip_value(p, q, f.bit, f.adjacent);
            lemma_flip_changes(p, q, f.bit, f.adjacent);
            lemma_flip_below(p, q, f.bit, f.adjacent);
            lemma_single_flip(f, q, add_m(u, v, q), lo, FaultSite::AddOutput);
            lemma_single_flip(f, q, add_m(u, v, q), lo, FaultSite::ButterflyOutput);
            lemma_single_flip(f, q, add_m(u, v, q), lo, FaultSite::RegisterWrite);
            lemma_single_flip(f, q, a, lo, FaultSite::AddOutput);
            lemma_single_flip(f, q, a, lo, FaultSite::ButterflyOutput);
            lemma_single_flip(f, q, a, lo, FaultSite::RegisterWrite);
            assert(dit_lo_out(x, lo, half, wl, q, flip) == add_m(u, v, q));
            assert(dit_lo_out(x, lo, half, wl, q, no_flip()) == a);
            if add_m(u, v, q) == a {
                lemma_mod_equivalence(u + v, u + p, q as int);
                assert(((u + v) - (u + p)) == v - p);
                if v >= p {
                    lemma_small_mod((v - p) as nat, q as nat);
                } else {
                    lemma_mod_add_multiples_vanish(v - p, q as int);
                    lemma_small_mod((q + (v - p)) as nat, q as nat);
                }
            }
        } else if f.site == FaultSite::SubOutput || ((f.site == FaultSite::ButterflyOutput || f.site
            == FaultSite::RegisterWrite) && s == hi) {
            assert(s == hi);
            assert(flip(p, hi, FaultSite::MulOutput) == p);
            lemma_flip_changes(d, q, f.bit, f.adjacent);
            let e = flip_value(d, q, f.bit, f.adjacent);
            lemma_single_flip(f, q, d, hi, FaultSite::SubOutput);
            lemma_single_flip(f, q, d, hi, FaultSite::ButterflyOutput);
            lemma_single_flip(f, q, d, hi, FaultSite::RegisterWrite);
            lemma_single_flip(f, q, e, hi, FaultSite::ButterflyOutput);
            lemma_single_flip(f, q, e, hi, FaultSite::RegisterWrite);
            assert(dit_hi_out(x, lo, half, wl, q, no_flip()) == d);
            assert(dit_hi_out(x, lo, half, wl, q, flip) == e);
        } else {
            assert(s == lo);
            assert(flip(p, hi, FaultSite::MulOutput) == p);
            lemma_flip_changes(a, q, f.bit, f.adjacent);
            let e = flip_value(a, q, f.bit, f.adjacent);
            lemma_single_flip(f, q, a, lo, FaultSite::AddOutput);
            lemma_single_flip(f, q, a, lo, FaultSite::ButterflyOutput);
            lemma_single_flip(f, q, a, lo, FaultSite::RegisterWrite);
            lemma_single_flip(f, q, e, lo, FaultSite::ButterflyOutput);
            lemma_single_flip(f, q, e, lo, FaultSite::RegisterWrite);
            assert(dit_lo_out(x, lo, half, wl, q, no_flip()) == a);
            assert(dit_lo_out(x, lo, half, wl, q, flip) == e);
        }
    }
}

/// The place, in visiting order, of the butterfly whose lower word is `lo`.
pub open spec fn butterfly_index(lo: int, len: int) -> int {
    (lo / len) * (len / 2) + lo % len
}

/// The struck word lies in a butterfly of the stage, which comes before the last one.
proof fn lemma_struck_place(slot: int, len: int, n: int)
    requires
        2 <= len,
        len % 2 == 0,
        n % len == 0,
        0 <= slot < n,
    ensures
        ({
            let lo = struck_lo(slot, len);
            &&& 0 <= lo
            &&& lo % len < len / 2
            &&& lo + len / 2 < n
            &&& bf_lo(butterfly_index(lo, len), len / 2) == lo
            &&& 0 <= butterfly_index(lo, len) < n / 2
        }),
{
    let half = len / 2;
    lemma_fundamental_div_mod(slot, len);
    lemma_fundamental_div_mod(n, len);
    let lo = struck_lo(slot, len);
    if slot % len >= half {
        assert(lo == (slot / len) * len + (slot % len - half)) by (nonlinear_arith)
            requires
                slot == len * (slot / len) + slot % len,
                lo == slot - half,
        ;
        assert(0 <= slot % len - half < len);
        lemma_fundamental_div_mod_converse_mod(lo, len, slot / len, slot % len - half);
    }
    lemma_fundamental_div_mod(lo, len);
    let k = lo / len;
    let j = lo % len;
    lemma_mod_bound(lo, len);
    assert(lo >= 0);
    assert(k >= 0) by {
        lemma_div_pos_is_pos(lo, len);
    }
    assert(lo + half < n) by (nonlinear_arith)
        requires
            lo == len * k + j,
            0 <= j < half,
            len == 2 * half,
            k >= 0,
            lo < n,
            n == len * (n / len),
    ;
    lemma_bf_lo(k, half, j);
    assert(len * k == k * (2 * half)) by (nonlinear_arith)
        requires
            len == 2 * half,
    ;
    assert(0 <= k * half + j < n / 2) by (nonlinear_arith)
        requires
            lo == len * k + j,
            0 <= j < half,
            len == 2 * half,
            k >= 0,
            lo + half < n,
            n == len * (n / len),
    ;
}

/// In the stage that `f` strikes, exactly one butterfly differs from its fault-free
/// outputs: among the first `t` butterflies, one if the struck one is among them.
proof fn lemma_struck_stage_count(x: Seq<u64>, len: int, wl: u64, q: u64, f: FaultSpec, t: int)
    requires
        q >= 3,
        q % 2 == 1,
        reduced(x, q),
        2 <= len,
        len % 2 == 0,
        (x.len() as int) % len == 0,
        f.slot < x.len(),
        f.site != FaultSite::Input,
        f.adjacent ==> q > 3,
        !f.second_enabled,
        f.bit < 64,
        f.site == FaultSite::AddOutput ==> (f.slot as int) % len < len / 2,
        (f.site == FaultSite::MulOutput || f.site == FaultSite::SubOutput) ==> (f.slot as int) % len >= len / 2,
        0 <= t <= x.len() / 2,
    ensures
        inexact_count(x, len, wl, q, stage_flip(q, f.stage as int, Some(f)), t) == if butterfly_index(
            struck_lo(f.slot as int, len),
            len,
        ) < t {
            1nat
        } else {
            0nat
        },
    decreases t,
{
    lemma_struck_place(f.slot as int, len, x.len() as int);
    if t > 0 {
        lemma_struck_stage_count(x, len, wl, q, f, t - 1);
        let half = len / 2;
        let n = x.len() as int;
        let b = t - 1;
        let lo_f = struck_lo(f.slot as int, len);
        let b_f = butterfly_index(lo_f, len);
        lemma_struck_place(f.slot as int, len, n);
        lemma_fundamental_div_mod(b, half);
        lemma_mod_bound(b, half);
        lemma_div_pos_is_pos(b, half);
        let k = b / half;
        let j = b % half;
        assert(len == 2 * half);
        lemma_mul_is_commutative(half, k);
        assert(b == k * half + j);
        lemma_bf_lo(k, half, j);
        let lo = bf_lo(b, half);
        assert(lo == k * (2 * half) + j);
        assert(lo % len == j);
        assert(k * (2 * half) == k * len);
        let m = n / len;
        lemma_fundamental_div_mod(n, len);
        assert(lo + half < n) by (nonlinear_arith)
            requires
                lo == k * (2 * half) + j,
                b == half * k + j,
                0 <= j < half,
                b < n / 2,
                n == len * m + 0,
                len == 2 * half,
                half >= 1,
                k >= 0,
        ;
        lemma_struck_butterfly(x, lo, len, wl, q, f);
        assert(butterfly_exact(x, bf_lo(t - 1, len / 2), len / 2, wl, q, stage_flip(q, f.stage as int, Some(f)))
            <==> lo != lo_f);
        if lo == lo_f {
            // the same lower word has the same place
            assert(lo == k * len + j);
            lemma_fundamental_div_mod_converse(lo, len, k, j);
            assert(b_f == k * half + j);
            assert(b == b_f);
        }
        if b == b_f {
            assert(lo == lo_f);
        }
        let flip = stage_flip(q, f.stage as int, Some(f));
        assert(inexact_count(x, len, wl, q, flip, t) == inexact_count(x, len, wl, q, flip, t - 1) + (if butterfly_exact(
            x,
            lo,
            half,
            wl,
            q,
            flip,
        ) {
            0nat
        } else {
            1nat
        }));
    }
}

/// Over the first `s` stages, the butterfly check with recomputation counts one failure
/// and one recomputation for a fault inside one butterfly, once its stage has run.
proof fn lemma_single_fault_tally(a0: Seq<u64>, q: u64, root: u64, s: nat, f: FaultSpec, opts: MitigationOptions)
    requires
        q >= 3,
        q % 2 == 1,
        is_power_of_two(a0.len()),
        s <= log2(a0.len()),
        reduced(a0, q),
        one_butterfly_fault(f, a0.len()),
        f.adjacent ==> q > 3,
        opts.kind == MitigationKind::ButterflyCheck,
        opts.action == MitigationAction::Recompute,
    ensures
        ({
            let t = tally_after(a0, q, root, s, Some(f), opts);
            let hit = f.stage < s;
            &&& t.failures == (if hit {
                1nat
            } else {
                0nat
            })
            &&& t.recomputations == (if hit {
                1nat
            } else {
                0nat
            })
            &&& t.detected == hit
            &&& t.corrected == hit
        }),
    decreases s,
{
    if s > 0 {
        let t = (s - 1) as nat;
        let fault = Some(f);
        lemma_single_fault_tally(a0, q, root, t, f, opts);
        lemma_recomputed_after(a0, q, root, t, fault, opts);
        let prev = mitigated_after(a0, q, root, t, fault, opts);
        assert(input_faults(prev, q, t as int, fault) == prev);
        let x = mitigated_input(a0, q, root, t, fault, opts);
        assert(x == prev);
        crate::ntt::lengths::lemma_mitigated_after_len(a0, q, root, t, fault, opts);
        lemma_stage_shape(a0.len(), t);
        let len = pow2(s) as int;
        let wl = dit_step(root, a0.len(), t, q);
        let flip = stage_flip(q, t as int, fault);
        let nb = (x.len() / 2) as int;
        if t == f.stage {
            law_butterfly_check_flags_changed(x, len, wl, q, t as int, fault, nb);
            lemma_struck_stage_count(x, len, wl, q, f, nb);
            lemma_struck_place(f.slot as int, len, x.len() as int);
            assert(inconsistent_count(x, len, wl, q, flip, nb) == 1);
        } else {
            assert(flip =~= no_flip());
            crate::ntt::laws::lemma_consistent_count_zero(x, len, wl, q, nb);
            assert(inconsistent_count(x, len, wl, q, flip, nb) == 0);
        }
    }
}

/// Law: under the butterfly check with recomputation, one transient fault inside one
/// butterfly of a transform of reduced words (one bit, or two adjacent bits for a modulus
/// above 3) fails the check once and is repaired by one recomputation, and the transform
/// returns exactly its fault-free output.
pub proof fn law_one_transient_fault_repaired_once(
    input: Seq<u64>,
    params: RingParams,
    inverse: bool,
    f: FaultSpec,
    opts: MitigationOptions,
)
    requires
        params.has_roots(),
        input.len() == params.n,
        reduced(input, params.modulus),
        one_butterfly_fault(f, params.n as nat),
        f.adjacent ==> params.modulus > 3,
        opts.kind == MitigationKind::ButterflyCheck,
        opts.action == MitigationAction::Recompute,
    ensures
        mitigated_output(input, params, inverse, Some(f), opts) == radix2_output(input, params, inverse, None),
        ({
            let t = tally_after(
                bit_reverse(input),
                params.modulus,
                transform_root(params, inverse),
                log2(params.n as nat),
                Some(f),
                opts,
            );
            &&& t.failures == 1
            &&& t.recomputations == 1
            &&& t.detected
            &&& t.corrected
        }),
{
    let q = params.modulus;
    law_butterfly_recompute_repairs(input, params, inverse, Some(f), opts);
    lemma_root_modulus_odd(params);
    lemma_bit_reverse_reduced(input, q);
    assert(bit_reverse(input).len() == input.len());
    lemma_single_fault_tally(bit_reverse(input), q, transform_root(params, inverse), log2(params.n as nat), f, opts);
}

} // verus!
