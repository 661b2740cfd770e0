//! The radix-2 transform under the primary fault alone, recording a check result for
//! every butterfly.
use crate::error::NttError;
use crate::fault::{FaultSite, FaultSpec};
use crate::mitigation::{record_butterfly_check_result, MitigationMetrics};
use crate::modarith::{add_mod, inv_mod, mul_mod, pow_mod, sub_mod};
use crate::ntt::bitrev::bit_reverse_copy;
use crate::ntt::checksum::{bf_lo, lemma_bf_lo};
use crate::ntt::faults::{apply_arithmetic_fault_runtime, flip_fault_bit_runtime, primary_site_flip, single_flip};
use crate::ntt::mitigated::{
    counters_advanced, inexact_count, settings_kept, tally_room, tally_within, zero_tally, MitigationTally,
    butterfly_exact,
};
use crate::ntt::radix2::{copy_words, lemma_run_room, lemma_stage_room, transform_size_ok};
use crate::ntt::shape::{
    lemma_log2_small, lemma_overlay_full, lemma_upper_half, lemma_overlay_same, lemma_overlay_start, lemma_overlay_step,
    lemma_stage_exit, lemma_stage_shape, overlay,
};
use crate::ntt::spec::{
    stage_traces_match, transform_root, StageHits, bit_reverse, dit_after, dit_hi_out, dit_lo_out, dit_product, dit_stage, dit_step, fault_value, finish, mul_m,
    no_flip, no_injection, scale, twiddle, SiteFlip, StageFlips,
};
use crate::ntt::stage::{lemma_block_fits, lemma_block_index, lemma_twiddle_step};
use crate::ntt::{transform_cost, NttImplementation, NttSystemMetrics, StageTrace, WORD_BYTES};
use crate::params::{log2, RingParams};
use vstd::arithmetic::div_mod::*;
use vstd::arithmetic::mul::*;
use vstd::arithmetic::power::*;
use vstd::arithmetic::power2::*;
use vstd::bits::*;
use vstd::prelude::*;

verus! {

/// The primary fault of `fault` at `stage`, as a perturbation of arithmetic results.
pub open spec fn primary_stage_flip(q: u64, stage: int, fault: Option<FaultSpec>) -> SiteFlip {
    |v: u64, slot: int, site: FaultSite| primary_site_flip(v, q, stage, slot, fault, site)
}

/// The primary fault, stage by stage.
pub open spec fn primary_flips(q: u64, fault: Option<FaultSpec>) -> StageFlips {
    |s: nat| primary_stage_flip(q, s as int, fault)
}

/// The bit-reversed words with a primary input-site fault applied once, before any stage.
pub open spec fn pre_flipped(a: Seq<u64>, q: u64, fault: Option<FaultSpec>) -> Seq<u64> {
    match fault {
        Some(f) => if f.site == FaultSite::Input {
            a.update(f.slot as int, single_flip(a[f.slot as int], q, f.bit))
        } else {
            a
        },
        None => a,
    }
}

/// What the recorded radix-2 transform returns.
pub open spec fn recorded_result(
    input: Seq<u64>,
    params: RingParams,
    inverse: bool,
    fault: Option<FaultSpec>,
) -> Result<Seq<u64>, NttError> {
    let n = params.n;
    let q = params.modulus;
    if input.len() != n {
        Err(NttError::LengthMismatch { expected: n, got: input.len() as usize })
    } else if fault matches Some(f) && f.site == FaultSite::Input && f.slot >= n {
        Err(NttError::FaultSlotOutOfRange { slot: fault->0.slot, len: n })
    } else {
        let root = if inverse {
            crate::ntt::spec::pow_m(params.primitive_n_root, (q - 2) as nat, q)
        } else {
            params.primitive_n_root
        };
        let a = dit_after(
            pre_flipped(bit_reverse(input), q, fault),
            q,
            root,
            log2(n as nat),
            no_injection(),
            primary_flips(q, fault),
        );
        Ok(
            if inverse {
                scale(a, crate::ntt::spec::inverse_scale(params), q)
            } else {
                a
            },
        )
    }
}

/// Some fault hook of the butterfly whose lower word is `lo` changed its value.
pub open spec fn butterfly_flipped(x: Seq<u64>, lo: int, half: int, wl: u64, q: u64, flip: SiteFlip) -> bool {
    let hi = lo + half;
    let p = mul_m(x[hi], twiddle(wl, lo % (2 * half), q), q);
    let v = flip(p, hi, FaultSite::MulOutput);
    let a0 = crate::ntt::spec::add_m(x[lo], v, q);
    let a1 = flip(a0, lo, FaultSite::AddOutput);
    let s0 = crate::ntt::spec::sub_m(x[lo], v, q);
    let s1 = flip(s0, hi, FaultSite::SubOutput);
    let a2 = flip(a1, lo, FaultSite::ButterflyOutput);
    let s2 = flip(s1, hi, FaultSite::ButterflyOutput);
    let a3 = flip(a2, lo, FaultSite::RegisterWrite);
    let s3 = flip(s2, hi, FaultSite::RegisterWrite);
    v != p || a1 != a0 || s1 != s0 || a2 != a1 || s2 != s1 || a3 != a2 || s3 != s2
}

/// How many of the first `t` butterflies had a value changed by a fault hook.
pub open spec fn flipped_count(x: Seq<u64>, len: int, wl: u64, q: u64, flip: SiteFlip, t: int) -> nat
    decreases t,
{
    if t <= 0 {
        0
    } else {
        flipped_count(x, len, wl, q, flip, t - 1) + if butterfly_flipped(x, bf_lo(t - 1, len / 2), len / 2, wl, q, flip) {
            1nat
        } else {
            0nat
        }
    }
}

/// `m` after `k` recorded butterflies: two adds, subs and muls, one twiddle load, two
/// reads and two writes each.
pub open spec fn with_recorded_butterflies(m: NttSystemMetrics, k: int) -> NttSystemMetrics {
    NttSystemMetrics {
        num_mod_adds: (m.num_mod_adds + 2 * k) as u64,
        num_mod_subs: (m.num_mod_subs + 2 * k) as u64,
        num_mod_muls: (m.num_mod_muls + 2 * k) as u64,
        num_twiddle_loads: (m.num_twiddle_loads + k) as u64,
        num_memory_reads: (m.num_memory_reads + 2 * k) as u64,
        num_memory_writes: (m.num_memory_writes + 2 * k) as u64,
        ..m
    }
}

/// The counts of the check records of the first `t` butterflies of a stage.
pub open spec fn record_tally(x: Seq<u64>, len: int, wl: u64, q: u64, flip: SiteFlip, t: int) -> MitigationTally {
    let f = inexact_count(x, len, wl, q, flip, t);
    MitigationTally { checks: t as nat, failures: f, detected: f > 0, ..zero_tally() }
}

proof fn lemma_recorded_counts_le(x: Seq<u64>, len: int, wl: u64, q: u64, flip: SiteFlip, t: int)
    ensures
        inexact_count(x, len, wl, q, flip, t) <= if t < 0 {
            0
        } else {
            t
        },
        flipped_count(x, len, wl, q, flip, t) <= if t < 0 {
            0
        } else {
            t
        },
    decreases t,
{
    if t > 0 {
        lemma_recorded_counts_le(x, len, wl, q, flip, t - 1);
    }
}

/// A value below `q` stays below `q` under the primary fault.
proof fn lemma_primary_bound(v: u64, q: u64, stage: int, slot: int, fault: Option<FaultSpec>, site: FaultSite)
    requires
        q > 0,
        v < q,
    ensures
        primary_site_flip(v, q, stage, slot, fault, site) < q,
{
    if let Some(f) = fault {
        if f.bit < 64 {
            lemma_mod_bound((v ^ (1u64 << f.bit)) as int, q as int);
        }
    }
}

/// One radix-2 stage under the primary fault at `stage`, recording a check for every
/// butterfly; reports whether a fault hook changed a value.
#[verifier::rlimit(100)]
fn recorded_stage_in_place(
    a: &mut Vec<u64>,
    q: u64,
    w_len: u64,
    len: usize,
    stage: usize,
    fault: Option<&FaultSpec>,
    m: &mut NttSystemMetrics,
    mm: &mut MitigationMetrics,
) -> (r: bool)
    requires
        q >= 2,
        2 <= len <= old(a).len(),
        len % 2 == 0,
        old(a).len() % len == 0,
        crate::ntt::has_room(*old(m), 2 * old(a).len()),
        tally_room(*old(mm), old(a).len() as int),
    ensures
        ({
            let x = old(a)@;
            let flip = primary_stage_flip(q, stage as int, fault_value(fault));
            let nb = (x.len() / 2) as int;
            &&& final(a)@ == dit_stage(x, len as int, w_len, q, flip)
            &&& *final(m) == with_recorded_butterflies(*old(m), nb)
            &&& counters_advanced(*final(mm), *old(mm), record_tally(x, len as int, w_len, q, flip, nb))
            &&& r == (flipped_count(x, len as int, w_len, q, flip, nb) > 0)
        }),
        settings_kept(*final(mm), *old(mm)),
{
    let n = a.len();
    let half = len / 2;
    let ghost x = a@;
    let ghost li = len as int;
    let ghost fv = fault_value(fault);
    let ghost flip = primary_stage_flip(q, stage as int, fv);
    let ghost target = dit_stage(x, li, w_len, q, flip);
    let ghost m0 = *m;
    let ghost mm0 = *mm;
    let mut stage_faulted = false;
    let ghost mut t: int = 0;
    proof {
        lemma_overlay_start(x, target, li);
    }

    let mut start: usize = 0;
    while start < n
        invariant
            n == a.len(),
            x.len() == n,
            li == len,
            half == len / 2,
            q >= 2,
            2 <= len <= n,
            len % 2 == 0,
            n % len == 0,
            fv == fault_value(fault),
            flip == primary_stage_flip(q, stage as int, fv),
            target == dit_stage(x, li, w_len, q, flip),
            crate::ntt::has_room(m0, 2 * n),
            tally_room(mm0, n as int),
            start % len == 0,
            start <= n,
            2 * t == start,
            a@ == overlay(x, target, li, start as int),
            *m == with_recorded_butterflies(m0, t),
            counters_advanced(*mm, mm0, record_tally(x, li, w_len, q, flip, t)),
            settings_kept(*mm, mm0),
            stage_faulted == (flipped_count(x, li, w_len, q, flip, t) > 0),
        decreases n - start,
    {
        proof {
            lemma_block_fits(start as int, li, n as int);
            lemma_fundamental_div_mod(start as int, li);
            lemma_mul_is_commutative(li, (start / len) as int);
        }
        let ghost k = (start / len) as int;
        assert(k * (2 * (half as int)) == start);
        assert(k * (half as int) == t) by {
            assert(k * (2 * (half as int)) == 2 * (k * (half as int))) by (nonlinear_arith);
        }
        let mut w: u64 = 1;
        let mut j: usize = 0;
        proof {
            lemma_pow0(w_len as int);
        }
        while j < half
            invariant
                n == a.len(),
                x.len() == n,
                li == len,
                half == len / 2,
                q >= 2,
                2 <= len <= n,
                len % 2 == 0,
                n % len == 0,
                fv == fault_value(fault),
                flip == primary_stage_flip(q, stage as int, fv),
                target == dit_stage(x, li, w_len, q, flip),
                crate::ntt::has_room(m0, 2 * n),
                tally_room(mm0, n as int),
                start % len == 0,
                start + len <= n,
                k >= 0,
                k * (2 * (half as int)) == start,
                k * (half as int) + j == t,
                j <= half,
                w == twiddle(w_len, j as int, q),
                a@ == overlay(x, target, li, start + j),
                *m == with_recorded_butterflies(m0, t),
                counters_advanced(*mm, mm0, record_tally(x, li, w_len, q, flip, t)),
                settings_kept(*mm, mm0),
                stage_faulted == (flipped_count(x, li, w_len, q, flip, t) > 0),
            decreases half - j,
        {
            let i0 = start + j;
            let i1 = start + j + half;
            proof {
                lemma_block_index(start as int, li, j as int);
                lemma_block_index(start as int, li, (j + half) as int);
                lemma_twiddle_step(w_len, j as nat, q);
                lemma_bf_lo(k, half as int, j as int);
                lemma_overlay_step(x, target, li, i0 as int);
                lemma_recorded_counts_le(x, li, w_len, q, flip, t);
                assert(2 * t + 2 <= n) by {
                    assert(2 * (k * (half as int)) == start) by {
                        assert(k * (2 * (half as int)) == 2 * (k * (half as int))) by (nonlinear_arith);
                    }
                }
            }
            let u = a[i0];
            assert(u == x[i0 as int] && a[i1 as int] == x[i1 as int]);

            let v_clean = mul_mod(a[i1], w, q);
            let (v, f_mul) = apply_arithmetic_fault_runtime(v_clean, q, stage, i1, fault, FaultSite::MulOutput);
            proof {
                lemma_mod_bound(x[i1 as int] * w, q as int);
                lemma_primary_bound(v_clean, q, stage as int, i1 as int, fv, FaultSite::MulOutput);
            }
            assert(v == dit_product(x, i0 as int, half as int, w_len, q, flip));
            stage_faulted = stage_faulted || f_mul;

            let expected_y0 = add_mod(u, v_clean, q);
            let expected_y1 = sub_mod(u, v_clean, q);

            let y0_clean = add_mod(u, v, q);
            let (mut y0, f_add) = apply_arithmetic_fault_runtime(y0_clean, q, stage, i0, fault, FaultSite::AddOutput);
            stage_faulted = stage_faulted || f_add;

            let y1_clean = sub_mod(u, v, q);
            let (mut y1, f_sub) = apply_arithmetic_fault_runtime(y1_clean, q, stage, i1, fault, FaultSite::SubOutput);
            stage_faulted = stage_faulted || f_sub;

            let (ny0, f_b0) = apply_arithmetic_fault_runtime(y0, q, stage, i0, fault, FaultSite::ButterflyOutput);
            y0 = ny0;
            let (ny1, f_b1) = apply_arithmetic_fault_runtime(y1, q, stage, i1, fault, FaultSite::ButterflyOutput);
            y1 = ny1;
            stage_faulted = stage_faulted || (f_b0 || f_b1);

            let (ny0, f_w0) = apply_arithmetic_fault_runtime(y0, q, stage, i0, fault, FaultSite::RegisterWrite);
            y0 = ny0;
            let (ny1, f_w1) = apply_arithmetic_fault_runtime(y1, q, stage, i1, fault, FaultSite::RegisterWrite);
            y1 = ny1;
            stage_faulted = stage_faulted || (f_w0 || f_w1);

            assert(y0 == dit_lo_out(x, i0 as int, half as int, w_len, q, flip));
            assert(y1 == dit_hi_out(x, i0 as int, half as int, w_len, q, flip));
            assert(expected_y0 == dit_lo_out(x, i0 as int, half as int, w_len, q, no_flip()));
            assert(expected_y1 == dit_hi_out(x, i0 as int, half as int, w_len, q, no_flip()));

            record_butterfly_check_result(mm, expected_y0, expected_y1, y0, y1);

            a.set(i0, y0);
            a.set(i1, y1);

            m.num_mod_muls += 2;
            m.num_mod_adds += 2;
            m.num_mod_subs += 2;
            m.num_twiddle_loads += 1;
            m.num_memory_reads += 2;
            m.num_memory_writes += 2;

            w = mul_mod(w, w_len, q);
            proof {
                t = t + 1;
            }
            j = j + 1;
        }
        proof {
            lemma_upper_half(start as int, li);
            lemma_overlay_same(x, target, li, (start + half) as int, (start + len) as int);
            lemma_mod_add_multiples_vanish(start as int, li);
        }
        start = start + len;
    }
    proof {
        lemma_overlay_full(x, target, li);
        assert(t == n / 2);
    }
    stage_faulted
}

/// The stages that the recorded transform marks as faulted: a fault hook changed a value,
/// or the stage is the one a primary input fault names.
pub open spec fn recorded_hits(a0: Seq<u64>, q: u64, root: u64, fault: Option<FaultSpec>) -> StageHits {
    |s: nat|
        flipped_count(
            dit_after(a0, q, root, s, no_injection(), primary_flips(q, fault)),
            pow2(s + 1) as int,
            dit_step(root, a0.len(), s, q),
            q,
            primary_stage_flip(q, s as int, fault),
            (a0.len() / 2) as int,
        ) > 0 || (fault matches Some(f) && f.site == FaultSite::Input && f.stage == s)
}

/// The check records of the first `s` stages.
pub open spec fn recorded_tally_after(a0: Seq<u64>, q: u64, root: u64, s: nat, fault: Option<FaultSpec>) -> MitigationTally
    decreases s,
{
    if s == 0 {
        zero_tally()
    } else {
        let t = (s - 1) as nat;
        crate::ntt::mitigated::add_tally(
            recorded_tally_after(a0, q, root, t, fault),
            record_tally(
                dit_after(a0, q, root, t, no_injection(), primary_flips(q, fault)),
                pow2(s) as int,
                dit_step(root, a0.len(), t, q),
                q,
                primary_stage_flip(q, t as int, fault),
                (a0.len() / 2) as int,
            ),
        )
    }
}

/// The footprint of the recorded transform: input, output and scratch bytes grow by `n`
/// words each.
pub open spec fn recorded_layout(m: NttSystemMetrics, n: nat) -> NttSystemMetrics {
    NttSystemMetrics {
        input_bytes: (m.input_bytes + n * 8) as usize,
        output_bytes: (m.output_bytes + n * 8) as usize,
        scratch_bytes: (m.scratch_bytes + n * 8) as usize,
        ..m
    }
}

/// The counters after `s` recorded stages.
pub open spec fn recorded_stages(m: NttSystemMetrics, n: nat, s: nat) -> NttSystemMetrics {
    let k = s * (n / 2);
    NttSystemMetrics {
        num_mod_adds: (m.num_mod_adds + 2 * k) as u64,
        num_mod_subs: (m.num_mod_subs + 2 * k) as u64,
        num_mod_muls: (m.num_mod_muls + 2 * k) as u64,
        num_twiddle_loads: (m.num_twiddle_loads + k) as u64,
        num_memory_reads: (m.num_memory_reads + 2 * k) as u64,
        num_memory_writes: (m.num_memory_writes + 2 * k) as u64,
        num_stage_barriers: (m.num_stage_barriers + s) as u64,
        ..m
    }
}

/// The counters after a successful recorded run.
pub open spec fn recorded_counts(m: NttSystemMetrics, n: nat, inverse: bool) -> NttSystemMetrics {
    let m2 = recorded_stages(recorded_layout(m, n), n, log2(n));
    if inverse {
        NttSystemMetrics { num_mod_muls: (m2.num_mod_muls + n) as u64, ..m2 }
    } else {
        m2
    }
}

/// Room for the footprint of `n` more words on each byte counter.
pub open spec fn bytes_room(m: NttSystemMetrics, n: nat) -> bool {
    &&& m.input_bytes + n * 8 <= usize::MAX
    &&& m.output_bytes + n * 8 <= usize::MAX
    &&& m.scratch_bytes + n * 8 <= usize::MAX
}

/// Room for one more recorded stage, and the counters after it.
proof fn lemma_recorded_step(m1: NttSystemMetrics, n: nat, l: nat, s: nat)
    requires
        crate::ntt::has_room(m1, (l * (n + 2) + n + 8) as int),
        s < l,
    ensures
        crate::ntt::has_room(recorded_stages(m1, n, s), (2 * n) as int),
        ({
            let mid = with_recorded_butterflies(recorded_stages(m1, n, s), (n / 2) as int);
            NttSystemMetrics { num_stage_barriers: (mid.num_stage_barriers + 1) as u64, ..mid }
        }) == recorded_stages(m1, n, s + 1),
{
    assert(s * (n / 2) + n / 2 <= l * (n / 2)) by (nonlinear_arith)
        requires
            s < l,
    ;
    assert(l * (n / 2) <= l * n) by (nonlinear_arith);
    assert(2 * (s * (n / 2)) + 2 * n <= l * (n + 2) + n + 8) by (nonlinear_arith)
        requires
            s * (n / 2) + n / 2 <= l * (n / 2),
            l * (n / 2) <= l * n,
            2 * (n / 2) + 1 >= n,
    ;
    assert(s + 2 * n <= l * (n + 2) + n + 8) by (nonlinear_arith)
        requires
            s < l,
    ;
    assert((s + 1) * (n / 2) == s * (n / 2) + n / 2) by (nonlinear_arith);
}

#[verifier::rlimit(100)]
fn recorded_transform_counted(
    input: &[u64],
    params: &RingParams,
    inverse: bool,
    trace_enabled: bool,
    fault: Option<&FaultSpec>,
    m: &mut NttSystemMetrics,
    mm: &mut MitigationMetrics,
) -> (r: Result<(Vec<u64>, Vec<StageTrace>), NttError>)
    requires
        params.wf(),
        transform_size_ok(params.n as nat, NttImplementation::Radix2),
        crate::ntt::has_room(*old(m), transform_cost(params.n as nat, NttImplementation::Radix2)),
        bytes_room(*old(m), params.n as nat),
        tally_room(*old(mm), log2(params.n as nat) * params.n),
    ensures
        match r {
            Ok(out) => recorded_result(input@, *params, inverse, fault_value(fault)) == Ok::<Seq<u64>, NttError>(out.0@),
            Err(e) => recorded_result(input@, *params, inverse, fault_value(fault)) == Err::<Seq<u64>, NttError>(e),
        },
        r matches Ok(out) ==> stage_traces_match(
            out.1@,
            trace_enabled,
            pre_flipped(bit_reverse(input@), params.modulus, fault_value(fault)),
            params.modulus,
            transform_root(*params, inverse),
            log2(params.n as nat),
            no_injection(),
            primary_flips(params.modulus, fault_value(fault)),
            recorded_hits(
                pre_flipped(bit_reverse(input@), params.modulus, fault_value(fault)),
                params.modulus,
                transform_root(*params, inverse),
                fault_value(fault),
            ),
        ),
        r is Ok ==> *final(m) == recorded_counts(*old(m), params.n as nat, inverse),
        r is Ok ==> counters_advanced(
            *final(mm),
            *old(mm),
            recorded_tally_after(
                pre_flipped(bit_reverse(input@), params.modulus, fault_value(fault)),
                params.modulus,
                transform_root(*params, inverse),
                log2(params.n as nat),
                fault_value(fault),
            ),
        ),
        r matches Err(e) && e is LengthMismatch ==> *final(m) == *old(m),
        r matches Err(e) && e is FaultSlotOutOfRange ==> *final(m) == recorded_layout(*old(m), params.n as nat),
        r is Err ==> *final(mm) == *old(mm),
        settings_kept(*final(mm), *old(mm)),
{
    let n = params.n;
    let q = params.modulus;
    if input.len() != n {
        return Err(NttError::LengthMismatch { expected: n, got: input.len() });
    }
    let ghost l = log2(n as nat);
    let ghost fv = fault_value(fault);
    let ghost mm0 = *mm;
    proof {
        lemma_log2_small(n as nat);
        lemma_run_room(l, n as nat);
    }

    let mut a = bit_reverse_copy(input);
    let mut traces: Vec<StageTrace> = Vec::new();

    m.input_bytes += n * WORD_BYTES;
    m.output_bytes += n * WORD_BYTES;
    m.scratch_bytes += n * WORD_BYTES;
    let ghost m1 = *m;

    if let Some(f) = fault {
        if f.site == FaultSite::Input {
            if f.slot >= a.len() {
                return Err(NttError::FaultSlotOutOfRange { slot: f.slot, len: a.len() });
            }
            let flipped = flip_fault_bit_runtime(a[f.slot], q, f.bit);
            a.set(f.slot, flipped);
        }
    }
    let ghost a0 = a@;
    assert(a0 == pre_flipped(bit_reverse(input@), q, fv));

    let root = if inverse {
        inv_mod(params.primitive_n_root, q)
    } else {
        params.primitive_n_root
    };
    let ghost hits = recorded_hits(a0, q, root, fv);

    let mut len: usize = 2;
    let mut stage: usize = 0;
    proof {
        lemma2_to64();
    }

    while len <= n
        invariant
            params.wf(),
            n == params.n,
            q == params.modulus,
            q >= 2,
            l == log2(n as nat),
            l < 64,
            transform_size_ok(n as nat, NttImplementation::Radix2),
            fv == fault_value(fault),
            root == transform_root(*params, inverse),
            a0.len() == n,
            hits == recorded_hits(a0, q, root, fv),
            stage <= l,
            len == pow2((stage + 1) as nat),
            a@ == dit_after(a0, q, root, stage as nat, no_injection(), primary_flips(q, fv)),
            a@.len() == n,
            stage_traces_match(traces@, trace_enabled, a0, q, root, stage as nat, no_injection(), primary_flips(q, fv), hits),
            crate::ntt::has_room(m1, (l * (n + 2) + n + 8) as int),
            *m == recorded_stages(m1, n as nat, stage as nat),
            tally_room(mm0, l * n),
            counters_advanced(*mm, mm0, recorded_tally_after(a0, q, root, stage as nat, fv)),
            tally_within(recorded_tally_after(a0, q, root, stage as nat, fv), stage * n),
            settings_kept(*mm, mm0),
        decreases l - stage,
    {
        proof {
            if stage == l {
                lemma_stage_exit(n as nat);
            }
            assert(stage < l);
            lemma_stage_shape(n as nat, stage as nat);
            lemma_recorded_step(m1, n as nat, l, stage as nat);
            assert(stage * n + n <= l * n) by (nonlinear_arith)
                requires
                    stage < l,
            ;
        }
        let before = copy_words(&a);
        let w_len = pow_mod(root, (n / len) as u64, q);
        assert(w_len == dit_step(root, n as nat, stage as nat, q));
        let ghost x = a@;
        let stage_faulted = recorded_stage_in_place(&mut a, q, w_len, len, stage, fault, m, mm);
        proof {
            lemma_recorded_counts_le(x, len as int, w_len, q, primary_stage_flip(q, stage as int, fv), (n / 2) as int);
            assert(primary_flips(q, fv)(stage as nat) == primary_stage_flip(q, stage as int, fv));
            assert(a@ == dit_after(a0, q, root, (stage + 1) as nat, no_injection(), primary_flips(q, fv)));
        }

        m.num_stage_barriers += 1;
        proof {
            assert((stage + 1) * n == stage * n + n) by (nonlinear_arith);
        }

        let input_hit = match fault {
            Some(f) => f.site == FaultSite::Input && f.stage == stage,
            None => false,
        };
        let faulted = stage_faulted || input_hit;
        assert(faulted == hits(stage as nat));

        if trace_enabled {
            let output = copy_words(&a);
            traces.push(StageTrace { stage, input: before, output, faulted });
        }
        proof {
            assert forall|s: int| 0 <= s < traces@.len() implies {
                &&& (#[trigger] traces@[s]).stage == s
                &&& traces@[s].input@ == no_injection()(
                    dit_after(a0, q, root, s as nat, no_injection(), primary_flips(q, fv)),
                    s as nat,
                )
                &&& traces@[s].output@ == dit_after(a0, q, root, (s + 1) as nat, no_injection(), primary_flips(q, fv))
                &&& traces@[s].faulted == hits(s as nat)
            } by {}
        }

        proof {
            lemma2_to64();
            lemma_usize_shl_is_mul(len, 1);
            lemma_pow2_unfold((stage + 2) as nat);
        }
        stage += 1;
        len <<= 1;
    }
    proof {
        if stage < l {
            lemma_stage_shape(n as nat, stage as nat);
        }
        assert(stage == l);
        assert(l * (n / 2) <= l * n) by (nonlinear_arith);
        assert(2 * (l * (n / 2)) + n <= l * (n + 2) + n + 8) by (nonlinear_arith)
            requires
                2 * (n / 2) <= n,
        ;
    }

    if inverse {
        let n_inv = inv_mod(n as u64, q);
        let ghost a_end = a@;
        let ghost m_end = *m;
        let mut i: usize = 0;
        while i < n
            invariant
                n == a.len(),
                a_end.len() == n,
                q >= 2,
                i <= n,
                m_end.num_mod_muls + n <= u64::MAX,
                forall|k: int| 0 <= k < i ==> a@[k] == mul_m(a_end[k], n_inv, q),
                forall|k: int| i <= k < n ==> a@[k] == a_end[k],
                *m == (NttSystemMetrics { num_mod_muls: (m_end.num_mod_muls + i) as u64, ..m_end }),
            decreases n - i,
        {
            let x = mul_mod(a[i], n_inv, q);
            a.set(i, x);
            m.num_mod_muls += 1;
            i = i + 1;
        }
        assert(a@ =~= scale(a_end, n_inv, q));
    }

    Ok((a, traces))
}

/// The radix-2 transform under the primary fault alone, recording a check result for
/// every butterfly when mitigation counters are given.
pub fn radix2_transform_with_fault_and_mitigation(
    input: &[u64],
    params: &RingParams,
    inverse: bool,
    trace_enabled: bool,
    fault: Option<&FaultSpec>,
    ntt_metrics: Option<&mut NttSystemMetrics>,
    mitigation_metrics: Option<&mut MitigationMetrics>,
) -> (r: Result<(Vec<u64>, Vec<StageTrace>), NttError>)
    requires
        input@.len() == params.n ==> {
            &&& params.wf()
            &&& transform_size_ok(params.n as nat, NttImplementation::Radix2)
            &&& ntt_metrics matches Some(m) ==> crate::ntt::has_room(
                *m,
                transform_cost(params.n as nat, NttImplementation::Radix2),
            ) && bytes_room(*m, params.n as nat)
            &&& mitigation_metrics matches Some(mm) ==> tally_room(*mm, log2(params.n as nat) * params.n)
        },
    ensures
        match r {
            Ok(out) => recorded_result(input@, *params, inverse, fault_value(fault)) == Ok::<Seq<u64>, NttError>(out.0@),
            Err(e) => recorded_result(input@, *params, inverse, fault_value(fault)) == Err::<Seq<u64>, NttError>(e),
        },
        r matches Ok(out) ==> stage_traces_match(
            out.1@,
            trace_enabled,
            pre_flipped(bit_reverse(input@), params.modulus, fault_value(fault)),
            params.modulus,
            transform_root(*params, inverse),
            log2(params.n as nat),
            no_injection(),
            primary_flips(params.modulus, fault_value(fault)),
            recorded_hits(
                pre_flipped(bit_reverse(input@), params.modulus, fault_value(fault)),
                params.modulus,
                transform_root(*params, inverse),
                fault_value(fault),
            ),
        ),
        ntt_metrics matches Some(m) ==> {
            &&& (r is Ok ==> *final(m) == recorded_counts(*m, params.n as nat, inverse))
            &&& (r matches Err(e) && e is LengthMismatch ==> *final(m) == *m)
            &&& (r matches Err(e) && e is FaultSlotOutOfRange ==> *final(m) == recorded_layout(*m, params.n as nat))
        },
        mitigation_metrics matches Some(mm) ==> {
            &&& (r is Ok ==> counters_advanced(
                *final(mm),
                *mm,
                recorded_tally_after(
                    pre_flipped(bit_reverse(input@), params.modulus, fault_value(fault)),
                    params.modulus,
                    transform_root(*params, inverse),
                    log2(params.n as nat),
                    fault_value(fault),
                ),
            ))
            &&& (r is Err ==> *final(mm) == *mm)
            &&& settings_kept(*final(mm), *mm)
        },
{
    if input.len() != params.n {
        return Err(NttError::LengthMismatch { expected: params.n, got: input.len() });
    }
    proof {
        let l = log2(params.n as nat);
        assert(l * params.n <= 8 * params.n * (l + 2) + 16) by (nonlinear_arith);
    }
    match ntt_metrics {
        Some(m) => match mitigation_metrics {
            Some(mm) => recorded_transform_counted(input, params, inverse, trace_enabled, fault, m, mm),
            None => {
                let mut checks = MitigationMetrics::default();
                recorded_transform_counted(input, params, inverse, trace_enabled, fault, m, &mut checks)
            },
        },
        None => {
            let mut scratch = NttSystemMetrics::default();
            match mitigation_metrics {
                Some(mm) => recorded_transform_counted(input, params, inverse, trace_enabled, fault, &mut scratch, mm),
                None => {
                    let mut checks = MitigationMetrics::default();
                    recorded_transform_counted(
                        input,
                        params,
                        inverse,
                        trace_enabled,
                        fault,
                        &mut scratch,
                        &mut checks,
                    )
                },
            }
        },
    }
}

} // verus!
