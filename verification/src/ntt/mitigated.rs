//! The radix-2 backend with software fault mitigation: a sum/difference check on
//! every butterfly, or two checksums on every stage, with optional recomputation.
use crate::fault::{FaultSite, FaultSpec};
use crate::mitigation::{ChecksumMode, MitigationAction, MitigationKind, MitigationMetrics, MitigationOptions};
use crate::modarith::{add_mod, mul_mod, sub_mod};
use crate::ntt::checksum::{
    bf_lo, clean_product, doubled_terms, fold_mod, index_term, index_terms, lemma_bf_lo, lemma_clean_stage_checksums,
    stage_index_ok, stage_sum_ok, weighted_terms, word_terms,
};
use crate::ntt::faults::inject_arithmetic_site_value;
use crate::ntt::radix2::copy_words;
use crate::ntt::shape::{butterfly_lo, lemma_lo_facts, lemma_overlay_full, lemma_upper_half, lemma_overlay_start, lemma_overlay_step, overlay};
use crate::ntt::spec::{
    add_m, dit_hi_out, dit_lo_out, dit_product, dit_stage, fault_fits, fault_value, mul_m, no_flip, reduced,
    site_flip, stage_flip, sub_m, twiddle, SiteFlip,
};
use crate::ntt::stage::{dit_stage_out_of_place, lemma_block_fits, lemma_block_index, lemma_site_flip_bound, lemma_twiddle_step};
use crate::ntt::{has_room, saturating_sum, with_butterflies, zero_metrics, NttSystemMetrics, StageTrace};
use crate::mitigation::{action_label, checksum_mode_label, kind_label};
use crate::ntt::spec::{bit_reverse, dit_step, finish, input_fault_hits, input_faults, transform_root};
use crate::params::{is_power_of_two, log2, RingParams};
use crate::ntt::lengths::lemma_mitigated_after_len;
use crate::timing::{clock_now, nanos_since};
use crate::modarith::{inv_mod, pow_mod};
use crate::ntt::bitrev::{bit_reverse_copy, lemma_bit_reverse_reduced};
use crate::ntt::dif::lemma_input_faults_reduced;
use crate::ntt::faults::apply_input_faults_for_stage;
use crate::ntt::radix2::{
    lemma_count_hits_le, lemma_counts_step, lemma_room_for_stage, lemma_run_room, lemma_stage_room, radix2_counts,
    scale_in_place, transform_size_ok,
};
use crate::ntt::shape::{lemma_log2_small, lemma_stage_exit, lemma_stage_shape};
use crate::ntt::spec::{
    count_hits, counts_after_run, dit_counts, layout_counts, lemma_input_faults_len, model_hits, model_injection,
    scaling_counts,
};
use crate::ntt::{add_elapsed_since, transform_cost, NttImplementation, WORD_BYTES};
use vstd::bits::*;
use vstd::arithmetic::power2::*;
use vstd::arithmetic::div_mod::*;
use vstd::arithmetic::mul::*;
use vstd::arithmetic::power::*;
use vstd::prelude::*;

verus! {

/// What one check, or one stage of checks, adds to the mitigation counters.
pub ghost struct MitigationTally {
    pub checks: nat,
    pub failures: nat,
    pub recomputations: nat,
    pub detected: bool,
    pub corrected: bool,
    pub stage_checks: nat,
    pub stage_failures: nat,
    pub s1_failures: nat,
    pub s2_failures: nat,
}

/// Nothing counted.
pub open spec fn zero_tally() -> MitigationTally {
    MitigationTally {
        checks: 0,
        failures: 0,
        recomputations: 0,
        detected: false,
        corrected: false,
        stage_checks: 0,
        stage_failures: 0,
        s1_failures: 0,
        s2_failures: 0,
    }
}

/// `a` followed by `b`.
pub open spec fn add_tally(a: MitigationTally, b: MitigationTally) -> MitigationTally {
    MitigationTally {
        checks: a.checks + b.checks,
        failures: a.failures + b.failures,
        recomputations: a.recomputations + b.recomputations,
        detected: a.detected || b.detected,
        corrected: a.corrected || b.corrected,
        stage_checks: a.stage_checks + b.stage_checks,
        stage_failures: a.stage_failures + b.stage_failures,
        s1_failures: a.s1_failures + b.s1_failures,
        s2_failures: a.s2_failures + b.s2_failures,
    }
}

/// The counters of `new` are those of `old` plus `t`; the flags were raised by `t` or before.
pub open spec fn counters_advanced(new: MitigationMetrics, old: MitigationMetrics, t: MitigationTally) -> bool {
    &&& new.checks_performed == old.checks_performed + t.checks
    &&& new.check_failures == old.check_failures + t.failures
    &&& new.recomputations == old.recomputations + t.recomputations
    &&& new.fault_detected == (old.fault_detected || t.detected)
    &&& new.fault_corrected == (old.fault_corrected || t.corrected)
    &&& new.stage_checks_performed == old.stage_checks_performed + t.stage_checks
    &&& new.stage_check_failures == old.stage_check_failures + t.stage_failures
    &&& new.stage_checksum_s1_failures == old.stage_checksum_s1_failures + t.s1_failures
    &&& new.stage_checksum_s2_failures == old.stage_checksum_s2_failures + t.s2_failures
}

/// The configuration and timing fields are those of `old`.
pub open spec fn settings_kept(new: MitigationMetrics, old: MitigationMetrics) -> bool {
    &&& new.mitigation_enabled == old.mitigation_enabled
    &&& new.mitigation_kind == old.mitigation_kind
    &&& new.mitigation_action == old.mitigation_action
    &&& new.checksum_mode == old.checksum_mode
    &&& new.mitigation_elapsed_ns == old.mitigation_elapsed_ns
}

/// Every counter of `mm` can still grow by `extra`.
pub open spec fn tally_room(mm: MitigationMetrics, extra: int) -> bool {
    &&& mm.checks_performed + extra <= u64::MAX
    &&& mm.check_failures + extra <= u64::MAX
    &&& mm.recomputations + extra <= u64::MAX
    &&& mm.stage_checks_performed + extra <= u64::MAX
    &&& mm.stage_check_failures + extra <= u64::MAX
    &&& mm.stage_checksum_s1_failures + extra <= u64::MAX
    &&& mm.stage_checksum_s2_failures + extra <= u64::MAX
}

/// The butterfly whose lower word is `lo` produced exactly its fault-free outputs.
pub open spec fn butterfly_exact(x: Seq<u64>, lo: int, half: int, wl: u64, q: u64, flip: SiteFlip) -> bool {
    &&& dit_lo_out(x, lo, half, wl, q, flip) == dit_lo_out(x, lo, half, wl, q, no_flip())
    &&& dit_hi_out(x, lo, half, wl, q, flip) == dit_hi_out(x, lo, half, wl, q, no_flip())
}

/// The outputs of the butterfly whose lower word is `lo` have the sum and difference of
/// its fault-free outputs.
pub open spec fn butterfly_consistent(x: Seq<u64>, lo: int, half: int, wl: u64, q: u64, flip: SiteFlip) -> bool {
    let y0 = dit_lo_out(x, lo, half, wl, q, flip);
    let y1 = dit_hi_out(x, lo, half, wl, q, flip);
    let e0 = dit_lo_out(x, lo, half, wl, q, no_flip());
    let e1 = dit_hi_out(x, lo, half, wl, q, no_flip());
    add_m(y0, y1, q) == add_m(e0, e1, q) && sub_m(y0, y1, q) == sub_m(e0, e1, q)
}

/// How many of the first `t` butterflies (in visiting order) fail the check.
pub open spec fn inconsistent_count(x: Seq<u64>, len: int, wl: u64, q: u64, flip: SiteFlip, t: int) -> nat
    decreases t,
{
    if t <= 0 {
        0
    } else {
        inconsistent_count(x, len, wl, q, flip, t - 1) + if butterfly_consistent(
            x,
            bf_lo(t - 1, len / 2),
            len / 2,
            wl,
            q,
            flip,
        ) {
            0nat
        } else {
            1nat
        }
    }
}

/// How many of the first `t` butterflies differ from their fault-free outputs.
pub open spec fn inexact_count(x: Seq<u64>, len: int, wl: u64, q: u64, flip: SiteFlip, t: int) -> nat
    decreases t,
{
    if t <= 0 {
        0
    } else {
        inexact_count(x, len, wl, q, flip, t - 1) + if butterfly_exact(x, bf_lo(t - 1, len / 2), len / 2, wl, q, flip) {
            0nat
        } else {
            1nat
        }
    }
}

/// Some butterfly of the stage differs from its fault-free outputs.
pub open spec fn stage_mismatch(x: Seq<u64>, len: int, wl: u64, q: u64, flip: SiteFlip) -> bool {
    inexact_count(x, len, wl, q, flip, (x.len() / 2) as int) > 0
}

/// The butterfly check repairs the butterfly whose lower word is `lo`.
pub open spec fn repairs(
    x: Seq<u64>,
    lo: int,
    half: int,
    wl: u64,
    q: u64,
    flip: SiteFlip,
    opts: MitigationOptions,
) -> bool {
    &&& opts.kind == MitigationKind::ButterflyCheck
    &&& opts.action == MitigationAction::Recompute
    &&& !butterfly_consistent(x, lo, half, wl, q, flip)
}

/// `a - b` modulo `q` stays in range: `a >= b`, or `b` exceeds `a` by at most `q`.
pub open spec fn sub_fits(a: u64, b: u64, q: u64) -> bool {
    a >= b || b - a <= q
}

/// The differences that the butterfly check forms for the butterfly whose lower word is
/// `lo` stay in range, for the computed outputs and for the fault-free ones.
pub open spec fn check_fits(x: Seq<u64>, lo: int, half: int, wl: u64, q: u64, flip: SiteFlip) -> bool {
    &&& sub_fits(dit_lo_out(x, lo, half, wl, q, flip), dit_hi_out(x, lo, half, wl, q, flip), q)
    &&& sub_fits(dit_lo_out(x, lo, half, wl, q, no_flip()), dit_hi_out(x, lo, half, wl, q, no_flip()), q)
}

/// Every difference that the butterfly checks of a stage over blocks of `len` words form
/// stays in range.
pub open spec fn stage_checks_fit(x: Seq<u64>, len: int, wl: u64, q: u64, flip: SiteFlip) -> bool {
    forall|i: int| 0 <= i < x.len() && i % len < len / 2 ==> #[trigger] check_fits(x, i, len / 2, wl, q, flip)
}

/// The stage after its butterflies, each checked (and repaired) when the butterfly
/// check is on.
pub open spec fn checked_stage(
    x: Seq<u64>,
    len: int,
    wl: u64,
    q: u64,
    flip: SiteFlip,
    opts: MitigationOptions,
) -> Seq<u64> {
    Seq::new(
        x.len(),
        |i: int|
            if repairs(x, butterfly_lo(i, len), len / 2, wl, q, flip, opts) {
                dit_stage(x, len, wl, q, no_flip())[i]
            } else {
                dit_stage(x, len, wl, q, flip)[i]
            },
    )
}

/// The stage checksums of `y` against input `x` hold (`S2` only in sum-index mode).
pub open spec fn checksums_hold(y: Seq<u64>, x: Seq<u64>, len: int, wl: u64, q: u64, mode: ChecksumMode) -> bool {
    &&& stage_sum_ok(y, x, len, q)
    &&& (mode == ChecksumMode::SumIndex ==> stage_index_ok(y, x, len, wl, q))
}

/// One mitigated stage: the checked butterflies, then, under the stage checksum with
/// recomputation, the fault-free stage when a checksum fails.
pub open spec fn mitigated_stage(
    x: Seq<u64>,
    len: int,
    wl: u64,
    q: u64,
    flip: SiteFlip,
    opts: MitigationOptions,
) -> Seq<u64> {
    let y = checked_stage(x, len, wl, q, flip, opts);
    if opts.kind == MitigationKind::StageChecksum && opts.action == MitigationAction::Recompute && !checksums_hold(
        y,
        x,
        len,
        wl,
        q,
        opts.checksum_mode,
    ) {
        dit_stage(x, len, wl, q, no_flip())
    } else {
        y
    }
}

/// The counts of the butterfly checks over the first `t` butterflies.
pub open spec fn butterfly_tally(
    x: Seq<u64>,
    len: int,
    wl: u64,
    q: u64,
    flip: SiteFlip,
    opts: MitigationOptions,
    t: int,
) -> MitigationTally {
    let on = opts.kind == MitigationKind::ButterflyCheck;
    let redo = opts.action == MitigationAction::Recompute;
    let f = inconsistent_count(x, len, wl, q, flip, t);
    MitigationTally {
        checks: if on {
            t as nat
        } else {
            0
        },
        failures: if on {
            f
        } else {
            0
        },
        recomputations: if on && redo {
            f
        } else {
            0
        },
        detected: on && f > 0,
        corrected: on && redo && f > 0,
        ..zero_tally()
    }
}

/// The counts of the stage checksum over the checked stage `y` of input `x`.
pub open spec fn checksum_tally(
    y: Seq<u64>,
    x: Seq<u64>,
    len: int,
    wl: u64,
    q: u64,
    opts: MitigationOptions,
) -> MitigationTally {
    let on = opts.kind == MitigationKind::StageChecksum;
    let ok1 = stage_sum_ok(y, x, len, q);
    let ok2 = opts.checksum_mode == ChecksumMode::SumIndex ==> stage_index_ok(y, x, len, wl, q);
    let fail = on && !(ok1 && ok2);
    let redo = opts.action == MitigationAction::Recompute;
    MitigationTally {
        checks: if on {
            1
        } else {
            0
        },
        failures: if fail {
            1
        } else {
            0
        },
        recomputations: if fail && redo {
            1
        } else {
            0
        },
        detected: fail,
        corrected: fail && redo,
        stage_checks: if on {
            1
        } else {
            0
        },
        stage_failures: if fail {
            1
        } else {
            0
        },
        s1_failures: if on && !ok1 {
            1
        } else {
            0
        },
        s2_failures: if on && !ok2 {
            1
        } else {
            0
        },
    }
}

/// Everything one mitigated stage adds to the counters.
pub open spec fn stage_tally(
    x: Seq<u64>,
    len: int,
    wl: u64,
    q: u64,
    flip: SiteFlip,
    opts: MitigationOptions,
) -> MitigationTally {
    add_tally(
        butterfly_tally(x, len, wl, q, flip, opts, (x.len() / 2) as int),
        checksum_tally(checked_stage(x, len, wl, q, flip, opts), x, len, wl, q, opts),
    )
}

proof fn lemma_counts_le(x: Seq<u64>, len: int, wl: u64, q: u64, flip: SiteFlip, t: int)
    ensures
        inconsistent_count(x, len, wl, q, flip, t) <= if t < 0 {
            0
        } else {
            t
        },
        inexact_count(x, len, wl, q, flip, t) <= if t < 0 {
            0
        } else {
            t
        },
    decreases t,
{
    if t > 0 {
        lemma_counts_le(x, len, wl, q, flip, t - 1);
    }
}

/// Checks one butterfly's outputs `(y0, y1)` against its fault-free outputs `(e0, e1)`
/// of inputs `u` and `b` with twiddle `w`; under recomputation a failed check is
/// answered with a recomputed butterfly.
fn check_butterfly(
    u: u64,
    b: u64,
    w: u64,
    y0: u64,
    y1: u64,
    e0: u64,
    e1: u64,
    q: u64,
    opts: &MitigationOptions,
    mm: &mut MitigationMetrics,
) -> (r: (u64, u64))
    requires
        q >= 2,
        sub_fits(y0, y1, q),
        sub_fits(e0, e1, q),
        e0 == add_m(u, mul_m(b, w, q), q),
        e1 == sub_m(u, mul_m(b, w, q), q),
        tally_room(*old(mm), 1),
    ensures
        ({
            let ok = add_m(y0, y1, q) == add_m(e0, e1, q) && sub_m(y0, y1, q) == sub_m(e0, e1, q);
            let redo = opts.action == MitigationAction::Recompute;
            &&& r == (if !ok && redo {
                (e0, e1)
            } else {
                (y0, y1)
            })
            &&& counters_advanced(
                *final(mm),
                *old(mm),
                MitigationTally {
                    checks: 1,
                    failures: if ok {
                        0
                    } else {
                        1
                    },
                    recomputations: if !ok && redo {
                        1
                    } else {
                        0
                    },
                    detected: !ok,
                    corrected: !ok && redo,
                    ..zero_tally()
                },
            )
        }),
        settings_kept(*final(mm), *old(mm)),
{
    proof {
        lemma_mod_bound(u + mul_m(b, w, q), q as int);
    }
    mm.checks_performed += 1;
    let lhs_sum = add_mod(y0, y1, q);
    let rhs_sum = add_mod(e0, e1, q);
    let lhs_diff = sub_mod(y0, y1, q);
    let rhs_diff = sub_mod(e0, e1, q);
    let ok = lhs_sum == rhs_sum && lhs_diff == rhs_diff;
    let mut out0 = y0;
    let mut out1 = y1;

    if !ok {
        mm.check_failures += 1;
        mm.fault_detected = true;

        match opts.action {
            MitigationAction::DetectOnly => {},
            MitigationAction::Abort => {
                // The backend returns words, not a result: abort records the detection
                // and leaves the faulty words in place.
            },
            MitigationAction::Recompute => {
                let limit = if opts.max_retries > 1 {
                    opts.max_retries
                } else {
                    1
                };
                let ghost mm0 = *mm;
                let mut attempt: usize = 0;
                while attempt < limit
                    invariant_except_break
                        attempt == 0,
                        limit >= 1,
                        *mm == mm0,
                    invariant
                        q >= 2,
                        e0 == add_m(u, mul_m(b, w, q), q),
                        e1 == sub_m(u, mul_m(b, w, q), q),
                        rhs_sum == add_m(e0, e1, q),
                        rhs_diff == sub_m(e0, e1, q),
                        sub_fits(e0, e1, q),
                        mm0.recomputations < u64::MAX,
                    ensures
                        out0 == e0,
                        out1 == e1,
                        *mm == (MitigationMetrics {
                            recomputations: (mm0.recomputations + 1) as u64,
                            fault_corrected: true,
                            ..mm0
                        }),
                    decreases limit - attempt,
                {
                    let retry_wb = mul_mod(b, w, q);
                    let retry_y0 = add_mod(u, retry_wb, q);
                    let retry_y1 = sub_mod(u, retry_wb, q);
                    let retry_sum = add_mod(retry_y0, retry_y1, q);
                    let retry_diff = sub_mod(retry_y0, retry_y1, q);
                    let retry_ok = retry_sum == rhs_sum && retry_diff == rhs_diff;
                    mm.recomputations += 1;
                    if retry_ok {
                        out0 = retry_y0;
                        out1 = retry_y1;
                        mm.fault_corrected = true;
                        break;
                    }
                    attempt += 1;
                }
            },
        }
    }
    (out0, out1)
}

/// `S1`: the words of `a` summed modulo `q`.
fn word_sum_mod(a: &Vec<u64>, q: u64) -> (r: u64)
    requires
        q >= 2,
    ensures
        r == fold_mod(word_terms(a@), a@.len() as int, q),
{
    let mut acc: u64 = 0;
    let mut i: usize = 0;
    while i < a.len()
        invariant
            q >= 2,
            i <= a.len(),
            acc == fold_mod(word_terms(a@), i as int, q),
        decreases a.len() - i,
    {
        acc = add_mod(acc, a[i], q);
        i += 1;
    }
    acc
}

/// `S2`: the words of `a` weighted by their index and summed modulo `q`.
fn index_sum_mod(a: &Vec<u64>, q: u64) -> (r: u64)
    requires
        q >= 2,
    ensures
        r == fold_mod(weighted_terms(a@, q), a@.len() as int, q),
{
    let mut acc: u64 = 0;
    let mut i: usize = 0;
    while i < a.len()
        invariant
            q >= 2,
            i <= a.len(),
            acc == fold_mod(weighted_terms(a@, q), i as int, q),
        decreases a.len() - i,
    {
        acc = add_mod(acc, mul_mod(i as u64, a[i], q), q);
        i += 1;
    }
    acc
}

/// The butterflies of one stage with their faults, checks and repairs; also the two
/// stage sums that a stage checksum expects.
#[verifier::rlimit(100)]
fn mitigated_butterflies(
    a: &mut Vec<u64>,
    q: u64,
    w_len: u64,
    len: usize,
    stage: usize,
    fault: Option<&FaultSpec>,
    opts: &MitigationOptions,
    mm: &mut MitigationMetrics,
    m: &mut NttSystemMetrics,
) -> (r: (bool, u64, u64))
    requires
        q >= 2,
        2 <= len <= old(a).len(),
        len % 2 == 0,
        old(a).len() % len == 0,
        opts.kind == MitigationKind::ButterflyCheck ==> stage_checks_fit(
            old(a)@,
            len as int,
            w_len,
            q,
            stage_flip(q, stage as int, fault_value(fault)),
        ),
        fault_fits(fault_value(fault)),
        has_room(*old(m), old(a).len() as int),
        tally_room(*old(mm), old(a).len() as int),
    ensures
        ({
            let x = old(a)@;
            let flip = stage_flip(q, stage as int, fault_value(fault));
            let nb = (x.len() / 2) as int;
            let cs = opts.kind == MitigationKind::StageChecksum;
            &&& final(a)@ == checked_stage(x, len as int, w_len, q, flip, *opts)
            &&& *final(m) == with_butterflies(*old(m), nb)
            &&& counters_advanced(*final(mm), *old(mm), butterfly_tally(x, len as int, w_len, q, flip, *opts, nb))
            &&& r.0 == stage_mismatch(x, len as int, w_len, q, flip)
            &&& r.1 == (if cs {
                fold_mod(doubled_terms(x, len as int, q), nb, q)
            } else {
                0
            })
            &&& r.2 == (if cs && opts.checksum_mode == ChecksumMode::SumIndex {
                fold_mod(index_terms(x, len as int, w_len, q), nb, q)
            } else {
                0
            })
        }),
        settings_kept(*final(mm), *old(mm)),
{
    let n = a.len();
    let half = len / 2;
    let ghost x = a@;
    let ghost li = len as int;
    let ghost flip = stage_flip(q, stage as int, fault_value(fault));
    let ghost target = checked_stage(x, li, w_len, q, flip, *opts);
    let ghost m0 = *m;
    let ghost mm0 = *mm;
    let stage_checksum_enabled = opts.kind == MitigationKind::StageChecksum;
    let mut expected_stage_sum: u64 = 0;
    let mut expected_stage_index_sum: u64 = 0;
    let mut faulted = false;
    let ghost mut t: int = 0;
    proof {
        lemma_overlay_start(x, target, li);
    }

    let mut start: usize = 0;
    while start < n
        invariant
            n == a.len(),
            x.len() == n,
            li == len,
            half == len / 2,
            q >= 2,
            2 <= len <= n,
            len % 2 == 0,
            n % len == 0,
            opts.kind == MitigationKind::ButterflyCheck ==> stage_checks_fit(x, li, w_len, q, flip),
            fault_fits(fault_value(fault)),
            flip == stage_flip(q, stage as int, fault_value(fault)),
            target == checked_stage(x, li, w_len, q, flip, *opts),
            stage_checksum_enabled == (opts.kind == MitigationKind::StageChecksum),
            has_room(m0, n as int),
            tally_room(mm0, n as int),
            start % len == 0,
            start <= n,
            2 * t == start,
            a@ == overlay(x, target, li, start as int),
            *m == with_butterflies(m0, t),
            counters_advanced(*mm, mm0, butterfly_tally(x, li, w_len, q, flip, *opts, t)),
            settings_kept(*mm, mm0),
            faulted == (inexact_count(x, li, w_len, q, flip, t) > 0),
            expected_stage_sum == (if stage_checksum_enabled {
                fold_mod(doubled_terms(x, li, q), t, q)
            } else {
                0
            }),
            expected_stage_index_sum == (if stage_checksum_enabled && opts.checksum_mode
                == ChecksumMode::SumIndex {
                fold_mod(index_terms(x, li, w_len, q), t, q)
            } else {
                0
            }),
        decreases n - start,
    {
        proof {
            lemma_block_fits(start as int, li, n as int);
            lemma_fundamental_div_mod(start as int, li);
            lemma_mul_is_commutative(li, (start / len) as int);
        }
        let ghost k = (start / len) as int;
        assert(k * (2 * (half as int)) == start);
        assert(k * (half as int) == t) by {
            assert(k * (2 * (half as int)) == 2 * (k * (half as int))) by (nonlinear_arith);
        }
        let mut w: u64 = 1;
        let mut j: usize = 0;
        proof {
            lemma_pow0(w_len as int);
        }
        while j < half
            invariant
                n == a.len(),
                x.len() == n,
                li == len,
                half == len / 2,
                q >= 2,
                2 <= len <= n,
                len % 2 == 0,
                n % len == 0,
                opts.kind == MitigationKind::ButterflyCheck ==> stage_checks_fit(x, li, w_len, q, flip),
                fault_fits(fault_value(fault)),
                flip == stage_flip(q, stage as int, fault_value(fault)),
                target == checked_stage(x, li, w_len, q, flip, *opts),
                stage_checksum_enabled == (opts.kind == MitigationKind::StageChecksum),
                has_room(m0, n as int),
                tally_room(mm0, n as int),
                start % len == 0,
                start + len <= n,
                k >= 0,
                k * (2 * (half as int)) == start,
                k * (half as int) + j == t,
                j <= half,
                w == twiddle(w_len, j as int, q),
                a@ == overlay(x, target, li, start + j),
                *m == with_butterflies(m0, t),
                counters_advanced(*mm, mm0, butterfly_tally(x, li, w_len, q, flip, *opts, t)),
                settings_kept(*mm, mm0),
                faulted == (inexact_count(x, li, w_len, q, flip, t) > 0),
                expected_stage_sum == (if stage_checksum_enabled {
                    fold_mod(doubled_terms(x, li, q), t, q)
                } else {
                    0
                }),
                expected_stage_index_sum == (if stage_checksum_enabled && opts.checksum_mode
                    == ChecksumMode::SumIndex {
                    fold_mod(index_terms(x, li, w_len, q), t, q)
                } else {
                    0
                }),
            decreases half - j,
        {
            let lo = start + j;
            let hi = start + j + half;
            proof {
                lemma_block_index(start as int, li, j as int);
                lemma_block_index(start as int, li, (j + half) as int);
                lemma_twiddle_step(w_len, j as nat, q);
                lemma_bf_lo(k, half as int, j as int);
                lemma_overlay_step(x, target, li, lo as int);
                lemma_counts_le(x, li, w_len, q, flip, t);
                assert(2 * t + 2 <= n) by {
                    assert(t == k * (half as int) + j);
                    assert(2 * (k * (half as int)) == start) by {
                        assert(k * (2 * (half as int)) == 2 * (k * (half as int))) by (nonlinear_arith);
                    }
                }
            }
            let u = a[lo];
            let b = a[hi];
            assert(u == x[lo as int] && b == x[hi as int]);

            let wb_clean = mul_mod(b, w, q);
            assert(wb_clean == clean_product(x, lo as int, half as int, w_len, q));
            let wb = inject_arithmetic_site_value(wb_clean, q, stage, hi, fault, FaultSite::MulOutput);
            proof {
                lemma_site_flip_bound(wb_clean, q, stage as int, hi as int, fault_value(fault), FaultSite::MulOutput);
            }
            assert(wb == dit_product(x, lo as int, half as int, w_len, q, flip));

            let expected_y0 = add_mod(u, wb_clean, q);
            let expected_y1 = sub_mod(u, wb_clean, q);
            assert(expected_y0 == dit_lo_out(x, lo as int, half as int, w_len, q, no_flip()));
            assert(expected_y1 == dit_hi_out(x, lo as int, half as int, w_len, q, no_flip()));

            let y0_clean = add_mod(u, wb, q);
            proof {
                lemma_mod_bound(u + wb, q as int);
            }
            let mut y0 = inject_arithmetic_site_value(y0_clean, q, stage, lo, fault, FaultSite::AddOutput);
            y0 = inject_arithmetic_site_value(y0, q, stage, lo, fault, FaultSite::ButterflyOutput);
            y0 = inject_arithmetic_site_value(y0, q, stage, lo, fault, FaultSite::RegisterWrite);
            assert(y0 == dit_lo_out(x, lo as int, half as int, w_len, q, flip));

            let y1_clean = sub_mod(u, wb, q);
            let mut y1 = inject_arithmetic_site_value(y1_clean, q, stage, hi, fault, FaultSite::SubOutput);
            y1 = inject_arithmetic_site_value(y1, q, stage, hi, fault, FaultSite::ButterflyOutput);
            y1 = inject_arithmetic_site_value(y1, q, stage, hi, fault, FaultSite::RegisterWrite);
            assert(y1 == dit_hi_out(x, lo as int, half as int, w_len, q, flip));
            proof {
                lemma_site_flip_bound(y0_clean, q, stage as int, lo as int, fault_value(fault), FaultSite::AddOutput);
                lemma_site_flip_bound(
                    site_flip(y0_clean, q, stage as int, lo as int, fault_value(fault), FaultSite::AddOutput),
                    q,
                    stage as int,
                    lo as int,
                    fault_value(fault),
                    FaultSite::ButterflyOutput,
                );
                lemma_site_flip_bound(
                    site_flip(
                        site_flip(y0_clean, q, stage as int, lo as int, fault_value(fault), FaultSite::AddOutput),
                        q,
                        stage as int,
                        lo as int,
                        fault_value(fault),
                        FaultSite::ButterflyOutput,
                    ),
                    q,
                    stage as int,
                    lo as int,
                    fault_value(fault),
                    FaultSite::RegisterWrite,
                );
            }

            if y0 != expected_y0 || y1 != expected_y1 {
                faulted = true;
            }

            if stage_checksum_enabled {
                expected_stage_sum = add_mod(expected_stage_sum, add_mod(u, u, q), q);

                if opts.checksum_mode == ChecksumMode::SumIndex {
                    let lo_idx = lo as u64;
                    let hi_idx = hi as u64;

                    let sum_idx = add_mod(lo_idx % q, hi_idx % q, q);
                    let diff_idx = sub_mod(lo_idx % q, hi_idx % q, q);

                    let lhs = mul_mod(sum_idx, u, q);
                    let rhs = mul_mod(diff_idx, wb_clean, q);

                    let term = add_mod(lhs, rhs, q);
                    assert(term == index_term(x, lo as int, half as int, w_len, q));
                    expected_stage_index_sum = add_mod(expected_stage_index_sum, term, q);
                }
            }

            if opts.kind == MitigationKind::ButterflyCheck {
                assert(check_fits(x, lo as int, li / 2, w_len, q, flip));
                let (c0, c1) = check_butterfly(u, b, w, y0, y1, expected_y0, expected_y1, q, opts, mm);
                y0 = c0;
                y1 = c1;
            }
            assert(y0 == target[lo as int]);
            assert(y1 == target[hi as int]);

            a.set(lo, y0);
            a.set(hi, y1);
            w = mul_mod(w, w_len, q);

            m.num_mod_adds += 1;
            m.num_mod_subs += 1;
            m.num_mod_muls += 2;
            m.num_twiddle_loads += 1;
            m.num_memory_reads += 2;
            m.num_memory_writes += 2;
            proof {
                t = t + 1;
            }
            j = j + 1;
        }
        proof {
            lemma_upper_half(start as int, li);
            crate::ntt::shape::lemma_overlay_same(x, target, li, (start + half) as int, (start + len) as int);
            lemma_mod_add_multiples_vanish(start as int, li);
        }
        start = start + len;
    }
    proof {
        lemma_overlay_full(x, target, li);
        assert(t == n / 2);
    }
    (faulted, expected_stage_sum, expected_stage_index_sum)
}

/// A butterfly stage of words below `q` (with the model's faults or none) yields words
/// below `q`.
pub proof fn lemma_stage_reduced(x: Seq<u64>, len: int, wl: u64, q: u64, stage: int, fault: Option<FaultSpec>)
    requires
        q >= 2,
        2 <= len,
        len % 2 == 0,
        (x.len() as int) % len == 0,
        reduced(x, q),
    ensures
        reduced(dit_stage(x, len, wl, q, stage_flip(q, stage, fault)), q),
        reduced(dit_stage(x, len, wl, q, no_flip()), q),
{
    let half = len / 2;
    let n = x.len() as int;
    assert forall|i: int| 0 <= i < n implies (#[trigger] dit_stage(x, len, wl, q, stage_flip(q, stage, fault))[i]) < q
        && dit_stage(x, len, wl, q, no_flip())[i] < q by {
        lemma_lo_facts(i, len);
        let lo = butterfly_lo(i, len);
        lemma_fundamental_div_mod(i, len);
        lemma_fundamental_div_mod(n, len);
        lemma_mul_is_commutative(len, i / len);
        lemma_mod_multiples_basic(i / len, len);
        lemma_block_fits(i - i % len, len, n);
        let hi = lo + half;
        let tw = twiddle(wl, lo % (2 * half), q);
        let p = mul_m(x[hi], tw, q);
        lemma_mod_bound(x[hi] * tw, q as int);
        lemma_site_flip_bound(p, q, stage, hi, fault, FaultSite::MulOutput);
        let v = site_flip(p, q, stage, hi, fault, FaultSite::MulOutput);
        lemma_mod_bound(x[lo] + v, q as int);
        lemma_mod_bound(x[lo] + p, q as int);
        let a0 = add_m(x[lo], v, q);
        lemma_site_flip_bound(a0, q, stage, lo, fault, FaultSite::AddOutput);
        let a1 = site_flip(a0, q, stage, lo, fault, FaultSite::AddOutput);
        lemma_site_flip_bound(a1, q, stage, lo, fault, FaultSite::ButterflyOutput);
        let a2 = site_flip(a1, q, stage, lo, fault, FaultSite::ButterflyOutput);
        lemma_site_flip_bound(a2, q, stage, lo, fault, FaultSite::RegisterWrite);
        let s0 = sub_m(x[lo], v, q);
        lemma_site_flip_bound(s0, q, stage, hi, fault, FaultSite::SubOutput);
        let s1 = site_flip(s0, q, stage, hi, fault, FaultSite::SubOutput);
        lemma_site_flip_bound(s1, q, stage, hi, fault, FaultSite::ButterflyOutput);
        let s2 = site_flip(s1, q, stage, hi, fault, FaultSite::ButterflyOutput);
        lemma_site_flip_bound(s2, q, stage, hi, fault, FaultSite::RegisterWrite);
    }
    assert forall|i: int| 0 <= i < n implies #[trigger] dit_stage(x, len, wl, q, no_flip())[i] < q by {
        assert(dit_stage(x, len, wl, q, stage_flip(q, stage, fault))[i] < q);
    }
}

/// A mitigated stage of words below `q` yields words below `q`, and every difference of
/// its butterfly checks stays in range.
proof fn lemma_reduced_stage_checks(x: Seq<u64>, len: int, wl: u64, q: u64, stage: int, fault: Option<FaultSpec>, opts: MitigationOptions)
    requires
        q >= 2,
        2 <= len,
        len % 2 == 0,
        (x.len() as int) % len == 0,
        reduced(x, q),
    ensures
        reduced(mitigated_stage(x, len, wl, q, stage_flip(q, stage, fault), opts), q),
        stage_checks_fit(x, len, wl, q, stage_flip(q, stage, fault)),
{
    let flip = stage_flip(q, stage, fault);
    let n = x.len() as int;
    lemma_stage_reduced(x, len, wl, q, stage, fault);
    let y = checked_stage(x, len, wl, q, flip, opts);
    assert forall|i: int| 0 <= i < n implies #[trigger] y[i] < q by {
        assert(dit_stage(x, len, wl, q, flip)[i] < q);
        assert(dit_stage(x, len, wl, q, no_flip())[i] < q);
    }
    assert forall|i: int| 0 <= i < n && i % len < len / 2 implies #[trigger] check_fits(x, i, len / 2, wl, q, flip) by {
        assert(dit_stage(x, len, wl, q, flip)[i] < q);
        assert(dit_stage(x, len, wl, q, no_flip())[i] < q);
        lemma_fundamental_div_mod(i, len);
        lemma_fundamental_div_mod(n, len);
        let k = i / len;
        assert(i + len / 2 < (k + 1) * len) by (nonlinear_arith)
            requires
                i == len * k + i % len,
                i % len < len / 2,
                len >= 2,
        ;
        assert((k + 1) * len <= n) by (nonlinear_arith)
            requires
                i == len * k + i % len,
                0 <= i % len,
                i < n,
                n == len * (n / len),
                len >= 2,
        ;
        assert((i + len / 2) % len >= len / 2) by {
            assert(i + len / 2 == k * len + (i % len + len / 2)) by (nonlinear_arith)
                requires
                    i == len * k + i % len,
            ;
            assert(0 <= i % len + len / 2 < len);
            lemma_fundamental_div_mod_converse_mod(i + len / 2, len, k, i % len + len / 2);
        }
        assert(dit_stage(x, len, wl, q, flip)[i + len / 2] < q);
        assert(dit_stage(x, len, wl, q, no_flip())[i + len / 2] < q);
    }
}

/// From words below `q`, every mitigated stage input stays below `q`.
proof fn lemma_reduced_mitigated_inputs(a0: Seq<u64>, q: u64, root: u64, s: nat, fault: Option<FaultSpec>, opts: MitigationOptions)
    requires
        q >= 2,
        is_power_of_two(a0.len() as nat),
        s <= log2(a0.len() as nat),
        reduced(a0, q),
    ensures
        reduced(mitigated_after(a0, q, root, s, fault, opts), q),
        reduced(mitigated_input(a0, q, root, s, fault, opts), q),
    decreases s,
{
    lemma_mitigated_after_len(a0, q, root, s, fault, opts);
    if s > 0 {
        let t = (s - 1) as nat;
        lemma_reduced_mitigated_inputs(a0, q, root, t, fault, opts);
        lemma_mitigated_after_len(a0, q, root, t, fault, opts);
        lemma_input_faults_len(mitigated_after(a0, q, root, t, fault, opts), q, t as int, fault);
        lemma_stage_shape(a0.len() as nat, t);
        lemma_reduced_stage_checks(
            mitigated_input(a0, q, root, t, fault, opts),
            pow2(s) as int,
            dit_step(root, a0.len(), t, q),
            q,
            t as int,
            fault,
            opts,
        );
    }
    lemma_input_faults_reduced(mitigated_after(a0, q, root, s, fault, opts), q, s as int, fault);
}

/// Words below `q` qualify for the mitigated transform.
pub proof fn lemma_reduced_mitigation_fits(
    input: Seq<u64>,
    params: RingParams,
    inverse: bool,
    fault: Option<FaultSpec>,
    opts: MitigationOptions,
)
    requires
        params.wf(),
        input.len() == params.n,
        reduced(input, params.modulus),
    ensures
        mitigation_fits(input, params, inverse, fault, opts),
{
    let a0 = bit_reverse(input);
    let q = params.modulus;
    let root = transform_root(params, inverse);
    lemma_bit_reverse_reduced(input, q);
    assert forall|s: nat| s < log2(params.n as nat) implies #[trigger] stage_checks_fit(
        mitigated_input(a0, q, root, s, fault, opts),
        pow2(s + 1) as int,
        dit_step(root, a0.len(), s, q),
        q,
        stage_flip(q, s as int, fault),
    ) by {
        lemma_reduced_mitigated_inputs(a0, q, root, s, fault, opts);
        lemma_mitigated_after_len(a0, q, root, s, fault, opts);
        lemma_input_faults_len(mitigated_after(a0, q, root, s, fault, opts), q, s as int, fault);
        lemma_stage_shape(params.n as nat, s);
        lemma_reduced_stage_checks(
            mitigated_input(a0, q, root, s, fault, opts),
            pow2(s + 1) as int,
            dit_step(root, a0.len(), s, q),
            q,
            s as int,
            fault,
            opts,
        );
    }
}

/// One mitigated stage in place; `before` holds the stage input.
#[verifier::rlimit(100)]
fn mitigated_stage_in_place(
    a: &mut Vec<u64>,
    before: &Vec<u64>,
    q: u64,
    w_len: u64,
    len: usize,
    stage: usize,
    fault: Option<&FaultSpec>,
    opts: &MitigationOptions,
    mm: &mut MitigationMetrics,
    m: &mut NttSystemMetrics,
) -> (r: bool)
    requires
        before@ == old(a)@,
        q >= 2,
        2 <= len <= old(a).len(),
        len % 2 == 0,
        old(a).len() % len == 0,
        opts.kind == MitigationKind::ButterflyCheck ==> stage_checks_fit(
            old(a)@,
            len as int,
            w_len,
            q,
            stage_flip(q, stage as int, fault_value(fault)),
        ),
        fault_fits(fault_value(fault)),
        has_room(*old(m), old(a).len() as int),
        tally_room(*old(mm), old(a).len() as int),
    ensures
        ({
            let x = old(a)@;
            let flip = stage_flip(q, stage as int, fault_value(fault));
            &&& final(a)@ == mitigated_stage(x, len as int, w_len, q, flip, *opts)
            &&& *final(m) == with_butterflies(*old(m), (x.len() / 2) as int)
            &&& counters_advanced(*final(mm), *old(mm), stage_tally(x, len as int, w_len, q, flip, *opts))
            &&& r == stage_mismatch(x, len as int, w_len, q, flip)
        }),
        settings_kept(*final(mm), *old(mm)),
{
    let n = a.len();
    let ghost x = a@;
    let ghost li = len as int;
    let ghost flip = stage_flip(q, stage as int, fault_value(fault));
    let ghost mm0 = *mm;
    let stage_checksum_enabled = opts.kind == MitigationKind::StageChecksum;
    let (faulted, expected_stage_sum, expected_stage_index_sum) = mitigated_butterflies(
        a,
        q,
        w_len,
        len,
        stage,
        fault,
        opts,
        mm,
        m,
    );
    let ghost y = a@;
    let ghost mm1 = *mm;
    let ghost clean = dit_stage(x, li, w_len, q, no_flip());
    proof {
        lemma_counts_le(x, li, w_len, q, flip, (n / 2) as int);
        assert(n <= u64::MAX);
        lemma_clean_stage_checksums(x, li, w_len, q);
    }

    if stage_checksum_enabled {
        mm.checks_performed += 1;
        mm.stage_checks_performed += 1;
        let actual_stage_sum = word_sum_mod(a, q);
        let s1_ok = actual_stage_sum == expected_stage_sum;

        let s2_ok = if opts.checksum_mode == ChecksumMode::SumIndex {
            let actual_stage_index_sum = index_sum_mod(a, q);
            actual_stage_index_sum == expected_stage_index_sum
        } else {
            true
        };

        if !s1_ok || !s2_ok {
            mm.check_failures += 1;
            mm.stage_check_failures += 1;
            if !s1_ok {
                mm.stage_checksum_s1_failures += 1;
            }
            if !s2_ok {
                mm.stage_checksum_s2_failures += 1;
            }
            mm.fault_detected = true;

            match opts.action {
                MitigationAction::DetectOnly | MitigationAction::Abort => {},
                MitigationAction::Recompute => {
                    let mut recomputed = copy_words(before);
                    let limit = if opts.max_retries > 1 {
                        opts.max_retries
                    } else {
                        1
                    };
                    let ghost mm2 = *mm;
                    let mut attempt: usize = 0;
                    while attempt < limit
                        invariant_except_break
                            attempt == 0,
                            limit >= 1,
                            *mm == mm2,
                            a@ == y,
                        invariant
                            q >= 2,
                            before@ == x,
                            x.len() == n,
                            recomputed@.len() == n,
                            2 <= len <= n,
                            len % 2 == 0,
                            n % len == 0,
                            li == len,
                            clean == dit_stage(x, li, w_len, q, no_flip()),
                            stage_sum_ok(clean, x, li, q),
                            stage_index_ok(clean, x, li, w_len, q),
                            expected_stage_sum == fold_mod(doubled_terms(x, li, q), (n / 2) as int, q),
                            opts.checksum_mode == ChecksumMode::SumIndex ==> expected_stage_index_sum == fold_mod(
                                index_terms(x, li, w_len, q),
                                (n / 2) as int,
                                q,
                            ),
                            mm2.recomputations < u64::MAX,
                        ensures
                            a@ == clean,
                            *mm == (MitigationMetrics {
                                recomputations: (mm2.recomputations + 1) as u64,
                                fault_corrected: true,
                                ..mm2
                            }),
                        decreases limit - attempt,
                    {
                        let mut scratch = NttSystemMetrics::default();
                        dit_stage_out_of_place(before, &mut recomputed, q, w_len, len, &mut scratch);
                        mm.recomputations += 1;
                        let retry_sum = word_sum_mod(&recomputed, q);
                        let retry_s1_ok = retry_sum == expected_stage_sum;
                        let retry_s2_ok = if opts.checksum_mode == ChecksumMode::SumIndex {
                            let retry_index_sum = index_sum_mod(&recomputed, q);
                            retry_index_sum == expected_stage_index_sum
                        } else {
                            true
                        };

                        if retry_s1_ok && retry_s2_ok {
                            *a = copy_words(&recomputed);
                            mm.fault_corrected = true;
                            break;
                        }
                        attempt += 1;
                    }
                },
            }
        }
    }
    faulted
}

/// The words after the first `s` mitigated stages from `a0`.
pub open spec fn mitigated_after(
    a0: Seq<u64>,
    q: u64,
    root: u64,
    s: nat,
    fault: Option<FaultSpec>,
    opts: MitigationOptions,
) -> Seq<u64>
    decreases s,
{
    if s == 0 {
        a0
    } else {
        let t = (s - 1) as nat;
        mitigated_stage(
            input_faults(mitigated_after(a0, q, root, t, fault, opts), q, t as int, fault),
            pow2(s) as int,
            dit_step(root, a0.len(), t, q),
            q,
            stage_flip(q, t as int, fault),
            opts,
        )
    }
}

/// The input of mitigated stage `s`: the words after `s` stages, with the input faults
/// of stage `s`.
pub open spec fn mitigated_input(
    a0: Seq<u64>,
    q: u64,
    root: u64,
    s: nat,
    fault: Option<FaultSpec>,
    opts: MitigationOptions,
) -> Seq<u64> {
    input_faults(mitigated_after(a0, q, root, s, fault, opts), q, s as int, fault)
}

/// What the mitigated transform needs of its input: under the butterfly check, every
/// difference its checks form, in every stage, stays in range. Words below `q` always
/// qualify (see `lemma_reduced_mitigation_fits`); the stage checksum needs nothing.
pub open spec fn mitigation_fits(
    input: Seq<u64>,
    params: RingParams,
    inverse: bool,
    fault: Option<FaultSpec>,
    opts: MitigationOptions,
) -> bool {
    let a0 = bit_reverse(input);
    let q = params.modulus;
    let root = transform_root(params, inverse);
    opts.kind == MitigationKind::ButterflyCheck ==> forall|s: nat|
        s < log2(params.n as nat) ==> #[trigger] stage_checks_fit(
            mitigated_input(a0, q, root, s, fault, opts),
            pow2(s + 1) as int,
            dit_step(root, a0.len(), s, q),
            q,
            stage_flip(q, s as int, fault),
        )
}

/// The counts of the first `s` mitigated stages.
pub open spec fn tally_after(
    a0: Seq<u64>,
    q: u64,
    root: u64,
    s: nat,
    fault: Option<FaultSpec>,
    opts: MitigationOptions,
) -> MitigationTally
    decreases s,
{
    if s == 0 {
        zero_tally()
    } else {
        let t = (s - 1) as nat;
        add_tally(
            tally_after(a0, q, root, t, fault, opts),
            stage_tally(
                mitigated_input(a0, q, root, t, fault, opts),
                pow2(s) as int,
                dit_step(root, a0.len(), t, q),
                q,
                stage_flip(q, t as int, fault),
                opts,
            ),
        )
    }
}

/// The output of the mitigated radix-2 backend.
pub open spec fn mitigated_output(
    input: Seq<u64>,
    params: RingParams,
    inverse: bool,
    fault: Option<FaultSpec>,
    opts: MitigationOptions,
) -> Seq<u64> {
    finish(
        mitigated_after(
            bit_reverse(input),
            params.modulus,
            transform_root(params, inverse),
            log2(params.n as nat),
            fault,
            opts,
        ),
        params,
        inverse,
    )
}

/// One trace per stage when enabled; a stage is marked when an input fault struck it
/// or one of its butterflies differed from its fault-free outputs.
pub open spec fn mitigated_traces_match(
    traces: Seq<StageTrace>,
    enabled: bool,
    a0: Seq<u64>,
    q: u64,
    root: u64,
    stages: nat,
    fault: Option<FaultSpec>,
    opts: MitigationOptions,
) -> bool {
    &&& traces.len() == (if enabled {
        stages
    } else {
        0
    })
    &&& forall|s: int|
        0 <= s < traces.len() ==> {
            &&& (#[trigger] traces[s]).stage == s
            &&& traces[s].input@ == mitigated_input(a0, q, root, s as nat, fault, opts)
            &&& traces[s].output@ == mitigated_after(a0, q, root, (s + 1) as nat, fault, opts)
            &&& traces[s].faulted == (input_fault_hits(a0.len() as int, s, fault) || stage_mismatch(
                mitigated_input(a0, q, root, s as nat, fault, opts),
                pow2((s + 1) as nat) as int,
                dit_step(root, a0.len(), s as nat, q),
                q,
                stage_flip(q, s, fault),
            ))
        }
}

/// The mitigation counters report `opts`.
pub open spec fn configured_for(mm: MitigationMetrics, opts: MitigationOptions) -> bool {
    &&& mm.mitigation_enabled == (opts.kind != MitigationKind::Disabled)
    &&& mm.mitigation_kind@ == kind_label(opts.kind)
    &&& mm.mitigation_action@ == action_label(opts.action)
    &&& mm.checksum_mode@ == checksum_mode_label(opts.checksum_mode)
}

/// Adds the time since `started` to the mitigation clock, saturating at the top of `u128`;
/// returns the nanoseconds it read off the clock.
fn add_mitigation_elapsed_since(mm: &mut MitigationMetrics, started: &std::time::Instant) -> (ns: u128)
    ensures
        *final(mm) == (MitigationMetrics {
            mitigation_elapsed_ns: saturating_sum(old(mm).mitigation_elapsed_ns, ns),
            ..*old(mm)
        }),
        counters_advanced(*final(mm), *old(mm), zero_tally()),
        final(mm).mitigation_enabled == old(mm).mitigation_enabled,
        final(mm).mitigation_kind == old(mm).mitigation_kind,
        final(mm).mitigation_action == old(mm).mitigation_action,
        final(mm).checksum_mode == old(mm).checksum_mode,
        final(mm).mitigation_elapsed_ns >= old(mm).mitigation_elapsed_ns,
{
    let ns = nanos_since(started);
    if ns <= u128::MAX - mm.mitigation_elapsed_ns {
        mm.mitigation_elapsed_ns += ns;
    } else {
        mm.mitigation_elapsed_ns = u128::MAX;
    }
    ns
}

/// Every count of `t` is at most `b`.
pub open spec fn tally_within(t: MitigationTally, b: int) -> bool {
    &&& t.checks <= b
    &&& t.failures <= b
    &&& t.recomputations <= b
    &&& t.stage_checks <= b
    &&& t.stage_failures <= b
    &&& t.s1_failures <= b
    &&& t.s2_failures <= b
}

proof fn lemma_stage_tally_bound(x: Seq<u64>, len: int, wl: u64, q: u64, flip: SiteFlip, opts: MitigationOptions)
    requires
        x.len() >= 2,
    ensures
        tally_within(stage_tally(x, len, wl, q, flip, opts), x.len() as int),
{
    lemma_counts_le(x, len, wl, q, flip, (x.len() / 2) as int);
}

/// The mitigated radix-2 backend, counting into `m` and `mm`.
#[verifier::rlimit(100)]
fn transform_radix2_mitigated_counted(
    input: &[u64],
    params: &RingParams,
    inverse: bool,
    trace_enabled: bool,
    fault: Option<&FaultSpec>,
    m: &mut NttSystemMetrics,
    mitigation: &MitigationOptions,
    mitigation_metrics: &mut MitigationMetrics,
) -> (r: (Vec<u64>, Vec<StageTrace>))
    requires
        params.wf(),
        input@.len() == params.n,
        mitigation_fits(input@, *params, inverse, fault_value(fault), *mitigation),
        transform_size_ok(params.n as nat, NttImplementation::Radix2),
        fault_fits(fault_value(fault)),
        has_room(*old(m), transform_cost(params.n as nat, NttImplementation::Radix2)),
        tally_room(*old(mitigation_metrics), log2(params.n as nat) * params.n),
    ensures
        r.0@ == mitigated_output(input@, *params, inverse, fault_value(fault), *mitigation),
        mitigated_traces_match(
            r.1@,
            trace_enabled,
            bit_reverse(input@),
            params.modulus,
            transform_root(*params, inverse),
            log2(params.n as nat),
            fault_value(fault),
            *mitigation,
        ),
        counts_after_run(
            *final(m),
            radix2_counts(
                *old(m),
                params.n as nat,
                inverse,
                count_hits(model_hits(params.n as nat, fault_value(fault)), log2(params.n as nat)),
            ),
        ),
        configured_for(*final(mitigation_metrics), *mitigation),
        counters_advanced(
            *final(mitigation_metrics),
            *old(mitigation_metrics),
            tally_after(
                bit_reverse(input@),
                params.modulus,
                transform_root(*params, inverse),
                log2(params.n as nat),
                fault_value(fault),
                *mitigation,
            ),
        ),
        final(mitigation_metrics).mitigation_elapsed_ns >= old(mitigation_metrics).mitigation_elapsed_ns,
        tally_within(
            tally_after(
                bit_reverse(input@),
                params.modulus,
                transform_root(*params, inverse),
                log2(params.n as nat),
                fault_value(fault),
                *mitigation,
            ),
            log2(params.n as nat) * params.n,
        ),
{
    let started = clock_now();
    let n = params.n;
    let q = params.modulus;
    let ghost l = log2(n as nat);
    let ghost fv = fault_value(fault);
    proof {
        lemma_log2_small(n as nat);
        lemma_run_room(l, n as nat);
    }

    mitigation_metrics.configure(mitigation);
    let ghost mmc = *mitigation_metrics;

    m.record_layout(n, NttImplementation::Radix2);
    m.record_scratch(n * WORD_BYTES);
    m.num_memory_reads += n as u64;
    m.num_memory_writes += n as u64;
    let ghost m1 = *m;
    assert(m1 == layout_counts(*old(m), n as nat, NttImplementation::Radix2, (n * 8) as int));

    let mut a = bit_reverse_copy(input);
    let mut traces: Vec<StageTrace> = Vec::new();

    let root = if inverse {
        inv_mod(params.primitive_n_root, q)
    } else {
        params.primitive_n_root
    };
    let ghost a0 = bit_reverse(input@);
    let ghost inj = model_injection(q, fv);
    let ghost hits = model_hits(n as nat, fv);

    let mut len: usize = 2;
    let mut stage: usize = 0;
    proof {
        lemma2_to64();
        assert(tally_within(tally_after(a0, q, root, 0, fv, *mitigation), 0));
    }

    while len <= n
        invariant
            params.wf(),
            n == params.n,
            q == params.modulus,
            q >= 2,
            l == log2(n as nat),
            l < 64,
            transform_size_ok(n as nat, NttImplementation::Radix2),
            fv == fault_value(fault),
            fault_fits(fv),
            root == transform_root(*params, inverse),
            a0 == bit_reverse(input@),
            a0.len() == n,
            inj == model_injection(q, fv),
            hits == model_hits(n as nat, fv),
            stage <= l,
            len == pow2((stage + 1) as nat),
            a@ == mitigated_after(a0, q, root, stage as nat, fv, *mitigation),
            a@.len() == n,
            mitigation_fits(input@, *params, inverse, fv, *mitigation),
            mitigated_traces_match(traces@, trace_enabled, a0, q, root, stage as nat, fv, *mitigation),
            has_room(m1, (l * (n + 2) + n + 8) as int),
            *m == dit_counts(m1, n as nat, stage as nat, count_hits(hits, stage as nat), 0, 0, 0),
            tally_room(*old(mitigation_metrics), l * n),
            counters_advanced(mmc, *old(mitigation_metrics), zero_tally()),
            configured_for(*mitigation_metrics, *mitigation),
            counters_advanced(*mitigation_metrics, mmc, tally_after(a0, q, root, stage as nat, fv, *mitigation)),
            tally_within(tally_after(a0, q, root, stage as nat, fv, *mitigation), stage * n),
            mitigation_metrics.mitigation_elapsed_ns >= old(mitigation_metrics).mitigation_elapsed_ns,
        decreases l - stage,
    {
        proof {
            if stage == l {
                lemma_stage_exit(n as nat);
            }
            assert(stage < l);
            lemma_stage_shape(n as nat, stage as nat);
            lemma_count_hits_le(hits, stage as nat);
            lemma_stage_room(stage as nat, l, n as nat, count_hits(hits, stage as nat));
            assert(stage * n + n <= l * n) by (nonlinear_arith)
                requires
                    stage < l,
            ;
        }
        let ghost prev = a@;
        let ghost mm_s = *mitigation_metrics;
        let mut before = copy_words(&a);
        let mut faulted = false;

        if apply_input_faults_for_stage(a.as_mut_slice(), q, stage, fault) {
            before = copy_words(&a);
            faulted = true;
            m.num_memory_reads += 1;
            m.num_memory_writes += 1;
        }
        proof {
            lemma_input_faults_len(prev, q, stage as int, fv);
        }
        assert(a@ == mitigated_input(a0, q, root, stage as nat, fv, *mitigation));
        assert(before@ == a@);

        let mitigation_started = clock_now();
        let w_len = pow_mod(root, (n / len) as u64, q);
        proof {
            lemma_room_for_stage(m1, *m, n as nat, l, stage as nat, count_hits(hits, stage as nat), 0, 0, 0);
        }
        assert(w_len == dit_step(root, n as nat, stage as nat, q));
        let ghost x = a@;
        assert(mitigation.kind == MitigationKind::ButterflyCheck ==> stage_checks_fit(
            mitigated_input(a0, q, root, stage as nat, fv, *mitigation),
            pow2((stage + 1) as nat) as int,
            dit_step(root, a0.len(), stage as nat, q),
            q,
            stage_flip(q, stage as int, fv),
        ));
        let mismatch = mitigated_stage_in_place(
            &mut a,
            &before,
            q,
            w_len,
            len,
            stage,
            fault,
            mitigation,
            mitigation_metrics,
            m,
        );
        if mismatch {
            faulted = true;
        }
        proof {
            lemma_stage_tally_bound(x, len as int, w_len, q, stage_flip(q, stage as int, fv), *mitigation);
            assert(a@ == mitigated_after(a0, q, root, (stage + 1) as nat, fv, *mitigation));
            assert(tally_after(a0, q, root, (stage + 1) as nat, fv, *mitigation) == add_tally(
                tally_after(a0, q, root, stage as nat, fv, *mitigation),
                stage_tally(x, len as int, w_len, q, stage_flip(q, stage as int, fv), *mitigation),
            ));
        }

        add_mitigation_elapsed_since(mitigation_metrics, &mitigation_started);

        m.num_stage_barriers += 1;
        proof {
            lemma_counts_step(m1, n as nat, l, stage as nat, count_hits(hits, stage as nat), faulted && hits(stage as nat), 0, 0, 0);
            assert(count_hits(hits, (stage + 1) as nat) == count_hits(hits, stage as nat) + if hits(stage as nat) { 1nat } else { 0nat });
        }

        if trace_enabled {
            let output = copy_words(&a);
            traces.push(StageTrace { stage, input: before, output, faulted });
        }
        proof {
            assert forall|s: int| 0 <= s < traces@.len() implies {
                &&& (#[trigger] traces@[s]).stage == s
                &&& traces@[s].input@ == mitigated_input(a0, q, root, s as nat, fv, *mitigation)
                &&& traces@[s].output@ == mitigated_after(a0, q, root, (s + 1) as nat, fv, *mitigation)
                &&& traces@[s].faulted == (input_fault_hits(a0.len() as int, s, fv) || stage_mismatch(
                    mitigated_input(a0, q, root, s as nat, fv, *mitigation),
                    pow2((s + 1) as nat) as int,
                    dit_step(root, a0.len(), s as nat, q),
                    q,
                    stage_flip(q, s, fv),
                ))
            } by {}
        }

        proof {
            lemma2_to64();
            lemma_usize_shl_is_mul(len, 1);
            lemma_pow2_unfold((stage + 2) as nat);
            assert((stage + 1) * n == stage * n + n) by (nonlinear_arith);
        }
        stage += 1;
        len <<= 1;
    }
    proof {
        if stage < l {
            lemma_stage_shape(n as nat, stage as nat);
        }
        assert(stage == l);
        lemma_count_hits_le(hits, l);
        assert(l * (2 * (n / 2)) <= l * n) by (nonlinear_arith)
            requires
                2 * (n / 2) <= n,
        ;
        assert(l * n + l + n <= l * (n + 2) + n + 8) by (nonlinear_arith);
        assert(l * (n / 2) <= l * n) by (nonlinear_arith)
            requires
                n / 2 <= n,
        ;
    }
    let ghost m2 = *m;

    if inverse {
        let n_inv = inv_mod(n as u64, q);
        scale_in_place(&mut a, n_inv, q, m);
    }

    assert(*m == scaling_counts(m2, n as nat, inverse));
    add_elapsed_since(m, &started);

    (a, traces)
}

/// The mitigated radix-2 backend.
pub fn transform_radix2_mitigated(
    input: &[u64],
    params: &RingParams,
    inverse: bool,
    trace_enabled: bool,
    fault: Option<&FaultSpec>,
    metrics: Option<&mut NttSystemMetrics>,
    mitigation: &MitigationOptions,
    mitigation_metrics: &mut MitigationMetrics,
) -> (r: (Vec<u64>, Vec<StageTrace>))
    requires
        params.wf(),
        input@.len() == params.n,
        mitigation_fits(input@, *params, inverse, fault_value(fault), *mitigation),
        transform_size_ok(params.n as nat, NttImplementation::Radix2),
        fault_fits(fault_value(fault)),
        metrics matches Some(m) ==> has_room(*m, transform_cost(params.n as nat, NttImplementation::Radix2)),
        tally_room(*old(mitigation_metrics), log2(params.n as nat) * params.n),
    ensures
        r.0@ == mitigated_output(input@, *params, inverse, fault_value(fault), *mitigation),
        mitigated_traces_match(
            r.1@,
            trace_enabled,
            bit_reverse(input@),
            params.modulus,
            transform_root(*params, inverse),
            log2(params.n as nat),
            fault_value(fault),
            *mitigation,
        ),
        metrics matches Some(m) ==> counts_after_run(
            *final(m),
            radix2_counts(
                *m,
                params.n as nat,
                inverse,
                count_hits(model_hits(params.n as nat, fault_value(fault)), log2(params.n as nat)),
            ),
        ),
        configured_for(*final(mitigation_metrics), *mitigation),
        counters_advanced(
            *final(mitigation_metrics),
            *old(mitigation_metrics),
            tally_after(
                bit_reverse(input@),
                params.modulus,
                transform_root(*params, inverse),
                log2(params.n as nat),
                fault_value(fault),
                *mitigation,
            ),
        ),
        final(mitigation_metrics).mitigation_elapsed_ns >= old(mitigation_metrics).mitigation_elapsed_ns,
        tally_within(
            tally_after(
                bit_reverse(input@),
                params.modulus,
                transform_root(*params, inverse),
                log2(params.n as nat),
                fault_value(fault),
                *mitigation,
            ),
            log2(params.n as nat) * params.n,
        ),
{
    match metrics {
        Some(m) => transform_radix2_mitigated_counted(
            input,
            params,
            inverse,
            trace_enabled,
            fault,
            m,
            mitigation,
            mitigation_metrics,
        ),
        None => {
            let mut scratch = NttSystemMetrics::default();
            transform_radix2_mitigated_counted(
                input,
                params,
                inverse,
                trace_enabled,
                fault,
                &mut scratch,
                mitigation,
                mitigation_metrics,
            )
        },
    }
}

} // verus!
