//! Laws that relate the backends, the mitigation and the modular helpers.
use crate::error::NttError;
use crate::fault::{FaultSite, FaultSpec};
use crate::ntt::dft::{lemma_add_congruent, lemma_direct_transform_reduced, lemma_dit_is_direct, lemma_partner_below, lemma_stage_index};
use crate::ntt::inverse::lemma_direct_round_trip;
use crate::ntt::naive::direct_transform;
use crate::ntt::{backend_output, backend_traces, transform_result, NttImplementation, StageTrace};
use crate::ntt::dif::dif_output;
use crate::ntt::dif_transform::lemma_dif_is_direct;
use crate::ntt::naive::{naive_result, naive_source};
use crate::ntt::recorded::{primary_flips, primary_stage_flip, recorded_result};
use crate::fault::bit_fault_value;
use crate::ntt::roots::{lemma_psi_half, lemma_transform_root_half};
use crate::ntt::fermat::lemma_fermat_two;
use crate::params::passes_primality_test;
use crate::mitigation::{ChecksumMode, MitigationAction, MitigationKind, MitigationOptions};
use crate::ntt::spec::{add_m, sub_m};
use crate::modarith::centered_spec;
use crate::ntt::checksum::{
    bf_lo, lemma_bf_lo, lemma_clean_stage_checksums, lemma_fold_mod_total, range_total, stage_sum_ok,
    weighted_terms, widen, word_terms,
};
use crate::ntt::four_step::four_step_output;
use crate::ntt::mitigated::{
    butterfly_consistent, butterfly_exact, butterfly_tally, checked_stage, checksum_tally, checksums_hold,
    inconsistent_count, inexact_count,
    lemma_stage_reduced, mitigated_after, mitigated_output, mitigated_stage, repairs, stage_tally, tally_after,
    MitigationTally,
};
use crate::ntt::radix2::radix2_output;
use crate::ntt::radix4::{pass_injection, radix4_output};
use crate::ntt::shape::{butterfly_lo, lemma_lo_facts, lemma_stage_shape};
use crate::ntt::spec::{
    bit_reverse, dit_after, dit_hi_out, dit_lo_out, dit_stage, dit_step, input_faults, model_flips, model_hits,
    model_injection, no_flip, no_flips, no_injection, reduced, stage_flip, transform_root,
};
use crate::ntt::stockham::{stockham_hits, stockham_injection, stockham_output};
use crate::params::{is_power_of_two, log2, RingParams};
use vstd::arithmetic::div_mod::*;
use vstd::arithmetic::power2::*;
use vstd::prelude::*;

verus! {

/// Without a fault, every stage-by-stage injection leaves the words alone and every
/// stage computes clean butterflies.
proof fn lemma_no_fault_model(q: u64, modulus_bits: u32)
    ensures
        model_injection(q, None) == no_injection(),
        pass_injection(q, None) == no_injection(),
        stockham_injection(q, modulus_bits, None) == no_injection(),
        model_flips(q, None) == no_flips(),
{
    assert(model_injection(q, None) =~= no_injection());
    assert(pass_injection(q, None) =~= no_injection());
    assert(stockham_injection(q, modulus_bits, None) =~= no_injection());
    assert forall|s: nat| #[trigger] model_flips(q, None)(s) == no_flips()(s) by {
        assert(stage_flip(q, s as int, None) =~= no_flip());
    }
    assert(model_flips(q, None) =~= no_flips());
}

/// Law: without a fault, the Stockham, fused radix-4 and blocked backends return
/// exactly what the radix-2 backend returns.
pub proof fn law_backends_agree_without_fault(input: Seq<u64>, params: RingParams, inverse: bool)
    ensures
        stockham_output(input, params, inverse, None) == radix2_output(input, params, inverse, None),
        radix4_output(input, params, inverse, None) == radix2_output(input, params, inverse, None),
        four_step_output(input, params, inverse, None) == radix2_output(input, params, inverse, None),
{
    lemma_no_fault_model(params.modulus, params.modulus_bits);
}

/// Every fault of `fault` strikes the input of a stage, none an arithmetic result.
pub open spec fn input_site_only(fault: Option<FaultSpec>) -> bool {
    match fault {
        None => true,
        Some(f) => f.site == FaultSite::Input && (!f.second_enabled || f.second_site == FaultSite::Input),
    }
}

/// Under input-site faults alone, the arithmetic perturbations of the fault model change
/// no stage.
proof fn lemma_input_faults_only(
    a0: Seq<u64>,
    q: u64,
    root: u64,
    s: nat,
    inj: crate::ntt::spec::StageInjection,
    fault: Option<FaultSpec>,
)
    requires
        input_site_only(fault),
    ensures
        dit_after(a0, q, root, s, inj, model_flips(q, fault)) == dit_after(a0, q, root, s, inj, no_flips()),
    decreases s,
{
    if s > 0 {
        let t = (s - 1) as nat;
        lemma_input_faults_only(a0, q, root, t, inj, fault);
        let x = inj(dit_after(a0, q, root, t, inj, no_flips()), t);
        let len = pow2(s) as int;
        let wl = dit_step(root, a0.len(), t, q);
        let flip = stage_flip(q, t as int, fault);
        assert(dit_stage(x, len, wl, q, flip) =~= dit_stage(x, len, wl, q, no_flip()));
    }
}

/// Law: under faults that strike stage inputs only, the blocked backend returns exactly
/// what the radix-2 backend returns under the same faults.
pub proof fn law_blocked_matches_radix2_under_input_faults(
    input: Seq<u64>,
    params: RingParams,
    inverse: bool,
    fault: Option<FaultSpec>,
)
    requires
        input_site_only(fault),
    ensures
        four_step_output(input, params, inverse, fault) == radix2_output(input, params, inverse, fault),
{
    lemma_input_faults_only(
        bit_reverse(input),
        params.modulus,
        transform_root(params, inverse),
        log2(params.n as nat),
        model_injection(params.modulus, fault),
        fault,
    );
}

/// Law: under one input-site fault (no adjacent bit, no second fault) whose bit lies below
/// the modulus width, the Stockham backend returns exactly what the radix-2 backend
/// returns under the same fault, and, when the fault's slot lies in the input, the same
/// stage traces.
pub proof fn law_stockham_matches_radix2_under_one_input_fault(
    input: Seq<u64>,
    params: RingParams,
    inverse: bool,
    fault: Option<FaultSpec>,
)
    requires
        params.wf(),
        fault matches Some(f) ==> {
            &&& f.site == FaultSite::Input
            &&& !f.adjacent
            &&& !f.second_enabled
            &&& f.bit < params.modulus_bits
        },
    ensures
        stockham_output(input, params, inverse, fault) == radix2_output(input, params, inverse, fault),
        (fault matches Some(f) ==> f.slot < params.n) ==> forall|traces: Seq<StageTrace>, enabled: bool|
            #[trigger] backend_traces(traces, enabled, input, params, inverse, fault, NttImplementation::Stockham)
                == backend_traces(traces, enabled, input, params, inverse, fault, NttImplementation::Radix2),
{
    let q = params.modulus;
    assert forall|a: Seq<u64>, s: nat|
        #[trigger] stockham_injection(q, params.modulus_bits, fault)(a, s) == model_injection(q, fault)(a, s) by {
        if let Some(f) = fault {
            assert(f.bit < 64);
        }
    }
    assert(stockham_injection(q, params.modulus_bits, fault) =~= model_injection(q, fault));
    let a0 = bit_reverse(input);
    let root = transform_root(params, inverse);
    let inj = model_injection(q, fault);
    lemma_input_faults_only(a0, q, root, log2(params.n as nat), inj, fault);
    if fault matches Some(f) ==> f.slot < params.n {
        assert(stockham_hits(fault) =~= model_hits(params.n as nat, fault));
        assert forall|traces: Seq<StageTrace>, enabled: bool|
            #[trigger] backend_traces(traces, enabled, input, params, inverse, fault, NttImplementation::Stockham)
                == backend_traces(traces, enabled, input, params, inverse, fault, NttImplementation::Radix2) by {
            assert forall|i: int| 0 <= i < traces.len() implies #[trigger] dit_after(a0, q, root, i as nat, inj, model_flips(q, fault))
                == dit_after(a0, q, root, i as nat, inj, no_flips()) && dit_after(
                a0,
                q,
                root,
                (i + 1) as nat,
                inj,
                model_flips(q, fault),
            ) == dit_after(a0, q, root, (i + 1) as nat, inj, no_flips()) by {
                lemma_input_faults_only(a0, q, root, i as nat, inj, fault);
                lemma_input_faults_only(a0, q, root, (i + 1) as nat, inj, fault);
            }
        }
    }
}

/// The same fault, moved to radix-2 stage `2p` from pass `p`.
pub open spec fn pass_fault_as_stage(f: FaultSpec) -> FaultSpec {
    FaultSpec { stage: (2 * f.stage) as usize, ..f }
}

/// Law: a fused radix-4 pass `p` injects an input-site fault (without a second fault)
/// where radix-2 stage `2p` does: the radix-4 backend returns exactly what the radix-2
/// backend returns with the fault's stage doubled.
pub proof fn law_radix4_pass_injects_at_stage_pair(
    input: Seq<u64>,
    params: RingParams,
    inverse: bool,
    f: FaultSpec,
)
    requires
        f.site == FaultSite::Input,
        !f.second_enabled,
        2 * f.stage <= usize::MAX,
    ensures
        radix4_output(input, params, inverse, Some(f)) == radix2_output(
            input,
            params,
            inverse,
            Some(pass_fault_as_stage(f)),
        ),
{
    let q = params.modulus;
    let g = pass_fault_as_stage(f);
    assert forall|a: Seq<u64>, s: nat| #[trigger] pass_injection(q, Some(f))(a, s) == model_injection(q, Some(g))(
        a,
        s,
    ) by {
        if s % 2 == 0 {
            assert((f.stage == s / 2) == (g.stage == s));
        } else {
            assert(g.stage != s);
        }
    }
    assert(pass_injection(q, Some(f)) =~= model_injection(q, Some(g)));
    lemma_input_faults_only(
        bit_reverse(input),
        q,
        transform_root(params, inverse),
        log2(params.n as nat),
        model_injection(q, Some(g)),
        Some(g),
    );
}

/// Without a fault every butterfly passes its check and a fault-free stage passes its
/// checksums, so a mitigated stage is the clean stage and counts no failure.
proof fn lemma_clean_mitigated_stage(x: Seq<u64>, len: int, wl: u64, q: u64, s: int, opts: MitigationOptions)
    requires
        q >= 2,
        2 <= len,
        len % 2 == 0,
        (x.len() as int) % len == 0,
        x.len() <= u64::MAX,
    ensures
        mitigated_stage(x, len, wl, q, stage_flip(q, s, None), opts) == dit_stage(x, len, wl, q, no_flip()),
        clean_tally(stage_tally(x, len, wl, q, stage_flip(q, s, None), opts)),
{
    let flip = stage_flip(q, s, None);
    assert(flip =~= no_flip());
    assert forall|t: int| #[trigger] inconsistent_count(x, len, wl, q, flip, t) == 0 by {
        lemma_consistent_count_zero(x, len, wl, q, t);
    }
    assert(checked_stage(x, len, wl, q, flip, opts) =~= dit_stage(x, len, wl, q, no_flip()));
    lemma_clean_stage_checksums(x, len, wl, q);
}

pub proof fn lemma_consistent_count_zero(x: Seq<u64>, len: int, wl: u64, q: u64, t: int)
    ensures
        inconsistent_count(x, len, wl, q, no_flip(), t) == 0,
    decreases t,
{
    if t > 0 {
        lemma_consistent_count_zero(x, len, wl, q, t - 1);
    }
}

/// No failure, repair or alarm is counted.
pub open spec fn clean_tally(t: MitigationTally) -> bool {
    &&& t.failures == 0
    &&& t.recomputations == 0
    &&& !t.detected
    &&& !t.corrected
    &&& t.stage_failures == 0
    &&& t.s1_failures == 0
    &&& t.s2_failures == 0
}

proof fn lemma_mitigated_after_clean(a0: Seq<u64>, q: u64, root: u64, s: nat, opts: MitigationOptions)
    requires
        q >= 2,
        is_power_of_two(a0.len()),
        a0.len() <= u64::MAX,
        s <= log2(a0.len()),
    ensures
        mitigated_after(a0, q, root, s, None, opts) == dit_after(a0, q, root, s, no_injection(), no_flips()),
        clean_tally(tally_after(a0, q, root, s, None, opts)),
    decreases s,
{
    if s > 0 {
        let t = (s - 1) as nat;
        lemma_mitigated_after_clean(a0, q, root, t, opts);
        let prev = mitigated_after(a0, q, root, t, None, opts);
        assert(input_faults(prev, q, t as int, None) == prev);
        lemma_stage_shape(a0.len(), t);
        crate::ntt::lengths::lemma_mitigated_after_len(a0, q, root, t, None, opts);
        lemma_clean_mitigated_stage(prev, pow2(s) as int, dit_step(root, a0.len(), t, q), q, t as int, opts);
        assert(no_flips()(t) == no_flip());
        assert(no_injection()(prev, t) == prev);
    }
}

/// Law: without a fault, the mitigated radix-2 backend returns exactly what the plain
/// radix-2 backend returns, and reports no failed check, no repair and no alarm.
pub proof fn law_mitigation_transparent_without_fault(
    input: Seq<u64>,
    params: RingParams,
    inverse: bool,
    opts: MitigationOptions,
)
    requires
        params.wf(),
        input.len() == params.n,
    ensures
        mitigated_output(input, params, inverse, None, opts) == radix2_output(input, params, inverse, None),
        clean_tally(
            tally_after(
                bit_reverse(input),
                params.modulus,
                transform_root(params, inverse),
                log2(params.n as nat),
                None,
                opts,
            ),
        ),
{
    lemma_no_fault_model(params.modulus, params.modulus_bits);
    assert(bit_reverse(input).len() == input.len());
    lemma_mitigated_after_clean(
        bit_reverse(input),
        params.modulus,
        transform_root(params, inverse),
        log2(params.n as nat),
        opts,
    );
}

/// With any action but recomputation, the first `s` mitigated stages leave the words the
/// unprotected stages give under the same fault.
proof fn lemma_detected_stages_unchanged(
    a0: Seq<u64>,
    q: u64,
    root: u64,
    s: nat,
    fault: Option<FaultSpec>,
    opts: MitigationOptions,
)
    requires
        opts.action != MitigationAction::Recompute,
    ensures
        mitigated_after(a0, q, root, s, fault, opts) == dit_after(
            a0,
            q,
            root,
            s,
            model_injection(q, fault),
            model_flips(q, fault),
        ),
    decreases s,
{
    if s > 0 {
        let t = (s - 1) as nat;
        lemma_detected_stages_unchanged(a0, q, root, t, fault, opts);
        let x = input_faults(mitigated_after(a0, q, root, t, fault, opts), q, t as int, fault);
        let len = pow2(s) as int;
        let wl = dit_step(root, a0.len(), t, q);
        let flip = stage_flip(q, t as int, fault);
        assert(checked_stage(x, len, wl, q, flip, opts) =~= dit_stage(x, len, wl, q, flip));
    }
}

/// Law: a check that only detects, or aborts, never changes the words. With any action but
/// recomputation, the mitigated transform returns, for every input and every fault, what
/// the unprotected radix-2 transform returns under the same fault.
pub proof fn law_detection_alone_changes_nothing(
    input: Seq<u64>,
    params: RingParams,
    inverse: bool,
    fault: Option<FaultSpec>,
    opts: MitigationOptions,
)
    requires
        opts.action != MitigationAction::Recompute,
    ensures
        mitigated_output(input, params, inverse, fault, opts) == radix2_output(input, params, inverse, fault),
{
    lemma_detected_stages_unchanged(
        bit_reverse(input),
        params.modulus,
        transform_root(params, inverse),
        log2(params.n as nat),
        fault,
        opts,
    );
}

/// Law: at the transform entry with mitigation, a check whose action is not recomputation
/// returns, for every backend, input and fault, what the same entry returns with the check
/// switched off.
pub proof fn law_detection_alone_keeps_the_transform(
    x: Seq<u64>,
    params: RingParams,
    inverse: bool,
    implementation: NttImplementation,
    mitigation: MitigationOptions,
    fault: Option<FaultSpec>,
)
    requires
        mitigation.action != MitigationAction::Recompute,
    ensures
        transform_result(x, params, inverse, implementation, mitigation, fault) == transform_result(
            x,
            params,
            inverse,
            implementation,
            MitigationOptions { kind: MitigationKind::Disabled, ..mitigation },
            fault,
        ),
{
    law_detection_alone_changes_nothing(x, params, inverse, fault, mitigation);
}

/// The checks one mitigated stage of `n` words performs: one per butterfly under the
/// butterfly check, one per stage under the stage checksum.
pub open spec fn checks_per_stage(n: nat, opts: MitigationOptions) -> nat {
    if opts.kind == MitigationKind::ButterflyCheck {
        n / 2
    } else if opts.kind == MitigationKind::StageChecksum {
        1
    } else {
        0
    }
}

/// The first `s` mitigated stages perform `s` times the checks of one stage.
proof fn lemma_checks_count(a0: Seq<u64>, q: u64, root: u64, s: nat, fault: Option<FaultSpec>, opts: MitigationOptions)
    ensures
        tally_after(a0, q, root, s, fault, opts).checks == s * checks_per_stage(a0.len(), opts),
        tally_after(a0, q, root, s, fault, opts).stage_checks == s * (if opts.kind == MitigationKind::StageChecksum {
            1nat
        } else {
            0nat
        }),
    decreases s,
{
    if s > 0 {
        let t = (s - 1) as nat;
        lemma_checks_count(a0, q, root, t, fault, opts);
        crate::ntt::lengths::lemma_mitigated_after_len(a0, q, root, t, fault, opts);
        crate::ntt::spec::lemma_input_faults_len(mitigated_after(a0, q, root, t, fault, opts), q, t as int, fault);
        let c = checks_per_stage(a0.len(), opts);
        assert(s * c == t * c + c) by (nonlinear_arith)
            requires
                s == t + 1,
        ;
        let d: nat = if opts.kind == MitigationKind::StageChecksum {
            1nat
        } else {
            0nat
        };
        assert(s * d == t * d + d) by (nonlinear_arith)
            requires
                s == t + 1,
        ;
    }
}

/// Law: whatever the fault, the mitigated transform of `n` words performs `log2(n)` times
/// the checks of one stage: `(n/2) * log2(n)` under the butterfly check, `log2(n)` under the
/// stage checksum, and counts a stage check for each stage of the checksum alone.
pub proof fn law_checks_performed(
    input: Seq<u64>,
    params: RingParams,
    inverse: bool,
    fault: Option<FaultSpec>,
    opts: MitigationOptions,
)
    ensures
        ({
            let t = tally_after(
                bit_reverse(input),
                params.modulus,
                transform_root(params, inverse),
                log2(params.n as nat),
                fault,
                opts,
            );
            &&& t.checks == log2(params.n as nat) * checks_per_stage(input.len(), opts)
            &&& t.stage_checks == (if opts.kind == MitigationKind::StageChecksum {
                log2(params.n as nat)
            } else {
                0
            })
        }),
{
    lemma_checks_count(
        bit_reverse(input),
        params.modulus,
        transform_root(params, inverse),
        log2(params.n as nat),
        fault,
        opts,
    );
}

/// Law: the centered lift of a word below `q` lies in the symmetric range
/// `[-(q/2), q/2]` and is congruent to the word: it is the word itself up to `q/2`, and the
/// word minus `q` above.
pub proof fn law_centered_in_symmetric_range(x: u64, q: u64)
    requires
        q > 0,
        x < q,
    ensures
        -((q as int) / 2) <= centered_spec(x as int, q as int) <= (q as int) / 2,
        centered_spec(x as int, q as int) % (q as int) == x,
        centered_spec(x as int, q as int) == x || centered_spec(x as int, q as int) == x - q,
{
    law_centered_round_trip(x, q);
}

/// Law: reading a word in the symmetric range and reducing it again gives the word back.
pub proof fn law_centered_round_trip(x: u64, q: u64)
    requires
        q > 0,
        x < q,
    ensures
        centered_spec(x as int, q as int) % (q as int) == x,
{
    if x <= q / 2 {
        vstd::arithmetic::div_mod::lemma_small_mod(x as nat, q as nat);
    } else {
        vstd::arithmetic::div_mod::lemma_mod_add_multiples_vanish(x - q, q as int);
        vstd::arithmetic::div_mod::lemma_small_mod(x as nat, q as nat);
    }
}


/// Law: on every reduced input of the right length, the fault-free radix-2 backend
/// returns exactly what the direct quadratic backend returns, forward (root `ω`) and
/// backward (root `ω^(q-2)`, then the scaling by `n^(q-2)`).
pub proof fn law_radix2_matches_direct(input: Seq<u64>, params: RingParams, inverse: bool)
    requires
        params.has_roots(),
        input.len() == params.n,
        reduced(input, params.modulus),
    ensures
        naive_result(input, params, inverse, None) == Ok::<Seq<u64>, NttError>(
            radix2_output(input, params, inverse, None),
        ),
{
    lemma_no_fault_model(params.modulus, params.modulus_bits);
    if params.n >= 2 {
        lemma_transform_root_half(params, inverse);
    }
    lemma_dit_is_direct(input, transform_root(params, inverse), params.modulus);
}


/// Law: on every reduced input of the right length, the fault-free
/// decimation-in-frequency backend returns exactly what the direct quadratic backend
/// returns, forward and backward.
pub proof fn law_dif_matches_direct(input: Seq<u64>, params: RingParams, inverse: bool)
    requires
        params.has_roots(),
        input.len() == params.n,
        reduced(input, params.modulus),
    ensures
        naive_result(input, params, inverse, None) == Ok::<Seq<u64>, NttError>(
            dif_output(input, params, inverse, None),
        ),
{
    lemma_no_fault_model(params.modulus, params.modulus_bits);
    if params.n >= 2 {
        lemma_transform_root_half(params, inverse);
    }
    lemma_dif_is_direct(input, transform_root(params, inverse), params.modulus);
}


/// Law: on every reduced input of the right length, the fault-free
/// decimation-in-frequency backend returns exactly what the radix-2 backend returns,
/// forward and backward.
pub proof fn law_dif_matches_radix2(input: Seq<u64>, params: RingParams, inverse: bool)
    requires
        params.has_roots(),
        input.len() == params.n,
        reduced(input, params.modulus),
    ensures
        dif_output(input, params, inverse, None) == radix2_output(input, params, inverse, None),
{
    law_radix2_matches_direct(input, params, inverse);
    law_dif_matches_direct(input, params, inverse);
}

/// Law: on every reduced input of the right length, every backend
/// returns without a fault exactly what the direct quadratic backend returns, forward and
/// backward.
pub proof fn law_backends_match_direct(
    input: Seq<u64>,
    params: RingParams,
    inverse: bool,
    implementation: NttImplementation,
)
    requires
        params.has_roots(),
        input.len() == params.n,
        reduced(input, params.modulus),
    ensures
        backend_output(input, params, inverse, None, implementation) == naive_result(input, params, inverse, None),
{
    law_backends_agree_without_fault(input, params, inverse);
    law_radix2_matches_direct(input, params, inverse);
    law_dif_matches_direct(input, params, inverse);
}

/// Law: for a modulus that passes the primality test, every backend's forward transform
/// of a reduced input is the direct transform with `ω`, and every backend's backward
/// transform gives the input back.
pub proof fn law_round_trip(x: Seq<u64>, params: RingParams, implementation: NttImplementation)
    requires
        params.has_roots(),
        passes_primality_test(params.modulus as int),
        x.len() == params.n,
        reduced(x, params.modulus),
    ensures
        backend_output(x, params, false, None, implementation) == Ok::<Seq<u64>, NttError>(
            direct_transform(x, params.primitive_n_root, params.modulus),
        ),
        backend_output(
            direct_transform(x, params.primitive_n_root, params.modulus),
            params,
            true,
            None,
            implementation,
        ) == Ok::<Seq<u64>, NttError>(x),
{
    let q = params.modulus;
    let w = params.primitive_n_root;
    let y = direct_transform(x, w, q);
    law_backends_match_direct(x, params, false, implementation);
    lemma_direct_transform_reduced(x, w, q);
    law_backends_match_direct(y, params, true, implementation);
    if params.n >= 2 {
        lemma_transform_root_half(params, false);
    }
    lemma_psi_half(params);
    lemma_fermat_two(q as int);
    lemma_direct_round_trip(x, w, q, params.n as u64);
}


/// Law: without a fault, the fault-study radix-2 transform returns exactly what the
/// radix-2 backend returns, forward and backward (with the scaling by `1/N`); so for a
/// modulus that passes the primality test its backward transform undoes the forward one.
pub proof fn law_recorded_matches_radix2_without_fault(x: Seq<u64>, params: RingParams, inverse: bool)
    requires
        x.len() == params.n,
    ensures
        recorded_result(x, params, inverse, None) == Ok::<Seq<u64>, NttError>(radix2_output(x, params, inverse, None)),
        params.has_roots() && passes_primality_test(params.modulus as int) && reduced(x, params.modulus)
            ==> recorded_result(direct_transform(x, params.primitive_n_root, params.modulus), params, true, None)
            == Ok::<Seq<u64>, NttError>(x),
{
    let q = params.modulus;
    lemma_no_fault_model(q, params.modulus_bits);
    assert forall|s: nat| #[trigger] primary_flips(q, None)(s) == no_flips()(s) by {
        assert(primary_stage_flip(q, s as int, None) =~= no_flip());
    }
    assert(primary_flips(q, None) =~= no_flips());
    if params.has_roots() && passes_primality_test(params.modulus as int) && reduced(x, params.modulus) {
        let y = direct_transform(x, params.primitive_n_root, q);
        law_round_trip(x, params, NttImplementation::Radix2);
        crate::ntt::dft::lemma_direct_transform_reduced(x, params.primitive_n_root, q);
        assert(y.len() == params.n);
        assert forall|s: nat| #[trigger] primary_flips(q, None)(s) == no_flips()(s) by {
            assert(primary_stage_flip(q, s as int, None) =~= no_flip());
        }
    }
}

/// Law: under a fault at the direct backend's single stage, with a slot and bit in range,
/// the direct backend returns the fault-free transform of the words with that bit
/// flipped, and those words are the ones it reports as its input: the fault strikes
/// exactly one input word, before the transform.
pub proof fn law_direct_backend_transforms_faulted_words(
    x: Seq<u64>,
    params: RingParams,
    inverse: bool,
    f: FaultSpec,
)
    requires
        x.len() == params.n,
        f.stage == 0,
        f.slot < params.n,
        f.bit < params.modulus_bits,
    ensures
        ({
            let faulted = x.update(f.slot as int, bit_fault_value(x[f.slot as int], f.bit, params.modulus));
            &&& naive_source(x, params, Some(f)) == faulted
            &&& naive_result(x, params, inverse, Some(f)) == naive_result(faulted, params, inverse, None)
            &&& naive_result(x, params, inverse, Some(f)) == naive_result(
                naive_source(x, params, Some(f)),
                params,
                inverse,
                None,
            )
        }),
{
}

/// A fault description that strikes no input word: every fault it describes lands on
/// an arithmetic result inside a butterfly.
pub open spec fn strikes_no_input(fault: Option<FaultSpec>) -> bool {
    match fault {
        None => true,
        Some(f) => f.site != FaultSite::Input && (!f.second_enabled || f.second_site != FaultSite::Input),
    }
}

/// Modulo an odd `p`, a multiple of `p` that is twice `b` makes `b` a multiple of `p`.
pub proof fn lemma_odd_cancels_two(p: int, b: int)
    requires
        p >= 3,
        p % 2 == 1,
        (2 * b) % p == 0,
    ensures
        b % p == 0,
{
    let h = (p + 1) / 2;
    assert(2 * h == p + 1);
    assert(b * (p + 1) == p * b + b) by (nonlinear_arith);
    lemma_mod_multiples_vanish(b, b, p);
    assert(b * (p + 1) == h * (2 * b)) by (nonlinear_arith)
        requires
            2 * h == p + 1,
    ;
    lemma_mul_mod_noop_right(h, 2 * b, p);
    assert(h * ((2 * b) % p) == 0);
}

/// Modulo an odd `p`, a multiple of `p` that is a power of two times `b` makes `b` a
/// multiple of `p`.
proof fn lemma_odd_cancels_power_of_two(p: int, m: nat, b: int)
    requires
        p >= 3,
        p % 2 == 1,
        is_power_of_two(m),
        (m * b) % p == 0,
    ensures
        b % p == 0,
    decreases m,
{
    if m != 1 {
        let h = m / 2;
        assert(m == 2 * h);
        assert(m * b == 2 * (h * b)) by (nonlinear_arith)
            requires
                m == 2 * h,
        ;
        lemma_odd_cancels_two(p, h * b);
        lemma_odd_cancels_power_of_two(p, h, b);
    }
}

/// Modulo an odd `q`, two reduced butterfly outputs with the sum and difference of the
/// fault-free ones are the fault-free ones.
proof fn lemma_consistent_words(y0: u64, y1: u64, e0: u64, e1: u64, q: u64)
    requires
        q % 2 == 1,
        q >= 3,
        y0 < q,
        y1 < q,
        e0 < q,
        e1 < q,
        add_m(y0, y1, q) == add_m(e0, e1, q),
        sub_m(y0, y1, q) == sub_m(e0, e1, q),
    ensures
        y0 == e0,
        y1 == e1,
{
    let qi = q as int;
    // the differences agree modulo q
    assert(sub_m(y0, y1, q) as int % qi == (y0 - y1) % qi) by {
        if y0 < y1 {
            lemma_mod_add_multiples_vanish(y0 - y1, qi);
        }
    }
    assert(sub_m(e0, e1, q) as int % qi == (e0 - e1) % qi) by {
        if e0 < e1 {
            lemma_mod_add_multiples_vanish(e0 - e1, qi);
        }
    }
    lemma_add_congruent(y0 + y1, e0 + e1, y0 - y1, e0 - e1, qi);
    lemma_sub_mod_noop(y0 + y1, y0 - y1, qi);
    lemma_sub_mod_noop(e0 + e1, e0 - e1, qi);
    lemma_sub_mod_noop(y0 + y1, e0 + e1, qi);
    // 2 y0 = 2 e0 and 2 y1 = 2 e1 modulo q; q does not divide 2
    lemma_mod_equivalence(2 * y0, 2 * e0, qi);
    lemma_mod_equivalence(2 * y1, 2 * e1, qi);
    assert(2 * y0 - 2 * e0 == 2 * (y0 - e0));
    assert(2 * y1 - 2 * e1 == 2 * (y1 - e1));
    lemma_odd_cancels_two(qi, y0 - e0);
    lemma_odd_cancels_two(qi, y1 - e1);
    lemma_mod_equivalence(y0 as int, e0 as int, qi);
    lemma_mod_equivalence(y1 as int, e1 as int, qi);
    lemma_small_mod(y0 as nat, q as nat);
    lemma_small_mod(e0 as nat, q as nat);
    lemma_small_mod(y1 as nat, q as nat);
    lemma_small_mod(e1 as nat, q as nat);
}

/// Modulo an odd `q`, a butterfly of reduced words that passes the check computed
/// exactly its fault-free outputs.
proof fn lemma_consistent_is_exact(
    x: Seq<u64>,
    len: int,
    wl: u64,
    q: u64,
    s: int,
    fault: Option<FaultSpec>,
    lo: int,
)
    requires
        q % 2 == 1,
        q >= 3,
        2 <= len,
        len % 2 == 0,
        (x.len() as int) % len == 0,
        reduced(x, q),
        0 <= lo,
        lo % len < len / 2,
        lo + len / 2 < x.len(),
    ensures
        butterfly_consistent(x, lo, len / 2, wl, q, stage_flip(q, s, fault)) ==> butterfly_exact(
            x,
            lo,
            len / 2,
            wl,
            q,
            stage_flip(q, s, fault),
        ),
{
    let flip = stage_flip(q, s, fault);
    let half = len / 2;
    let clean = dit_stage(x, len, wl, q, no_flip());
    let hit = dit_stage(x, len, wl, q, flip);
    lemma_stage_reduced(x, len, wl, q, s, fault);
    assert(lo % len == lo % (2 * half));
    assert(hit[lo] == dit_lo_out(x, lo, half, wl, q, flip));
    assert(clean[lo] == dit_lo_out(x, lo, half, wl, q, no_flip()));
    lemma_stage_index(lo, half);
    assert(hit[lo + half] == dit_hi_out(x, lo, half, wl, q, flip));
    assert(clean[lo + half] == dit_hi_out(x, lo, half, wl, q, no_flip()));
    if butterfly_consistent(x, lo, half, wl, q, flip) {
        lemma_consistent_words(hit[lo], hit[lo + half], clean[lo], clean[lo + half], q);
    }
}

/// With the butterfly check and recomputation, a stage whose faults all strike inside
/// its butterflies returns the fault-free stage.
proof fn lemma_recomputed_stage(x: Seq<u64>, len: int, wl: u64, q: u64, s: int, fault: Option<FaultSpec>, opts: MitigationOptions)
    requires
        q % 2 == 1,
        q >= 3,
        2 <= len,
        len % 2 == 0,
        (x.len() as int) % len == 0,
        reduced(x, q),
        opts.kind == MitigationKind::ButterflyCheck,
        opts.action == MitigationAction::Recompute,
    ensures
        mitigated_stage(x, len, wl, q, stage_flip(q, s, fault), opts) == dit_stage(x, len, wl, q, no_flip()),
{
    let flip = stage_flip(q, s, fault);
    let half = len / 2;
    let clean = dit_stage(x, len, wl, q, no_flip());
    let hit = dit_stage(x, len, wl, q, flip);
    let y = checked_stage(x, len, wl, q, flip, opts);
    assert forall|i: int| 0 <= i < x.len() implies #[trigger] y[i] == clean[i] by {
        lemma_lo_facts(i, len);
        let lo = butterfly_lo(i, len);
        if !repairs(x, lo, half, wl, q, flip, opts) {
            lemma_fundamental_div_mod(i, len);
            lemma_fundamental_div_mod(x.len() as int, len);
            lemma_partner_below(lo, half, x.len() as int / len);
            lemma_consistent_is_exact(x, len, wl, q, s, fault, lo);
            lemma_stage_index(lo, half);
        }
    }
    assert(y =~= clean);
}

/// The recomputed stages of a faulted run are the fault-free stages.
pub proof fn lemma_recomputed_after(a0: Seq<u64>, q: u64, root: u64, s: nat, fault: Option<FaultSpec>, opts: MitigationOptions)
    requires
        q % 2 == 1,
        q >= 3,
        is_power_of_two(a0.len()),
        s <= log2(a0.len()),
        reduced(a0, q),
        strikes_no_input(fault),
        opts.kind == MitigationKind::ButterflyCheck,
        opts.action == MitigationAction::Recompute,
    ensures
        mitigated_after(a0, q, root, s, fault, opts) == dit_after(a0, q, root, s, no_injection(), no_flips()),
        reduced(mitigated_after(a0, q, root, s, fault, opts), q),
    decreases s,
{
    if s > 0 {
        let t = (s - 1) as nat;
        lemma_recomputed_after(a0, q, root, t, fault, opts);
        let prev = mitigated_after(a0, q, root, t, fault, opts);
        assert(input_faults(prev, q, t as int, fault) == prev);
        lemma_stage_shape(a0.len(), t);
        crate::ntt::lengths::lemma_mitigated_after_len(a0, q, root, t, fault, opts);
        let wl = dit_step(root, a0.len(), t, q);
        lemma_recomputed_stage(prev, pow2(s) as int, wl, q, t as int, fault, opts);
        lemma_stage_reduced(prev, pow2(s) as int, wl, q, t as int, fault);
        assert(no_flips()(t) == no_flip());
        assert(no_injection()(prev, t) == prev);
    }
}

/// A modulus with the root facts is odd: `q = 1 (mod 2N)`.
pub proof fn lemma_root_modulus_odd(params: RingParams)
    requires
        params.has_roots(),
    ensures
        params.modulus % 2 == 1,
        params.modulus >= 3,
{
    let q = params.modulus;
    let m = 2 * (params.n as int);
    lemma_fundamental_div_mod(q as int, m);
    let k = (q as int) / m;
    assert(q as int == 2 * ((params.n as int) * k) + 1) by (nonlinear_arith)
        requires
            q as int == m * k + 1,
            m == 2 * (params.n as int),
    ;
    lemma_mod_multiples_vanish((params.n as int) * k, 1, 2);
}

/// Law: the butterfly check with recomputation removes every fault that strikes inside a
/// butterfly: the mitigated transform of a reduced input returns exactly the fault-free
/// output.
pub proof fn law_butterfly_recompute_repairs(
    input: Seq<u64>,
    params: RingParams,
    inverse: bool,
    fault: Option<FaultSpec>,
    opts: MitigationOptions,
)
    requires
        params.has_roots(),
        input.len() == params.n,
        reduced(input, params.modulus),
        strikes_no_input(fault),
        opts.kind == MitigationKind::ButterflyCheck,
        opts.action == MitigationAction::Recompute,
    ensures
        mitigated_output(input, params, inverse, fault, opts) == radix2_output(input, params, inverse, None),
        transform_result(input, params, inverse, NttImplementation::Radix2, opts, fault) == Ok::<
            Seq<u64>,
            NttError,
        >(radix2_output(input, params, inverse, None)),
{
    let q = params.modulus;
    lemma_no_fault_model(q, params.modulus_bits);
    lemma_root_modulus_odd(params);
    crate::ntt::bitrev::lemma_bit_reverse_reduced(input, q);
    lemma_recomputed_after(bit_reverse(input), q, transform_root(params, inverse), log2(params.n as nat), fault, opts);
}


/// Law: with the stage checksums and recomputation, every mitigated stage returns words
/// that pass the stage's checksums, whatever faults struck it.
pub proof fn law_checksum_recompute_passes(
    x: Seq<u64>,
    len: int,
    wl: u64,
    q: u64,
    s: int,
    fault: Option<FaultSpec>,
    opts: MitigationOptions,
)
    requires
        q >= 2,
        2 <= len,
        len % 2 == 0,
        (x.len() as int) % len == 0,
        x.len() <= u64::MAX,
        opts.kind == MitigationKind::StageChecksum,
        opts.action == MitigationAction::Recompute,
    ensures
        checksums_hold(mitigated_stage(x, len, wl, q, stage_flip(q, s, fault), opts), x, len, wl, q, opts.checksum_mode),
{
    lemma_clean_stage_checksums(x, len, wl, q);
}


/// Law: for an odd modulus and reduced words, the butterfly check flags exactly
/// the butterflies whose outputs a fault changed: no false alarm and no missed change
/// (over the first `t` butterflies of a stage).
pub proof fn law_butterfly_check_flags_changed(
    x: Seq<u64>,
    len: int,
    wl: u64,
    q: u64,
    s: int,
    fault: Option<FaultSpec>,
    t: int,
)
    requires
        q % 2 == 1,
        q >= 3,
        2 <= len,
        len % 2 == 0,
        (x.len() as int) % len == 0,
        reduced(x, q),
        0 <= t <= x.len() / 2,
    ensures
        inconsistent_count(x, len, wl, q, stage_flip(q, s, fault), t) == inexact_count(
            x,
            len,
            wl,
            q,
            stage_flip(q, s, fault),
            t,
        ),
    decreases t,
{
    if t > 0 {
        law_butterfly_check_flags_changed(x, len, wl, q, s, fault, t - 1);
        let half = len / 2;
        let n = x.len() as int;
        let b = t - 1;
        let k = b / half;
        let j = b % half;
        lemma_fundamental_div_mod(b, half);
        lemma_mod_bound(b, half);
        lemma_div_pos_is_pos(b, half);
        lemma_bf_lo(k, half, j);
        let lo = bf_lo(b, half);
        let m = n / len;
        lemma_fundamental_div_mod(n, len);
        assert(lo + half < n) by (nonlinear_arith)
            requires
                lo == k * (2 * half) + j,
                b == half * k + j,
                0 <= j < half,
                b < n / 2,
                n == len * m + 0,
                len == 2 * half,
                half >= 1,
                k >= 0,
        ;
        lemma_consistent_is_exact(x, len, wl, q, s, fault, lo);
    }
}


/// A fault-free transform, through any backend and any mitigation, of a reduced input of
/// the right length returns the fault-free radix-2 output.
pub proof fn lemma_clean_transform(
    x: Seq<u64>,
    params: RingParams,
    inverse: bool,
    implementation: NttImplementation,
    mitigation: MitigationOptions,
)
    requires
        params.has_roots(),
        x.len() == params.n,
        reduced(x, params.modulus),
    ensures
        transform_result(x, params, inverse, implementation, mitigation, None) == Ok::<Seq<u64>, NttError>(
            radix2_output(x, params, inverse, None),
        ),
{
    law_mitigation_transparent_without_fault(x, params, inverse, mitigation);
    law_backends_match_direct(x, params, inverse, implementation);
    law_radix2_matches_direct(x, params, inverse);
}

/// Law: for a modulus that passes the primality test, the fault-free forward transform of
/// a reduced input, through
/// any backend and any mitigation, is the direct transform with `ω`, and the backward
/// transform of that gives the input back.
pub proof fn law_transform_round_trip(
    x: Seq<u64>,
    params: RingParams,
    implementation: NttImplementation,
    mitigation: MitigationOptions,
)
    requires
        params.has_roots(),
        passes_primality_test(params.modulus as int),
        x.len() == params.n,
        reduced(x, params.modulus),
    ensures
        transform_result(x, params, false, implementation, mitigation, None) == Ok::<Seq<u64>, NttError>(
            direct_transform(x, params.primitive_n_root, params.modulus),
        ),
        transform_result(
            direct_transform(x, params.primitive_n_root, params.modulus),
            params,
            true,
            implementation,
            mitigation,
            None,
        ) == Ok::<Seq<u64>, NttError>(x),
{
    let y = direct_transform(x, params.primitive_n_root, params.modulus);
    law_round_trip(x, params, NttImplementation::Radix2);
    lemma_direct_transform_reduced(x, params.primitive_n_root, params.modulus);
    lemma_clean_transform(x, params, false, implementation, mitigation);
    lemma_clean_transform(y, params, true, implementation, mitigation);
}


/// Totals of two functions that agree everywhere but at `a` and `b` differ by the two
/// differences there.
proof fn lemma_range_two_points(f: spec_fn(int) -> int, g: spec_fn(int) -> int, a: int, b: int, m: int)
    requires
        0 <= m,
        a != b,
        forall|i: int| 0 <= i < m && i != a && i != b ==> #[trigger] f(i) == g(i),
    ensures
        range_total(f, 0, m) - range_total(g, 0, m) == (if 0 <= a < m { f(a) - g(a) } else { 0 }) + (if 0
            <= b < m {
            f(b) - g(b)
        } else {
            0
        }),
    decreases m,
{
    if m > 0 {
        lemma_range_two_points(f, g, a, b, m - 1);
    }
}

/// In sum-index mode, a stage output that differs from the fault-free one only in the
/// two words of one butterfly passes both checksums only when it does not differ at all.
proof fn lemma_one_butterfly_caught(x: Seq<u64>, len: int, wl: u64, q: u64, y: Seq<u64>, lo: int)
    requires
        q % 2 == 1,
        is_power_of_two(len as nat),
        2 <= len,
        len % 2 == 0,
        len / 2 < q,
        (x.len() as int) % len == 0,
        x.len() <= u64::MAX,
        reduced(x, q),
        y.len() == x.len(),
        reduced(y, q),
        0 <= lo,
        lo % len < len / 2,
        lo + len / 2 < x.len(),
        forall|i: int|
            0 <= i < x.len() && i != lo && i != lo + len / 2 ==> #[trigger] y[i] == dit_stage(
                x,
                len,
                wl,
                q,
                no_flip(),
            )[i],
        checksums_hold(y, x, len, wl, q, ChecksumMode::SumIndex),
    ensures
        y == dit_stage(x, len, wl, q, no_flip()),
{
    let n = x.len() as int;
    let qi = q as int;
    let half = len / 2;
    let hi = lo + half;
    let c = dit_stage(x, len, wl, q, no_flip());
    lemma_stage_reduced(x, len, wl, q, 0, None);
    lemma_clean_stage_checksums(x, len, wl, q);
    let d0 = y[lo] - c[lo];
    let d1 = y[hi] - c[hi];
    // S1: the totals differ by d0 + d1
    lemma_fold_mod_total(word_terms(y), n, q);
    lemma_fold_mod_total(word_terms(c), n, q);
    let fy = widen(word_terms(y));
    let fc = widen(word_terms(c));
    assert forall|i: int| 0 <= i < n && i != lo && i != hi implies #[trigger] fy(i) == fc(i) by {}
    lemma_range_two_points(fy, fc, lo, hi, n);
    lemma_mod_equivalence(range_total(fy, 0, n), range_total(fc, 0, n), qi);
    assert((d0 + d1) % qi == 0);
    // S2: the totals differ by lo d0 + hi d1, modulo q
    lemma_fold_mod_total(weighted_terms(y, q), n, q);
    lemma_fold_mod_total(weighted_terms(c, q), n, q);
    let gy = widen(weighted_terms(y, q));
    let gc = widen(weighted_terms(c, q));
    assert forall|i: int| 0 <= i < n && i != lo && i != hi implies #[trigger] gy(i) == gc(i) by {}
    lemma_range_two_points(gy, gc, lo, hi, n);
    lemma_mod_equivalence(range_total(gy, 0, n), range_total(gc, 0, n), qi);
    let e0 = gy(lo) - gc(lo);
    let e1 = gy(hi) - gc(hi);
    assert((e0 + e1) % qi == 0);
    assert(gy(lo) == (lo * y[lo]) % qi && gc(lo) == (lo * c[lo]) % qi);
    assert(gy(hi) == (hi * y[hi]) % qi && gc(hi) == (hi * c[hi]) % qi);
    lemma_sub_mod_noop(lo * y[lo], lo * c[lo], qi);
    lemma_sub_mod_noop(hi * y[hi], hi * c[hi], qi);
    assert(lo * y[lo] - lo * c[lo] == lo * d0) by (nonlinear_arith)
        requires
            d0 == y[lo] - c[lo],
    ;
    assert(hi * y[hi] - hi * c[hi] == hi * d1) by (nonlinear_arith)
        requires
            d1 == y[hi] - c[hi],
    ;
    lemma_mod_twice(lo * y[lo], qi);
    lemma_mod_twice(lo * c[lo], qi);
    lemma_mod_twice(hi * y[hi], qi);
    lemma_mod_twice(hi * c[hi], qi);
    lemma_sub_mod_noop(gy(lo), gc(lo), qi);
    lemma_sub_mod_noop(gy(hi), gc(hi), qi);
    lemma_add_congruent(e0, lo * d0, e1, hi * d1, qi);
    // lo d0 + hi d1 = lo (d0 + d1) + half d1, so half d1 = 0 (mod q)
    assert(lo * d0 + hi * d1 == lo * (d0 + d1) + half * d1) by (nonlinear_arith)
        requires
            hi == lo + half,
    ;
    assert((lo * d0 + hi * d1) % qi == 0);
    lemma_mul_mod_noop_right(lo, d0 + d1, qi);
    lemma_small_mod(0, q as nat);
    assert((lo * (d0 + d1)) % qi == 0);
    lemma_add_mod_noop(lo * (d0 + d1), half * d1, qi);
    lemma_mod_bound(half * d1, qi);
    lemma_small_mod(((half * d1) % qi) as nat, q as nat);
    assert((half * d1) % qi == 0);
    assert(is_power_of_two(half as nat));
    lemma_odd_cancels_power_of_two(qi, half as nat, d1);
    // both differences vanish
    assert(d1 == 0) by {
        lemma_mod_equivalence(y[hi] as int, c[hi] as int, qi);
        lemma_small_mod(y[hi] as nat, q as nat);
        lemma_small_mod(c[hi] as nat, q as nat);
    }
    assert(d0 == 0) by {
        lemma_mod_equivalence(y[lo] as int, c[lo] as int, qi);
        lemma_small_mod(y[lo] as nat, q as nat);
        lemma_small_mod(c[lo] as nat, q as nat);
    }
    assert(y =~= c);
}


/// A butterfly whose words no fault of a single-fault description names computes its
/// fault-free outputs.
proof fn lemma_untouched_butterfly(x: Seq<u64>, lo: int, half: int, wl: u64, q: u64, s: int, f: FaultSpec)
    requires
        !f.second_enabled,
        f.slot != lo,
        f.slot != lo + half,
    ensures
        dit_lo_out(x, lo, half, wl, q, stage_flip(q, s, Some(f))) == dit_lo_out(x, lo, half, wl, q, no_flip()),
        dit_hi_out(x, lo, half, wl, q, stage_flip(q, s, Some(f))) == dit_hi_out(x, lo, half, wl, q, no_flip()),
{
}

/// Law: for an odd modulus above the half-block and blocks of a power-of-two length, the
/// stage checksums in sum-index mode catch every single fault: a stage struck by one fault
/// passes both checksums only when its output is the fault-free one.
pub proof fn law_index_checksums_catch_single_faults(
    x: Seq<u64>,
    len: int,
    wl: u64,
    q: u64,
    s: int,
    f: FaultSpec,
)
    requires
        q % 2 == 1,
        is_power_of_two(len as nat),
        2 <= len,
        len % 2 == 0,
        len / 2 < q,
        (x.len() as int) % len == 0,
        x.len() <= u64::MAX,
        reduced(x, q),
        !f.second_enabled,
    ensures
        checksums_hold(dit_stage(x, len, wl, q, stage_flip(q, s, Some(f))), x, len, wl, q, ChecksumMode::SumIndex)
            ==> dit_stage(x, len, wl, q, stage_flip(q, s, Some(f))) == dit_stage(x, len, wl, q, no_flip()),
{
    let n = x.len() as int;
    let half = len / 2;
    let flip = stage_flip(q, s, Some(f));
    let hit = dit_stage(x, len, wl, q, flip);
    let clean = dit_stage(x, len, wl, q, no_flip());
    let slot = f.slot as int;
    let lo = butterfly_lo(slot, len);
    lemma_lo_facts(slot, len);
    // every word outside the butterfly of the fault's slot is fault-free
    assert forall|i: int| 0 <= i < n && !(slot < n && (i == lo || i == lo + half)) implies #[trigger] hit[i]
        == clean[i] by {
        lemma_lo_facts(i, len);
        let li = butterfly_lo(i, len);
        lemma_lo_facts(li, len);
        lemma_lo_facts(li + half, len);
        lemma_fundamental_div_mod(li, len);
        lemma_small_mod((li % len) as nat, len as nat);
        if slot == li || slot == li + half {
            assert(butterfly_lo(li, len) == li);
            assert((li + half) % len == li % len + half) by {
                lemma_fundamental_div_mod_converse(li + half, len, li / len, li % len + half);
            }
            assert(butterfly_lo(li + half, len) == li);
            lemma_fundamental_div_mod(n, len);
            lemma_partner_below(li, half, n / len);
            assert(slot < n);
        }
        lemma_untouched_butterfly(x, li, half, wl, q, s, f);
    }
    if checksums_hold(hit, x, len, wl, q, ChecksumMode::SumIndex) {
        lemma_stage_reduced(x, len, wl, q, s, Some(f));
        if slot < n {
            lemma_fundamental_div_mod(lo, len);
            lemma_fundamental_div_mod(n, len);
            lemma_partner_below(lo, half, n / len);
            lemma_one_butterfly_caught(x, len, wl, q, hit, lo);
        } else {
            assert(hit =~= clean);
        }
    }
}


/// A stage output that differs from the fault-free one in the single word `i` fails the
/// sum checksum unless it does not differ at all.
proof fn lemma_one_word_caught(x: Seq<u64>, len: int, wl: u64, q: u64, y: Seq<u64>, i: int)
    requires
        q >= 2,
        2 <= len,
        len % 2 == 0,
        (x.len() as int) % len == 0,
        x.len() <= u64::MAX,
        reduced(x, q),
        y.len() == x.len(),
        reduced(y, q),
        0 <= i < x.len(),
        forall|j: int| 0 <= j < x.len() && j != i ==> #[trigger] y[j] == dit_stage(x, len, wl, q, no_flip())[j],
        stage_sum_ok(y, x, len, q),
    ensures
        y == dit_stage(x, len, wl, q, no_flip()),
{
    let n = x.len() as int;
    let qi = q as int;
    let c = dit_stage(x, len, wl, q, no_flip());
    lemma_stage_reduced(x, len, wl, q, 0, None);
    lemma_clean_stage_checksums(x, len, wl, q);
    lemma_fold_mod_total(word_terms(y), n, q);
    lemma_fold_mod_total(word_terms(c), n, q);
    let fy = widen(word_terms(y));
    let fc = widen(word_terms(c));
    assert forall|j: int| 0 <= j < n && j != i && j != -1 implies #[trigger] fy(j) == fc(j) by {}
    lemma_range_two_points(fy, fc, i, -1, n);
    lemma_mod_equivalence(range_total(fy, 0, n), range_total(fc, 0, n), qi);
    lemma_mod_equivalence(y[i] as int, c[i] as int, qi);
    lemma_small_mod(y[i] as nat, q as nat);
    lemma_small_mod(c[i] as nat, q as nat);
    assert(y =~= c);
}

/// Law: the sum checksum alone catches every single fault that strikes one output word
/// (at an addition, subtraction, butterfly output or register write): a stage struck by
/// such a fault passes it only when its output is the fault-free one.
pub proof fn law_sum_checksum_catches_single_word_faults(
    x: Seq<u64>,
    len: int,
    wl: u64,
    q: u64,
    s: int,
    f: FaultSpec,
)
    requires
        q >= 2,
        2 <= len,
        len % 2 == 0,
        (x.len() as int) % len == 0,
        x.len() <= u64::MAX,
        reduced(x, q),
        !f.second_enabled,
        f.site != FaultSite::MulOutput,
    ensures
        stage_sum_ok(dit_stage(x, len, wl, q, stage_flip(q, s, Some(f))), x, len, q) ==> dit_stage(
            x,
            len,
            wl,
            q,
            stage_flip(q, s, Some(f)),
        ) == dit_stage(x, len, wl, q, no_flip()),
{
    let n = x.len() as int;
    let half = len / 2;
    let hit = dit_stage(x, len, wl, q, stage_flip(q, s, Some(f)));
    let clean = dit_stage(x, len, wl, q, no_flip());
    let slot = f.slot as int;
    assert forall|j: int| 0 <= j < n && j != slot implies #[trigger] hit[j] == clean[j] by {
        lemma_lo_facts(j, len);
    }
    if stage_sum_ok(hit, x, len, q) {
        lemma_stage_reduced(x, len, wl, q, s, Some(f));
        if slot < n {
            lemma_one_word_caught(x, len, wl, q, hit, slot);
        } else {
            assert(hit =~= clean);
        }
    }
}

} // verus!
