//! The baseline backend: bit-reversed input, decimation-in-time stages in place.
use crate::fault::FaultSpec;
use crate::modarith::{inv_mod, mul_mod, pow_mod};
use crate::ntt::bitrev::bit_reverse_copy;
use crate::ntt::faults::apply_input_faults_for_stage;
use crate::ntt::shape::{lemma_log2_small, lemma_stage_exit, lemma_stage_shape};
use crate::ntt::spec::{lemma_input_faults_len, 
    bit_reverse, count_hits, counts_after_run, dit_after, dit_counts, dit_step, fault_fits, fault_value,
    finish, input_faults, inverse_scale, layout_counts, model_flips, model_hits, model_injection, mul_m,
    pow_m, scale, scaling_counts, stage_traces_match, transform_root, StageFlips, StageHits,
};
use crate::ntt::stage::dit_stage_in_place;
use crate::ntt::{
    add_elapsed_since, has_room, transform_cost, with_butterflies, NttImplementation, NttSystemMetrics, StageTrace, WORD_BYTES,
};
use crate::params::{is_power_of_two, log2, RingParams};
use crate::timing::clock_now;
use vstd::arithmetic::mul::*;
use vstd::arithmetic::power2::*;
use vstd::bits::*;
use vstd::prelude::*;

verus! {

/// The sizes for which every counter and byte count of a transform stays in range.
pub open spec fn transform_size_ok(n: nat, implementation: NttImplementation) -> bool {
    &&& is_power_of_two(n)
    &&& 16 * n <= usize::MAX
    &&& transform_cost(n, implementation) <= u64::MAX
    &&& (implementation == NttImplementation::Naive ==> n * n <= usize::MAX)
}

/// The output of the radix-2 backend under the fault model.
pub open spec fn radix2_output(input: Seq<u64>, params: RingParams, inverse: bool, fault: Option<FaultSpec>) -> Seq<u64> {
    let q = params.modulus;
    finish(
        dit_after(
            bit_reverse(input),
            q,
            transform_root(params, inverse),
            log2(params.n as nat),
            model_injection(q, fault),
            model_flips(q, fault),
        ),
        params,
        inverse,
    )
}

/// The counters after a radix-2 run of `n` words with `faults` injected input faults.
pub open spec fn radix2_counts(m: NttSystemMetrics, n: nat, inverse: bool, faults: nat) -> NttSystemMetrics {
    scaling_counts(
        dit_counts(layout_counts(m, n, NttImplementation::Radix2, (n * 8) as int), n, log2(n), faults, 0, 0, 0),
        n,
        inverse,
    )
}

/// A copy of the words of `v`.
pub fn copy_words(v: &Vec<u64>) -> (r: Vec<u64>)
    ensures
        r@ == v@,
{
    let r = v.clone();
    assert(r@ =~= v@);
    r
}

pub proof fn lemma_count_hits_le(hit: StageHits, s: nat)
    ensures
        count_hits(hit, s) <= s,
    decreases s,
{
    if s > 0 {
        lemma_count_hits_le(hit, (s - 1) as nat);
    }
}

/// Room left on the counters before stage `s` of `l`.
pub proof fn lemma_stage_room(s: nat, l: nat, n: nat, f: nat)
    requires
        s < l,
        f <= s,
    ensures
        s * (2 * (n / 2)) + f + n + 2 <= l * (n + 2) + n + 8,
        s + 1 <= l * (n + 2),
        (s + 1) * (2 * (n / 2)) == s * (2 * (n / 2)) + 2 * (n / 2),
        (s + 1) * (n / 2) == s * (n / 2) + n / 2,
        s * (n / 2) + n + 2 <= l * (n + 2) + n + 8,
        s + n + 2 <= l * (n + 2) + n + 8,
        s * n + n + 2 <= l * (n + 2) + n + 8,
{
    assert(2 * (n / 2) <= n);
    assert(s * (2 * (n / 2)) <= s * n) by (nonlinear_arith)
        requires
            2 * (n / 2) <= n,
    ;
    assert(s * n + s + n + 2 <= l * (n + 2) + n + 8) by (nonlinear_arith)
        requires
            s < l,
    ;
    assert(s + 1 <= l * (n + 2)) by (nonlinear_arith)
        requires
            s < l,
    ;
    assert(s * (n / 2) <= s * n) by (nonlinear_arith)
        requires
            n / 2 <= n,
    ;
    lemma_mul_is_distributive_add_other_way((2 * (n / 2)) as int, s as int, 1);
    lemma_mul_is_distributive_add_other_way((n / 2) as int, s as int, 1);
}

/// Before stage `s` (and its possible fault injection) every counter can still take
/// one stage of butterflies.
pub proof fn lemma_room_for_stage(m1: NttSystemMetrics, m: NttSystemMetrics, n: nat, l: nat, s: nat, f: nat, pp: nat, sp: nat, bp: nat)
    requires
        has_room(m1, (l * (n + 2) + n + 8) as int),
        s < l,
        f <= s,
        pp <= n,
        sp <= n,
        bp <= n,
        m.num_mod_adds == dit_counts(m1, n, s, f, pp, sp, bp).num_mod_adds,
        m.num_mod_subs == dit_counts(m1, n, s, f, pp, sp, bp).num_mod_subs,
        m.num_mod_muls == dit_counts(m1, n, s, f, pp, sp, bp).num_mod_muls,
        m.num_twiddle_loads == dit_counts(m1, n, s, f, pp, sp, bp).num_twiddle_loads,
        m.num_stage_barriers == dit_counts(m1, n, s, f, pp, sp, bp).num_stage_barriers,
        m.num_memory_reads <= dit_counts(m1, n, s, f, pp, sp, bp).num_memory_reads + 1,
        m.num_memory_writes <= dit_counts(m1, n, s, f, pp, sp, bp).num_memory_writes + 1,
        m.num_passes == dit_counts(m1, n, s, f, pp, sp, bp).num_passes,
        m.num_buffer_swaps == dit_counts(m1, n, s, f, pp, sp, bp).num_buffer_swaps,
        m.num_blocks == dit_counts(m1, n, s, f, pp, sp, bp).num_blocks,
    ensures
        has_room(m, n as int),
{
    lemma_stage_room(s, l, n, f);
    let sh = s * (n / 2);
    let sn = s * (2 * (n / 2));
    let budget = l * (n + 2) + n + 8;
    assert(s * pp <= s * n && s * sp <= s * n && s * bp <= s * n) by (nonlinear_arith)
        requires
            pp <= n,
            sp <= n,
            bp <= n,
    ;
    assert(m1.num_mod_adds + sh <= u64::MAX);
    assert(m1.num_mod_muls + sn <= u64::MAX);
    assert(m1.num_memory_reads + sn + f <= u64::MAX);
    assert(m1.num_memory_writes + sn + f <= u64::MAX);
    assert(m1.num_stage_barriers + s <= u64::MAX);
    assert(m1.num_passes + s * pp <= u64::MAX);
    assert(m1.num_buffer_swaps + s * sp <= u64::MAX);
    assert(m1.num_blocks + s * bp <= u64::MAX);
}

/// One more stage of counting: optional fault pair, `n/2` butterflies, one barrier,
/// and the per-stage pass, swap and block counts.
pub proof fn lemma_counts_step(m1: NttSystemMetrics, n: nat, l: nat, s: nat, f: nat, hit: bool, pp: nat, sp: nat, bp: nat)
    requires
        has_room(m1, (l * (n + 2) + n + 8) as int),
        s < l,
        f <= s,
        pp <= n,
        sp <= n,
        bp <= n,
    ensures
        ({
            let prev = dit_counts(m1, n, s, f, pp, sp, bp);
            let mid = if hit {
                NttSystemMetrics {
                    num_memory_reads: (prev.num_memory_reads + 1) as u64,
                    num_memory_writes: (prev.num_memory_writes + 1) as u64,
                    ..prev
                }
            } else {
                prev
            };
            let after = with_butterflies(mid, (n / 2) as int);
            (NttSystemMetrics {
                num_stage_barriers: (after.num_stage_barriers + 1) as u64,
                num_passes: (after.num_passes + pp) as u64,
                num_buffer_swaps: (after.num_buffer_swaps + sp) as u64,
                num_blocks: (after.num_blocks + bp) as u64,
                ..after
            }) == dit_counts(m1, n, s + 1, f + if hit { 1nat } else { 0nat }, pp, sp, bp)
        }),
{
    lemma_stage_room(s, l, n, f);
    let sh = s * (n / 2);
    let sn = s * (2 * (n / 2));
    assert(s * pp + pp <= s * n + n && s * sp + sp <= s * n + n && s * bp + bp <= s * n + n) by (nonlinear_arith)
        requires
            pp <= n,
            sp <= n,
            bp <= n,
    ;
    lemma_mul_is_distributive_add_other_way(pp as int, s as int, 1);
    lemma_mul_is_distributive_add_other_way(sp as int, s as int, 1);
    lemma_mul_is_distributive_add_other_way(bp as int, s as int, 1);
    assert(m1.num_mod_adds + sh + n / 2 <= u64::MAX);
    assert(m1.num_mod_muls + sn + 2 * (n / 2) <= u64::MAX);
    assert(m1.num_memory_reads + sn + f + 1 + 2 * (n / 2) <= u64::MAX);
    assert(m1.num_memory_writes + sn + f + 1 + 2 * (n / 2) <= u64::MAX);
    assert(m1.num_stage_barriers + s + 1 <= u64::MAX);
    assert(m1.num_passes + s * pp + pp <= u64::MAX);
    assert(m1.num_buffer_swaps + s * sp + sp <= u64::MAX);
    assert(m1.num_blocks + s * bp + bp <= u64::MAX);
}

/// The whole-run budget fits the per-run cost bound.
pub proof fn lemma_run_room(l: nat, n: nat)
    requires
        n >= 1,
    ensures
        n + l * (n + 2) + n + 8 + n <= 8 * n * (l + 2) + 16,
{
    assert(n + l * (n + 2) + n + 8 + n <= 8 * n * (l + 2) + 16) by (nonlinear_arith)
        requires
            n >= 1,
    ;
}

/// Multiplies every word by `c` modulo `q`, counting one mul, read and write each.
pub fn scale_in_place(a: &mut Vec<u64>, c: u64, q: u64, m: &mut NttSystemMetrics)
    requires
        q >= 2,
        has_room(*old(m), old(a).len() as int),
    ensures
        final(a)@ == scale(old(a)@, c, q),
        *final(m) == scaling_counts(*old(m), old(a).len() as nat, true),
{
    let ghost a0 = a@;
    let ghost m0 = *m;
    let n = a.len();
    let mut i: usize = 0;
    while i < n
        invariant
            n == a.len(),
            a0.len() == n,
            q >= 2,
            i <= n,
            has_room(m0, n as int),
            forall|j: int| 0 <= j < i ==> a@[j] == mul_m(a0[j], c, q),
            forall|j: int| i <= j < n ==> a@[j] == a0[j],
            *m == (NttSystemMetrics {
                num_mod_muls: (m0.num_mod_muls + i) as u64,
                num_memory_reads: (m0.num_memory_reads + i) as u64,
                num_memory_writes: (m0.num_memory_writes + i) as u64,
                ..m0
            }),
        decreases n - i,
    {
        let x = mul_mod(a[i], c, q);
        a.set(i, x);
        m.num_mod_muls += 1;
        m.num_memory_reads += 1;
        m.num_memory_writes += 1;
        i = i + 1;
    }
    assert(a@ =~= scale(a0, c, q));
}

/// The radix-2 backend, counting into `m`.
pub fn transform_radix2_counted(
    input: &[u64],
    params: &RingParams,
    inverse: bool,
    trace_enabled: bool,
    fault: Option<&FaultSpec>,
    m: &mut NttSystemMetrics,
) -> (r: (Vec<u64>, Vec<StageTrace>))
    requires
        params.wf(),
        input@.len() == params.n,
        transform_size_ok(params.n as nat, NttImplementation::Radix2),
        fault_fits(fault_value(fault)),
        has_room(*old(m), transform_cost(params.n as nat, NttImplementation::Radix2)),
    ensures
        r.0@ == radix2_output(input@, *params, inverse, fault_value(fault)),
        stage_traces_match(
            r.1@,
            trace_enabled,
            bit_reverse(input@),
            params.modulus,
            transform_root(*params, inverse),
            log2(params.n as nat),
            model_injection(params.modulus, fault_value(fault)),
            model_flips(params.modulus, fault_value(fault)),
            model_hits(params.n as nat, fault_value(fault)),
        ),
        counts_after_run(
            *final(m),
            radix2_counts(
                *old(m),
                params.n as nat,
                inverse,
                count_hits(model_hits(params.n as nat, fault_value(fault)), log2(params.n as nat)),
            ),
        ),
{
    let started = clock_now();
    let n = params.n;
    let q = params.modulus;
    let ghost l = log2(n as nat);
    let ghost fv = fault_value(fault);
    proof {
        lemma_log2_small(n as nat);
        lemma_run_room(l, n as nat);
    }

    m.record_layout(n, NttImplementation::Radix2);
    m.record_scratch(n * WORD_BYTES);
    m.num_memory_reads += n as u64;
    m.num_memory_writes += n as u64;
    let ghost m1 = *m;
    assert(m1 == layout_counts(*old(m), n as nat, NttImplementation::Radix2, (n * 8) as int));

    let mut a = bit_reverse_copy(input);
    let mut traces: Vec<StageTrace> = Vec::new();

    let root = if inverse {
        inv_mod(params.primitive_n_root, q)
    } else {
        params.primitive_n_root
    };
    let ghost a0 = bit_reverse(input@);
    let ghost inj = model_injection(q, fv);
    let ghost flips = model_flips(q, fv);
    let ghost hits = model_hits(n as nat, fv);

    let mut len: usize = 2;
    let mut stage: usize = 0;
    proof {
        lemma2_to64();
    }

    while len <= n
        invariant
            params.wf(),
            n == params.n,
            q == params.modulus,
            q >= 2,
            l == log2(n as nat),
            l < 64,
            transform_size_ok(n as nat, NttImplementation::Radix2),
            fv == fault_value(fault),
            fault_fits(fv),
            root == transform_root(*params, inverse),
            a0 == bit_reverse(input@),
            a0.len() == n,
            inj == model_injection(q, fv),
            flips == model_flips(q, fv),
            hits == model_hits(n as nat, fv),
            stage <= l,
            len == pow2((stage + 1) as nat),
            a@ == dit_after(a0, q, root, stage as nat, inj, flips),
            a@.len() == n,
            stage_traces_match(traces@, trace_enabled, a0, q, root, stage as nat, inj, flips, hits),
            has_room(m1, (l * (n + 2) + n + 8) as int),
            *m == dit_counts(m1, n as nat, stage as nat, count_hits(hits, stage as nat), 0, 0, 0),
        decreases l - stage,
    {
        proof {
            if stage == l {
                lemma_stage_exit(n as nat);
            }
            assert(stage < l);
            lemma_stage_shape(n as nat, stage as nat);
            lemma_count_hits_le(hits, stage as nat);
            lemma_stage_room(stage as nat, l, n as nat, count_hits(hits, stage as nat));
        }
        let ghost prev = a@;
        let mut before = copy_words(&a);
        let mut faulted = false;

        if apply_input_faults_for_stage(a.as_mut_slice(), q, stage, fault) {
            before = copy_words(&a);
            faulted = true;
            m.num_memory_reads += 1;
            m.num_memory_writes += 1;
        }
        proof {
            lemma_input_faults_len(prev, q, stage as int, fv);
        }
        assert(a@ == inj(prev, stage as nat));
        assert(a@.len() == n);
        assert(before@ == inj(prev, stage as nat));

        let w_len = pow_mod(root, (n / len) as u64, q);
        proof {
            lemma_room_for_stage(m1, *m, n as nat, l, stage as nat, count_hits(hits, stage as nat), 0, 0, 0);
        }
        assert(w_len == dit_step(root, n as nat, stage as nat, q));
        dit_stage_in_place(&mut a, q, w_len, len, stage, fault, m);
        assert(a@ == dit_after(a0, q, root, (stage + 1) as nat, inj, flips));

        m.num_stage_barriers += 1;
        proof {
            lemma_counts_step(m1, n as nat, l, stage as nat, count_hits(hits, stage as nat), faulted, 0, 0, 0);
            assert(count_hits(hits, (stage + 1) as nat) == count_hits(hits, stage as nat) + if faulted { 1nat } else { 0nat });
        }

        if trace_enabled {
            let output = copy_words(&a);
            traces.push(StageTrace { stage, input: before, output, faulted });
        }
        proof {
            assert forall|s: int| 0 <= s < traces@.len() implies {
                &&& (#[trigger] traces@[s]).stage == s
                &&& traces@[s].input@ == inj(dit_after(a0, q, root, s as nat, inj, flips), s as nat)
                &&& traces@[s].output@ == dit_after(a0, q, root, (s + 1) as nat, inj, flips)
                &&& traces@[s].faulted == hits(s as nat)
            } by {}
        }

        proof {
            lemma2_to64();
            lemma_usize_shl_is_mul(len, 1);
            lemma_pow2_unfold((stage + 2) as nat);
        }
        stage += 1;
        len <<= 1;
    }
    proof {
        if stage < l {
            lemma_stage_shape(n as nat, stage as nat);
        }
        assert(stage == l);
        lemma_count_hits_le(hits, l);
        assert(l * (2 * (n / 2)) <= l * n) by (nonlinear_arith)
            requires
                2 * (n / 2) <= n,
        ;
        assert(l * n + l + n <= l * (n + 2) + n + 8) by (nonlinear_arith);
        assert(l * (n / 2) <= l * n) by (nonlinear_arith)
            requires
                n / 2 <= n,
        ;
    }
    let ghost m2 = *m;

    if inverse {
        let n_inv = inv_mod(n as u64, q);
        scale_in_place(&mut a, n_inv, q, m);
    }

    assert(*m == scaling_counts(m2, n as nat, inverse));
    add_elapsed_since(m, &started);

    (a, traces)
}

/// The radix-2 backend.
pub fn transform_radix2(
    input: &[u64],
    params: &RingParams,
    inverse: bool,
    trace_enabled: bool,
    fault: Option<&FaultSpec>,
    metrics: Option<&mut NttSystemMetrics>,
) -> (r: (Vec<u64>, Vec<StageTrace>))
    requires
        params.wf(),
        input@.len() == params.n,
        transform_size_ok(params.n as nat, NttImplementation::Radix2),
        fault_fits(fault_value(fault)),
        metrics matches Some(m) ==> has_room(*m, transform_cost(params.n as nat, NttImplementation::Radix2)),
    ensures
        r.0@ == radix2_output(input@, *params, inverse, fault_value(fault)),
        stage_traces_match(
            r.1@,
            trace_enabled,
            bit_reverse(input@),
            params.modulus,
            transform_root(*params, inverse),
            log2(params.n as nat),
            model_injection(params.modulus, fault_value(fault)),
            model_flips(params.modulus, fault_value(fault)),
            model_hits(params.n as nat, fault_value(fault)),
        ),
        metrics matches Some(m) ==> counts_after_run(
            *final(m),
            radix2_counts(
                *m,
                params.n as nat,
                inverse,
                count_hits(model_hits(params.n as nat, fault_value(fault)), log2(params.n as nat)),
            ),
        ),
{
    match metrics {
        Some(m) => transform_radix2_counted(input, params, inverse, trace_enabled, fault, m),
        None => {
            let mut scratch = NttSystemMetrics::default();
            transform_radix2_counted(input, params, inverse, trace_enabled, fault, &mut scratch)
        },
    }
}

/// The stages keep the number of words.
pub proof fn lemma_dit_after_model_len(a0: Seq<u64>, q: u64, root: u64, s: nat, fault: Option<FaultSpec>, flips: StageFlips)
    ensures
        dit_after(a0, q, root, s, model_injection(q, fault), flips).len() == a0.len(),
    decreases s,
{
    if s > 0 {
        lemma_dit_after_model_len(a0, q, root, (s - 1) as nat, fault, flips);
        lemma_input_faults_len(
            dit_after(a0, q, root, (s - 1) as nat, model_injection(q, fault), flips),
            q,
            (s - 1) as int,
            fault,
        );
    }
}

/// The radix-2 backend returns as many words as it is given.
pub proof fn lemma_radix2_output_len(input: Seq<u64>, params: RingParams, inverse: bool, fault: Option<FaultSpec>)
    ensures
        radix2_output(input, params, inverse, fault).len() == input.len(),
{
    lemma_dit_after_model_len(
        bit_reverse(input),
        params.modulus,
        transform_root(params, inverse),
        log2(params.n as nat),
        fault,
        model_flips(params.modulus, fault),
    );
}

} // verus!
