//! The fused radix-4 backend: pairs of radix-2 stages grouped into one pass.
use crate::fault::FaultSpec;
use crate::modarith::inv_mod;
use crate::ntt::bitrev::bit_reverse_copy;
use crate::ntt::faults::apply_input_faults_for_stage;
use crate::ntt::radix2::{copy_words, lemma_count_hits_le, lemma_stage_room, scale_in_place, transform_size_ok};
use crate::ntt::shape::{lemma_log2_small, lemma_stage_exit, lemma_stage_shape};
use crate::ntt::spec::{
    bit_reverse, count_hits, counts_after_run, dit_after, dit_step, fault_fits, fault_value, finish,
    input_fault_hits, input_faults, layout_counts, lemma_input_faults_len, no_flip, no_flips, scaling_counts,
    transform_root, StageHits, StageInjection,
};
use crate::ntt::stage::radix2_stage_in_place;
use crate::ntt::{
    add_elapsed_since, has_room, transform_cost, with_butterflies, NttImplementation, NttSystemMetrics, StageTrace,
    WORD_BYTES,
};
use crate::params::{log2, RingParams};
use crate::timing::clock_now;
use vstd::arithmetic::power2::*;
use vstd::bits::*;
use vstd::prelude::*;

verus! {

/// Input faults strike before the first stage of the pass they name (pass `p` starts
/// at stage `2p`).
pub open spec fn pass_injection(q: u64, fault: Option<FaultSpec>) -> StageInjection {
    |a: Seq<u64>, s: nat|
        if s % 2 == 0 {
            input_faults(a, q, (s / 2) as int, fault)
        } else {
            a
        }
}

/// The passes at which an input fault strikes a vector of `n` words.
pub open spec fn pass_hits(n: nat, fault: Option<FaultSpec>) -> StageHits {
    |p: nat| input_fault_hits(n as int, p as int, fault)
}

/// The number of passes over `l` stages.
pub open spec fn pass_count(l: nat) -> nat {
    (l + 1) / 2
}

/// The last stage covered by pass `p`, plus one.
pub open spec fn pass_end(p: nat, l: nat) -> nat {
    if 2 * p + 2 <= l {
        2 * p + 2
    } else {
        l
    }
}

/// The output of the fused radix-4 backend.
pub open spec fn radix4_output(input: Seq<u64>, params: RingParams, inverse: bool, fault: Option<FaultSpec>) -> Seq<u64> {
    let q = params.modulus;
    finish(
        dit_after(
            bit_reverse(input),
            q,
            transform_root(params, inverse),
            log2(params.n as nat),
            pass_injection(q, fault),
            no_flips(),
        ),
        params,
        inverse,
    )
}

/// One trace per pass when enabled.
pub open spec fn pass_traces_match(
    traces: Seq<StageTrace>,
    enabled: bool,
    a0: Seq<u64>,
    q: u64,
    root: u64,
    passes: nat,
    l: nat,
    inj: StageInjection,
    hit: StageHits,
) -> bool {
    &&& traces.len() == (if enabled {
        passes
    } else {
        0
    })
    &&& forall|p: int|
        0 <= p < traces.len() ==> {
            &&& (#[trigger] traces[p]).stage == p
            &&& traces[p].input@ == inj(dit_after(a0, q, root, (2 * p) as nat, inj, no_flips()), (2 * p) as nat)
            &&& traces[p].output@ == dit_after(a0, q, root, pass_end(p as nat, l), inj, no_flips())
            &&& traces[p].faulted == hit(p as nat)
        }
}

/// `m` after `s` stages grouped into `p` passes, with `faults` injected faults.
pub open spec fn pass_counts(m: NttSystemMetrics, n: nat, s: nat, p: nat, faults: nat) -> NttSystemMetrics {
    NttSystemMetrics {
        num_mod_adds: (m.num_mod_adds + s * (n / 2)) as u64,
        num_mod_subs: (m.num_mod_subs + s * (n / 2)) as u64,
        num_mod_muls: (m.num_mod_muls + s * (2 * (n / 2))) as u64,
        num_twiddle_loads: (m.num_twiddle_loads + s * (n / 2)) as u64,
        num_stage_barriers: (m.num_stage_barriers + p) as u64,
        num_passes: (m.num_passes + p) as u64,
        num_memory_reads: (m.num_memory_reads + s * (2 * (n / 2)) + faults) as u64,
        num_memory_writes: (m.num_memory_writes + s * (2 * (n / 2)) + faults) as u64,
        ..m
    }
}

/// The counters after a fused radix-4 run.
pub open spec fn radix4_counts(m: NttSystemMetrics, n: nat, inverse: bool, faults: nat) -> NttSystemMetrics {
    scaling_counts(
        pass_counts(
            layout_counts(m, n, NttImplementation::Radix4, (n * 8) as int),
            n,
            log2(n),
            pass_count(log2(n)),
            faults,
        ),
        n,
        inverse,
    )
}

/// Room for one more stage of butterflies after `s` stages in `p <= s` passes.
proof fn lemma_pass_room(m1: NttSystemMetrics, m: NttSystemMetrics, n: nat, l: nat, s: nat, p: nat, f: nat, extra: nat)
    requires
        has_room(m1, (l * (n + 2) + n + 8) as int),
        s < l,
        p <= s,
        f <= s,
        extra <= 1,
        m.num_mod_adds == pass_counts(m1, n, s, p, f).num_mod_adds,
        m.num_mod_subs == pass_counts(m1, n, s, p, f).num_mod_subs,
        m.num_mod_muls == pass_counts(m1, n, s, p, f).num_mod_muls,
        m.num_twiddle_loads == pass_counts(m1, n, s, p, f).num_twiddle_loads,
        m.num_stage_barriers == pass_counts(m1, n, s, p, f).num_stage_barriers,
        m.num_passes == pass_counts(m1, n, s, p, f).num_passes,
        m.num_memory_reads == pass_counts(m1, n, s, p, f).num_memory_reads + extra,
        m.num_memory_writes == pass_counts(m1, n, s, p, f).num_memory_writes + extra,
        m.num_buffer_swaps == m1.num_buffer_swaps,
        m.num_blocks == m1.num_blocks,
    ensures
        has_room(m, n as int),
        m.num_memory_reads + 1 <= u64::MAX,
{
    lemma_stage_room(s, l, n, f);
    assert(m1.num_mod_adds + s * (n / 2) <= u64::MAX);
    assert(m1.num_mod_muls + s * (2 * (n / 2)) <= u64::MAX);
    assert(m1.num_memory_reads + s * (2 * (n / 2)) + f <= u64::MAX);
    assert(m1.num_memory_writes + s * (2 * (n / 2)) + f <= u64::MAX);
    assert(m1.num_stage_barriers + p <= u64::MAX);
    assert(m1.num_passes + p <= u64::MAX);
}

/// Counting one stage of butterflies.
proof fn lemma_pass_stage_counts(m1: NttSystemMetrics, n: nat, l: nat, s: nat, p: nat, f: nat, extra: nat)
    requires
        has_room(m1, (l * (n + 2) + n + 8) as int),
        s < l,
        p <= s,
        f <= s,
        extra <= 1,
    ensures
        ({
            let prev = pass_counts(m1, n, s, p, f);
            let mid = NttSystemMetrics {
                num_memory_reads: (prev.num_memory_reads + extra) as u64,
                num_memory_writes: (prev.num_memory_writes + extra) as u64,
                ..prev
            };
            with_butterflies(mid, (n / 2) as int) == pass_counts(m1, n, s + 1, p, f + extra)
        }),
{
    lemma_stage_room(s, l, n, f);
    assert(m1.num_mod_adds + s * (n / 2) + n / 2 <= u64::MAX);
    assert(m1.num_mod_muls + s * (2 * (n / 2)) + 2 * (n / 2) <= u64::MAX);
    assert(m1.num_memory_reads + s * (2 * (n / 2)) + f + 1 + 2 * (n / 2) <= u64::MAX);
    assert(m1.num_memory_writes + s * (2 * (n / 2)) + f + 1 + 2 * (n / 2) <= u64::MAX);
}

#[verifier::rlimit(100)]
fn transform_radix4_fused_counted(
    input: &[u64],
    params: &RingParams,
    inverse: bool,
    trace_enabled: bool,
    fault: Option<&FaultSpec>,
    m: &mut NttSystemMetrics,
) -> (r: (Vec<u64>, Vec<StageTrace>))
    requires
        params.wf(),
        input@.len() == params.n,
        transform_size_ok(params.n as nat, NttImplementation::Radix4),
        fault_fits(fault_value(fault)),
        has_room(*old(m), transform_cost(params.n as nat, NttImplementation::Radix4)),
    ensures
        r.0@ == radix4_output(input@, *params, inverse, fault_value(fault)),
        pass_traces_match(
            r.1@,
            trace_enabled,
            bit_reverse(input@),
            params.modulus,
            transform_root(*params, inverse),
            pass_count(log2(params.n as nat)),
            log2(params.n as nat),
            pass_injection(params.modulus, fault_value(fault)),
            pass_hits(params.n as nat, fault_value(fault)),
        ),
        counts_after_run(
            *final(m),
            radix4_counts(
                *old(m),
                params.n as nat,
                inverse,
                count_hits(pass_hits(params.n as nat, fault_value(fault)), pass_count(log2(params.n as nat))),
            ),
        ),
{
    let started = clock_now();
    let n = params.n;
    let q = params.modulus;
    let ghost l = log2(n as nat);
    let ghost fv = fault_value(fault);
    proof {
        lemma_log2_small(n as nat);
        assert(n + l * (n + 2) + n + 8 + n <= 8 * n * (l + 2) + 16) by (nonlinear_arith)
            requires
                n >= 1,
        ;
    }

    m.record_layout(n, NttImplementation::Radix4);
    m.record_scratch(n * WORD_BYTES);
    m.num_memory_reads += n as u64;
    m.num_memory_writes += n as u64;
    let ghost m1 = *m;
    assert(m1 == layout_counts(*old(m), n as nat, NttImplementation::Radix4, (n * 8) as int));

    let mut a = bit_reverse_copy(input);
    let mut traces: Vec<StageTrace> = Vec::new();

    let root = if inverse {
        inv_mod(params.primitive_n_root, q)
    } else {
        params.primitive_n_root
    };
    let ghost a0 = bit_reverse(input@);
    let ghost inj = pass_injection(q, fv);
    let ghost hits = pass_hits(n as nat, fv);

    let mut len: usize = 2;
    let mut pass: usize = 0;
    let ghost mut stage: nat = 0;
    proof {
        lemma2_to64();
    }

    while len <= n
        invariant
            params.wf(),
            n == params.n,
            q == params.modulus,
            q >= 2,
            l == log2(n as nat),
            l < 64,
            transform_size_ok(n as nat, NttImplementation::Radix4),
            fv == fault_value(fault),
            fault_fits(fv),
            root == transform_root(*params, inverse),
            a0 == bit_reverse(input@),
            a0.len() == n,
            inj == pass_injection(q, fv),
            hits == pass_hits(n as nat, fv),
            stage <= l,
            stage < l ==> stage == 2 * pass,
            stage == l ==> pass == pass_count(l),
            pass <= stage,
            len == pow2(stage + 1),
            a@ == dit_after(a0, q, root, stage, inj, no_flips()),
            a@.len() == n,
            pass_traces_match(traces@, trace_enabled, a0, q, root, pass as nat, l, inj, hits),
            has_room(m1, (l * (n + 2) + n + 8) as int),
            *m == pass_counts(m1, n as nat, stage, pass as nat, count_hits(hits, pass as nat)),
        decreases l - stage,
    {
        proof {
            if stage == l {
                lemma_stage_exit(n as nat);
            }
            assert(stage < l);
            lemma_stage_shape(n as nat, stage);
            lemma_count_hits_le(hits, pass as nat);
        }
        let ghost prev = a@;
        let ghost m_start = *m;
        let mut before = copy_words(&a);
        let mut faulted = false;

        if apply_input_faults_for_stage(a.as_mut_slice(), q, pass, fault) {
            before = copy_words(&a);
            faulted = true;
            proof {
                lemma_pass_room(m1, *m, n as nat, l, stage, pass as nat, count_hits(hits, pass as nat), 0);
            }
            m.num_memory_reads += 1;
            m.num_memory_writes += 1;
        }
        proof {
            lemma_input_faults_len(prev, q, pass as int, fv);
            assert(stage % 2 == 0 && stage / 2 == pass);
        }
        assert(a@ == inj(prev, stage));
        assert(faulted == hits(pass as nat));
        let ghost extra: nat = if faulted { 1 } else { 0 };
        proof {
            lemma_pass_room(m1, *m, n as nat, l, stage, pass as nat, count_hits(hits, pass as nat), extra);
            lemma_pass_stage_counts(m1, n as nat, l, stage, pass as nat, count_hits(hits, pass as nat), extra);
        }

        radix2_stage_in_place(&mut a, n, q, root, len, m);
        proof {
            assert(dit_step(root, n as nat, stage, q) == crate::ntt::spec::pow_m(root, (n / len) as nat, q));
            assert(no_flips()(stage) == no_flip());
            assert(a@ == dit_after(a0, q, root, stage + 1, inj, no_flips()));
            lemma2_to64();
            lemma_usize_shl_is_mul(len, 1);
            lemma_pow2_unfold(stage + 2);
        }
        len <<= 1;
        proof {
            stage = stage + 1;
        }

        if len <= n {
            proof {
                if stage == l {
                    lemma_stage_exit(n as nat);
                }
                lemma_stage_shape(n as nat, stage);
                assert((stage as int) % 2 == 1);
                assert(inj(a@, stage) == a@);
                lemma_pass_room(m1, *m, n as nat, l, stage, pass as nat, count_hits(hits, pass as nat) + extra, 0);
                lemma_pass_stage_counts(m1, n as nat, l, stage, pass as nat, count_hits(hits, pass as nat) + extra, 0);
            }
            radix2_stage_in_place(&mut a, n, q, root, len, m);
            proof {
                assert(dit_step(root, n as nat, stage, q) == crate::ntt::spec::pow_m(root, (n / len) as nat, q));
                assert(no_flips()(stage) == no_flip());
                assert(a@ == dit_after(a0, q, root, stage + 1, inj, no_flips()));
                lemma_usize_shl_is_mul(len, 1);
                lemma_pow2_unfold(stage + 2);
            }
            len <<= 1;
            proof {
                stage = stage + 1;
            }
        } else {
            proof {
                if stage < l {
                    lemma_stage_shape(n as nat, stage);
                }
            }
        }

        proof {
            lemma_stage_room((stage - 1) as nat, l, n as nat, count_hits(hits, pass as nat));
            assert(m1.num_stage_barriers + pass + 1 <= u64::MAX);
            assert(m1.num_passes + pass + 1 <= u64::MAX);
        }
        m.num_stage_barriers += 1;
        m.num_passes += 1;

        if trace_enabled {
            let output = copy_words(&a);
            traces.push(StageTrace { stage: pass, input: before, output, faulted });
        }
        proof {
            assert(pass_end(pass as nat, l) == stage);
            assert forall|p: int| 0 <= p < traces@.len() implies {
                &&& (#[trigger] traces@[p]).stage == p
                &&& traces@[p].input@ == inj(dit_after(a0, q, root, (2 * p) as nat, inj, no_flips()), (2 * p) as nat)
                &&& traces@[p].output@ == dit_after(a0, q, root, pass_end(p as nat, l), inj, no_flips())
                &&& traces@[p].faulted == hits(p as nat)
            } by {}
            assert(count_hits(hits, (pass + 1) as nat) == count_hits(hits, pass as nat) + extra);
        }
        pass += 1;
    }
    proof {
        if stage < l {
            lemma_stage_shape(n as nat, stage);
        }
        assert(stage == l);
        lemma_count_hits_le(hits, pass as nat);
        assert(l * (2 * (n / 2)) <= l * n) by (nonlinear_arith)
            requires
                2 * (n / 2) <= n,
        ;
        assert(l * n + l + n <= l * (n + 2) + n + 8) by (nonlinear_arith);
        assert(l * (n / 2) <= l * n) by (nonlinear_arith)
            requires
                n / 2 <= n,
        ;
    }
    let ghost m2 = *m;

    if inverse {
        let n_inv = inv_mod(n as u64, q);
        scale_in_place(&mut a, n_inv, q, m);
    }
    assert(*m == scaling_counts(m2, n as nat, inverse));

    add_elapsed_since(m, &started);

    (a, traces)
}

/// The fused radix-4 backend.
pub fn transform_radix4_fused(
    input: &[u64],
    params: &RingParams,
    inverse: bool,
    trace_enabled: bool,
    fault: Option<&FaultSpec>,
    metrics: Option<&mut NttSystemMetrics>,
) -> (r: (Vec<u64>, Vec<StageTrace>))
    requires
        params.wf(),
        input@.len() == params.n,
        transform_size_ok(params.n as nat, NttImplementation::Radix4),
        fault_fits(fault_value(fault)),
        metrics matches Some(m) ==> has_room(*m, transform_cost(params.n as nat, NttImplementation::Radix4)),
    ensures
        r.0@ == radix4_output(input@, *params, inverse, fault_value(fault)),
        pass_traces_match(
            r.1@,
            trace_enabled,
            bit_reverse(input@),
            params.modulus,
            transform_root(*params, inverse),
            pass_count(log2(params.n as nat)),
            log2(params.n as nat),
            pass_injection(params.modulus, fault_value(fault)),
            pass_hits(params.n as nat, fault_value(fault)),
        ),
        metrics matches Some(m) ==> counts_after_run(
            *final(m),
            radix4_counts(
                *m,
                params.n as nat,
                inverse,
                count_hits(pass_hits(params.n as nat, fault_value(fault)), pass_count(log2(params.n as nat))),
            ),
        ),
{
    match metrics {
        Some(m) => transform_radix4_fused_counted(input, params, inverse, trace_enabled, fault, m),
        None => {
            let mut scratch = NttSystemMetrics::default();
            transform_radix4_fused_counted(input, params, inverse, trace_enabled, fault, &mut scratch)
        },
    }
}

} // verus!
