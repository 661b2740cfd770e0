//! The Stockham-style backend: the radix-2 schedule computed out of place with
//! two ping-pong buffers.
use crate::fault::{inject_bit_fault, bit_fault_value, FaultSpec};
use crate::modarith::{inv_mod, pow_mod};
use crate::ntt::bitrev::bit_reverse_copy;
use crate::ntt::radix2::{
    copy_words, lemma_count_hits_le, lemma_counts_step, lemma_room_for_stage, lemma_stage_room, scale_in_place,
    transform_size_ok,
};
use crate::ntt::shape::{lemma_log2_small, lemma_stage_exit, lemma_stage_shape};
use crate::ntt::spec::{
    bit_reverse, count_hits, counts_after_run, dit_after, dit_counts, dit_step, fault_value, finish,
    layout_counts, no_flips, scaling_counts, stage_traces_match, transform_root, StageHits, StageInjection,
};
use crate::ntt::stage::dit_stage_out_of_place;
use crate::ntt::{
    add_elapsed_since, has_room, transform_cost, NttImplementation, NttSystemMetrics, StageTrace, WORD_BYTES,
};
use crate::params::{log2, RingParams};
use crate::timing::clock_now;
use vstd::arithmetic::power2::*;
use vstd::bits::*;
use vstd::prelude::*;

verus! {

/// The Stockham backend injects `fault` (any site) as a plain bit flip before the stage
/// it names, when the slot and bit are in range.
pub open spec fn stockham_injection(q: u64, modulus_bits: u32, fault: Option<FaultSpec>) -> StageInjection {
    |a: Seq<u64>, s: nat|
        match fault {
            Some(f) => if f.stage == s && f.slot < a.len() && f.bit < modulus_bits {
                a.update(f.slot as int, bit_fault_value(a[f.slot as int], f.bit, q))
            } else {
                a
            },
            None => a,
        }
}

/// The Stockham backend marks the stage that its fault names.
pub open spec fn stockham_hits(fault: Option<FaultSpec>) -> StageHits {
    |s: nat|
        match fault {
            Some(f) => f.stage == s,
            None => false,
        }
}

/// The output of the Stockham backend.
pub open spec fn stockham_output(input: Seq<u64>, params: RingParams, inverse: bool, fault: Option<FaultSpec>) -> Seq<u64> {
    let q = params.modulus;
    finish(
        dit_after(
            bit_reverse(input),
            q,
            transform_root(params, inverse),
            log2(params.n as nat),
            stockham_injection(q, params.modulus_bits, fault),
            no_flips(),
        ),
        params,
        inverse,
    )
}

/// The counters after a Stockham run.
pub open spec fn stockham_counts(m: NttSystemMetrics, n: nat, inverse: bool, faults: nat) -> NttSystemMetrics {
    scaling_counts(
        dit_counts(layout_counts(m, n, NttImplementation::Stockham, (2 * n * 8) as int), n, log2(n), faults, 1, 1, 0),
        n,
        inverse,
    )
}

fn transform_stockham_counted(
    input: &[u64],
    params: &RingParams,
    inverse: bool,
    trace_enabled: bool,
    fault: Option<&FaultSpec>,
    m: &mut NttSystemMetrics,
) -> (r: (Vec<u64>, Vec<StageTrace>))
    requires
        params.wf(),
        input@.len() == params.n,
        transform_size_ok(params.n as nat, NttImplementation::Stockham),
        has_room(*old(m), transform_cost(params.n as nat, NttImplementation::Stockham)),
    ensures
        r.0@ == stockham_output(input@, *params, inverse, fault_value(fault)),
        stage_traces_match(
            r.1@,
            trace_enabled,
            bit_reverse(input@),
            params.modulus,
            transform_root(*params, inverse),
            log2(params.n as nat),
            stockham_injection(params.modulus, params.modulus_bits, fault_value(fault)),
            no_flips(),
            stockham_hits(fault_value(fault)),
        ),
        counts_after_run(
            *final(m),
            stockham_counts(
                *old(m),
                params.n as nat,
                inverse,
                count_hits(stockham_hits(fault_value(fault)), log2(params.n as nat)),
            ),
        ),
{
    let started = clock_now();
    let n = params.n;
    let q = params.modulus;
    let ghost l = log2(n as nat);
    let ghost fv = fault_value(fault);
    proof {
        lemma_log2_small(n as nat);
        assert(n + l * (n + 2) + n + 8 + n <= 8 * n * (l + 2) + 16) by (nonlinear_arith)
            requires
                n >= 1,
        ;
    }

    m.record_layout(n, NttImplementation::Stockham);
    m.record_scratch(2 * n * WORD_BYTES);
    m.num_memory_reads += n as u64;
    m.num_memory_writes += n as u64;
    let ghost m1 = *m;
    assert(m1 == layout_counts(*old(m), n as nat, NttImplementation::Stockham, (2 * n * 8) as int));

    let mut src = bit_reverse_copy(input);
    let mut dst = copy_words(&src);
    let mut traces: Vec<StageTrace> = Vec::new();

    let root = if inverse {
        inv_mod(params.primitive_n_root, q)
    } else {
        params.primitive_n_root
    };
    let ghost a0 = bit_reverse(input@);
    let ghost inj = stockham_injection(q, params.modulus_bits, fv);
    let ghost flips = no_flips();
    let ghost hits = stockham_hits(fv);

    let mut len: usize = 2;
    let mut stage: usize = 0;
    proof {
        lemma2_to64();
    }

    while len <= n
        invariant
            params.wf(),
            n == params.n,
            q == params.modulus,
            q >= 2,
            l == log2(n as nat),
            l < 64,
            transform_size_ok(n as nat, NttImplementation::Stockham),
            fv == fault_value(fault),
            root == transform_root(*params, inverse),
            a0 == bit_reverse(input@),
            a0.len() == n,
            inj == stockham_injection(q, params.modulus_bits, fv),
            flips == no_flips(),
            hits == stockham_hits(fv),
            stage <= l,
            len == pow2((stage + 1) as nat),
            src@ == dit_after(a0, q, root, stage as nat, inj, flips),
            src@.len() == n,
            dst@.len() == n,
            stage_traces_match(traces@, trace_enabled, a0, q, root, stage as nat, inj, flips, hits),
            has_room(m1, (l * (n + 2) + n + 8) as int),
            *m == dit_counts(m1, n as nat, stage as nat, count_hits(hits, stage as nat), 1, 1, 0),
        decreases l - stage,
    {
        proof {
            if stage == l {
                lemma_stage_exit(n as nat);
            }
            assert(stage < l);
            lemma_stage_shape(n as nat, stage as nat);
            lemma_count_hits_le(hits, stage as nat);
            lemma_stage_room(stage as nat, l, n as nat, count_hits(hits, stage as nat));
        }
        let ghost prev = src@;
        let mut before = copy_words(&src);
        let mut faulted = false;

        if let Some(spec) = fault {
            if spec.stage == stage {
                let _ = inject_bit_fault(src.as_mut_slice(), spec.slot, spec.bit, params.modulus_bits, q);
                before = copy_words(&src);
                faulted = true;
                m.num_memory_reads += 1;
                m.num_memory_writes += 1;
            }
        }
        assert(src@ == inj(prev, stage as nat));
        assert(faulted == hits(stage as nat));
        proof {
            lemma_room_for_stage(m1, *m, n as nat, l, stage as nat, count_hits(hits, stage as nat), 1, 1, 0);
        }

        let w_len = pow_mod(root, (n / len) as u64, q);
        assert(w_len == dit_step(root, n as nat, stage as nat, q));
        dit_stage_out_of_place(&src, &mut dst, q, w_len, len, m);
        assert(dst@ == dit_after(a0, q, root, (stage + 1) as nat, inj, flips));

        m.num_stage_barriers += 1;
        m.num_passes += 1;
        m.num_buffer_swaps += 1;
        proof {
            lemma_counts_step(m1, n as nat, l, stage as nat, count_hits(hits, stage as nat), faulted, 1, 1, 0);
        }

        if trace_enabled {
            let output = copy_words(&dst);
            traces.push(StageTrace { stage, input: before, output, faulted });
        }
        proof {
            assert forall|s: int| 0 <= s < traces@.len() implies {
                &&& (#[trigger] traces@[s]).stage == s
                &&& traces@[s].input@ == inj(dit_after(a0, q, root, s as nat, inj, flips), s as nat)
                &&& traces@[s].output@ == dit_after(a0, q, root, (s + 1) as nat, inj, flips)
                &&& traces@[s].faulted == hits(s as nat)
            } by {}
        }

        std::mem::swap(&mut src, &mut dst);
        proof {
            lemma2_to64();
            lemma_usize_shl_is_mul(len, 1);
            lemma_pow2_unfold((stage + 2) as nat);
        }
        stage += 1;
        len <<= 1;
    }
    proof {
        if stage < l {
            lemma_stage_shape(n as nat, stage as nat);
        }
        assert(stage == l);
        lemma_count_hits_le(hits, l);
        assert(l * (2 * (n / 2)) <= l * n) by (nonlinear_arith)
            requires
                2 * (n / 2) <= n,
        ;
        assert(l * n + l + n <= l * (n + 2) + n + 8) by (nonlinear_arith);
        assert(l * (n / 2) <= l * n) by (nonlinear_arith)
            requires
                n / 2 <= n,
        ;
        assert(l * 1 <= l * n) by (nonlinear_arith)
            requires
                n >= 1,
        ;
    }
    let ghost m2 = *m;

    if inverse {
        let n_inv = inv_mod(n as u64, q);
        scale_in_place(&mut src, n_inv, q, m);
    }
    assert(*m == scaling_counts(m2, n as nat, inverse));

    add_elapsed_since(m, &started);

    src.truncate(n);
    (src, traces)
}

/// The Stockham backend.
pub fn transform_stockham(
    input: &[u64],
    params: &RingParams,
    inverse: bool,
    trace_enabled: bool,
    fault: Option<&FaultSpec>,
    metrics: Option<&mut NttSystemMetrics>,
) -> (r: (Vec<u64>, Vec<StageTrace>))
    requires
        params.wf(),
        input@.len() == params.n,
        transform_size_ok(params.n as nat, NttImplementation::Stockham),
        metrics matches Some(m) ==> has_room(*m, transform_cost(params.n as nat, NttImplementation::Stockham)),
    ensures
        r.0@ == stockham_output(input@, *params, inverse, fault_value(fault)),
        stage_traces_match(
            r.1@,
            trace_enabled,
            bit_reverse(input@),
            params.modulus,
            transform_root(*params, inverse),
            log2(params.n as nat),
            stockham_injection(params.modulus, params.modulus_bits, fault_value(fault)),
            no_flips(),
            stockham_hits(fault_value(fault)),
        ),
        metrics matches Some(m) ==> counts_after_run(
            *final(m),
            stockham_counts(
                *m,
                params.n as nat,
                inverse,
                count_hits(stockham_hits(fault_value(fault)), log2(params.n as nat)),
            ),
        ),
{
    match metrics {
        Some(m) => transform_stockham_counted(input, params, inverse, trace_enabled, fault, m),
        None => {
            let mut scratch = NttSystemMetrics::default();
            transform_stockham_counted(input, params, inverse, trace_enabled, fault, &mut scratch)
        },
    }
}

} // verus!
