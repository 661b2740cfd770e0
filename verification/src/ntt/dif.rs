//! The decimation-in-frequency backend: natural-order input, stages from the
//! longest block down, bit-reversed output.
use crate::fault::FaultSpec;
use crate::modarith::{add_mod, inv_mod, mul_mod, pow_mod, sub_mod};
use crate::ntt::bitrev::bit_reverse_copy;
use crate::ntt::faults::apply_input_faults_for_stage;
use crate::ntt::radix2::{
    copy_words, lemma_count_hits_le, lemma_counts_step, lemma_room_for_stage, lemma_stage_room, scale_in_place, transform_size_ok,
};
use crate::ntt::shape::{lemma_log2_small, lemma_stage_shape};
use crate::ntt::spec::{
    add_m, bit_reverse, count_hits, counts_after_run, dif_after, dif_stage, dit_counts, fault_fits, fault_value,
    finish, input_faults, layout_counts, lemma_input_faults_len, model_hits, model_injection, mul_m, pow_m,
    reduced, scaling_counts, sub_m, transform_root, twiddle, StageHits, StageInjection,
};
use crate::ntt::stage::{lemma_block_fits, lemma_block_index, lemma_twiddle_step};
use crate::ntt::{
    add_elapsed_since, has_room, transform_cost, with_butterflies, NttImplementation, NttSystemMetrics, StageTrace,
    WORD_BYTES,
};
use crate::params::{is_power_of_two, lemma_power_of_two_log2, log2, RingParams};
use crate::timing::clock_now;
use vstd::arithmetic::div_mod::*;
use vstd::arithmetic::mul::*;
use vstd::arithmetic::power::*;
use vstd::arithmetic::power2::*;
use vstd::bits::*;
use vstd::prelude::*;

verus! {

/// The subtraction of the butterfly whose upper word is `a[i]`, in a stage over blocks of
/// `len` words, stays in range: the upper word is at least the lower one, or falls short
/// of it by at most `q`.
pub open spec fn dif_pair_fits(a: Seq<u64>, i: int, len: int, q: u64) -> bool {
    a[i] >= a[i + len / 2] || a[i + len / 2] - a[i] <= q
}

/// Every subtraction of a decimation-in-frequency stage over blocks of `len` words stays
/// in range.
pub open spec fn dif_stage_fits(a: Seq<u64>, len: int, q: u64) -> bool {
    forall|i: int| 0 <= i < a.len() && i % len < len / 2 ==> #[trigger] dif_pair_fits(a, i, len, q)
}

/// What the decimation-in-frequency backend needs of its input: the subtractions of its
/// first stage stay in range (every later stage sees words below `q`).
pub open spec fn dif_input_fits(input: Seq<u64>, params: RingParams, fault: Option<FaultSpec>) -> bool {
    dif_stage_fits(input_faults(input, params.modulus, 0, fault), params.n as int, params.modulus)
}

/// Words below `q` keep every subtraction of a stage in range.
pub proof fn lemma_reduced_stage_fits(a: Seq<u64>, len: int, q: u64)
    requires
        reduced(a, q),
        len >= 2,
        (a.len() as int) % len == 0,
    ensures
        dif_stage_fits(a, len, q),
{
    assert forall|i: int| 0 <= i < a.len() && i % len < len / 2 implies #[trigger] dif_pair_fits(a, i, len, q) by {
        lemma_fundamental_div_mod(i, len);
        lemma_fundamental_div_mod(a.len() as int, len);
        let k = i / len;
        assert(i + len / 2 < (k + 1) * len) by (nonlinear_arith)
            requires
                i == len * k + i % len,
                i % len < len / 2,
                len >= 2,
        ;
        assert((k + 1) * len <= a.len()) by (nonlinear_arith)
            requires
                i == len * k + i % len,
                0 <= i % len,
                i < a.len(),
                a.len() == len * ((a.len() as int) / len),
                len >= 2,
        ;
    }
}

/// Words below `q` are fit for the decimation-in-frequency backend.
pub proof fn lemma_reduced_dif_fits(input: Seq<u64>, params: RingParams, fault: Option<FaultSpec>)
    requires
        reduced(input, params.modulus),
        params.wf(),
        input.len() == params.n,
    ensures
        dif_input_fits(input, params, fault),
{
    lemma_input_faults_reduced(input, params.modulus, 0, fault);
    lemma_input_faults_len(input, params.modulus, 0, fault);
    if params.n >= 2 {
        lemma_mod_self_0(params.n as int);
        lemma_reduced_stage_fits(input_faults(input, params.modulus, 0, fault), params.n as int, params.modulus);
    } else {
        assert(params.n == 1);
    }
}

/// The output of the decimation-in-frequency backend.
pub open spec fn dif_output(input: Seq<u64>, params: RingParams, inverse: bool, fault: Option<FaultSpec>) -> Seq<u64> {
    let q = params.modulus;
    finish(
        bit_reverse(
            dif_after(input, q, transform_root(params, inverse), log2(params.n as nat), model_injection(q, fault)),
        ),
        params,
        inverse,
    )
}

/// The traces of the decimation-in-frequency backend.
pub open spec fn dif_traces_match(
    traces: Seq<StageTrace>,
    enabled: bool,
    a0: Seq<u64>,
    q: u64,
    root: u64,
    stages: nat,
    inj: StageInjection,
    hit: StageHits,
) -> bool {
    &&& traces.len() == (if enabled {
        stages
    } else {
        0
    })
    &&& forall|s: int|
        0 <= s < traces.len() ==> {
            &&& (#[trigger] traces[s]).stage == s
            &&& traces[s].input@ == inj(dif_after(a0, q, root, s as nat, inj), s as nat)
            &&& traces[s].output@ == dif_after(a0, q, root, (s + 1) as nat, inj)
            &&& traces[s].faulted == hit(s as nat)
        }
}

/// The counters after a decimation-in-frequency run.
pub open spec fn dif_counts(m: NttSystemMetrics, n: nat, inverse: bool, faults: nat) -> NttSystemMetrics {
    let staged = dit_counts(layout_counts(m, n, NttImplementation::DifRadix2, (n * 8) as int), n, log2(n), faults, 0, 0, 0);
    scaling_counts(
        NttSystemMetrics {
            num_memory_reads: (staged.num_memory_reads + n) as u64,
            num_memory_writes: (staged.num_memory_writes + n) as u64,
            ..staged
        },
        n,
        inverse,
    )
}

/// One decimation-in-frequency stage in place over blocks of `len` words.
fn dif_stage_in_place(a: &mut Vec<u64>, q: u64, w_len: u64, len: usize, m: &mut NttSystemMetrics)
    requires
        q >= 2,
        2 <= len <= old(a).len(),
        len % 2 == 0,
        old(a).len() % len == 0,
        dif_stage_fits(old(a)@, len as int, q),
        has_room(*old(m), old(a).len() as int),
    ensures
        final(a)@ == dif_stage(old(a)@, len as int, w_len, q),
        reduced(final(a)@, q),
        *final(m) == with_butterflies(*old(m), (old(a).len() / 2) as int),
{
    let n = a.len();
    let half = len / 2;
    let ghost a0 = a@;
    let ghost m0 = *m;
    let ghost out = dif_stage(a0, len as int, w_len, q);
    let mut start: usize = 0;
    while start < n
        invariant
            n == a.len(),
            a0.len() == n,
            half == len / 2,
            q >= 2,
            2 <= len <= n,
            len % 2 == 0,
            n % len == 0,
            start % len == 0,
            start <= n,
            dif_stage_fits(a0, len as int, q),
            has_room(m0, n as int),
            out == dif_stage(a0, len as int, w_len, q),
            forall|i: int| 0 <= i < start ==> a@[i] == out[i] && a@[i] < q,
            forall|i: int| start <= i < n ==> a@[i] == a0[i],
            *m == with_butterflies(m0, (start / 2) as int),
        decreases n - start,
    {
        proof {
            lemma_block_fits(start as int, len as int, n as int);
        }
        let mut w: u64 = 1;
        let mut j: usize = 0;
        proof {
            lemma_pow0(w_len as int);
        }
        while j < half
            invariant
                n == a.len(),
                a0.len() == n,
                half == len / 2,
                q >= 2,
                2 <= len <= n,
                len % 2 == 0,
                start % len == 0,
                start + len <= n,
                j <= half,
                dif_stage_fits(a0, len as int, q),
                has_room(m0, n as int),
                out == dif_stage(a0, len as int, w_len, q),
                w == twiddle(w_len, j as int, q),
                forall|i: int| 0 <= i < start + j ==> a@[i] == out[i] && a@[i] < q,
                forall|i: int| start + half <= i < start + half + j ==> a@[i] == out[i] && a@[i] < q,
                forall|i: int| start + j <= i < start + half ==> a@[i] == a0[i],
                forall|i: int| start + half + j <= i < n ==> a@[i] == a0[i],
                *m == with_butterflies(m0, (start / 2 + j) as int),
            decreases half - j,
        {
            let lo = start + j;
            let hi = start + j + half;
            proof {
                lemma_block_index(start as int, len as int, j as int);
                lemma_block_index(start as int, len as int, (j + half) as int);
                lemma_twiddle_step(w_len, j as nat, q);
            }
            let u = a[lo];
            let v = a[hi];
            assert(dif_pair_fits(a0, lo as int, len as int, q));
            let y0 = add_mod(u, v, q);
            a.set(lo, y0);
            let diff = sub_mod(u, v, q);
            let y1 = mul_mod(diff, w, q);
            assert(y0 < q && y1 < q);
            assert(y0 == out[lo as int] && y1 == out[hi as int]);
            a.set(hi, y1);
            w = mul_mod(w, w_len, q);

            m.num_mod_adds += 1;
            m.num_mod_subs += 1;
            m.num_mod_muls += 2;
            m.num_twiddle_loads += 1;
            m.num_memory_reads += 2;
            m.num_memory_writes += 2;
            j = j + 1;
        }
        proof {
            assert((start + len) / 2 == start / 2 + half) by {
                lemma_fundamental_div_mod(start as int, len as int);
                assert(start == len * (start / len));
            }
            lemma_mod_add_multiples_vanish(start as int, len as int);
            assert(j == half);
            assert forall|i: int| 0 <= i < start + len implies #[trigger] a@[i] == out[i] && a@[i] < q by {
                if i >= start + half {
                    assert(start + half <= i < start + half + j);
                } else {
                    assert(i < start + j);
                }
            }
        }
        start = start + len;
    }
    proof {
        assert(a@ =~= out);
    }
}

/// The decimation-in-frequency backend, counting into `m`.
fn transform_dif_radix2_counted(
    input: &[u64],
    params: &RingParams,
    inverse: bool,
    trace_enabled: bool,
    fault: Option<&FaultSpec>,
    m: &mut NttSystemMetrics,
) -> (r: (Vec<u64>, Vec<StageTrace>))
    requires
        params.wf(),
        input@.len() == params.n,
        dif_input_fits(input@, *params, fault_value(fault)),
        transform_size_ok(params.n as nat, NttImplementation::DifRadix2),
        fault_fits(fault_value(fault)),
        has_room(*old(m), transform_cost(params.n as nat, NttImplementation::DifRadix2)),
    ensures
        r.0@ == dif_output(input@, *params, inverse, fault_value(fault)),
        dif_traces_match(
            r.1@,
            trace_enabled,
            input@,
            params.modulus,
            transform_root(*params, inverse),
            log2(params.n as nat),
            model_injection(params.modulus, fault_value(fault)),
            model_hits(params.n as nat, fault_value(fault)),
        ),
        counts_after_run(
            *final(m),
            dif_counts(
                *old(m),
                params.n as nat,
                inverse,
                count_hits(model_hits(params.n as nat, fault_value(fault)), log2(params.n as nat)),
            ),
        ),
{
    let started = clock_now();
    let n = params.n;
    let q = params.modulus;
    let ghost l = log2(n as nat);
    let ghost fv = fault_value(fault);
    proof {
        lemma_log2_small(n as nat);
        assert(n + l * (n + 2) + 2 * n + 8 + n <= 8 * n * (l + 2) + 16) by (nonlinear_arith)
            requires
                n >= 1,
        ;
    }

    m.record_layout(n, NttImplementation::DifRadix2);
    m.record_scratch(n * WORD_BYTES);
    m.num_memory_reads += n as u64;
    m.num_memory_writes += n as u64;
    let ghost m1 = *m;
    assert(m1 == layout_counts(*old(m), n as nat, NttImplementation::DifRadix2, (n * 8) as int));

    let mut a = copy_words_from(input);
    let mut traces: Vec<StageTrace> = Vec::new();

    let root = if inverse {
        inv_mod(params.primitive_n_root, q)
    } else {
        params.primitive_n_root
    };
    let ghost a0 = input@;
    let ghost inj = model_injection(q, fv);
    let ghost hits = model_hits(n as nat, fv);

    let mut len: usize = n;
    let mut stage: usize = 0;
    proof {
        lemma_power_of_two_log2(n as nat);
        lemma2_to64();
    }

    while len >= 2
        invariant
            params.wf(),
            n == params.n,
            q == params.modulus,
            q >= 2,
            l == log2(n as nat),
            l < 64,
            pow2(l) == n,
            transform_size_ok(n as nat, NttImplementation::DifRadix2),
            fv == fault_value(fault),
            fault_fits(fv),
            root == transform_root(*params, inverse),
            a0 == input@,
            a0.len() == n,
            inj == model_injection(q, fv),
            hits == model_hits(n as nat, fv),
            stage <= l,
            len == pow2((l - stage) as nat),
            a@ == dif_after(a0, q, root, stage as nat, inj),
            a@.len() == n,
            stage > 0 ==> reduced(a@, q),
            dif_input_fits(a0, *params, fv),
            dif_traces_match(traces@, trace_enabled, a0, q, root, stage as nat, inj, hits),
            has_room(m1, (l * (n + 2) + 2 * n + 8) as int),
            *m == dit_counts(m1, n as nat, stage as nat, count_hits(hits, stage as nat), 0, 0, 0),
        decreases len,
    {
        proof {
            if stage == l {
                lemma2_to64();
                assert(false);
            }
            lemma_stage_shape(n as nat, (l - stage - 1) as nat);
            lemma_pow2_unfold((l - stage) as nat);
            lemma_pow2_pos((l - stage - 1) as nat);
            lemma_pow2_adds(stage as nat, (l - stage) as nat);
            lemma_pow2_pos(stage as nat);
            lemma_div_multiples_vanish(len as int, pow2(stage as nat) as int);
            assert(pow2(stage as nat) * len == n);
            lemma_mul_is_commutative(pow2(stage as nat) as int, len as int);
            lemma_div_multiples_vanish(pow2(stage as nat) as int, len as int);
            lemma_count_hits_le(hits, stage as nat);
            assert(has_room(m1, (l * (n + 2) + n + 8) as int));
            lemma_stage_room(stage as nat, l, n as nat, count_hits(hits, stage as nat));
        }
        let ghost prev = a@;
        let mut before = copy_words(&a);
        let mut faulted = false;

        if apply_input_faults_for_stage(a.as_mut_slice(), q, stage, fault) {
            before = copy_words(&a);
            faulted = true;
            m.num_memory_reads += 1;
            m.num_memory_writes += 1;
        }
        proof {
            lemma_input_faults_len(prev, q, stage as int, fv);
            if stage > 0 {
                lemma_input_faults_reduced(prev, q, stage as int, fv);
            }
            lemma_room_for_stage(m1, *m, n as nat, l, stage as nat, count_hits(hits, stage as nat), 0, 0, 0);
        }
        assert(a@ == inj(prev, stage as nat));

        let w_len = pow_mod(root, (n / len) as u64, q);
        assert(w_len == pow_m(root, pow2(stage as nat), q));
        proof {
            if stage > 0 {
                assert(n % len == 0) by {
                    lemma_mod_multiples_basic(pow2(stage as nat) as int, len as int);
                    lemma_mul_is_commutative(pow2(stage as nat) as int, len as int);
                }
                lemma_reduced_stage_fits(a@, len as int, q);
            }
        }
        dif_stage_in_place(&mut a, q, w_len, len, m);
        assert(a@ == dif_after(a0, q, root, (stage + 1) as nat, inj));

        m.num_stage_barriers += 1;
        proof {
            lemma_counts_step(m1, n as nat, l, stage as nat, count_hits(hits, stage as nat), faulted, 0, 0, 0);
        }

        if trace_enabled {
            let output = copy_words(&a);
            traces.push(StageTrace { stage, input: before, output, faulted });
        }
        proof {
            assert forall|s: int| 0 <= s < traces@.len() implies {
                &&& (#[trigger] traces@[s]).stage == s
                &&& traces@[s].input@ == inj(dif_after(a0, q, root, s as nat, inj), s as nat)
                &&& traces@[s].output@ == dif_after(a0, q, root, (s + 1) as nat, inj)
                &&& traces@[s].faulted == hits(s as nat)
            } by {}
            lemma_usize_shr_is_div(len, 1);
            lemma2_to64();
        }
        stage += 1;
        len >>= 1;
    }
    proof {
        if stage < l {
            lemma_pow2_pos((l - stage) as nat);
            if l - stage >= 1 {
                lemma_pow2_unfold((l - stage) as nat);
                lemma_pow2_pos((l - stage - 1) as nat);
            }
        }
        assert(stage == l);
        lemma_count_hits_le(hits, l);
        assert(l * (2 * (n / 2)) <= l * n) by (nonlinear_arith)
            requires
                2 * (n / 2) <= n,
        ;
        assert(l * (n / 2) <= l * n) by (nonlinear_arith)
            requires
                n / 2 <= n,
        ;
        assert(l * n + l + 2 * n <= l * (n + 2) + 2 * n + 8) by (nonlinear_arith);
    }

    let ghost staged = a@;
    a = bit_reverse_copy(&a);
    m.num_memory_reads += n as u64;
    m.num_memory_writes += n as u64;
    let ghost m2 = *m;

    if inverse {
        let n_inv = inv_mod(n as u64, q);
        scale_in_place(&mut a, n_inv, q, m);
    }
    assert(*m == scaling_counts(m2, n as nat, inverse));

    add_elapsed_since(m, &started);

    (a, traces)
}

/// The words of `input` in a vector.
pub fn copy_words_from(input: &[u64]) -> (r: Vec<u64>)
    ensures
        r@ == input@,
{
    let mut r: Vec<u64> = Vec::with_capacity(input.len());
    let mut i: usize = 0;
    while i < input.len()
        invariant
            i <= input@.len(),
            r@ == input@.subrange(0, i as int),
        decreases input@.len() - i,
    {
        r.push(input[i]);
        i = i + 1;
        assert(r@ =~= input@.subrange(0, i as int));
    }
    assert(r@ =~= input@);
    r
}

pub proof fn lemma_input_faults_reduced(a: Seq<u64>, q: u64, stage: int, fault: Option<crate::fault::FaultSpec>)
    requires
        reduced(a, q),
        q > 0,
    ensures
        reduced(input_faults(a, q, stage, fault), q),
{
}

/// The decimation-in-frequency backend.
pub fn transform_dif_radix2(
    input: &[u64],
    params: &RingParams,
    inverse: bool,
    trace_enabled: bool,
    fault: Option<&FaultSpec>,
    metrics: Option<&mut NttSystemMetrics>,
) -> (r: (Vec<u64>, Vec<StageTrace>))
    requires
        params.wf(),
        input@.len() == params.n,
        dif_input_fits(input@, *params, fault_value(fault)),
        transform_size_ok(params.n as nat, NttImplementation::DifRadix2),
        fault_fits(fault_value(fault)),
        metrics matches Some(m) ==> has_room(*m, transform_cost(params.n as nat, NttImplementation::DifRadix2)),
    ensures
        r.0@ == dif_output(input@, *params, inverse, fault_value(fault)),
        dif_traces_match(
            r.1@,
            trace_enabled,
            input@,
            params.modulus,
            transform_root(*params, inverse),
            log2(params.n as nat),
            model_injection(params.modulus, fault_value(fault)),
            model_hits(params.n as nat, fault_value(fault)),
        ),
        metrics matches Some(m) ==> counts_after_run(
            *final(m),
            dif_counts(
                *m,
                params.n as nat,
                inverse,
                count_hits(model_hits(params.n as nat, fault_value(fault)), log2(params.n as nat)),
            ),
        ),
{
    match metrics {
        Some(m) => transform_dif_radix2_counted(input, params, inverse, trace_enabled, fault, m),
        None => {
            let mut scratch = NttSystemMetrics::default();
            transform_dif_radix2_counted(input, params, inverse, trace_enabled, fault, &mut scratch)
        },
    }
}

} // verus!
