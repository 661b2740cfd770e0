//! The direct quadratic transform: one logical stage.
use crate::error::NttError;
use crate::fault::{bit_fault_value, inject_bit_fault, FaultSpec};
use crate::modarith::{add_mod, inv_mod, mul_mod, pow_mod};
use crate::ntt::dif::copy_words_from;
use crate::ntt::radix2::{copy_words, scale_in_place, transform_size_ok};
use crate::ntt::spec::{add_m, counts_after_run, fault_value, finish, mul_m, pow_m, scaling_counts, transform_root};
use crate::ntt::{
    add_elapsed_since, has_room, max_usize, transform_cost, NttImplementation, NttSystemMetrics, StageTrace,
};
use crate::params::{log2, RingParams};
use crate::timing::clock_now;
use vstd::arithmetic::mul::*;
use vstd::prelude::*;

verus! {

/// `sum_{j < m} src[j] * root^(j*k mod n)`, reduced modulo `q` after every term.
pub open spec fn direct_sum(src: Seq<u64>, root: u64, q: u64, k: int, m: int) -> u64
    decreases m,
{
    if m <= 0 {
        0
    } else {
        add_m(
            direct_sum(src, root, q, k, m - 1),
            mul_m(src[m - 1], pow_m(root, (((m - 1) * k) % (src.len() as int)) as nat, q), q),
            q,
        )
    }
}

/// The direct transform: `out[k] = sum_j src[j] * root^(jk) mod q`.
pub open spec fn direct_transform(src: Seq<u64>, root: u64, q: u64) -> Seq<u64> {
    Seq::new(src.len(), |k: int| direct_sum(src, root, q, k, src.len() as int))
}

/// What the direct backend returns.
pub open spec fn naive_result(
    input: Seq<u64>,
    params: RingParams,
    inverse: bool,
    fault: Option<FaultSpec>,
) -> Result<Seq<u64>, NttError> {
    let n = params.n;
    let q = params.modulus;
    if input.len() != n {
        Err(NttError::LengthMismatch { expected: n, got: input.len() as usize })
    } else {
        match fault {
            Some(f) => if f.stage != 0 {
                Err(NttError::NaiveStageUnsupported)
            } else if f.slot >= n {
                Err(NttError::FaultSlotOutOfRange { slot: f.slot, len: n })
            } else if f.bit >= params.modulus_bits {
                Err(NttError::FaultBitOutOfRange { bit: f.bit, modulus_bits: params.modulus_bits })
            } else {
                Ok(
                    finish(
                        direct_transform(
                            input.update(f.slot as int, bit_fault_value(input[f.slot as int], f.bit, q)),
                            transform_root(params, inverse),
                            q,
                        ),
                        params,
                        inverse,
                    ),
                )
            },
            None => Ok(finish(direct_transform(input, transform_root(params, inverse), q), params, inverse)),
        }
    }
}

/// The words the direct backend transforms (its input after the fault).
pub open spec fn naive_source(input: Seq<u64>, params: RingParams, fault: Option<FaultSpec>) -> Seq<u64> {
    match fault {
        Some(f) => input.update(f.slot as int, bit_fault_value(input[f.slot as int], f.bit, params.modulus)),
        None => input,
    }
}

/// The direct backend rejects the call before it records anything: a wrong length, or
/// a fault outside the single logical stage.
pub open spec fn naive_rejects_early(input: Seq<u64>, params: RingParams, fault: Option<FaultSpec>) -> bool {
    input.len() != params.n || (fault matches Some(f) && f.stage != 0)
}

/// The counters once the direct backend has recorded its layout.
pub open spec fn naive_layout(m: NttSystemMetrics, n: nat) -> NttSystemMetrics {
    NttSystemMetrics {
        ntt_impl: Some(NttImplementation::Naive),
        input_bytes: max_usize(m.input_bytes, (n * 8) as int),
        output_bytes: max_usize(m.output_bytes, (n * 8) as int),
        scratch_bytes: max_usize(m.scratch_bytes, 0),
        num_memory_reads: (m.num_memory_reads + n) as u64,
        ..m
    }
}

/// The counters after the direct backend has rejected the call.
pub open spec fn naive_error_counts(
    m: NttSystemMetrics,
    input: Seq<u64>,
    params: RingParams,
    fault: Option<FaultSpec>,
) -> NttSystemMetrics {
    if naive_rejects_early(input, params, fault) {
        m
    } else {
        naive_layout(m, params.n as nat)
    }
}

/// The counters after a successful direct run.
pub open spec fn naive_counts(m: NttSystemMetrics, n: nat, inverse: bool, faulted: bool) -> NttSystemMetrics {
    let m1 = naive_layout(m, n);
    let f: nat = if faulted {
        1
    } else {
        0
    };
    let m2 = NttSystemMetrics {
        num_mod_adds: (m1.num_mod_adds + n * n) as u64,
        num_mod_muls: (m1.num_mod_muls + n * n) as u64,
        num_twiddle_loads: (m1.num_twiddle_loads + n * n) as u64,
        num_memory_reads: (m1.num_memory_reads + f + n * n) as u64,
        num_memory_writes: (m1.num_memory_writes + f + n) as u64,
        ..m1
    };
    let m3 = scaling_counts(m2, n, inverse);
    NttSystemMetrics { num_stage_barriers: (m3.num_stage_barriers + 1) as u64, ..m3 }
}

/// The direct transform, counting into `m`.
#[verifier::rlimit(50)]
fn transform_naive_counted(
    input: &[u64],
    params: &RingParams,
    inverse: bool,
    trace_enabled: bool,
    fault: Option<&FaultSpec>,
    m: &mut NttSystemMetrics,
) -> (r: Result<(Vec<u64>, Vec<StageTrace>), NttError>)
    requires
        params.wf(),
        transform_size_ok(params.n as nat, NttImplementation::Naive),
        has_room(*old(m), transform_cost(params.n as nat, NttImplementation::Naive)),
    ensures
        match r {
            Ok(out) => naive_result(input@, *params, inverse, fault_value(fault)) == Ok::<Seq<u64>, NttError>(out.0@),
            Err(e) => naive_result(input@, *params, inverse, fault_value(fault)) == Err::<Seq<u64>, NttError>(e),
        },
        r matches Ok(out) ==> (if trace_enabled {
            &&& out.1@.len() == 1
            &&& out.1@[0].stage == 0
            &&& out.1@[0].input@ == naive_source(input@, *params, fault_value(fault))
            &&& out.1@[0].output@ == out.0@
            &&& out.1@[0].faulted == fault is Some
        } else {
            out.1@.len() == 0
        }),
        r is Ok ==> counts_after_run(*final(m), naive_counts(*old(m), params.n as nat, inverse, fault is Some)),
        r is Err ==> *final(m) == naive_error_counts(*old(m), input@, *params, fault_value(fault)),
{
    let started = clock_now();
    let n = params.n;
    let q = params.modulus;
    if input.len() != n {
        return Err(NttError::LengthMismatch { expected: n, got: input.len() });
    }

    if let Some(spec) = fault {
        if spec.stage != 0 {
            return Err(NttError::NaiveStageUnsupported);
        }
    }

    m.record_layout(n, NttImplementation::Naive);
    m.record_scratch(0);
    m.num_memory_reads += n as u64;
    let ghost m1 = *m;
    assert(m1 == naive_layout(*old(m), n as nat));

    let mut source = copy_words_from(input);
    let mut faulted = false;
    if let Some(spec) = fault {
        match inject_bit_fault(source.as_mut_slice(), spec.slot, spec.bit, params.modulus_bits, q) {
            Ok(()) => {},
            Err(e) => {
                return Err(e);
            },
        }
        faulted = true;
        m.num_memory_reads += 1;
        m.num_memory_writes += 1;
    }
    assert(source@ == naive_source(input@, *params, fault_value(fault)));

    let before = copy_words(&source);
    let root = if inverse {
        inv_mod(params.primitive_n_root, q)
    } else {
        params.primitive_n_root
    };
    let ghost m2 = *m;
    let ghost fcount: nat = if faulted { 1 } else { 0 };
    proof {
        assert(n * n + n + 1 + n <= 4 * n * n + 4 * n + 16) by (nonlinear_arith);
    }

    let mut out: Vec<u64> = Vec::with_capacity(n);
    let mut k: usize = 0;
    while k < n
        invariant
            n == params.n,
            n == source@.len(),
            q == params.modulus,
            q >= 2,
            k <= n,
            n * n <= usize::MAX,
            has_room(*old(m), transform_cost(n as nat, NttImplementation::Naive)),
            m1 == naive_layout(*old(m), n as nat),
            m2 == (NttSystemMetrics {
                num_memory_reads: (m1.num_memory_reads + fcount) as u64,
                num_memory_writes: (m1.num_memory_writes + fcount) as u64,
                ..m1
            }),
            fcount <= 1,
            out@.len() == k,
            forall|i: int| 0 <= i < k ==> out@[i] == direct_sum(source@, root, q, i, n as int),
            *m == (NttSystemMetrics {
                num_mod_adds: (m2.num_mod_adds + k * n) as u64,
                num_mod_muls: (m2.num_mod_muls + k * n) as u64,
                num_twiddle_loads: (m2.num_twiddle_loads + k * n) as u64,
                num_memory_reads: (m2.num_memory_reads + k * n) as u64,
                num_memory_writes: (m2.num_memory_writes + k) as u64,
                ..m2
            }),
        decreases n - k,
    {
        proof {
            assert(k * n + n <= n * n) by (nonlinear_arith)
                requires
                    k < n,
            ;
        }
        let mut acc: u64 = 0;
        let mut j: usize = 0;
        while j < n
            invariant
                n == source@.len(),
                q >= 2,
                k < n,
                j <= n,
                n * n <= usize::MAX,
                k * n + n <= n * n,
                has_room(*old(m), transform_cost(n as nat, NttImplementation::Naive)),
                m1 == naive_layout(*old(m), n as nat),
                m2 == (NttSystemMetrics {
                    num_memory_reads: (m1.num_memory_reads + fcount) as u64,
                    num_memory_writes: (m1.num_memory_writes + fcount) as u64,
                    ..m1
                }),
                fcount <= 1,
                acc == direct_sum(source@, root, q, k as int, j as int),
                *m == (NttSystemMetrics {
                    num_mod_adds: (m2.num_mod_adds + k * n + j) as u64,
                    num_mod_muls: (m2.num_mod_muls + k * n + j) as u64,
                    num_twiddle_loads: (m2.num_twiddle_loads + k * n + j) as u64,
                    num_memory_reads: (m2.num_memory_reads + k * n + j) as u64,
                    num_memory_writes: (m2.num_memory_writes + k) as u64,
                    ..m2
                }),
            decreases n - j,
        {
            proof {
                assert(j * k <= n * n) by (nonlinear_arith)
                    requires
                        j < n,
                        k < n,
                ;
            }
            assert(k * n + j + 1 <= n * n);
            assert(4 * n * n + 4 * n + 16 >= n * n + n + 2) by (nonlinear_arith);
            let exponent = ((j * k) % n) as u64;
            let w = pow_mod(root, exponent, q);
            let term = mul_mod(source[j], w, q);
            acc = add_mod(acc, term, q);
            m.num_mod_muls += 1;
            m.num_mod_adds += 1;
            m.num_twiddle_loads += 1;
            m.num_memory_reads += 1;
            j = j + 1;
        }
        out.push(acc);
        m.num_memory_writes += 1;
        proof {
            lemma_mul_is_distributive_add_other_way(n as int, k as int, 1);
        }
        k = k + 1;
    }
    assert(out@ =~= direct_transform(source@, root, q));
    proof {
        assert(n * n + n + 1 + n + n <= 4 * n * n + 4 * n + 16) by (nonlinear_arith);
    }

    if inverse {
        let n_inv = inv_mod(n as u64, q);
        scale_in_place(&mut out, n_inv, q, m);
    }

    let traces = if trace_enabled {
        let output = copy_words(&out);
        vec![StageTrace { stage: 0, input: before, output, faulted }]
    } else {
        Vec::new()
    };

    m.num_stage_barriers += 1;
    add_elapsed_since(m, &started);

    Ok((out, traces))
}

/// The direct quadratic backend.
pub fn transform_naive(
    input: &[u64],
    params: &RingParams,
    inverse: bool,
    trace_enabled: bool,
    fault: Option<&FaultSpec>,
    metrics: Option<&mut NttSystemMetrics>,
) -> (r: Result<(Vec<u64>, Vec<StageTrace>), NttError>)
    requires
        input@.len() == params.n ==> {
            &&& params.wf()
            &&& transform_size_ok(params.n as nat, NttImplementation::Naive)
            &&& metrics matches Some(m) ==> has_room(*m, transform_cost(params.n as nat, NttImplementation::Naive))
        },
    ensures
        match r {
            Ok(out) => naive_result(input@, *params, inverse, fault_value(fault)) == Ok::<Seq<u64>, NttError>(out.0@),
            Err(e) => naive_result(input@, *params, inverse, fault_value(fault)) == Err::<Seq<u64>, NttError>(e),
        },
        r matches Ok(out) ==> (if trace_enabled {
            &&& out.1@.len() == 1
            &&& out.1@[0].stage == 0
            &&& out.1@[0].input@ == naive_source(input@, *params, fault_value(fault))
            &&& out.1@[0].output@ == out.0@
            &&& out.1@[0].faulted == fault is Some
        } else {
            out.1@.len() == 0
        }),
        r is Ok ==> (metrics matches Some(m) ==> counts_after_run(
            *final(m),
            naive_counts(*m, params.n as nat, inverse, fault is Some),
        )),
        r is Err ==> (metrics matches Some(m) ==> *final(m) == naive_error_counts(
            *m,
            input@,
            *params,
            fault_value(fault),
        )),
{
    if input.len() != params.n {
        return Err(NttError::LengthMismatch { expected: params.n, got: input.len() });
    }
    match metrics {
        Some(m) => transform_naive_counted(input, params, inverse, trace_enabled, fault, m),
        None => {
            let mut scratch = NttSystemMetrics::default();
            transform_naive_counted(input, params, inverse, trace_enabled, fault, &mut scratch)
        },
    }
}

} // verus!
