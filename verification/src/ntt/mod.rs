//! Number theoretic transforms: several backends of the same radix-2 transform,
//! fault injection at butterfly granularity, and mitigated variants.
pub mod bitrev;
pub mod budget;
pub mod checksum;
pub mod dft;
pub mod dif;
pub mod dif_transform;
pub mod faults;
pub mod fermat;
pub mod four_step;
pub mod inverse;
pub mod laws;
pub mod lengths;
pub mod mitigated;
pub mod naive;
pub mod radix2;
pub mod radix4;
pub mod recorded;
pub mod roots;
pub mod shape;
pub mod spec;
pub mod stage;
pub mod stockham;
pub mod transient;

use crate::error::NttError;
use crate::fault::{FaultSite, FaultSpec, bit_fault_value};
use crate::mitigation::{MitigationKind, MitigationMetrics, MitigationOptions};
use crate::modarith::{add_mod, mul_mod};
use crate::ntt::dif::{copy_words_from, dif_counts, dif_input_fits, dif_output, dif_traces_match, transform_dif_radix2};
use crate::ntt::faults::flip_fault_value;
use crate::ntt::four_step::{four_step_counts, four_step_output, transform_four_step_blocked};
use crate::ntt::mitigated::{mitigation_fits, 
    configured_for, counters_advanced, mitigated_output, mitigated_traces_match, tally_after, tally_room,
    transform_radix2_mitigated, tally_within, zero_tally, MitigationTally,
};
use crate::ntt::naive::{naive_counts, naive_error_counts, naive_result, naive_source, transform_naive};
use crate::ntt::radix2::{copy_words, radix2_counts, radix2_output, transform_radix2, transform_size_ok};
use crate::ntt::radix4::{pass_count, pass_hits, pass_injection, pass_traces_match, radix4_counts, radix4_output, transform_radix4_fused};
use crate::ntt::recorded::{
    bytes_room, pre_flipped, primary_flips, radix2_transform_with_fault_and_mitigation, recorded_counts,
    recorded_hits, recorded_layout, recorded_result, recorded_tally_after,
};
use crate::ntt::spec::{
    add_m, bit_reverse, count_hits, counts_after_run, fault_fits, fault_value, flip_value, model_flips, model_hits,
    model_injection, mul_m, no_flips, no_injection, reduced, stage_traces_match, transform_root,
};
use crate::ntt::stockham::{stockham_counts, stockham_hits, stockham_injection, stockham_output, transform_stockham};
use crate::params::{log2, RingParams};
use vstd::prelude::*;

verus! {

/// The transform backends.
#[derive(Clone, Copy, Debug, PartialEq, Eq, Structural)]
pub enum NttImplementation {
    Radix2,
    DifRadix2,
    Stockham,
    Radix4,
    FourStep,
    Naive,
}

impl NttImplementation {
    /// The command-line spelling of the backend.
    pub fn name(&self) -> (r: &'static str)
        ensures
            r@ == implementation_name(*self)@,
    {
        match self {
            NttImplementation::Radix2 => "radix2",
            NttImplementation::DifRadix2 => "dif-radix2",
            NttImplementation::Stockham => "stockham",
            NttImplementation::Radix4 => "radix4",
            NttImplementation::FourStep => "four-step",
            NttImplementation::Naive => "naive",
        }
    }
}

pub open spec fn implementation_name(i: NttImplementation) -> &'static str {
    match i {
        NttImplementation::Radix2 => "radix2",
        NttImplementation::DifRadix2 => "dif-radix2",
        NttImplementation::Stockham => "stockham",
        NttImplementation::Radix4 => "radix4",
        NttImplementation::FourStep => "four-step",
        NttImplementation::Naive => "naive",
    }
}

/// Operation, memory and timing counters of the transforms.
#[derive(Debug, Clone)]
pub struct NttSystemMetrics {
    pub ntt_impl: Option<NttImplementation>,
    pub elapsed_ns: u128,
    pub input_bytes: usize,
    pub output_bytes: usize,
    pub scratch_bytes: usize,
    pub twiddle_table_bytes: usize,
    pub num_mod_adds: u64,
    pub num_mod_subs: u64,
    pub num_mod_muls: u64,
    pub num_twiddle_loads: u64,
    pub num_stage_barriers: u64,
    pub num_memory_reads: u64,
    pub num_memory_writes: u64,
    pub num_passes: u64,
    pub num_buffer_swaps: u64,
    pub num_blocks: u64,
    pub block_bytes: usize,
}

/// Bytes in one coefficient word.
pub const WORD_BYTES: usize = 8;

/// All-zero counters.
pub open spec fn zero_metrics() -> NttSystemMetrics {
    NttSystemMetrics {
        ntt_impl: None,
        elapsed_ns: 0,
        input_bytes: 0,
        output_bytes: 0,
        scratch_bytes: 0,
        twiddle_table_bytes: 0,
        num_mod_adds: 0,
        num_mod_subs: 0,
        num_mod_muls: 0,
        num_twiddle_loads: 0,
        num_stage_barriers: 0,
        num_memory_reads: 0,
        num_memory_writes: 0,
        num_passes: 0,
        num_buffer_swaps: 0,
        num_blocks: 0,
        block_bytes: 0,
    }
}

impl Default for NttSystemMetrics {
    fn default() -> (r: Self)
        ensures
            r == zero_metrics(),
    {
        NttSystemMetrics {
            ntt_impl: None,
            elapsed_ns: 0,
            input_bytes: 0,
            output_bytes: 0,
            scratch_bytes: 0,
            twiddle_table_bytes: 0,
            num_mod_adds: 0,
            num_mod_subs: 0,
            num_mod_muls: 0,
            num_twiddle_loads: 0,
            num_stage_barriers: 0,
            num_memory_reads: 0,
            num_memory_writes: 0,
            num_passes: 0,
            num_buffer_swaps: 0,
            num_blocks: 0,
            block_bytes: 0,
        }
    }
}

/// `a` or `b`, whichever is larger.
pub open spec fn max_usize(a: usize, b: int) -> usize {
    if a >= b {
        a
    } else {
        b as usize
    }
}

/// Every counter of `m` can still grow by `extra`.
pub open spec fn has_room(m: NttSystemMetrics, extra: int) -> bool {
    &&& m.num_mod_adds + extra <= u64::MAX
    &&& m.num_mod_subs + extra <= u64::MAX
    &&& m.num_mod_muls + extra <= u64::MAX
    &&& m.num_twiddle_loads + extra <= u64::MAX
    &&& m.num_stage_barriers + extra <= u64::MAX
    &&& m.num_memory_reads + extra <= u64::MAX
    &&& m.num_memory_writes + extra <= u64::MAX
    &&& m.num_passes + extra <= u64::MAX
    &&& m.num_buffer_swaps + extra <= u64::MAX
    &&& m.num_blocks + extra <= u64::MAX
}

/// An upper bound on how much one transform of `n` words can add to any counter.
pub open spec fn transform_cost(n: nat, implementation: NttImplementation) -> int {
    if implementation == NttImplementation::Naive {
        (4 * n * n + 4 * n + 16) as int
    } else {
        (8 * n * (log2(n) + 2) + 16) as int
    }
}

/// `m` after `k` counted butterflies: one add, one sub, two muls, one twiddle load,
/// two reads and two writes each.
pub open spec fn with_butterflies(m: NttSystemMetrics, k: int) -> NttSystemMetrics {
    NttSystemMetrics {
        num_mod_adds: (m.num_mod_adds + k) as u64,
        num_mod_subs: (m.num_mod_subs + k) as u64,
        num_mod_muls: (m.num_mod_muls + 2 * k) as u64,
        num_twiddle_loads: (m.num_twiddle_loads + k) as u64,
        num_memory_reads: (m.num_memory_reads + 2 * k) as u64,
        num_memory_writes: (m.num_memory_writes + 2 * k) as u64,
        ..m
    }
}

impl NttSystemMetrics {
    /// Records the backend and the input/output footprint of `n` words.
    pub fn record_layout(&mut self, n: usize, implementation: NttImplementation)
        requires
            n * 8 <= usize::MAX,
        ensures
            *final(self) == (NttSystemMetrics {
                ntt_impl: Some(implementation),
                input_bytes: max_usize(old(self).input_bytes, n * 8),
                output_bytes: max_usize(old(self).output_bytes, n * 8),
                ..*old(self)
            }),
    {
        self.ntt_impl = Some(implementation);
        let bytes = n * WORD_BYTES;
        if bytes > self.input_bytes {
            self.input_bytes = bytes;
        }
        if bytes > self.output_bytes {
            self.output_bytes = bytes;
        }
    }

    /// Records a scratch footprint; the largest one seen is kept.
    pub fn record_scratch(&mut self, bytes: usize)
        ensures
            *final(self) == (NttSystemMetrics {
                scratch_bytes: max_usize(old(self).scratch_bytes, bytes as int),
                ..*old(self)
            }),
    {
        if bytes > self.scratch_bytes {
            self.scratch_bytes = bytes;
        }
    }

    pub fn add_elapsed(&mut self, elapsed_ns: u128)
        requires
            old(self).elapsed_ns + elapsed_ns <= u128::MAX,
        ensures
            *final(self) == (NttSystemMetrics { elapsed_ns: (old(self).elapsed_ns + elapsed_ns) as u128, ..*old(self) }),
    {
        self.elapsed_ns += elapsed_ns;
    }
}

/// `a + b`, or the top of `u128` when the sum does not fit.
pub open spec fn saturating_sum(a: u128, b: u128) -> u128 {
    if a + b <= u128::MAX {
        (a + b) as u128
    } else {
        u128::MAX
    }
}

/// Adds the time since `started` to the elapsed counter, saturating at the top of `u128`;
/// returns the nanoseconds it read off the clock.
pub(crate) fn add_elapsed_since(m: &mut NttSystemMetrics, started: &std::time::Instant) -> (ns: u128)
    ensures
        *final(m) == (NttSystemMetrics { elapsed_ns: saturating_sum(old(m).elapsed_ns, ns), ..*old(m) }),
        final(m).elapsed_ns >= old(m).elapsed_ns,
{
    let ns = crate::timing::nanos_since(started);
    if ns <= u128::MAX - m.elapsed_ns {
        m.add_elapsed(ns);
    } else {
        m.elapsed_ns = u128::MAX;
    }
    ns
}

/// The words entering and leaving one stage (or pass) of a transform.
#[derive(Debug, Clone)]
pub struct StageTrace {
    pub stage: usize,
    pub input: Vec<u64>,
    pub output: Vec<u64>,
    pub faulted: bool,
}

/// What a backend needs of its input: valid parameters, a size whose counters fit,
/// `n` words, subtractions that stay in range for the decimation-in-frequency backend,
/// and adjacent flips within `u32` where flips are applied with their adjacent bit. The
/// direct backend checks the length first and needs nothing more of a wrong one.
pub open spec fn backend_ready(
    input: Seq<u64>,
    params: RingParams,
    fault: Option<FaultSpec>,
    implementation: NttImplementation,
) -> bool {
    ||| implementation == NttImplementation::Naive && input.len() != params.n
    ||| {
        &&& params.wf()
        &&& transform_size_ok(params.n as nat, implementation)
        &&& input.len() == params.n
        &&& (implementation == NttImplementation::DifRadix2 ==> dif_input_fits(input, params, fault))
        &&& (implementation != NttImplementation::Stockham && implementation != NttImplementation::Naive
            ==> fault_fits(fault))
    }
}

/// What a backend returns.
pub open spec fn backend_output(
    input: Seq<u64>,
    params: RingParams,
    inverse: bool,
    fault: Option<FaultSpec>,
    implementation: NttImplementation,
) -> Result<Seq<u64>, NttError> {
    match implementation {
        NttImplementation::Radix2 => Ok(radix2_output(input, params, inverse, fault)),
        NttImplementation::DifRadix2 => Ok(dif_output(input, params, inverse, fault)),
        NttImplementation::Stockham => Ok(stockham_output(input, params, inverse, fault)),
        NttImplementation::Radix4 => Ok(radix4_output(input, params, inverse, fault)),
        NttImplementation::FourStep => Ok(four_step_output(input, params, inverse, fault)),
        NttImplementation::Naive => naive_result(input, params, inverse, fault),
    }
}

/// The traces a backend returns.
pub open spec fn backend_traces(
    traces: Seq<StageTrace>,
    enabled: bool,
    input: Seq<u64>,
    params: RingParams,
    inverse: bool,
    fault: Option<FaultSpec>,
    implementation: NttImplementation,
) -> bool {
    let q = params.modulus;
    let root = transform_root(params, inverse);
    let l = log2(params.n as nat);
    let n = params.n as nat;
    match implementation {
        NttImplementation::Radix2 => stage_traces_match(
            traces,
            enabled,
            bit_reverse(input),
            q,
            root,
            l,
            model_injection(q, fault),
            model_flips(q, fault),
            model_hits(n, fault),
        ),
        NttImplementation::DifRadix2 => dif_traces_match(
            traces,
            enabled,
            input,
            q,
            root,
            l,
            model_injection(q, fault),
            model_hits(n, fault),
        ),
        NttImplementation::Stockham => stage_traces_match(
            traces,
            enabled,
            bit_reverse(input),
            q,
            root,
            l,
            stockham_injection(q, params.modulus_bits, fault),
            no_flips(),
            stockham_hits(fault),
        ),
        NttImplementation::Radix4 => pass_traces_match(
            traces,
            enabled,
            bit_reverse(input),
            q,
            root,
            pass_count(l),
            l,
            pass_injection(q, fault),
            pass_hits(n, fault),
        ),
        NttImplementation::FourStep => stage_traces_match(
            traces,
            enabled,
            bit_reverse(input),
            q,
            root,
            l,
            model_injection(q, fault),
            no_flips(),
            model_hits(n, fault),
        ),
        NttImplementation::Naive => if enabled {
            &&& traces.len() == 1
            &&& traces[0].stage == 0
            &&& traces[0].input@ == naive_source(input, params, fault)
            &&& naive_result(input, params, inverse, fault) matches Ok(out) && traces[0].output@ == out
            &&& traces[0].faulted == fault is Some
        } else {
            traces.len() == 0
        },
    }
}

/// The counters after a successful backend run.
pub open spec fn backend_counts(
    m: NttSystemMetrics,
    params: RingParams,
    inverse: bool,
    fault: Option<FaultSpec>,
    implementation: NttImplementation,
) -> NttSystemMetrics {
    let n = params.n as nat;
    let l = log2(n);
    match implementation {
        NttImplementation::Radix2 => radix2_counts(m, n, inverse, count_hits(model_hits(n, fault), l)),
        NttImplementation::DifRadix2 => dif_counts(m, n, inverse, count_hits(model_hits(n, fault), l)),
        NttImplementation::Stockham => stockham_counts(m, n, inverse, count_hits(stockham_hits(fault), l)),
        NttImplementation::Radix4 => radix4_counts(m, n, inverse, count_hits(pass_hits(n, fault), pass_count(l))),
        NttImplementation::FourStep => four_step_counts(m, n, inverse, count_hits(model_hits(n, fault), l)),
        NttImplementation::Naive => naive_counts(m, n, inverse, fault is Some),
    }
}

/// Runs the chosen backend.
fn transform_with_impl(
    input: &[u64],
    params: &RingParams,
    inverse: bool,
    trace_enabled: bool,
    fault: Option<&FaultSpec>,
    implementation: NttImplementation,
    metrics: Option<&mut NttSystemMetrics>,
) -> (r: Result<(Vec<u64>, Vec<StageTrace>), NttError>)
    requires
        backend_ready(input@, *params, fault_value(fault), implementation),
        metrics matches Some(m) ==> has_room(*m, transform_cost(params.n as nat, implementation)),
    ensures
        match r {
            Ok(out) => backend_output(input@, *params, inverse, fault_value(fault), implementation) == Ok::<
                Seq<u64>,
                NttError,
            >(out.0@),
            Err(e) => backend_output(input@, *params, inverse, fault_value(fault), implementation) == Err::<
                Seq<u64>,
                NttError,
            >(e),
        },
        r matches Ok(out) ==> backend_traces(
            out.1@,
            trace_enabled,
            input@,
            *params,
            inverse,
            fault_value(fault),
            implementation,
        ),
        r is Ok ==> (metrics matches Some(m) ==> counts_after_run(
            *final(m),
            backend_counts(*m, *params, inverse, fault_value(fault), implementation),
        )),
        r is Err ==> (metrics matches Some(m) ==> *final(m) == naive_error_counts(
            *m,
            input@,
            *params,
            fault_value(fault),
        )),
{
    match implementation {
        NttImplementation::Radix2 => Ok(transform_radix2(input, params, inverse, trace_enabled, fault, metrics)),
        NttImplementation::DifRadix2 => Ok(
            transform_dif_radix2(input, params, inverse, trace_enabled, fault, metrics),
        ),
        NttImplementation::Stockham => Ok(transform_stockham(input, params, inverse, trace_enabled, fault, metrics)),
        NttImplementation::Radix4 => Ok(
            transform_radix4_fused(input, params, inverse, trace_enabled, fault, metrics),
        ),
        NttImplementation::FourStep => Ok(
            transform_four_step_blocked(input, params, inverse, trace_enabled, fault, metrics),
        ),
        NttImplementation::Naive => transform_naive(input, params, inverse, trace_enabled, fault, metrics),
    }
}

/// The forward transform with the chosen backend and no fault.
pub fn ntt_with_impl(
    a: &[u64],
    params: &RingParams,
    trace: bool,
    implementation: NttImplementation,
    metrics: Option<&mut NttSystemMetrics>,
) -> (r: Result<(Vec<u64>, Vec<StageTrace>), NttError>)
    requires
        backend_ready(a@, *params, None, implementation),
        metrics matches Some(m) ==> has_room(*m, transform_cost(params.n as nat, implementation)),
    ensures
        match r {
            Ok(out) => backend_output(a@, *params, false, None, implementation) == Ok::<Seq<u64>, NttError>(out.0@),
            Err(e) => backend_output(a@, *params, false, None, implementation) == Err::<Seq<u64>, NttError>(e),
        },
        r matches Ok(out) ==> backend_traces(out.1@, trace, a@, *params, false, None, implementation),
        r is Ok ==> (metrics matches Some(m) ==> counts_after_run(
            *final(m),
            backend_counts(*m, *params, false, None, implementation),
        )),
        r is Err ==> (metrics matches Some(m) ==> *final(m) == *m),
{
    transform_with_impl(a, params, false, trace, None, implementation, metrics)
}

/// The backward transform (with the `1/n` scaling) with the chosen backend and no fault.
pub fn intt_with_impl(
    a: &[u64],
    params: &RingParams,
    trace: bool,
    implementation: NttImplementation,
    metrics: Option<&mut NttSystemMetrics>,
) -> (r: Result<(Vec<u64>, Vec<StageTrace>), NttError>)
    requires
        backend_ready(a@, *params, None, implementation),
        metrics matches Some(m) ==> has_room(*m, transform_cost(params.n as nat, implementation)),
    ensures
        match r {
            Ok(out) => backend_output(a@, *params, true, None, implementation) == Ok::<Seq<u64>, NttError>(out.0@),
            Err(e) => backend_output(a@, *params, true, None, implementation) == Err::<Seq<u64>, NttError>(e),
        },
        r matches Ok(out) ==> backend_traces(out.1@, trace, a@, *params, true, None, implementation),
        r is Ok ==> (metrics matches Some(m) ==> counts_after_run(
            *final(m),
            backend_counts(*m, *params, true, None, implementation),
        )),
        r is Err ==> (metrics matches Some(m) ==> *final(m) == *m),
{
    transform_with_impl(a, params, true, trace, None, implementation, metrics)
}

/// The forward radix-2 transform.
pub fn ntt(a: &[u64], params: &RingParams, trace: bool) -> (r: (Vec<u64>, Vec<StageTrace>))
    requires
        params.wf(),
        a@.len() == params.n,
        transform_size_ok(params.n as nat, NttImplementation::Radix2),
    ensures
        r.0@ == radix2_output(a@, *params, false, None),
        backend_traces(r.1@, trace, a@, *params, false, None, NttImplementation::Radix2),
{
    ntt_with_impl(a, params, trace, NttImplementation::Radix2, None).expect("radix2 NTT should not fail without faults")
}

/// The backward radix-2 transform.
pub fn intt(a: &[u64], params: &RingParams, trace: bool) -> (r: (Vec<u64>, Vec<StageTrace>))
    requires
        params.wf(),
        a@.len() == params.n,
        transform_size_ok(params.n as nat, NttImplementation::Radix2),
    ensures
        r.0@ == radix2_output(a@, *params, true, None),
        backend_traces(r.1@, trace, a@, *params, true, None, NttImplementation::Radix2),
{
    intt_with_impl(a, params, trace, NttImplementation::Radix2, None).expect("radix2 iNTT should not fail without faults")
}

/// The words a runtime fault leaves: an input-site fault flips its bit of its slot and
/// reduces the word; a slot past the end is an error; other sites change nothing.
pub open spec fn runtime_input(a: Seq<u64>, q: u64, fault: Option<FaultSpec>) -> Result<Seq<u64>, NttError> {
    match fault {
        Some(f) => if f.site == FaultSite::Input {
            if f.slot >= a.len() {
                Err(NttError::FaultSlotOutOfRange { slot: f.slot, len: a.len() as usize })
            } else {
                Ok(a.update(f.slot as int, bit_fault_value(a[f.slot as int], f.bit, q)))
            }
        } else {
            Ok(a)
        },
        None => Ok(a),
    }
}

/// An input-site fault names a bit of a 64-bit word.
pub open spec fn runtime_fault_ok(fault: Option<FaultSpec>) -> bool {
    match fault {
        Some(f) => f.site == FaultSite::Input ==> f.bit < 64,
        None => true,
    }
}

/// The words with a runtime fault applied.
fn apply_runtime_fault(a: &[u64], q: u64, fault: Option<&FaultSpec>) -> (r: Result<Vec<u64>, NttError>)
    requires
        q > 0,
        runtime_fault_ok(fault_value(fault)),
    ensures
        match r {
            Ok(v) => runtime_input(a@, q, fault_value(fault)) == Ok::<Seq<u64>, NttError>(v@),
            Err(e) => runtime_input(a@, q, fault_value(fault)) == Err::<Seq<u64>, NttError>(e),
        },
{
    let mut local = copy_words_from(a);
    if let Some(f) = fault {
        if f.site == FaultSite::Input {
            if f.slot >= local.len() {
                return Err(NttError::FaultSlotOutOfRange { slot: f.slot, len: local.len() });
            }
            let x = local[f.slot] ^ (1u64 << f.bit);
            local.set(f.slot, x % q);
        }
    }
    Ok(local)
}

/// The forward transform after an optional input-site fault; faults at other sites
/// are not applied.
pub fn ntt_with_optional_fault_runtime(
    a: &[u64],
    params: &RingParams,
    trace: bool,
    fault: Option<&FaultSpec>,
    ntt_impl: NttImplementation,
    metrics: Option<&mut NttSystemMetrics>,
) -> (r: Result<(Vec<u64>, Vec<StageTrace>), NttError>)
    requires
        params.wf(),
        runtime_input(a@, params.modulus, fault_value(fault)) matches Ok(x) ==> backend_ready(x, *params, None, ntt_impl),
        runtime_fault_ok(fault_value(fault)),
        metrics matches Some(m) ==> has_room(*m, transform_cost(params.n as nat, ntt_impl)),
    ensures
        ({
            let ri = runtime_input(a@, params.modulus, fault_value(fault));
            match ri {
                Err(e) => r == Err::<(Vec<u64>, Vec<StageTrace>), NttError>(e),
                Ok(x) => {
                    &&& match r {
                        Ok(out) => backend_output(x, *params, false, None, ntt_impl) == Ok::<Seq<u64>, NttError>(out.0@),
                        Err(e) => backend_output(x, *params, false, None, ntt_impl) == Err::<Seq<u64>, NttError>(e),
                    }
                    &&& (r matches Ok(out) ==> backend_traces(out.1@, trace, x, *params, false, None, ntt_impl))
                    &&& (r is Ok ==> (metrics matches Some(m) ==> counts_after_run(
                        *final(m),
                        backend_counts(*m, *params, false, None, ntt_impl),
                    )))
                },
            }
        }),
        r is Err ==> (metrics matches Some(m) ==> *final(m) == *m),
{
    let local = match apply_runtime_fault(a, params.modulus, fault) {
        Ok(v) => v,
        Err(e) => {
            return Err(e);
        },
    };
    ntt_with_impl(local.as_slice(), params, trace, ntt_impl, metrics)
}

/// The backward transform after an optional input-site fault; faults at other sites
/// are not applied.
pub fn intt_with_optional_fault_runtime(
    a: &[u64],
    params: &RingParams,
    trace: bool,
    fault: Option<&FaultSpec>,
    ntt_impl: NttImplementation,
    metrics: Option<&mut NttSystemMetrics>,
) -> (r: Result<(Vec<u64>, Vec<StageTrace>), NttError>)
    requires
        params.wf(),
        runtime_input(a@, params.modulus, fault_value(fault)) matches Ok(x) ==> backend_ready(x, *params, None, ntt_impl),
        runtime_fault_ok(fault_value(fault)),
        metrics matches Some(m) ==> has_room(*m, transform_cost(params.n as nat, ntt_impl)),
    ensures
        ({
            let ri = runtime_input(a@, params.modulus, fault_value(fault));
            match ri {
                Err(e) => r == Err::<(Vec<u64>, Vec<StageTrace>), NttError>(e),
                Ok(x) => {
                    &&& match r {
                        Ok(out) => backend_output(x, *params, true, None, ntt_impl) == Ok::<Seq<u64>, NttError>(out.0@),
                        Err(e) => backend_output(x, *params, true, None, ntt_impl) == Err::<Seq<u64>, NttError>(e),
                    }
                    &&& (r matches Ok(out) ==> backend_traces(out.1@, trace, x, *params, true, None, ntt_impl))
                    &&& (r is Ok ==> (metrics matches Some(m) ==> counts_after_run(
                        *final(m),
                        backend_counts(*m, *params, true, None, ntt_impl),
                    )))
                },
            }
        }),
        r is Err ==> (metrics matches Some(m) ==> *final(m) == *m),
{
    let local = match apply_runtime_fault(a, params.modulus, fault) {
        Ok(v) => v,
        Err(e) => {
            return Err(e);
        },
    };
    intt_with_impl(local.as_slice(), params, trace, ntt_impl, metrics)
}

/// `traces` are `base` with the first trace marked as faulted.
pub open spec fn first_marked(traces: Seq<StageTrace>, base: Seq<StageTrace>) -> bool {
    &&& traces.len() == base.len()
    &&& forall|i: int| 1 <= i < traces.len() ==> #[trigger] traces[i] == base[i]
    &&& traces.len() > 0 ==> {
        &&& traces[0].stage == base[0].stage
        &&& traces[0].input@ == base[0].input@
        &&& traces[0].output@ == base[0].output@
        &&& traces[0].faulted
    }
}

/// Marks the first trace as faulted.
fn mark_first_faulted(traces: &mut Vec<StageTrace>)
    ensures
        first_marked(final(traces)@, old(traces)@),
{
    if traces.len() > 0 {
        let marked = StageTrace {
            stage: traces[0].stage,
            input: copy_words(&traces[0].input),
            output: copy_words(&traces[0].output),
            faulted: true,
        };
        traces.set(0, marked);
    }
}

/// The forward transform after the runtime input fault of `fault`, with the first
/// trace marked as faulted.
pub fn ntt_faulty_with_impl(
    a: &[u64],
    params: &RingParams,
    trace: bool,
    fault: &FaultSpec,
    ntt_impl: NttImplementation,
    metrics: Option<&mut NttSystemMetrics>,
) -> (r: Result<(Vec<u64>, Vec<StageTrace>), NttError>)
    requires
        params.wf(),
        runtime_input(a@, params.modulus, Some(*fault)) matches Ok(x) ==> backend_ready(x, *params, None, ntt_impl),
        runtime_fault_ok(Some(*fault)),
        metrics matches Some(m) ==> has_room(*m, transform_cost(params.n as nat, ntt_impl)),
    ensures
        ({
            let ri = runtime_input(a@, params.modulus, Some(*fault));
            match ri {
                Err(e) => r == Err::<(Vec<u64>, Vec<StageTrace>), NttError>(e),
                Ok(x) => {
                    &&& match r {
                        Ok(out) => backend_output(x, *params, false, None, ntt_impl) == Ok::<Seq<u64>, NttError>(out.0@),
                        Err(e) => backend_output(x, *params, false, None, ntt_impl) == Err::<Seq<u64>, NttError>(e),
                    }
                    &&& (r matches Ok(out) ==> exists|base: Seq<StageTrace>|
                        backend_traces(base, trace, x, *params, false, None, ntt_impl) && #[trigger] first_marked(
                            out.1@,
                            base,
                        ))
                    &&& (r is Ok ==> (metrics matches Some(m) ==> counts_after_run(
                        *final(m),
                        backend_counts(*m, *params, false, None, ntt_impl),
                    )))
                },
            }
        }),
        r is Err ==> (metrics matches Some(m) ==> *final(m) == *m),
{
    let (out, mut traces) = match ntt_with_optional_fault_runtime(a, params, trace, Some(fault), ntt_impl, metrics) {
        Ok(v) => v,
        Err(e) => {
            return Err(e);
        },
    };
    let ghost base = traces@;
    mark_first_faulted(&mut traces);
    proof {
        assert(fault_value(Some(fault)) == Some(*fault));
        if let Ok(x) = runtime_input(a@, params.modulus, Some(*fault)) {
            assert(backend_traces(base, trace, x, *params, false, None, ntt_impl));
            assert(first_marked(traces@, base));
        }
    }
    let r = Ok((out, traces));
    proof {
        if let Ok(x) = runtime_input(a@, params.modulus, Some(*fault)) {
            assert(r matches Ok(o) && first_marked(o.1@, base));
            assert(r matches Ok(o) ==> exists|b: Seq<StageTrace>|
                backend_traces(b, trace, x, *params, false, None, ntt_impl) && #[trigger] first_marked(o.1@, b));
        }
    }
    r
}

/// The backward transform after the runtime input fault of `fault`, with the first
/// trace marked as faulted.
pub fn intt_faulty_with_impl(
    a: &[u64],
    params: &RingParams,
    trace: bool,
    fault: &FaultSpec,
    ntt_impl: NttImplementation,
    metrics: Option<&mut NttSystemMetrics>,
) -> (r: Result<(Vec<u64>, Vec<StageTrace>), NttError>)
    requires
        params.wf(),
        runtime_input(a@, params.modulus, Some(*fault)) matches Ok(x) ==> backend_ready(x, *params, None, ntt_impl),
        runtime_fault_ok(Some(*fault)),
        metrics matches Some(m) ==> has_room(*m, transform_cost(params.n as nat, ntt_impl)),
    ensures
        ({
            let ri = runtime_input(a@, params.modulus, Some(*fault));
            match ri {
                Err(e) => r == Err::<(Vec<u64>, Vec<StageTrace>), NttError>(e),
                Ok(x) => {
                    &&& match r {
                        Ok(out) => backend_output(x, *params, true, None, ntt_impl) == Ok::<Seq<u64>, NttError>(out.0@),
                        Err(e) => backend_output(x, *params, true, None, ntt_impl) == Err::<Seq<u64>, NttError>(e),
                    }
                    &&& (r matches Ok(out) ==> exists|base: Seq<StageTrace>|
                        backend_traces(base, trace, x, *params, true, None, ntt_impl) && #[trigger] first_marked(
                            out.1@,
                            base,
                        ))
                    &&& (r is Ok ==> (metrics matches Some(m) ==> counts_after_run(
                        *final(m),
                        backend_counts(*m, *params, true, None, ntt_impl),
                    )))
                },
            }
        }),
        r is Err ==> (metrics matches Some(m) ==> *final(m) == *m),
{
    let (out, mut traces) = match intt_with_optional_fault_runtime(a, params, trace, Some(fault), ntt_impl, metrics) {
        Ok(v) => v,
        Err(e) => {
            return Err(e);
        },
    };
    let ghost base = traces@;
    mark_first_faulted(&mut traces);
    proof {
        assert(fault_value(Some(fault)) == Some(*fault));
        if let Ok(x) = runtime_input(a@, params.modulus, Some(*fault)) {
            assert(backend_traces(base, trace, x, *params, true, None, ntt_impl));
            assert(first_marked(traces@, base));
        }
    }
    let r = Ok((out, traces));
    proof {
        if let Ok(x) = runtime_input(a@, params.modulus, Some(*fault)) {
            assert(r matches Ok(o) && first_marked(o.1@, base));
            assert(r matches Ok(o) ==> exists|b: Seq<StageTrace>|
                backend_traces(b, trace, x, *params, true, None, ntt_impl) && #[trigger] first_marked(o.1@, b));
        }
    }
    r
}

/// Pointwise `(a_i + b_i) mod q` over the common length.
pub fn add_ntt(a: &[u64], b: &[u64], q: u64) -> (r: Vec<u64>)
    requires
        q > 0,
    ensures
        r@.len() == (if a@.len() <= b@.len() {
            a@.len()
        } else {
            b@.len()
        }),
        forall|i: int| 0 <= i < r@.len() ==> #[trigger] r@[i] == add_m(a@[i], b@[i], q),
{
    let len = if a.len() <= b.len() {
        a.len()
    } else {
        b.len()
    };
    let mut out: Vec<u64> = Vec::with_capacity(len);
    let mut i: usize = 0;
    while i < len
        invariant
            q > 0,
            len <= a@.len(),
            len <= b@.len(),
            i <= len,
            out@.len() == i,
            forall|k: int| 0 <= k < i ==> #[trigger] out@[k] == add_m(a@[k], b@[k], q),
        decreases len - i,
    {
        out.push(add_mod(a[i], b[i], q));
        i = i + 1;
    }
    out
}

/// Pointwise `(a_i * b_i) mod q` over the common length.
pub fn mul_ntt(a: &[u64], b: &[u64], q: u64) -> (r: Vec<u64>)
    requires
        q > 0,
    ensures
        r@.len() == (if a@.len() <= b@.len() {
            a@.len()
        } else {
            b@.len()
        }),
        forall|i: int| 0 <= i < r@.len() ==> #[trigger] r@[i] == mul_m(a@[i], b@[i], q),
{
    let len = if a.len() <= b.len() {
        a.len()
    } else {
        b.len()
    };
    let mut out: Vec<u64> = Vec::with_capacity(len);
    let mut i: usize = 0;
    while i < len
        invariant
            q > 0,
            len <= a@.len(),
            len <= b@.len(),
            i <= len,
            out@.len() == i,
            forall|k: int| 0 <= k < i ==> #[trigger] out@[k] == mul_m(a@[k], b@[k], q),
        decreases len - i,
    {
        out.push(mul_mod(a[i], b[i], q));
        i = i + 1;
    }
    out
}

/// The radix-2 backend with mitigation enabled runs the mitigated transform.
pub open spec fn uses_mitigation(implementation: NttImplementation, mitigation: MitigationOptions) -> bool {
    implementation == NttImplementation::Radix2 && mitigation.kind != MitigationKind::Disabled
}

/// What a transform with mitigation returns for input `x` (see `ntt_with_impl_and_mitigation`).
pub open spec fn transform_result(
    x: Seq<u64>,
    params: RingParams,
    inverse: bool,
    implementation: NttImplementation,
    mitigation: MitigationOptions,
    fault: Option<FaultSpec>,
) -> Result<Seq<u64>, NttError> {
    if uses_mitigation(implementation, mitigation) {
        Ok(mitigated_output(x, params, inverse, fault, mitigation))
    } else {
        backend_output(x, params, inverse, fault, implementation)
    }
}

/// The traces a transform with mitigation returns for input `x`.
pub open spec fn transform_traces(
    traces: Seq<StageTrace>,
    enabled: bool,
    x: Seq<u64>,
    params: RingParams,
    inverse: bool,
    implementation: NttImplementation,
    mitigation: MitigationOptions,
    fault: Option<FaultSpec>,
) -> bool {
    if uses_mitigation(implementation, mitigation) {
        mitigated_traces_match(
            traces,
            enabled,
            bit_reverse(x),
            params.modulus,
            transform_root(params, inverse),
            log2(params.n as nat),
            fault,
            mitigation,
        )
    } else {
        backend_traces(traces, enabled, x, params, inverse, fault, implementation)
    }
}

/// The counters after a transform with mitigation.
pub open spec fn transform_counts(
    m: NttSystemMetrics,
    params: RingParams,
    inverse: bool,
    implementation: NttImplementation,
    mitigation: MitigationOptions,
    fault: Option<FaultSpec>,
) -> NttSystemMetrics {
    if uses_mitigation(implementation, mitigation) {
        let n = params.n as nat;
        radix2_counts(m, n, inverse, count_hits(model_hits(n, fault), log2(n)))
    } else {
        backend_counts(m, params, inverse, fault, implementation)
    }
}

/// What a transform with mitigation adds to the mitigation counters for input `x`.
pub open spec fn transform_tally(
    x: Seq<u64>,
    params: RingParams,
    inverse: bool,
    implementation: NttImplementation,
    mitigation: MitigationOptions,
    fault: Option<FaultSpec>,
) -> MitigationTally {
    if uses_mitigation(implementation, mitigation) {
        tally_after(
            bit_reverse(x),
            params.modulus,
            transform_root(params, inverse),
            log2(params.n as nat),
            fault,
            mitigation,
        )
    } else {
        zero_tally()
    }
}

/// The mitigation counters after a transform: configured, advanced by `t` and with a
/// clock that only grows when mitigation ran; untouched otherwise.
pub open spec fn mitigation_after(
    new: MitigationMetrics,
    old: MitigationMetrics,
    t: MitigationTally,
    ran: bool,
    mitigation: MitigationOptions,
) -> bool {
    if ran {
        &&& configured_for(new, mitigation)
        &&& counters_advanced(new, old, t)
        &&& new.mitigation_elapsed_ns >= old.mitigation_elapsed_ns
    } else {
        new == old
    }
}

/// The forward transform with mitigation under an optional fault: the radix-2 backend with
/// mitigation enabled runs the mitigated transform, any other choice the plain backend;
/// either injects `fault` where it strikes (input words before its stage, or an
/// arithmetic result inside a butterfly).
pub fn ntt_with_impl_and_mitigation(
    a: &[u64],
    params: &RingParams,
    trace: bool,
    implementation: NttImplementation,
    metrics: Option<&mut NttSystemMetrics>,
    mitigation: &MitigationOptions,
    mitigation_metrics: &mut MitigationMetrics,
    fault: Option<&FaultSpec>,
) -> (r: Result<(Vec<u64>, Vec<StageTrace>), NttError>)
    requires
        backend_ready(a@, *params, fault_value(fault), implementation),
        metrics matches Some(m) ==> has_room(*m, transform_cost(params.n as nat, implementation)),
        uses_mitigation(implementation, *mitigation) ==> {
            &&& mitigation_fits(a@, *params, false, fault_value(fault), *mitigation)
            &&& fault_fits(fault_value(fault))
            &&& tally_room(*old(mitigation_metrics), log2(params.n as nat) * params.n)
        },
    ensures
        match r {
            Ok(out) => transform_result(a@, *params, false, implementation, *mitigation, fault_value(fault)) == Ok::<
                Seq<u64>,
                NttError,
            >(out.0@),
            Err(e) => transform_result(a@, *params, false, implementation, *mitigation, fault_value(fault)) == Err::<
                Seq<u64>,
                NttError,
            >(e),
        },
        r matches Ok(out) ==> transform_traces(
            out.1@,
            trace,
            a@,
            *params,
            false,
            implementation,
            *mitigation,
            fault_value(fault),
        ),
        r is Ok ==> (metrics matches Some(m) ==> counts_after_run(
            *final(m),
            transform_counts(*m, *params, false, implementation, *mitigation, fault_value(fault)),
        )),
        mitigation_after(
            *final(mitigation_metrics),
            *old(mitigation_metrics),
            transform_tally(a@, *params, false, implementation, *mitigation, fault_value(fault)),
            uses_mitigation(implementation, *mitigation),
            *mitigation,
        ),
        tally_within(
            transform_tally(a@, *params, false, implementation, *mitigation, fault_value(fault)),
            log2(params.n as nat) * params.n,
        ),
        r is Err ==> (metrics matches Some(m) ==> *final(m) == naive_error_counts(
            *m,
            a@,
            *params,
            fault_value(fault),
        )),
{
    if implementation == NttImplementation::Radix2 && mitigation.enabled() {
        Ok(transform_radix2_mitigated(a, params, false, trace, fault, metrics, mitigation, mitigation_metrics))
    } else {
        transform_with_impl(a, params, false, trace, fault, implementation, metrics)
    }
}

/// The backward transform with mitigation under an optional fault: the radix-2 backend with
/// mitigation enabled runs the mitigated transform, any other choice the plain backend;
/// either injects `fault` where it strikes (input words before its stage, or an
/// arithmetic result inside a butterfly).
pub fn intt_with_impl_and_mitigation(
    a: &[u64],
    params: &RingParams,
    trace: bool,
    implementation: NttImplementation,
    metrics: Option<&mut NttSystemMetrics>,
    mitigation: &MitigationOptions,
    mitigation_metrics: &mut MitigationMetrics,
    fault: Option<&FaultSpec>,
) -> (r: Result<(Vec<u64>, Vec<StageTrace>), NttError>)
    requires
        backend_ready(a@, *params, fault_value(fault), implementation),
        metrics matches Some(m) ==> has_room(*m, transform_cost(params.n as nat, implementation)),
        uses_mitigation(implementation, *mitigation) ==> {
            &&& mitigation_fits(a@, *params, true, fault_value(fault), *mitigation)
            &&& fault_fits(fault_value(fault))
            &&& tally_room(*old(mitigation_metrics), log2(params.n as nat) * params.n)
        },
    ensures
        match r {
            Ok(out) => transform_result(a@, *params, true, implementation, *mitigation, fault_value(fault)) == Ok::<
                Seq<u64>,
                NttError,
            >(out.0@),
            Err(e) => transform_result(a@, *params, true, implementation, *mitigation, fault_value(fault)) == Err::<
                Seq<u64>,
                NttError,
            >(e),
        },
        r matches Ok(out) ==> transform_traces(
            out.1@,
            trace,
            a@,
            *params,
            true,
            implementation,
            *mitigation,
            fault_value(fault),
        ),
        r is Ok ==> (metrics matches Some(m) ==> counts_after_run(
            *final(m),
            transform_counts(*m, *params, true, implementation, *mitigation, fault_value(fault)),
        )),
        mitigation_after(
            *final(mitigation_metrics),
            *old(mitigation_metrics),
            transform_tally(a@, *params, true, implementation, *mitigation, fault_value(fault)),
            uses_mitigation(implementation, *mitigation),
            *mitigation,
        ),
        tally_within(
            transform_tally(a@, *params, true, implementation, *mitigation, fault_value(fault)),
            log2(params.n as nat) * params.n,
        ),
        r is Err ==> (metrics matches Some(m) ==> *final(m) == naive_error_counts(
            *m,
            a@,
            *params,
            fault_value(fault),
        )),
{
    if implementation == NttImplementation::Radix2 && mitigation.enabled() {
        Ok(transform_radix2_mitigated(a, params, true, trace, fault, metrics, mitigation, mitigation_metrics))
    } else {
        transform_with_impl(a, params, true, trace, fault, implementation, metrics)
    }
}

/// The forward transform under `fault`: the mitigated transform for the radix-2 backend
/// with mitigation enabled, the plain backend with the fault otherwise.
pub fn ntt_faulty_with_impl_and_mitigation(
    a: &[u64],
    params: &RingParams,
    trace: bool,
    fault: &FaultSpec,
    implementation: NttImplementation,
    metrics: Option<&mut NttSystemMetrics>,
    mitigation: &MitigationOptions,
    mitigation_metrics: &mut MitigationMetrics,
) -> (r: Result<(Vec<u64>, Vec<StageTrace>), NttError>)
    requires
        backend_ready(a@, *params, Some(*fault), implementation),
        metrics matches Some(m) ==> has_room(*m, transform_cost(params.n as nat, implementation)),
        uses_mitigation(implementation, *mitigation) ==> {
            &&& mitigation_fits(a@, *params, false, Some(*fault), *mitigation)
            &&& tally_room(*old(mitigation_metrics), log2(params.n as nat) * params.n)
        },
    ensures
        if uses_mitigation(implementation, *mitigation) {
            let a0 = bit_reverse(a@);
            let q = params.modulus;
            let root = transform_root(*params, false);
            let l = log2(params.n as nat);
            &&& r matches Ok(out) && out.0@ == mitigated_output(a@, *params, false, Some(*fault), *mitigation)
                && mitigated_traces_match(out.1@, trace, a0, q, root, l, Some(*fault), *mitigation)
            &&& metrics matches Some(m) ==> counts_after_run(
                *final(m),
                radix2_counts(*m, params.n as nat, false, count_hits(model_hits(params.n as nat, Some(*fault)), l)),
            )
            &&& configured_for(*final(mitigation_metrics), *mitigation)
            &&& counters_advanced(
                *final(mitigation_metrics),
                *old(mitigation_metrics),
                tally_after(a0, q, root, l, Some(*fault), *mitigation),
            )
            &&& final(mitigation_metrics).mitigation_elapsed_ns >= old(mitigation_metrics).mitigation_elapsed_ns
        } else {
            &&& match r {
                Ok(out) => backend_output(a@, *params, false, Some(*fault), implementation) == Ok::<Seq<u64>, NttError>(out.0@),
                Err(e) => backend_output(a@, *params, false, Some(*fault), implementation) == Err::<Seq<u64>, NttError>(e),
            }
            &&& (r matches Ok(out) ==> backend_traces(out.1@, trace, a@, *params, false, Some(*fault), implementation))
            &&& (r is Ok ==> (metrics matches Some(m) ==> counts_after_run(
                *final(m),
                backend_counts(*m, *params, false, Some(*fault), implementation),
            )))
            &&& *final(mitigation_metrics) == *old(mitigation_metrics)
        },
        r is Err ==> (metrics matches Some(m) ==> *final(m) == naive_error_counts(
            *m,
            a@,
            *params,
            Some(*fault),
        )),
{
    if implementation == NttImplementation::Radix2 && mitigation.enabled() {
        Ok(transform_radix2_mitigated(a, params, false, trace, Some(fault), metrics, mitigation, mitigation_metrics))
    } else {
        transform_with_impl(a, params, false, trace, Some(fault), implementation, metrics)
    }
}

/// The backward transform under `fault`: the mitigated transform for the radix-2 backend
/// with mitigation enabled, the plain backend with the fault otherwise.
pub fn intt_faulty_with_impl_and_mitigation(
    a: &[u64],
    params: &RingParams,
    trace: bool,
    fault: &FaultSpec,
    implementation: NttImplementation,
    metrics: Option<&mut NttSystemMetrics>,
    mitigation: &MitigationOptions,
    mitigation_metrics: &mut MitigationMetrics,
) -> (r: Result<(Vec<u64>, Vec<StageTrace>), NttError>)
    requires
        backend_ready(a@, *params, Some(*fault), implementation),
        metrics matches Some(m) ==> has_room(*m, transform_cost(params.n as nat, implementation)),
        uses_mitigation(implementation, *mitigation) ==> {
            &&& mitigation_fits(a@, *params, true, Some(*fault), *mitigation)
            &&& tally_room(*old(mitigation_metrics), log2(params.n as nat) * params.n)
        },
    ensures
        if uses_mitigation(implementation, *mitigation) {
            let a0 = bit_reverse(a@);
            let q = params.modulus;
            let root = transform_root(*params, true);
            let l = log2(params.n as nat);
            &&& r matches Ok(out) && out.0@ == mitigated_output(a@, *params, true, Some(*fault), *mitigation)
                && mitigated_traces_match(out.1@, trace, a0, q, root, l, Some(*fault), *mitigation)
            &&& metrics matches Some(m) ==> counts_after_run(
                *final(m),
                radix2_counts(*m, params.n as nat, true, count_hits(model_hits(params.n as nat, Some(*fault)), l)),
            )
            &&& configured_for(*final(mitigation_metrics), *mitigation)
            &&& counters_advanced(
                *final(mitigation_metrics),
                *old(mitigation_metrics),
                tally_after(a0, q, root, l, Some(*fault), *mitigation),
            )
            &&& final(mitigation_metrics).mitigation_elapsed_ns >= old(mitigation_metrics).mitigation_elapsed_ns
        } else {
            &&& match r {
                Ok(out) => backend_output(a@, *params, true, Some(*fault), implementation) == Ok::<Seq<u64>, NttError>(out.0@),
                Err(e) => backend_output(a@, *params, true, Some(*fault), implementation) == Err::<Seq<u64>, NttError>(e),
            }
            &&& (r matches Ok(out) ==> backend_traces(out.1@, trace, a@, *params, true, Some(*fault), implementation))
            &&& (r is Ok ==> (metrics matches Some(m) ==> counts_after_run(
                *final(m),
                backend_counts(*m, *params, true, Some(*fault), implementation),
            )))
            &&& *final(mitigation_metrics) == *old(mitigation_metrics)
        },
        r is Err ==> (metrics matches Some(m) ==> *final(m) == naive_error_counts(
            *m,
            a@,
            *params,
            Some(*fault),
        )),
{
    if implementation == NttImplementation::Radix2 && mitigation.enabled() {
        Ok(transform_radix2_mitigated(a, params, true, trace, Some(fault), metrics, mitigation, mitigation_metrics))
    } else {
        transform_with_impl(a, params, true, trace, Some(fault), implementation, metrics)
    }
}

/// The forward transform under `fault` for fault studies: the radix-2 backend applies the
/// primary fault alone and records a check for every butterfly; other backends run
/// without the fault.
pub fn ntt_with_fault_and_mitigation(
    a: &[u64],
    params: &RingParams,
    trace: bool,
    fault: Option<&FaultSpec>,
    ntt_impl: NttImplementation,
    ntt_metrics: Option<&mut NttSystemMetrics>,
    mitigation_metrics: Option<&mut MitigationMetrics>,
) -> (r: Result<(Vec<u64>, Vec<StageTrace>), NttError>)
    requires
        ntt_impl == NttImplementation::Radix2 && a@.len() == params.n ==> {
            &&& params.wf()
            &&& transform_size_ok(params.n as nat, NttImplementation::Radix2)
            &&& ntt_metrics matches Some(m) ==> has_room(*m, transform_cost(params.n as nat, NttImplementation::Radix2))
                && bytes_room(*m, params.n as nat)
            &&& mitigation_metrics matches Some(mm) ==> tally_room(*mm, log2(params.n as nat) * params.n)
        },
        ntt_impl != NttImplementation::Radix2 ==> {
            &&& backend_ready(a@, *params, None, ntt_impl)
            &&& ntt_metrics matches Some(m) ==> has_room(*m, transform_cost(params.n as nat, ntt_impl))
        },
    ensures
        if ntt_impl == NttImplementation::Radix2 {
            let a0 = pre_flipped(bit_reverse(a@), params.modulus, fault_value(fault));
            let q = params.modulus;
            let root = transform_root(*params, false);
            let l = log2(params.n as nat);
            &&& match r {
                Ok(out) => recorded_result(a@, *params, false, fault_value(fault)) == Ok::<Seq<u64>, NttError>(out.0@),
                Err(e) => recorded_result(a@, *params, false, fault_value(fault)) == Err::<Seq<u64>, NttError>(e),
            }
            &&& r matches Ok(out) ==> stage_traces_match(
                out.1@,
                trace,
                a0,
                q,
                root,
                l,
                no_injection(),
                primary_flips(q, fault_value(fault)),
                recorded_hits(a0, q, root, fault_value(fault)),
            )
            &&& ntt_metrics matches Some(m) ==> {
                &&& (r is Ok ==> *final(m) == recorded_counts(*m, params.n as nat, false))
                &&& (r matches Err(e) && e is LengthMismatch ==> *final(m) == *m)
                &&& (r matches Err(e) && e is FaultSlotOutOfRange ==> *final(m) == recorded_layout(*m, params.n as nat))
            }
            &&& mitigation_metrics matches Some(mm) ==> {
                &&& (r is Ok ==> counters_advanced(
                    *final(mm),
                    *mm,
                    recorded_tally_after(a0, q, root, l, fault_value(fault)),
                ))
                &&& (r is Err ==> *final(mm) == *mm)
                &&& crate::ntt::mitigated::settings_kept(*final(mm), *mm)
            }
        } else {
            &&& match r {
                Ok(out) => backend_output(a@, *params, false, None, ntt_impl) == Ok::<Seq<u64>, NttError>(out.0@),
                Err(e) => backend_output(a@, *params, false, None, ntt_impl) == Err::<Seq<u64>, NttError>(e),
            }
            &&& (r matches Ok(out) ==> backend_traces(out.1@, trace, a@, *params, false, None, ntt_impl))
            &&& (r is Ok ==> (ntt_metrics matches Some(m) ==> counts_after_run(
                *final(m),
                backend_counts(*m, *params, false, None, ntt_impl),
            )))
            &&& (r is Err ==> (ntt_metrics matches Some(m) ==> *final(m) == *m))
            &&& mitigation_metrics matches Some(mm) ==> *final(mm) == *mm
        },
{
    match ntt_impl {
        NttImplementation::Radix2 => radix2_transform_with_fault_and_mitigation(
            a,
            params,
            false,
            trace,
            fault,
            ntt_metrics,
            mitigation_metrics,
        ),
        _ => ntt_with_impl(a, params, trace, ntt_impl, ntt_metrics),
    }
}

/// The backward transform under `fault` for fault studies: the radix-2 backend applies the
/// primary fault alone and records a check for every butterfly; other backends run
/// without the fault.
pub fn intt_with_fault_and_mitigation(
    a: &[u64],
    params: &RingParams,
    trace: bool,
    fault: Option<&FaultSpec>,
    ntt_impl: NttImplementation,
    ntt_metrics: Option<&mut NttSystemMetrics>,
    mitigation_metrics: Option<&mut MitigationMetrics>,
) -> (r: Result<(Vec<u64>, Vec<StageTrace>), NttError>)
    requires
        ntt_impl == NttImplementation::Radix2 && a@.len() == params.n ==> {
            &&& params.wf()
            &&& transform_size_ok(params.n as nat, NttImplementation::Radix2)
            &&& ntt_metrics matches Some(m) ==> has_room(*m, transform_cost(params.n as nat, NttImplementation::Radix2))
                && bytes_room(*m, params.n as nat)
            &&& mitigation_metrics matches Some(mm) ==> tally_room(*mm, log2(params.n as nat) * params.n)
        },
        ntt_impl != NttImplementation::Radix2 ==> {
            &&& backend_ready(a@, *params, None, ntt_impl)
            &&& ntt_metrics matches Some(m) ==> has_room(*m, transform_cost(params.n as nat, ntt_impl))
        },
    ensures
        if ntt_impl == NttImplementation::Radix2 {
            let a0 = pre_flipped(bit_reverse(a@), params.modulus, fault_value(fault));
            let q = params.modulus;
            let root = transform_root(*params, true);
            let l = log2(params.n as nat);
            &&& match r {
                Ok(out) => recorded_result(a@, *params, true, fault_value(fault)) == Ok::<Seq<u64>, NttError>(out.0@),
                Err(e) => recorded_result(a@, *params, true, fault_value(fault)) == Err::<Seq<u64>, NttError>(e),
            }
            &&& r matches Ok(out) ==> stage_traces_match(
                out.1@,
                trace,
                a0,
                q,
                root,
                l,
                no_injection(),
                primary_flips(q, fault_value(fault)),
                recorded_hits(a0, q, root, fault_value(fault)),
            )
            &&& ntt_metrics matches Some(m) ==> {
                &&& (r is Ok ==> *final(m) == recorded_counts(*m, params.n as nat, true))
                &&& (r matches Err(e) && e is LengthMismatch ==> *final(m) == *m)
                &&& (r matches Err(e) && e is FaultSlotOutOfRange ==> *final(m) == recorded_layout(*m, params.n as nat))
            }
            &&& mitigation_metrics matches Some(mm) ==> {
                &&& (r is Ok ==> counters_advanced(
                    *final(mm),
                    *mm,
                    recorded_tally_after(a0, q, root, l, fault_value(fault)),
                ))
                &&& (r is Err ==> *final(mm) == *mm)
                &&& crate::ntt::mitigated::settings_kept(*final(mm), *mm)
            }
        } else {
            &&& match r {
                Ok(out) => backend_output(a@, *params, true, None, ntt_impl) == Ok::<Seq<u64>, NttError>(out.0@),
                Err(e) => backend_output(a@, *params, true, None, ntt_impl) == Err::<Seq<u64>, NttError>(e),
            }
            &&& (r matches Ok(out) ==> backend_traces(out.1@, trace, a@, *params, true, None, ntt_impl))
            &&& (r is Ok ==> (ntt_metrics matches Some(m) ==> counts_after_run(
                *final(m),
                backend_counts(*m, *params, true, None, ntt_impl),
            )))
            &&& (r is Err ==> (ntt_metrics matches Some(m) ==> *final(m) == *m))
            &&& mitigation_metrics matches Some(mm) ==> *final(mm) == *mm
        },
{
    match ntt_impl {
        NttImplementation::Radix2 => radix2_transform_with_fault_and_mitigation(
            a,
            params,
            true,
            trace,
            fault,
            ntt_metrics,
            mitigation_metrics,
        ),
        _ => intt_with_impl(a, params, trace, ntt_impl, ntt_metrics),
    }
}

/// A transform with mitigation returns as many words as it is given.
pub proof fn lemma_transform_result_len(
    x: Seq<u64>,
    params: RingParams,
    inverse: bool,
    implementation: NttImplementation,
    mitigation: MitigationOptions,
    fault: Option<FaultSpec>,
)
    requires
        backend_ready(x, params, fault, implementation),
    ensures
        transform_result(x, params, inverse, implementation, mitigation, fault) matches Ok(y) ==> y.len() == x.len(),
{
    crate::ntt::lengths::lemma_outputs_len(x, params, inverse, fault, mitigation);
}

} // verus!
