//! The integer core of the toy CKKS multiplication: the negacyclic product of two
//! encoded polynomials through the transforms, with an optional fault.
use crate::error::NttError;
use crate::fault::{bit_fault_value, inject_bit_fault, FaultOperand, FaultSpec};
use crate::mitigation::{MitigationMetrics, MitigationOptions};
use crate::modarith::{inv_mod, mul_mod, pow_mod};
use crate::ntt::mitigated::{add_tally, lemma_reduced_mitigation_fits, counters_advanced, configured_for, tally_room, MitigationTally};
use crate::ntt::radix2::transform_size_ok;
use crate::ntt::spec::{counts_after_run, fault_fits, fault_value, model_hits, mul_m, pow_m, reduced};
use crate::ntt::budget::{grown_within, lemma_backend_within, lemma_room_after};
use crate::ntt::radix2::copy_words;
use crate::ntt::radix4::pass_hits;
use crate::ntt::stockham::stockham_hits;
use crate::ntt::backend_ready;
use crate::ntt::naive::naive_error_counts;
use crate::ntt::{
    has_room, intt_with_impl_and_mitigation, mitigation_after, mul_ntt, ntt_with_impl_and_mitigation,
    transform_cost, transform_counts, transform_result, transform_tally, transform_traces, uses_mitigation,
    NttImplementation, NttSystemMetrics, StageTrace,
};
use crate::params::{log2, passes_primality_test, RingParams};
use crate::convolution::{law_negacyclic_via_transforms, lemma_twist_reduced};
use crate::ntt::laws::lemma_clean_transform;
use crate::ntt::radix2::{lemma_radix2_output_len, radix2_output};
use crate::validation::{negacyclic_product, twist};
use vstd::prelude::*;

verus! {

/// Which intermediate values of the demo are kept.
#[derive(Debug, Clone, Copy)]
pub struct CkksTraceOptions {
    pub encode: bool,
    pub ntt: bool,
    pub mul: bool,
    pub intt: bool,
    pub decode: bool,
}

impl CkksTraceOptions {
    /// Every section kept.
    pub fn all() -> (r: Self)
        ensures
            r.encode && r.ntt && r.mul && r.intt && r.decode,
    {
        Self { encode: true, ntt: true, mul: true, intt: true, decode: true }
    }
}

impl Default for CkksTraceOptions {
    fn default() -> (r: Self)
        ensures
            !r.encode && !r.ntt && !r.mul && !r.intt && !r.decode,
    {
        Self { encode: false, ntt: false, mul: false, intt: false, decode: false }
    }
}

/// The operation of the product that a fault targets.
#[derive(Clone, Copy, Debug, PartialEq, Eq, Structural)]
pub enum CkksFaultOp {
    Ntt,
    Intt,
    Mul,
}

/// The words of one run of the product.
#[derive(Debug, Clone)]
pub struct PipelineRun {
    pub coeffs: Vec<u64>,
    pub twisted_a: Option<Vec<u64>>,
    pub twisted_b: Option<Vec<u64>>,
    pub ntt_a: Option<Vec<u64>>,
    pub ntt_b: Option<Vec<u64>>,
    pub ntt_stages: Vec<StageTrace>,
    pub mul_ntt: Option<Vec<u64>>,
    pub intt_stages: Vec<StageTrace>,
}

/// The integer words that a comparison of a product without and with a fault keeps for
/// its trace: each section of the fault-free run when its option is on, and of the
/// faulted run too when a fault was injected.
#[derive(Debug)]
pub struct ProductTrace {
    pub twisted_a: Option<Vec<u64>>,
    pub twisted_b: Option<Vec<u64>>,
    pub correct_ntt_a: Option<Vec<u64>>,
    pub correct_ntt_b: Option<Vec<u64>>,
    pub faulty_ntt_a: Option<Vec<u64>>,
    pub faulty_ntt_b: Option<Vec<u64>>,
    pub correct_ntt_stages: Vec<StageTrace>,
    pub faulty_ntt_stages: Vec<StageTrace>,
    pub correct_mul_ntt: Option<Vec<u64>>,
    pub faulty_mul_ntt: Option<Vec<u64>>,
    pub correct_intt_stages: Vec<StageTrace>,
    pub faulty_intt_stages: Vec<StageTrace>,
    pub correct_coeffs: Option<Vec<u64>>,
    pub faulty_coeffs: Option<Vec<u64>>,
}

/// `v` when `on`, else nothing.
pub open spec fn kept_if<T>(on: bool, v: Option<T>) -> Option<T> {
    if on {
        v
    } else {
        None
    }
}

/// `v` when `on`, else no stage.
pub open spec fn stages_if(on: bool, v: Vec<StageTrace>) -> Seq<StageTrace> {
    if on {
        v@
    } else {
        Seq::empty()
    }
}

/// Selects the trace of a comparison from the fault-free run `correct` and the faulted
/// run `faulty`; `fault_enabled` says whether a fault was injected.
pub fn product_trace(
    correct: PipelineRun,
    faulty: PipelineRun,
    options: CkksTraceOptions,
    fault_enabled: bool,
) -> (r: ProductTrace)
    ensures
        r.twisted_a == kept_if(options.encode, correct.twisted_a),
        r.twisted_b == kept_if(options.encode, correct.twisted_b),
        r.correct_ntt_a == kept_if(options.ntt, correct.ntt_a),
        r.correct_ntt_b == kept_if(options.ntt, correct.ntt_b),
        r.faulty_ntt_a == kept_if(options.ntt && fault_enabled, faulty.ntt_a),
        r.faulty_ntt_b == kept_if(options.ntt && fault_enabled, faulty.ntt_b),
        r.correct_ntt_stages@ == stages_if(options.ntt, correct.ntt_stages),
        r.faulty_ntt_stages@ == stages_if(options.ntt && fault_enabled, faulty.ntt_stages),
        r.correct_mul_ntt == kept_if(options.mul, correct.mul_ntt),
        r.faulty_mul_ntt == kept_if(options.mul && fault_enabled, faulty.mul_ntt),
        r.correct_intt_stages@ == stages_if(options.intt, correct.intt_stages),
        r.faulty_intt_stages@ == stages_if(options.intt && fault_enabled, faulty.intt_stages),
        kept(r.correct_coeffs, options.intt, correct.coeffs@),
        kept(r.faulty_coeffs, options.intt && fault_enabled, faulty.coeffs@),
{
    let PipelineRun {
        coeffs: correct_coeffs,
        twisted_a,
        twisted_b,
        ntt_a: correct_ntt_a,
        ntt_b: correct_ntt_b,
        ntt_stages: correct_ntt_stages,
        mul_ntt: correct_mul_ntt,
        intt_stages: correct_intt_stages,
    } = correct;
    let PipelineRun {
        coeffs: faulty_coeffs,
        ntt_a: faulty_ntt_a,
        ntt_b: faulty_ntt_b,
        ntt_stages: faulty_ntt_stages,
        mul_ntt: faulty_mul_ntt,
        intt_stages: faulty_intt_stages,
        ..
    } = faulty;
    let on_ntt = options.ntt;
    let on_ntt_f = options.ntt && fault_enabled;
    let on_mul = options.mul;
    let on_mul_f = options.mul && fault_enabled;
    let on_intt = options.intt;
    let on_intt_f = options.intt && fault_enabled;
    ProductTrace {
        twisted_a: if options.encode { twisted_a } else { None },
        twisted_b: if options.encode { twisted_b } else { None },
        correct_ntt_a: if on_ntt { correct_ntt_a } else { None },
        correct_ntt_b: if on_ntt { correct_ntt_b } else { None },
        faulty_ntt_a: if on_ntt_f { faulty_ntt_a } else { None },
        faulty_ntt_b: if on_ntt_f { faulty_ntt_b } else { None },
        correct_ntt_stages: if on_ntt { correct_ntt_stages } else { Vec::new() },
        faulty_ntt_stages: if on_ntt_f { faulty_ntt_stages } else { Vec::new() },
        correct_mul_ntt: if on_mul { correct_mul_ntt } else { None },
        faulty_mul_ntt: if on_mul_f { faulty_mul_ntt } else { None },
        correct_intt_stages: if on_intt { correct_intt_stages } else { Vec::new() },
        faulty_intt_stages: if on_intt_f { faulty_intt_stages } else { Vec::new() },
        correct_coeffs: if on_intt { Some(correct_coeffs) } else { None },
        faulty_coeffs: if on_intt_f { Some(faulty_coeffs) } else { None },
    }
}

/// Pointwise `x_i * y_i mod q` over the common length.
pub open spec fn pointwise(x: Seq<u64>, y: Seq<u64>, q: u64) -> Seq<u64> {
    Seq::new(
        if x.len() <= y.len() {
            x.len()
        } else {
            y.len()
        },
        |i: int| mul_m(x[i], y[i], q),
    )
}

/// The transformed operands after a fault on the pointwise product: a bit of the named
/// operand flipped, or the error of an out-of-range slot or bit.
pub open spec fn mul_fault_result(
    a_hat: Seq<u64>,
    b_hat: Seq<u64>,
    params: RingParams,
    fault_op: Option<CkksFaultOp>,
    fault: Option<FaultSpec>,
) -> Result<(Seq<u64>, Seq<u64>), NttError> {
    if fault_op == Some(CkksFaultOp::Mul) && fault is Some {
        let f = fault->0;
        let target = if f.operand == FaultOperand::A {
            a_hat
        } else {
            b_hat
        };
        if f.slot >= target.len() {
            Err(NttError::FaultSlotOutOfRange { slot: f.slot, len: target.len() as usize })
        } else if f.bit >= params.modulus_bits {
            Err(NttError::FaultBitOutOfRange { bit: f.bit, modulus_bits: params.modulus_bits })
        } else {
            let flipped = target.update(f.slot as int, bit_fault_value(target[f.slot as int], f.bit, params.modulus));
            if f.operand == FaultOperand::A {
                Ok((flipped, b_hat))
            } else {
                Ok((a_hat, flipped))
            }
        }
    } else {
        Ok((a_hat, b_hat))
    }
}

/// Law: a fault on the pointwise product, with its slot and bit in range, changes only the
/// transformed operand it names, and in it only the word at its slot, whose bit it flips
/// (the word then reduced modulo `q`); the other operand is left as it was.
pub proof fn law_product_fault_strikes_named_operand(
    a_hat: Seq<u64>,
    b_hat: Seq<u64>,
    params: RingParams,
    f: FaultSpec,
)
    requires
        f.slot < a_hat.len(),
        f.slot < b_hat.len(),
        f.bit < params.modulus_bits,
    ensures
        ({
            let q = params.modulus;
            let r = mul_fault_result(a_hat, b_hat, params, Some(CkksFaultOp::Mul), Some(f));
            &&& f.operand == FaultOperand::B ==> r == Ok::<(Seq<u64>, Seq<u64>), NttError>(
                (a_hat, b_hat.update(f.slot as int, bit_fault_value(b_hat[f.slot as int], f.bit, q))),
            )
            &&& f.operand == FaultOperand::A ==> r == Ok::<(Seq<u64>, Seq<u64>), NttError>(
                (a_hat.update(f.slot as int, bit_fault_value(a_hat[f.slot as int], f.bit, q)), b_hat),
            )
        }),
{
}

/// The fault the forward transform of `operand` receives: the fault when it targets the
/// forward transforms and names that operand, none otherwise.
pub open spec fn ntt_fault(
    fault_op: Option<CkksFaultOp>,
    fault: Option<FaultSpec>,
    operand: FaultOperand,
) -> Option<FaultSpec> {
    if fault_op == Some(CkksFaultOp::Ntt) && fault is Some && fault->0.operand == operand {
        fault
    } else {
        None
    }
}

/// The fault the inverse transform receives: the fault when it targets the inverse
/// transform, none otherwise.
pub open spec fn intt_fault(fault_op: Option<CkksFaultOp>, fault: Option<FaultSpec>) -> Option<FaultSpec> {
    if fault_op == Some(CkksFaultOp::Intt) {
        fault
    } else {
        None
    }
}

/// The words of the product: the transformed operands (after a product fault) and the
/// untwisted coefficients. A fault reaches the forward transform of the operand it names
/// when it targets the forward transforms, the inverse transform when it targets that,
/// and one transformed operand when it targets the pointwise product.
pub open spec fn pipeline_result(
    params: RingParams,
    implementation: NttImplementation,
    mitigation: MitigationOptions,
    a: Seq<u64>,
    b: Seq<u64>,
    fault_op: Option<CkksFaultOp>,
    fault: Option<FaultSpec>,
) -> Result<(Seq<u64>, Seq<u64>, Seq<u64>), NttError> {
    let q = params.modulus;
    let n = params.n as nat;
    let psi = params.primitive_2n_root;
    let fa = ntt_fault(fault_op, fault, FaultOperand::A);
    let fb = ntt_fault(fault_op, fault, FaultOperand::B);
    match transform_result(twist(a, psi, q, n), params, false, implementation, mitigation, fa) {
        Err(e) => Err(e),
        Ok(a_hat) => match transform_result(twist(b, psi, q, n), params, false, implementation, mitigation, fb) {
            Err(e) => Err(e),
            Ok(b_hat) => match mul_fault_result(a_hat, b_hat, params, fault_op, fault) {
                Err(e) => Err(e),
                Ok(hats) => match transform_result(
                    pointwise(hats.0, hats.1, q),
                    params,
                    true,
                    implementation,
                    mitigation,
                    intt_fault(fault_op, fault),
                ) {
                    Err(e) => Err(e),
                    Ok(c) => Ok((hats.0, hats.1, twist(c, pow_m(psi, (q - 2) as nat, q), q, n))),
                },
            },
        },
    }
}

/// `v` holds `s` when the section is kept, nothing otherwise.
pub open spec fn kept(v: Option<Vec<u64>>, on: bool, s: Seq<u64>) -> bool {
    if on {
        v matches Some(w) && w@ == s
    } else {
        v is None
    }
}

/// The counters advanced by one transform with mitigation grow by at most its cost bound.
proof fn lemma_transform_counts_within(
    m: NttSystemMetrics,
    params: RingParams,
    inverse: bool,
    implementation: NttImplementation,
    mitigation: MitigationOptions,
    fault: Option<FaultSpec>,
)
    requires
        transform_size_ok(params.n as nat, implementation),
        has_room(m, transform_cost(params.n as nat, implementation)),
    ensures
        grown_within(
            transform_counts(m, params, inverse, implementation, mitigation, fault),
            m,
            transform_cost(params.n as nat, implementation),
        ),
{
    let n = params.n as nat;
    if uses_mitigation(implementation, mitigation) {
        lemma_backend_within(m, n, inverse, model_hits(n, fault), false, implementation);
    } else {
        match implementation {
            NttImplementation::Stockham => lemma_backend_within(m, n, inverse, stockham_hits(fault), false, implementation),
            NttImplementation::Radix4 => lemma_backend_within(m, n, inverse, pass_hits(n, fault), false, implementation),
            _ => lemma_backend_within(m, n, inverse, model_hits(n, fault), fault is Some, implementation),
        }
    }
}

/// The negacyclic product of the first `N` words of `a` and `b` through the transforms
/// of the chosen backend and mitigation, with an optional fault: a fault on the forward
/// transforms strikes the transform of the operand it names, one on the inverse transform
/// strikes that, and one on the product flips a bit of the named transformed operand.
#[verifier::rlimit(100)]
pub fn negacyclic_mul_pipeline(
    params: &RingParams,
    ntt_impl: NttImplementation,
    mitigation: &MitigationOptions,
    a: &[u64],
    b: &[u64],
    fault_op: Option<CkksFaultOp>,
    fault: Option<&FaultSpec>,
    trace_options: CkksTraceOptions,
    system_metrics: &mut NttSystemMetrics,
    mitigation_metrics: &mut MitigationMetrics,
) -> (r: Result<PipelineRun, NttError>)
    requires
        params.wf(),
        transform_size_ok(params.n as nat, ntt_impl),
        a@.len() >= params.n,
        b@.len() >= params.n,
        has_room(*old(system_metrics), 3 * transform_cost(params.n as nat, ntt_impl)),
        (fault_op == Some(CkksFaultOp::Ntt) || fault_op == Some(CkksFaultOp::Intt)) && ntt_impl
            != NttImplementation::Stockham && ntt_impl != NttImplementation::Naive ==> fault_fits(fault_value(fault)),
        uses_mitigation(ntt_impl, *mitigation) ==> tally_room(
            *old(mitigation_metrics),
            3 * (log2(params.n as nat) * params.n),
        ),
    ensures
        ({
            let q = params.modulus;
            let n = params.n as nat;
            let psi = params.primitive_2n_root;
            let fv = fault_value(fault);
            let fa = ntt_fault(fault_op, fv, FaultOperand::A);
            let fb = ntt_fault(fault_op, fv, FaultOperand::B);
            let fi = intt_fault(fault_op, fv);
            let ta = twist(a@, psi, q, n);
            let tb = twist(b@, psi, q, n);
            match r {
                Ok(run) => pipeline_result(*params, ntt_impl, *mitigation, a@, b@, fault_op, fv) matches Ok(w) && {
                    &&& run.coeffs@ == w.2
                    &&& kept(run.twisted_a, trace_options.encode, ta)
                    &&& kept(run.twisted_b, trace_options.encode, tb)
                    &&& kept(run.ntt_a, trace_options.ntt, w.0)
                    &&& kept(run.ntt_b, trace_options.ntt, w.1)
                    &&& kept(run.mul_ntt, trace_options.mul, pointwise(w.0, w.1, q))
                    &&& exists|sa: Seq<StageTrace>, sb: Seq<StageTrace>|
                        #[trigger] transform_traces(sa, trace_options.ntt, ta, *params, false, ntt_impl, *mitigation, fa)
                            && #[trigger] transform_traces(sb, trace_options.ntt, tb, *params, false, ntt_impl, *mitigation, fb)
                            && run.ntt_stages@ == (if trace_options.ntt && sb.len() > 0 {
                            sa + sb
                        } else {
                            sa
                        })
                    &&& transform_traces(
                        run.intt_stages@,
                        trace_options.intt,
                        pointwise(w.0, w.1, q),
                        *params,
                        true,
                        ntt_impl,
                        *mitigation,
                        fi,
                    )
                    &&& exists|m1: NttSystemMetrics, m2: NttSystemMetrics|
                        #[trigger] counts_after_run(m1, transform_counts(*old(system_metrics), *params, false, ntt_impl, *mitigation, fa))
                            && #[trigger] counts_after_run(m2, transform_counts(m1, *params, false, ntt_impl, *mitigation, fb))
                            && counts_after_run(*final(system_metrics), transform_counts(m2, *params, true, ntt_impl, *mitigation, fi))
                    &&& exists|k1: MitigationMetrics, k2: MitigationMetrics|
                        #[trigger] mitigation_after(k1, *old(mitigation_metrics), transform_tally(ta, *params, false, ntt_impl, *mitigation, fa), uses_mitigation(ntt_impl, *mitigation), *mitigation)
                            && #[trigger] mitigation_after(k2, k1, transform_tally(tb, *params, false, ntt_impl, *mitigation, fb), uses_mitigation(ntt_impl, *mitigation), *mitigation)
                            && mitigation_after(*final(mitigation_metrics), k2, transform_tally(pointwise(w.0, w.1, q), *params, true, ntt_impl, *mitigation, fi), uses_mitigation(ntt_impl, *mitigation), *mitigation)
                },
                Err(e) => {
                    let ra = transform_result(ta, *params, false, ntt_impl, *mitigation, fa);
                    let rb = transform_result(tb, *params, false, ntt_impl, *mitigation, fb);
                    let mr = mul_fault_result(ra->Ok_0, rb->Ok_0, *params, fault_op, fv);
                    &&& pipeline_result(*params, ntt_impl, *mitigation, a@, b@, fault_op, fv) == Err::<
                        (Seq<u64>, Seq<u64>, Seq<u64>),
                        NttError,
                    >(e)
                    &&& ra is Err ==> {
                        &&& *final(system_metrics) == naive_error_counts(*old(system_metrics), ta, *params, fa)
                        &&& *final(mitigation_metrics) == *old(mitigation_metrics)
                    }
                    &&& ra is Ok && rb is Err ==> {
                        &&& exists|m1: NttSystemMetrics|
                            #[trigger] counts_after_run(m1, transform_counts(*old(system_metrics), *params, false, ntt_impl, *mitigation, fa))
                                && *final(system_metrics) == naive_error_counts(m1, tb, *params, fb)
                        &&& *final(mitigation_metrics) == *old(mitigation_metrics)
                    }
                    &&& ra is Ok && rb is Ok && mr is Err ==> {
                        &&& exists|m1: NttSystemMetrics|
                            #[trigger] counts_after_run(m1, transform_counts(*old(system_metrics), *params, false, ntt_impl, *mitigation, fa))
                                && counts_after_run(*final(system_metrics), transform_counts(m1, *params, false, ntt_impl, *mitigation, fb))
                        &&& exists|k1: MitigationMetrics|
                            #[trigger] mitigation_after(k1, *old(mitigation_metrics), transform_tally(ta, *params, false, ntt_impl, *mitigation, fa), uses_mitigation(ntt_impl, *mitigation), *mitigation)
                                && mitigation_after(*final(mitigation_metrics), k1, transform_tally(tb, *params, false, ntt_impl, *mitigation, fb), uses_mitigation(ntt_impl, *mitigation), *mitigation)
                    }
                    &&& ra is Ok && rb is Ok && mr is Ok ==> {
                        &&& exists|m1: NttSystemMetrics, m2: NttSystemMetrics|
                            #[trigger] counts_after_run(m1, transform_counts(*old(system_metrics), *params, false, ntt_impl, *mitigation, fa))
                                && #[trigger] counts_after_run(m2, transform_counts(m1, *params, false, ntt_impl, *mitigation, fb))
                                && *final(system_metrics) == naive_error_counts(m2, pointwise(mr->Ok_0.0, mr->Ok_0.1, q), *params, fi)
                        &&& *final(mitigation_metrics) == *old(mitigation_metrics)
                    }
                },
            }
        }),
{
    let n = params.n;
    let q = params.modulus;
    let psi = params.primitive_2n_root;
    let psi_inv = inv_mod(psi, q);
    let ghost fv = fault_value(fault);
    // Route the fault to the operation it targets.
    let (fault_a, fault_b, fault_i): (Option<&FaultSpec>, Option<&FaultSpec>, Option<&FaultSpec>) = match fault_op {
        Some(CkksFaultOp::Ntt) => match fault {
            Some(f) => match f.operand {
                FaultOperand::A => (Some(f), None, None),
                FaultOperand::B => (None, Some(f), None),
            },
            None => (None, None, None),
        },
        Some(CkksFaultOp::Intt) => (None, None, fault),
        _ => (None, None, None),
    };
    let ghost fa = fault_value(fault_a);
    let ghost fb = fault_value(fault_b);
    let ghost fi = fault_value(fault_i);
    assert(fa == ntt_fault(fault_op, fv, FaultOperand::A));
    assert(fb == ntt_fault(fault_op, fv, FaultOperand::B));
    assert(fi == intt_fault(fault_op, fv));
    let ghost m0 = *system_metrics;
    let ghost k0 = *mitigation_metrics;
    let ghost cost = transform_cost(n as nat, ntt_impl);
    let ghost ln = log2(n as nat) * n;

    let mut ta: Vec<u64> = Vec::new();
    let mut tb: Vec<u64> = Vec::new();
    let mut i: usize = 0;
    while i < n
        invariant
            params.wf(),
            n == params.n,
            q == params.modulus,
            psi == params.primitive_2n_root,
            a@.len() >= n,
            b@.len() >= n,
            i <= n,
            ta@ == twist(a@, psi, q, n as nat).subrange(0, i as int),
            tb@ == twist(b@, psi, q, n as nat).subrange(0, i as int),
        decreases n - i,
    {
        ta.push(mul_mod(a[i], pow_mod(psi, i as u64, q), q));
        tb.push(mul_mod(b[i], pow_mod(psi, i as u64, q), q));
        i = i + 1;
        assert(ta@ =~= twist(a@, psi, q, n as nat).subrange(0, i as int));
        assert(tb@ =~= twist(b@, psi, q, n as nat).subrange(0, i as int));
    }
    assert(ta@ =~= twist(a@, psi, q, n as nat));
    assert(tb@ =~= twist(b@, psi, q, n as nat));
    proof {
        lemma_twist_ready(a@, psi, *params, ntt_impl, fa);
        lemma_twist_ready(b@, psi, *params, ntt_impl, fb);
        lemma_reduced_mitigation_fits(ta@, *params, false, fa, *mitigation);
        lemma_reduced_mitigation_fits(tb@, *params, false, fb, *mitigation);
        lemma_transform_counts_within(m0, *params, false, ntt_impl, *mitigation, fa);
    }

    let ntt_trace_enabled = trace_options.ntt;
    let intt_trace_enabled = trace_options.intt;

    let (mut a_hat, ntt_stages) = match ntt_with_impl_and_mitigation(
        ta.as_slice(),
        params,
        ntt_trace_enabled,
        ntt_impl,
        Some(&mut *system_metrics),
        mitigation,
        mitigation_metrics,
        fault_a,
    ) {
        Ok(v) => v,
        Err(e) => {
            return Err(e);
        },
    };
    let ghost m1 = *system_metrics;
    let ghost k1 = *mitigation_metrics;
    proof {
        crate::ntt::lemma_transform_result_len(ta@, *params, false, ntt_impl, *mitigation, fa);
        lemma_room_after(m1, m0, cost, 2 * cost);
        lemma_transform_counts_within(m1, *params, false, ntt_impl, *mitigation, fb);
    }

    let (mut b_hat, mut b_stages) = match ntt_with_impl_and_mitigation(
        tb.as_slice(),
        params,
        ntt_trace_enabled,
        ntt_impl,
        Some(&mut *system_metrics),
        mitigation,
        mitigation_metrics,
        fault_b,
    ) {
        Ok(v) => v,
        Err(e) => {
            proof {
                assert(counts_after_run(m1, transform_counts(m0, *params, false, ntt_impl, *mitigation, fa)));
            }
            return Err(e);
        },
    };
    let ghost m2 = *system_metrics;
    let ghost k2 = *mitigation_metrics;
    proof {
        crate::ntt::lemma_transform_result_len(tb@, *params, false, ntt_impl, *mitigation, fb);
        lemma_room_after(m2, m1, cost, cost);
    }

    // A product fault strikes one transformed operand just before the pointwise product.
    if let Some(CkksFaultOp::Mul) = fault_op {
        if let Some(spec) = fault {
            match spec.operand {
                FaultOperand::A => {
                    match inject_bit_fault(a_hat.as_mut_slice(), spec.slot, spec.bit, params.modulus_bits, q) {
                        Ok(()) => {},
                        Err(e) => {
                            proof {
                                assert(counts_after_run(m1, transform_counts(m0, *params, false, ntt_impl, *mitigation, fa)));
                                assert(mitigation_after(k1, k0, transform_tally(ta@, *params, false, ntt_impl, *mitigation, fa), uses_mitigation(ntt_impl, *mitigation), *mitigation));
                            }
                            return Err(e);
                        },
                    }
                },
                FaultOperand::B => {
                    match inject_bit_fault(b_hat.as_mut_slice(), spec.slot, spec.bit, params.modulus_bits, q) {
                        Ok(()) => {},
                        Err(e) => {
                            proof {
                                assert(counts_after_run(m1, transform_counts(m0, *params, false, ntt_impl, *mitigation, fa)));
                                assert(mitigation_after(k1, k0, transform_tally(ta@, *params, false, ntt_impl, *mitigation, fa), uses_mitigation(ntt_impl, *mitigation), *mitigation));
                            }
                            return Err(e);
                        },
                    }
                },
            }
        }
    }

    let c_hat = mul_ntt(a_hat.as_slice(), b_hat.as_slice(), q);
    assert(c_hat@ =~= pointwise(a_hat@, b_hat@, q));
    proof {
        lemma_pointwise_ready(a_hat@, b_hat@, *params, ntt_impl, fi);
        lemma_reduced_mitigation_fits(c_hat@, *params, true, fi, *mitigation);
        lemma_transform_counts_within(m2, *params, true, ntt_impl, *mitigation, fi);
    }

    let (mut c, intt_stages) = match intt_with_impl_and_mitigation(
        c_hat.as_slice(),
        params,
        intt_trace_enabled,
        ntt_impl,
        Some(&mut *system_metrics),
        mitigation,
        mitigation_metrics,
        fault_i,
    ) {
        Ok(v) => v,
        Err(e) => {
            proof {
                assert(counts_after_run(m1, transform_counts(m0, *params, false, ntt_impl, *mitigation, fa)));
                assert(counts_after_run(m2, transform_counts(m1, *params, false, ntt_impl, *mitigation, fb)));
            }
            return Err(e);
        },
    };

    proof {
        crate::ntt::lemma_transform_result_len(c_hat@, *params, true, ntt_impl, *mitigation, fi);
    }
    let ghost c0 = c@;
    let mut k: usize = 0;
    while k < n
        invariant
            q == params.modulus,
            q >= 2,
            c0.len() == n,
            c@.len() == n,
            k <= n,
            forall|j: int| 0 <= j < k ==> #[trigger] c@[j] == twist(c0, psi_inv, q, n as nat)[j],
            forall|j: int| k <= j < n ==> #[trigger] c@[j] == c0[j],
        decreases n - k,
    {
        let v = mul_mod(c[k], pow_mod(psi_inv, k as u64, q), q);
        c.set(k, v);
        k = k + 1;
    }
    assert(c@ =~= twist(c0, psi_inv, q, n as nat));

    let mut combined_ntt_stages = ntt_stages;
    if trace_options.ntt && !b_stages.is_empty() {
        combined_ntt_stages.append(&mut b_stages);
    }

    let ntt_a = if trace_options.ntt {
        Some(copy_words(&a_hat))
    } else {
        None
    };
    let ntt_b = if trace_options.ntt {
        Some(copy_words(&b_hat))
    } else {
        None
    };
    Ok(
        PipelineRun {
            coeffs: c,
            twisted_a: if trace_options.encode {
                Some(ta)
            } else {
                None
            },
            twisted_b: if trace_options.encode {
                Some(tb)
            } else {
                None
            },
            ntt_a,
            ntt_b,
            ntt_stages: combined_ntt_stages,
            mul_ntt: if trace_options.mul {
                Some(c_hat)
            } else {
                None
            },
            intt_stages,
        },
    )
}

/// Twisted words are below `q`, `N` of them: fit for every backend.
proof fn lemma_twist_ready(
    a: Seq<u64>,
    c: u64,
    params: RingParams,
    implementation: NttImplementation,
    fault: Option<FaultSpec>,
)
    requires
        params.wf(),
        transform_size_ok(params.n as nat, implementation),
        a.len() >= params.n,
        implementation != NttImplementation::Stockham && implementation != NttImplementation::Naive ==> fault_fits(fault),
    ensures
        backend_ready(twist(a, c, params.modulus, params.n as nat), params, fault, implementation),
        reduced(twist(a, c, params.modulus, params.n as nat), params.modulus),
{
    let t = twist(a, c, params.modulus, params.n as nat);
    assert forall|i: int| 0 <= i < t.len() implies #[trigger] t[i] < params.modulus by {
        vstd::arithmetic::div_mod::lemma_mod_bound(
            a[i] * pow_m(c, i as nat, params.modulus),
            params.modulus as int,
        );
    }
    crate::ntt::dif::lemma_reduced_dif_fits(t, params, fault);
}

/// The pointwise product of two transforms of `N` words is fit for every backend.
proof fn lemma_pointwise_ready(
    x: Seq<u64>,
    y: Seq<u64>,
    params: RingParams,
    implementation: NttImplementation,
    fault: Option<FaultSpec>,
)
    requires
        params.wf(),
        transform_size_ok(params.n as nat, implementation),
        x.len() == params.n,
        y.len() == params.n,
        implementation != NttImplementation::Stockham && implementation != NttImplementation::Naive ==> fault_fits(fault),
    ensures
        backend_ready(pointwise(x, y, params.modulus), params, fault, implementation),
        reduced(pointwise(x, y, params.modulus), params.modulus),
{
    let t = pointwise(x, y, params.modulus);
    assert forall|i: int| 0 <= i < t.len() implies #[trigger] t[i] < params.modulus by {
        vstd::arithmetic::div_mod::lemma_mod_bound(x[i] * y[i], params.modulus as int);
    }
    crate::ntt::dif::lemma_reduced_dif_fits(t, params, fault);
}


/// Law: for a modulus that passes the primality test, the product pipeline without a
/// fault, through any backend
/// and any mitigation, returns exactly the schoolbook negacyclic product of its operands.
pub proof fn law_pipeline_without_fault_is_exact(
    params: RingParams,
    implementation: NttImplementation,
    mitigation: MitigationOptions,
    a: Seq<u64>,
    b: Seq<u64>,
    fault_op: Option<CkksFaultOp>,
)
    requires
        params.has_roots(),
        passes_primality_test(params.modulus as int),
        a.len() == params.n,
        b.len() == params.n,
    ensures
        pipeline_result(params, implementation, mitigation, a, b, fault_op, None) matches Ok(r) && r.2
            == negacyclic_product(a, b, params.modulus),
{
    let q = params.modulus;
    let n = params.n as nat;
    let psi = params.primitive_2n_root;
    let a2 = twist(a, psi, q, n);
    let b2 = twist(b, psi, q, n);
    lemma_twist_reduced(a, psi, q, n);
    lemma_twist_reduced(b, psi, q, n);
    lemma_clean_transform(a2, params, false, implementation, mitigation);
    lemma_clean_transform(b2, params, false, implementation, mitigation);
    let a_hat = radix2_output(a2, params, false, None);
    let b_hat = radix2_output(b2, params, false, None);
    lemma_radix2_output_len(a2, params, false, None);
    lemma_radix2_output_len(b2, params, false, None);
    let c_hat = pointwise(a_hat, b_hat, q);
    assert(c_hat =~= Seq::new(n, |i: int| mul_m(a_hat[i], b_hat[i], q)));
    assert(reduced(c_hat, q)) by {
        assert forall|i: int| 0 <= i < c_hat.len() implies #[trigger] c_hat[i] < q by {
            vstd::arithmetic::div_mod::lemma_mod_bound(a_hat[i] * b_hat[i], q as int);
        }
    }
    lemma_clean_transform(c_hat, params, true, implementation, mitigation);
    law_negacyclic_via_transforms(a, b, params);
}

} // verus!
