use ckks_ntt::ckks::{negacyclic_mul_pipeline, CkksFaultOp, CkksTraceOptions, PipelineRun};
use ckks_ntt::fault::{FaultOperand, FaultSite, FaultSpec};
use ckks_ntt::mitigation::{ChecksumMode, MitigationAction, MitigationKind, MitigationMetrics, MitigationOptions};
use ckks_ntt::ntt::{
    ntt, ntt_faulty_with_impl_and_mitigation, ntt_with_impl, ntt_with_impl_and_mitigation, NttImplementation,
    NttSystemMetrics,
};
use ckks_ntt::error::NttError;
use ckks_ntt::ntt::naive::transform_naive;
use ckks_ntt::ntt::recorded::radix2_transform_with_fault_and_mitigation;
use ckks_ntt::params::RingParams;
use ckks_ntt::validation::naive_negacyclic_mul;

fn params16() -> RingParams {
    RingParams::new(16, 24).expect("valid params")
}

fn sample(params: &RingParams, mul: usize, add: usize) -> Vec<u64> {
    (0..params.n).map(|i| ((i * mul + add) as u64) % params.modulus).collect()
}

fn run_pipeline(
    params: &RingParams,
    a: &[u64],
    b: &[u64],
    op: Option<CkksFaultOp>,
    fault: Option<&FaultSpec>,
) -> PipelineRun {
    let mut m = NttSystemMetrics::default();
    let mut mm = MitigationMetrics::default();
    negacyclic_mul_pipeline(
        params,
        NttImplementation::Radix2,
        &MitigationOptions::disabled(),
        a,
        b,
        op,
        fault,
        CkksTraceOptions::all(),
        &mut m,
        &mut mm,
    )
    .unwrap()
}

#[test]
fn product_fault_strikes_only_the_pointwise_operand() {
    let params = params16();
    let zeros = vec![0u64; params.n];
    let fault = FaultSpec::new(FaultOperand::A, 0, 3, 5);
    let run = run_pipeline(&params, &zeros, &zeros, Some(CkksFaultOp::Mul), Some(&fault));
    // The flipped word of a_hat meets a zero word of b_hat: the product stays zero.
    assert_eq!(run.coeffs, zeros);
    let a_hat = run.ntt_a.unwrap();
    assert_eq!(a_hat[3], 1 << 5);
    assert!(a_hat.iter().enumerate().all(|(i, &w)| i == 3 || w == 0));
    assert_eq!(run.ntt_b.unwrap(), zeros);
}

#[test]
fn forward_fault_strikes_only_the_named_operand() {
    let params = params16();
    let a = sample(&params, 3, 1);
    let b = sample(&params, 7, 2);
    let clean = run_pipeline(&params, &a, &b, None, None);
    let on_b = FaultSpec::new(FaultOperand::B, 1, 2, 3);
    let run = run_pipeline(&params, &a, &b, Some(CkksFaultOp::Ntt), Some(&on_b));
    assert_eq!(run.ntt_a, clean.ntt_a);
    assert_ne!(run.ntt_b, clean.ntt_b);
    assert_ne!(run.coeffs, naive_negacyclic_mul(&a, &b, params.modulus));
}

#[test]
fn inverse_fault_leaves_the_forward_transforms_alone() {
    let params = params16();
    let a = sample(&params, 3, 1);
    let b = sample(&params, 7, 2);
    let clean = run_pipeline(&params, &a, &b, None, None);
    let fault = FaultSpec::new(FaultOperand::A, 0, 4, 2);
    let run = run_pipeline(&params, &a, &b, Some(CkksFaultOp::Intt), Some(&fault));
    assert_eq!(run.ntt_a, clean.ntt_a);
    assert_eq!(run.ntt_b, clean.ntt_b);
    assert_eq!(run.mul_ntt, clean.mul_ntt);
    assert_ne!(run.coeffs, clean.coeffs);
}

#[test]
fn arithmetic_fault_takes_effect_without_mitigation() {
    let params = params16();
    let a = sample(&params, 5, 3);
    let mut fault = FaultSpec::new(FaultOperand::A, 1, 2, 6);
    fault.site = FaultSite::ButterflyOutput;
    let mut mm = MitigationMetrics::default();
    let (out, _) = ntt_with_impl_and_mitigation(
        &a,
        &params,
        false,
        NttImplementation::Radix2,
        None,
        &MitigationOptions::disabled(),
        &mut mm,
        Some(&fault),
    )
    .unwrap();
    let (clean, _) = ntt(&a, &params, false);
    assert_ne!(out, clean);
    let (direct, _) = ntt_faulty_with_impl_and_mitigation(
        &a,
        &params,
        false,
        &fault,
        NttImplementation::Radix2,
        None,
        &MitigationOptions::disabled(),
        &mut mm,
    )
    .unwrap();
    assert_eq!(out, direct);
}

#[test]
fn detection_alone_keeps_the_faulty_words() {
    let params = params16();
    let a = sample(&params, 5, 3);
    let input_fault = FaultSpec::new(FaultOperand::A, 2, 6, 4);
    let mut arith_fault = FaultSpec::new(FaultOperand::A, 1, 2, 6);
    arith_fault.site = FaultSite::MulOutput;
    for (fault, arithmetic) in [(input_fault, false), (arith_fault, true)] {
        let mut mm = MitigationMetrics::default();
        let (unprotected, _) = ntt_with_impl_and_mitigation(
            &a,
            &params,
            false,
            NttImplementation::Radix2,
            None,
            &MitigationOptions::disabled(),
            &mut mm,
            Some(&fault),
        )
        .unwrap();
        for kind in [MitigationKind::ButterflyCheck, MitigationKind::StageChecksum] {
            for action in [MitigationAction::DetectOnly, MitigationAction::Abort] {
                let options = MitigationOptions { kind, action, max_retries: 1, checksum_mode: ChecksumMode::Sum };
                let mut mm = MitigationMetrics::default();
                let (checked, _) = ntt_with_impl_and_mitigation(
                    &a,
                    &params,
                    false,
                    NttImplementation::Radix2,
                    None,
                    &options,
                    &mut mm,
                    Some(&fault),
                )
                .unwrap();
                assert_eq!(checked, unprotected);
                assert_eq!(mm.recomputations, 0);
                if arithmetic && kind == MitigationKind::ButterflyCheck {
                    assert_eq!(mm.check_failures, 1);
                    assert!(mm.fault_detected && !mm.fault_corrected);
                }
            }
        }
    }
}

fn unprotected(params: &RingParams, a: &[u64], fault: &FaultSpec, implementation: NttImplementation) -> Vec<u64> {
    let mut mm = MitigationMetrics::default();
    ntt_faulty_with_impl_and_mitigation(
        a,
        params,
        false,
        fault,
        implementation,
        None,
        &MitigationOptions::disabled(),
        &mut mm,
    )
    .unwrap()
    .0
}

#[test]
fn input_faults_agree_across_blocked_and_radix2() {
    let params = params16();
    let a = sample(&params, 11, 4);
    let mut fault = FaultSpec::new(FaultOperand::A, 2, 9, 7);
    fault.adjacent = true;
    fault.second_enabled = true;
    fault.second_stage = 1;
    fault.second_slot = 3;
    fault.second_bit = 2;
    let radix2 = unprotected(&params, &a, &fault, NttImplementation::Radix2);
    let (clean, _) = ntt(&a, &params, false);
    assert_ne!(radix2, clean);
    assert_eq!(unprotected(&params, &a, &fault, NttImplementation::FourStep), radix2);
}

#[test]
fn one_input_fault_agrees_across_stockham_and_radix2() {
    let params = params16();
    let a = sample(&params, 11, 4);
    let fault = FaultSpec::new(FaultOperand::A, 3, 12, 9);
    let radix2 = unprotected(&params, &a, &fault, NttImplementation::Radix2);
    let (clean, _) = ntt(&a, &params, false);
    assert_ne!(radix2, clean);
    assert_eq!(unprotected(&params, &a, &fault, NttImplementation::Stockham), radix2);
    let traced = |implementation: NttImplementation| {
        let mut mm = MitigationMetrics::default();
        ntt_faulty_with_impl_and_mitigation(&a, &params, true, &fault, implementation, None, &MitigationOptions::disabled(), &mut mm)
            .unwrap()
            .1
    };
    let (s, r) = (traced(NttImplementation::Stockham), traced(NttImplementation::Radix2));
    assert_eq!(s.len(), 4);
    assert_eq!(s.len(), r.len());
    for (x, y) in s.iter().zip(r.iter()) {
        assert_eq!((x.stage, &x.input, &x.output, x.faulted), (y.stage, &y.input, &y.output, y.faulted));
    }
    assert!(s[3].faulted && !s[2].faulted);
}

#[test]
fn dif_accepts_unreduced_words_whose_subtractions_stay_in_range() {
    let params = params16();
    let q = params.modulus;
    // Upper words exceed lower ones by N/2 < q: every first-stage subtraction stays in range.
    let unreduced: Vec<u64> = (0..params.n as u64).map(|i| q + i).collect();
    let reduced: Vec<u64> = unreduced.iter().map(|&w| w % q).collect();
    let (dif, _) = ntt_with_impl(&unreduced, &params, false, NttImplementation::DifRadix2, None).unwrap();
    let (radix2, _) = ntt(&reduced, &params, false);
    assert_eq!(dif, radix2);
    assert!(dif.iter().all(|&w| w < q));
}

#[test]
fn stage_checksum_accepts_unreduced_words() {
    let params = params16();
    let q = params.modulus;
    let unreduced: Vec<u64> = (0..params.n as u64).map(|i| q + 3 * i).collect();
    let reduced: Vec<u64> = unreduced.iter().map(|&w| w % q).collect();
    let options = MitigationOptions {
        kind: MitigationKind::StageChecksum,
        action: MitigationAction::DetectOnly,
        max_retries: 1,
        checksum_mode: ChecksumMode::SumIndex,
    };
    let mut mm = MitigationMetrics::default();
    let (checked, _) = ntt_with_impl_and_mitigation(
        &unreduced,
        &params,
        false,
        NttImplementation::Radix2,
        None,
        &options,
        &mut mm,
        None,
    )
    .unwrap();
    let mut plain_mm = MitigationMetrics::default();
    let (plain, _) = ntt_with_impl_and_mitigation(
        &unreduced,
        &params,
        false,
        NttImplementation::Radix2,
        None,
        &MitigationOptions::disabled(),
        &mut plain_mm,
        None,
    )
    .unwrap();
    assert_eq!(checked, plain);
    assert_eq!(mm.checks_performed, 4);
    let (from_reduced, _) = ntt(&reduced, &params, false);
    let reduced_out: Vec<u64> = checked.iter().map(|&w| w % q).collect();
    assert_eq!(reduced_out, from_reduced);
}

#[test]
fn one_transient_fault_is_repaired_by_one_recomputation() {
    let params = params16();
    let a = sample(&params, 5, 3);
    let (clean, _) = ntt(&a, &params, false);
    let options = MitigationOptions {
        kind: MitigationKind::ButterflyCheck,
        action: MitigationAction::Recompute,
        max_retries: 2,
        checksum_mode: ChecksumMode::Sum,
    };
    // stage 1 has blocks of four words: word 2 is an upper word, word 5 a lower one
    let sites = [(FaultSite::MulOutput, 2), (FaultSite::SubOutput, 2), (FaultSite::AddOutput, 5), (FaultSite::ButterflyOutput, 5)];
    for (site, slot) in sites {
        let mut fault = FaultSpec::new(FaultOperand::A, 1, slot, 6);
        fault.site = site;
        let mut mm = MitigationMetrics::default();
        let (out, _) = ntt_with_impl_and_mitigation(
            &a,
            &params,
            false,
            NttImplementation::Radix2,
            None,
            &options,
            &mut mm,
            Some(&fault),
        )
        .unwrap();
        assert_eq!(out, clean);
        assert_eq!(mm.check_failures, 1);
        assert_eq!(mm.recomputations, 1);
        assert!(mm.fault_detected && mm.fault_corrected);
        assert_eq!(mm.checks_performed, 8 * 4);
    }
}

#[test]
fn length_is_checked_before_the_parameters() {
    let unusable = RingParams { n: 16, modulus: 0, modulus_bits: 80, primitive_2n_root: 0, primitive_n_root: 0 };
    let short = vec![1u64; 5];
    let mut m = NttSystemMetrics::default();
    let r = transform_naive(&short, &unusable, false, false, None, Some(&mut m));
    assert_eq!(r.unwrap_err(), NttError::LengthMismatch { expected: 16, got: 5 });
    let r = radix2_transform_with_fault_and_mitigation(&short, &unusable, false, false, None, Some(&mut m), None);
    assert_eq!(r.unwrap_err(), NttError::LengthMismatch { expected: 16, got: 5 });
    let r = ntt_with_impl(&short, &unusable, false, NttImplementation::Naive, Some(&mut m));
    assert_eq!(r.unwrap_err(), NttError::LengthMismatch { expected: 16, got: 5 });
    assert_eq!(m.input_bytes, 0);
}

#[test]
fn radix4_pass_injects_where_radix2_stage_pair_does() {
    let params = params16();
    let a = sample(&params, 7, 1);
    for pass in 0..2usize {
        let fault = FaultSpec::new(FaultOperand::A, pass, 6, 5);
        let mut doubled = fault.clone();
        doubled.stage = 2 * pass;
        let radix4 = unprotected(&params, &a, &fault, NttImplementation::Radix4);
        let radix2 = unprotected(&params, &a, &doubled, NttImplementation::Radix2);
        assert_eq!(radix4, radix2);
        let (clean, _) = ntt(&a, &params, false);
        assert_ne!(radix4, clean);
    }
}

#[test]
fn adjacent_transient_fault_is_repaired_by_one_recomputation() {
    let params = params16();
    let a = sample(&params, 5, 3);
    let (clean, _) = ntt(&a, &params, false);
    let options = MitigationOptions {
        kind: MitigationKind::ButterflyCheck,
        action: MitigationAction::Recompute,
        max_retries: 1,
        checksum_mode: ChecksumMode::Sum,
    };
    // stage 2 has blocks of eight words: word 13 is an upper word, where a difference lands
    let mut fault = FaultSpec::new(FaultOperand::A, 2, 13, 9);
    fault.site = FaultSite::SubOutput;
    fault.adjacent = true;
    // an unused second fault may name any bit
    fault.second_adjacent = true;
    fault.second_bit = u32::MAX;
    let mut mm = MitigationMetrics::default();
    let (out, _) = ntt_with_impl_and_mitigation(
        &a,
        &params,
        false,
        NttImplementation::Radix2,
        None,
        &options,
        &mut mm,
        Some(&fault),
    )
    .unwrap();
    assert_eq!(out, clean);
    assert_eq!(mm.check_failures, 1);
    assert_eq!(mm.recomputations, 1);
    assert!(mm.fault_detected && mm.fault_corrected);
}

#[test]
fn selected_root_has_half_order_minus_one() {
    use_params_root_fact(&params16());
    use_params_root_fact(&RingParams::new(64, 30).unwrap());
}

fn use_params_root_fact(p: &RingParams) {
    let q = p.modulus;
    assert_eq!(ckks_ntt::modarith::pow_mod(p.primitive_2n_root, p.n as u64, q), q - 1);
    assert_eq!(ckks_ntt::modarith::pow_mod(2, q - 1, q), 1);
}
