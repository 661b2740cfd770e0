use ckks_ntt::ckks::{negacyclic_mul_pipeline, product_trace, CkksFaultOp, CkksTraceOptions, PipelineRun};
use ckks_ntt::demo::{pass_fail, validate_ckks_demo_behavior, DemoValidationError};
use ckks_ntt::error::NttError;
use ckks_ntt::fault::{inject_bit_fault, FaultOperand, FaultSite, FaultSpec};
use ckks_ntt::mitigation::{
    record_butterfly_check_result, ChecksumMode, MitigationAction, MitigationKind, MitigationMetrics,
    MitigationOptions,
};
use ckks_ntt::modarith::{add_mod, centered, from_centered, inv_mod, mul_mod, pow_mod, sub_mod};
use ckks_ntt::ntt::{
    add_ntt, intt, intt_faulty_with_impl_and_mitigation, intt_with_fault_and_mitigation, intt_with_impl,
    intt_with_impl_and_mitigation, mul_ntt, ntt, ntt_faulty_with_impl_and_mitigation, ntt_with_fault_and_mitigation,
    ntt_with_impl, ntt_with_impl_and_mitigation, ntt_with_optional_fault_runtime, NttImplementation,
    NttSystemMetrics, StageTrace,
};
use ckks_ntt::params::RingParams;
use ckks_ntt::validation::{naive_negacyclic_mul, negacyclic_ntt_mul};

fn params16() -> RingParams {
    RingParams::new(16, 24).expect("valid params")
}

fn sample(params: &RingParams, mul: usize, add: usize) -> Vec<u64> {
    (0..params.n).map(|i| ((i * mul + add) as u64) % params.modulus).collect()
}

fn arith_fault(site: FaultSite, stage: usize, slot: usize, bit: u32) -> FaultSpec {
    let mut f = FaultSpec::new(FaultOperand::A, stage, slot, bit);
    f.site = site;
    f
}

#[test]
fn modular_arithmetic_exact_values() {
    assert_eq!(add_mod(5, 9, 11), 3);
    assert_eq!(sub_mod(3, 9, 11), 5);
    assert_eq!(sub_mod(9, 3, 11), 6);
    assert_eq!(mul_mod(7, 8, 11), 1);
    assert_eq!(pow_mod(3, 5, 7), 5);
    assert_eq!(pow_mod(3, 0, 7), 1);
    assert_eq!(inv_mod(3, 7), 5);
    assert_eq!(mul_mod(inv_mod(3, 7), 3, 7), 1);
    assert_eq!(mul_mod(u64::MAX, u64::MAX, 1_000_000_007), ((u64::MAX as u128 * u64::MAX as u128) % 1_000_000_007) as u64);
}

#[test]
fn centered_round_trip() {
    let q = 17u64;
    assert_eq!(centered(3, q), 3);
    assert_eq!(centered(8, q), 8);
    assert_eq!(centered(9, q), -8);
    assert_eq!(from_centered(-8, q), 9);
    assert_eq!(from_centered(-35, q), 16);
    for x in 0..q {
        assert_eq!(from_centered(centered(x, q), q), x);
    }
}

#[test]
fn ring_params_errors() {
    assert_eq!(RingParams::new(15, 24).unwrap_err(), NttError::NotPowerOfTwo);
    assert_eq!(RingParams::new(16, 3).unwrap_err(), NttError::ModulusBitsOutOfRange);
    assert_eq!(RingParams::new(16, 63).unwrap_err(), NttError::ModulusBitsOutOfRange);
    let p = params16();
    assert!(p.modulus >= 1 << 23 && p.modulus < 1 << 24);
    assert_eq!(p.primitive_n_root, mul_mod(p.primitive_2n_root, p.primitive_2n_root, p.modulus));
}

#[test]
fn inject_bit_fault_errors_and_flip() {
    let mut v = vec![5u64, 6, 7];
    assert_eq!(inject_bit_fault(&mut v, 3, 0, 24, 97), Err(NttError::FaultSlotOutOfRange { slot: 3, len: 3 }));
    assert_eq!(inject_bit_fault(&mut v, 1, 24, 24, 97), Err(NttError::FaultBitOutOfRange { bit: 24, modulus_bits: 24 }));
    assert_eq!(v, vec![5, 6, 7]);
    assert_eq!(inject_bit_fault(&mut v, 1, 7, 24, 97), Ok(()));
    assert_eq!(v, vec![5, (6 ^ 128) % 97, 7]);
}

#[test]
fn backends_agree_and_round_trip() {
    let params = params16();
    let input = sample(&params, 5, 1);
    let (golden, _) = ntt(&input, &params, false);
    for implementation in [
        NttImplementation::Radix2,
        NttImplementation::DifRadix2,
        NttImplementation::Stockham,
        NttImplementation::Radix4,
        NttImplementation::FourStep,
        NttImplementation::Naive,
    ] {
        let (out, _) = ntt_with_impl(&input, &params, false, implementation, None).unwrap();
        assert_eq!(out, golden);
        let (back, _) = intt_with_impl(&out, &params, false, implementation, None).unwrap();
        assert_eq!(back, input);
    }
    let (back, _) = intt(&golden, &params, false);
    assert_eq!(back, input);
}

#[test]
fn four_step_with_several_blocks_matches_radix2() {
    let params = RingParams::new(512, 30).unwrap();
    let input = sample(&params, 7, 3);
    let (golden, _) = ntt_with_impl(&input, &params, false, NttImplementation::Radix2, None).unwrap();
    let mut m = NttSystemMetrics::default();
    let (out, traces) = ntt_with_impl(&input, &params, true, NttImplementation::FourStep, Some(&mut m)).unwrap();
    assert_eq!(out, golden);
    assert_eq!(traces.len(), 9);
    assert_eq!(m.num_blocks, 9 * 2);
    assert_eq!(m.block_bytes, 256 * 8);
    assert_eq!(m.num_mod_adds, 9 * 256);
}

#[test]
fn radix2_counters_follow_the_formula() {
    let params = params16();
    let input = sample(&params, 3, 2);
    let mut m = NttSystemMetrics::default();
    let (_, traces) = ntt_with_impl(&input, &params, true, NttImplementation::Radix2, Some(&mut m)).unwrap();
    assert_eq!(traces.len(), 4);
    assert_eq!(m.num_mod_adds, 4 * 8);
    assert_eq!(m.num_mod_muls, 4 * 16);
    assert_eq!(m.num_memory_reads, 16 + 4 * 16);
    assert_eq!(m.num_stage_barriers, 4);
    assert_eq!(m.input_bytes, 16 * 8);
    let mut m = NttSystemMetrics::default();
    let _ = intt_with_impl(&input, &params, false, NttImplementation::Radix2, Some(&mut m)).unwrap();
    assert_eq!(m.num_mod_muls, 4 * 16 + 16);
}

#[test]
fn naive_backend_errors() {
    let params = params16();
    let input = sample(&params, 3, 2);
    let short = &input[..8];
    assert_eq!(
        ntt_with_impl(short, &params, false, NttImplementation::Naive, None).unwrap_err(),
        NttError::LengthMismatch { expected: 16, got: 8 }
    );
    let mut m = MitigationMetrics::default();
    let fault = FaultSpec::new(FaultOperand::A, 1, 0, 0);
    let r = ntt_faulty_with_impl_and_mitigation(
        &input,
        &params,
        false,
        &fault,
        NttImplementation::Naive,
        None,
        &MitigationOptions::disabled(),
        &mut m,
    );
    assert_eq!(r.unwrap_err(), NttError::NaiveStageUnsupported);
    let fault = FaultSpec::new(FaultOperand::A, 0, 0, 30);
    let r = ntt_faulty_with_impl_and_mitigation(
        &input,
        &params,
        false,
        &fault,
        NttImplementation::Naive,
        None,
        &MitigationOptions::disabled(),
        &mut m,
    );
    assert_eq!(r.unwrap_err(), NttError::FaultBitOutOfRange { bit: 30, modulus_bits: 24 });
}

#[test]
fn runtime_fault_slot_out_of_range() {
    let params = params16();
    let input = sample(&params, 3, 2);
    let fault = FaultSpec::new(FaultOperand::A, 0, 16, 1);
    let r = ntt_with_optional_fault_runtime(&input, &params, false, Some(&fault), NttImplementation::Radix2, None);
    assert_eq!(r.unwrap_err(), NttError::FaultSlotOutOfRange { slot: 16, len: 16 });
    let fault = FaultSpec::new(FaultOperand::A, 0, 2, 1);
    let (faulty, _) =
        ntt_with_optional_fault_runtime(&input, &params, false, Some(&fault), NttImplementation::Radix2, None).unwrap();
    let mut flipped = input.clone();
    flipped[2] = (flipped[2] ^ 2) % params.modulus;
    let (expected, _) = ntt(&flipped, &params, false);
    assert_eq!(faulty, expected);
}

#[test]
fn butterfly_check_recompute_repairs_an_arithmetic_fault() {
    let params = params16();
    let input = sample(&params, 11, 4);
    let (golden, _) = ntt(&input, &params, false);
    let fault = arith_fault(FaultSite::MulOutput, 1, 3, 5);
    let options = MitigationOptions {
        kind: MitigationKind::ButterflyCheck,
        action: MitigationAction::Recompute,
        max_retries: 3,
        checksum_mode: ChecksumMode::Sum,
    };
    let mut mm = MitigationMetrics::default();
    let (out, _) = ntt_faulty_with_impl_and_mitigation(
        &input,
        &params,
        false,
        &fault,
        NttImplementation::Radix2,
        None,
        &options,
        &mut mm,
    )
    .unwrap();
    assert_eq!(out, golden);
    assert!(mm.mitigation_enabled);
    assert_eq!(mm.mitigation_kind, "ButterflyCheck");
    assert_eq!(mm.checks_performed, 4 * 8);
    assert_eq!(mm.check_failures, 1);
    assert_eq!(mm.recomputations, 1);
    assert!(mm.fault_detected && mm.fault_corrected);

    let detect = MitigationOptions { action: MitigationAction::DetectOnly, ..options };
    let mut mm = MitigationMetrics::default();
    let (out, traces) = ntt_faulty_with_impl_and_mitigation(
        &input,
        &params,
        true,
        &fault,
        NttImplementation::Radix2,
        None,
        &detect,
        &mut mm,
    )
    .unwrap();
    assert_ne!(out, golden);
    assert_eq!(mm.check_failures, 1);
    assert!(mm.fault_detected && !mm.fault_corrected);
    assert!(!traces[0].faulted && traces[1].faulted);
}

#[test]
fn stage_checksum_recompute_repairs_an_arithmetic_fault() {
    let params = params16();
    let input = sample(&params, 9, 7);
    let (golden, _) = intt(&input, &params, false);
    let fault = arith_fault(FaultSite::AddOutput, 2, 1, 3);
    let options = MitigationOptions {
        kind: MitigationKind::StageChecksum,
        action: MitigationAction::Recompute,
        max_retries: 1,
        checksum_mode: ChecksumMode::SumIndex,
    };
    let mut mm = MitigationMetrics::default();
    let (out, _) = intt_faulty_with_impl_and_mitigation(
        &input,
        &params,
        false,
        &fault,
        NttImplementation::Radix2,
        None,
        &options,
        &mut mm,
    )
    .unwrap();
    assert_eq!(out, golden);
    assert_eq!(mm.stage_checks_performed, 4);
    assert_eq!(mm.stage_check_failures, 1);
    assert_eq!(mm.stage_checksum_s1_failures, 1);
    assert_eq!(mm.recomputations, 1);
    assert!(mm.fault_corrected);
}

#[test]
fn mitigation_without_fault_changes_nothing() {
    let params = params16();
    let input = sample(&params, 13, 1);
    let (golden, _) = ntt(&input, &params, false);
    for kind in [MitigationKind::ButterflyCheck, MitigationKind::StageChecksum] {
        let options = MitigationOptions {
            kind,
            action: MitigationAction::Recompute,
            max_retries: 2,
            checksum_mode: ChecksumMode::SumIndex,
        };
        let mut mm = MitigationMetrics::default();
        let (out, _) = ntt_with_impl_and_mitigation(
            &input,
            &params,
            false,
            NttImplementation::Radix2,
            None,
            &options,
            &mut mm,
            None,
        )
        .unwrap();
        assert_eq!(out, golden);
        assert_eq!(mm.check_failures, 0);
        assert_eq!(mm.recomputations, 0);
        assert!(!mm.fault_detected);
    }
    let mut mm = MitigationMetrics::default();
    let (back, _) = intt_with_impl_and_mitigation(
        &golden,
        &params,
        false,
        NttImplementation::Stockham,
        None,
        &MitigationOptions::disabled(),
        &mut mm,
        None,
    )
    .unwrap();
    assert_eq!(back, input);
    assert!(!mm.mitigation_enabled);
}

#[test]
fn recorded_radix2_transform_counts_checks() {
    let params = params16();
    let input = sample(&params, 5, 5);
    let (golden, _) = ntt(&input, &params, false);
    let mut m = NttSystemMetrics::default();
    let mut mm = MitigationMetrics::default();
    let (out, _) =
        ntt_with_fault_and_mitigation(&input, &params, false, None, NttImplementation::Radix2, Some(&mut m), Some(&mut mm))
            .unwrap();
    assert_eq!(out, golden);
    assert_eq!(mm.checks_performed, 4 * 8);
    assert_eq!(mm.check_failures, 0);
    assert_eq!(m.num_mod_adds, 2 * 4 * 8);
    assert_eq!(m.input_bytes, 16 * 8);

    let fault = arith_fault(FaultSite::SubOutput, 0, 1, 2);
    let mut mm = MitigationMetrics::default();
    let (out, traces) = ntt_with_fault_and_mitigation(
        &input,
        &params,
        true,
        Some(&fault),
        NttImplementation::Radix2,
        None,
        Some(&mut mm),
    )
    .unwrap();
    assert_ne!(out, golden);
    assert_eq!(mm.check_failures, 1);
    assert!(traces[0].faulted);

    let bad = FaultSpec::new(FaultOperand::A, 0, 40, 1);
    let r = intt_with_fault_and_mitigation(&input, &params, false, Some(&bad), NttImplementation::Radix2, None, None);
    assert_eq!(r.unwrap_err(), NttError::FaultSlotOutOfRange { slot: 40, len: 16 });
}

#[test]
fn pointwise_operations_use_the_common_length() {
    assert_eq!(add_ntt(&[1, 2, 3], &[5, 6], 7), vec![6, 1]);
    assert_eq!(mul_ntt(&[3, 4], &[5, 6, 7], 7), vec![1, 3]);
}

#[test]
fn negacyclic_products_agree() {
    let params = params16();
    let a = sample(&params, 3, 1);
    let b = sample(&params, 7, 2);
    assert_eq!(negacyclic_ntt_mul(&a, &b, &params), naive_negacyclic_mul(&a, &b, params.modulus));
    // X * X^(N-1) = X^N = -1 in Z_q[X]/(X^N+1).
    let mut x = vec![0u64; 16];
    x[1] = 1;
    let mut y = vec![0u64; 16];
    y[15] = 1;
    let mut minus_one = vec![0u64; 16];
    minus_one[0] = params.modulus - 1;
    assert_eq!(naive_negacyclic_mul(&x, &y, params.modulus), minus_one);
    assert_eq!(negacyclic_ntt_mul(&x, &y, &params), minus_one);
}

#[test]
fn pipeline_without_fault_is_the_negacyclic_product() {
    let params = params16();
    let a = sample(&params, 3, 1);
    let b = sample(&params, 7, 2);
    let mut m = NttSystemMetrics::default();
    let mut mm = MitigationMetrics::default();
    let run = negacyclic_mul_pipeline(
        &params,
        NttImplementation::Radix2,
        &MitigationOptions::disabled(),
        &a,
        &b,
        None,
        None,
        CkksTraceOptions::all(),
        &mut m,
        &mut mm,
    )
    .unwrap();
    assert_eq!(run.coeffs, naive_negacyclic_mul(&a, &b, params.modulus));
    assert!(run.twisted_a.is_some() && run.ntt_b.is_some() && run.mul_ntt.is_some());
    assert_eq!(run.ntt_stages.len(), 8);
    assert_eq!(run.intt_stages.len(), 4);
    let quiet = negacyclic_mul_pipeline(
        &params,
        NttImplementation::FourStep,
        &MitigationOptions::disabled(),
        &a,
        &b,
        None,
        None,
        CkksTraceOptions::default(),
        &mut m,
        &mut mm,
    )
    .unwrap();
    assert_eq!(quiet.coeffs, run.coeffs);
    assert!(quiet.twisted_a.is_none() && quiet.ntt_stages.is_empty());
}

#[test]
fn pipeline_faults_change_the_product() {
    let params = params16();
    let a = sample(&params, 3, 1);
    let b = sample(&params, 7, 2);
    let golden = naive_negacyclic_mul(&a, &b, params.modulus);
    let fault = FaultSpec::new(FaultOperand::A, 0, 0, 4);
    let mut m = NttSystemMetrics::default();
    let mut mm = MitigationMetrics::default();
    let mul_run = negacyclic_mul_pipeline(
        &params,
        NttImplementation::Radix2,
        &MitigationOptions::disabled(),
        &a,
        &b,
        Some(CkksFaultOp::Mul),
        Some(&fault),
        CkksTraceOptions::default(),
        &mut m,
        &mut mm,
    )
    .unwrap();
    assert_ne!(mul_run.coeffs, golden);
    let bad = FaultSpec::new(FaultOperand::B, 0, 0, 30);
    let r = negacyclic_mul_pipeline(
        &params,
        NttImplementation::Radix2,
        &MitigationOptions::disabled(),
        &a,
        &b,
        Some(CkksFaultOp::Mul),
        Some(&bad),
        CkksTraceOptions::default(),
        &mut m,
        &mut mm,
    );
    assert_eq!(r.unwrap_err(), NttError::FaultBitOutOfRange { bit: 30, modulus_bits: 24 });
}

#[test]
fn butterfly_check_records_in_the_pipeline() {
    let params = params16();
    let a = sample(&params, 3, 1);
    let b = sample(&params, 7, 2);
    let options = MitigationOptions {
        kind: MitigationKind::ButterflyCheck,
        action: MitigationAction::DetectOnly,
        max_retries: 1,
        checksum_mode: ChecksumMode::Sum,
    };
    let mut m = NttSystemMetrics::default();
    let mut mm = MitigationMetrics::default();
    mm.configure(&options);
    let run = negacyclic_mul_pipeline(
        &params,
        NttImplementation::Radix2,
        &options,
        &a,
        &b,
        None,
        None,
        CkksTraceOptions::default(),
        &mut m,
        &mut mm,
    )
    .unwrap();
    assert_eq!(run.coeffs, naive_negacyclic_mul(&a, &b, params.modulus));
    assert!(mm.mitigation_enabled);
    assert_eq!(mm.checks_performed, 3 * 4 * 8);
    assert_eq!(mm.check_failures, 0);
}

#[test]
fn demo_validation_verdicts() {
    let r = validate_ckks_demo_behavior(false, true).unwrap();
    assert!(r.execution_valid && r.golden_match && r.fault_observed.is_none());
    let r = validate_ckks_demo_behavior(true, false).unwrap();
    assert_eq!(r.fault_observed, Some(true));
    assert_eq!(validate_ckks_demo_behavior(true, true).unwrap_err(), DemoValidationError::FaultNotObserved);
    assert_eq!(validate_ckks_demo_behavior(false, false).unwrap_err(), DemoValidationError::GoldenMismatch);
    assert_eq!(pass_fail(true), "PASS");
    assert_eq!(pass_fail(false), "FAIL");
}

#[test]
fn options_and_records() {
    let t = CkksTraceOptions::all();
    assert!(t.encode && t.ntt && t.mul && t.intt && t.decode);
    let d = CkksTraceOptions::default();
    assert!(!d.encode && !d.decode);
    assert!(!MitigationOptions::disabled().enabled());
    let mut mm = MitigationMetrics::default();
    record_butterfly_check_result(&mut mm, 1, 2, 1, 2);
    record_butterfly_check_result(&mut mm, 1, 2, 1, 3);
    assert_eq!(mm.checks_performed, 2);
    assert_eq!(mm.check_failures, 1);
    assert!(mm.fault_detected);
    let f = FaultSpec::new(FaultOperand::B, 1, 2, 3);
    assert!(f.is_input_site() && !f.is_arithmetic_site());
    assert_eq!(FaultSite::RegisterWrite.name(), "register-write");
    assert_eq!(NttImplementation::FourStep.name(), "four-step");
}

fn run_with(tag: u64) -> PipelineRun {
    PipelineRun {
        coeffs: vec![tag, tag + 1],
        twisted_a: Some(vec![tag + 2]),
        twisted_b: Some(vec![tag + 3]),
        ntt_a: Some(vec![tag + 4]),
        ntt_b: Some(vec![tag + 5]),
        ntt_stages: vec![StageTrace { stage: 0, input: vec![tag], output: vec![tag + 6], faulted: false }],
        mul_ntt: Some(vec![tag + 7]),
        intt_stages: vec![StageTrace { stage: 0, input: vec![tag], output: vec![tag + 8], faulted: true }],
    }
}

#[test]
fn product_trace_keeps_the_selected_sections() {
    let options = CkksTraceOptions { encode: true, ntt: true, mul: false, intt: true, decode: false };
    let t = product_trace(run_with(10), run_with(100), options, true);
    assert_eq!(t.twisted_a, Some(vec![12]));
    assert_eq!(t.twisted_b, Some(vec![13]));
    assert_eq!(t.correct_ntt_a, Some(vec![14]));
    assert_eq!(t.faulty_ntt_b, Some(vec![105]));
    assert_eq!(t.correct_ntt_stages[0].output, vec![16]);
    assert_eq!(t.faulty_ntt_stages[0].output, vec![106]);
    assert_eq!(t.correct_mul_ntt, None);
    assert_eq!(t.faulty_mul_ntt, None);
    assert!(t.faulty_intt_stages[0].faulted);
    assert_eq!(t.correct_coeffs, Some(vec![10, 11]));
    assert_eq!(t.faulty_coeffs, Some(vec![100, 101]));

    let without_fault = product_trace(run_with(10), run_with(100), options, false);
    assert_eq!(without_fault.correct_ntt_a, Some(vec![14]));
    assert_eq!(without_fault.faulty_ntt_a, None);
    assert!(without_fault.faulty_ntt_stages.is_empty());
    assert!(without_fault.faulty_intt_stages.is_empty());
    assert_eq!(without_fault.faulty_coeffs, None);
}

#[test]
fn fault_site_names_read_back() {
    let sites = [
        FaultSite::Input,
        FaultSite::MulOutput,
        FaultSite::AddOutput,
        FaultSite::SubOutput,
        FaultSite::ButterflyOutput,
        FaultSite::RegisterWrite,
    ];
    for site in sites {
        assert_eq!(FaultSite::from_name(site.name()), Some(site));
    }
    assert_eq!(FaultSite::from_name("mul-output"), Some(FaultSite::MulOutput));
    assert_eq!(FaultSite::from_name("register-write"), Some(FaultSite::RegisterWrite));
    assert_eq!(FaultSite::from_name("mul_output"), None);
    assert_eq!(FaultSite::from_name(""), None);
}

#[test]
fn index_checksum_catches_a_product_fault_that_the_sum_misses() {
    let params = params16();
    let input = sample(&params, 3, 2);
    let (golden, _) = ntt(&input, &params, false);
    let fault = arith_fault(FaultSite::MulOutput, 1, 3, 6);
    let options = MitigationOptions {
        kind: MitigationKind::StageChecksum,
        action: MitigationAction::DetectOnly,
        max_retries: 1,
        checksum_mode: ChecksumMode::SumIndex,
    };
    let mut mm = MitigationMetrics::default();
    let (out, _) = ntt_faulty_with_impl_and_mitigation(
        &input,
        &params,
        false,
        &fault,
        NttImplementation::Radix2,
        None,
        &options,
        &mut mm,
    )
    .unwrap();
    assert_ne!(out, golden);
    assert_eq!(mm.stage_checks_performed, 4);
    assert_eq!(mm.stage_check_failures, 1);
    assert_eq!(mm.stage_checksum_s1_failures, 0);
    assert_eq!(mm.stage_checksum_s2_failures, 1);
    assert!(mm.fault_detected && !mm.fault_corrected);
}
