use ckks_ntt::fault::{FaultOperand, FaultSite, FaultSpec};
use ckks_ntt::mitigation::{ChecksumMode, MitigationAction, MitigationKind, MitigationMetrics, MitigationOptions};
use ckks_ntt::ntt::{
    intt_with_impl, ntt_faulty_with_impl, ntt_with_impl, ntt_with_impl_and_mitigation, NttImplementation,
    NttSystemMetrics,
};
use ckks_ntt::params::RingParams;

#[test]
fn naive_matches_radix2_ntt_and_intt() {
    let params = RingParams::new(16, 24).expect("valid params");
    let input: Vec<u64> = (0..params.n).map(|i| ((i * 17 + 3) as u64) % params.modulus).collect();

    let (r_ntt, _) = ntt_with_impl(&input, &params, false, NttImplementation::Radix2, None).unwrap();
    let (d_ntt, _) = ntt_with_impl(&input, &params, false, NttImplementation::DifRadix2, None).unwrap();
    let (s_ntt, _) = ntt_with_impl(&input, &params, false, NttImplementation::Stockham, None).unwrap();
    let (r4_ntt, _) = ntt_with_impl(&input, &params, false, NttImplementation::Radix4, None).unwrap();
    let (fs_ntt, _) = ntt_with_impl(&input, &params, false, NttImplementation::FourStep, None).unwrap();
    let (n_ntt, _) = ntt_with_impl(&input, &params, false, NttImplementation::Naive, None).unwrap();
    assert_eq!(r_ntt, d_ntt);
    assert_eq!(r_ntt, s_ntt);
    assert_eq!(r_ntt, r4_ntt);
    assert_eq!(r_ntt, fs_ntt);
    assert_eq!(r_ntt, n_ntt);

    let (r_back, _) = intt_with_impl(&r_ntt, &params, false, NttImplementation::Radix2, None).unwrap();
    let (d_back, _) = intt_with_impl(&d_ntt, &params, false, NttImplementation::DifRadix2, None).unwrap();
    let (s_back, _) = intt_with_impl(&s_ntt, &params, false, NttImplementation::Stockham, None).unwrap();
    let (r4_back, _) = intt_with_impl(&r4_ntt, &params, false, NttImplementation::Radix4, None).unwrap();
    let (fs_back, _) = intt_with_impl(&fs_ntt, &params, false, NttImplementation::FourStep, None).unwrap();
    let (n_back, _) = intt_with_impl(&n_ntt, &params, false, NttImplementation::Naive, None).unwrap();
    assert_eq!(r_back, input);
    assert_eq!(d_back, input);
    assert_eq!(s_back, input);
    assert_eq!(r4_back, input);
    assert_eq!(fs_back, input);
    assert_eq!(n_back, input);
}

#[test]
fn metrics_are_recorded_for_radix2() {
    let params = RingParams::new(16, 24).expect("valid params");
    let input: Vec<u64> = (0..params.n).map(|i| i as u64).collect();
    let mut metrics = NttSystemMetrics::default();
    let _ = ntt_with_impl(&input, &params, false, NttImplementation::Radix2, Some(&mut metrics)).unwrap();
    assert!(metrics.elapsed_ns > 0);
    assert!(metrics.num_mod_muls > 0);
    assert!(metrics.num_memory_reads > 0);
    assert_eq!(metrics.ntt_impl, Some(NttImplementation::Radix2));
}

#[test]
fn metrics_are_recorded_for_dif_radix2() {
    let params = RingParams::new(16, 24).expect("valid params");
    let input: Vec<u64> = (0..params.n).map(|i| i as u64).collect();
    let mut metrics = NttSystemMetrics::default();
    let _ = ntt_with_impl(&input, &params, false, NttImplementation::DifRadix2, Some(&mut metrics)).unwrap();
    assert!(metrics.elapsed_ns > 0);
    assert!(metrics.num_mod_muls > 0);
    assert!(metrics.num_memory_reads > 0);
    assert_eq!(metrics.ntt_impl, Some(NttImplementation::DifRadix2));
}

#[test]
fn metrics_are_recorded_for_stockham() {
    let params = RingParams::new(16, 24).expect("valid params");
    let input: Vec<u64> = (0..params.n).map(|i| i as u64).collect();
    let mut metrics = NttSystemMetrics::default();
    let _ = ntt_with_impl(&input, &params, false, NttImplementation::Stockham, Some(&mut metrics)).unwrap();
    assert!(metrics.elapsed_ns > 0);
    assert!(metrics.num_mod_muls > 0);
    assert!(metrics.num_memory_reads > 0);
    assert!(metrics.scratch_bytes >= 2 * params.n * std::mem::size_of::<u64>());
    assert!(metrics.num_buffer_swaps > 0);
    assert_eq!(metrics.ntt_impl, Some(NttImplementation::Stockham));
}

#[test]
fn metrics_are_recorded_for_radix4() {
    let params = RingParams::new(16, 24).expect("valid params");
    let input: Vec<u64> = (0..params.n).map(|i| i as u64).collect();
    let mut metrics = NttSystemMetrics::default();
    let _ = ntt_with_impl(&input, &params, false, NttImplementation::Radix4, Some(&mut metrics)).unwrap();
    assert!(metrics.elapsed_ns > 0);
    assert!(metrics.num_mod_muls > 0);
    assert!(metrics.num_memory_reads > 0);
    assert!(metrics.num_passes > 0);
    assert_eq!(metrics.ntt_impl, Some(NttImplementation::Radix4));
}

#[test]
fn metrics_are_recorded_for_four_step() {
    let params = RingParams::new(16, 24).expect("valid params");
    let input: Vec<u64> = (0..params.n).map(|i| i as u64).collect();
    let mut metrics = NttSystemMetrics::default();
    let _ = ntt_with_impl(&input, &params, false, NttImplementation::FourStep, Some(&mut metrics)).unwrap();
    assert!(metrics.elapsed_ns > 0);
    assert!(metrics.num_mod_muls > 0);
    assert!(metrics.num_memory_reads > 0);
    assert!(metrics.num_blocks > 0);
    assert!(metrics.block_bytes > 0);
    assert_eq!(metrics.ntt_impl, Some(NttImplementation::FourStep));
}

#[test]
fn radix4_fault_injection_changes_output() {
    let params = RingParams::new(16, 24).expect("valid params");
    let input: Vec<u64> = (0..params.n).map(|i| ((i * 31 + 9) as u64) % params.modulus).collect();
    let fault = FaultSpec {
        operand: FaultOperand::A,
        stage: 0,
        slot: 0,
        bit: 3,
        site: FaultSite::Input,
        adjacent: false,
        second_enabled: false,
        second_stage: 0,
        second_slot: 0,
        second_bit: 0,
        second_site: FaultSite::Input,
        second_adjacent: false,
    };

    let (golden, _) = ntt_with_impl(&input, &params, false, NttImplementation::Radix4, None).unwrap();
    let (faulty, trace) = ntt_faulty_with_impl(&input, &params, true, &fault, NttImplementation::Radix4, None).unwrap();

    assert_ne!(golden, faulty);
    assert!(!trace.is_empty());
    assert!(trace[0].faulted);
}

#[test]
fn stage_checksum_mitigation_records_stage_checks() {
    let params = RingParams::new(16, 24).expect("valid params");
    let input: Vec<u64> = (0..params.n).map(|i| ((i * 13 + 5) as u64) % params.modulus).collect();
    let mitigation = MitigationOptions {
        kind: MitigationKind::StageChecksum,
        action: MitigationAction::DetectOnly,
        max_retries: 1,
        checksum_mode: ChecksumMode::Sum,
    };
    let mut mitigation_metrics = MitigationMetrics::default();
    let mut system_metrics = NttSystemMetrics::default();

    let (protected, _) = ntt_with_impl_and_mitigation(
        &input,
        &params,
        false,
        NttImplementation::Radix2,
        Some(&mut system_metrics),
        &mitigation,
        &mut mitigation_metrics,
        None,
    )
    .unwrap();

    let (golden, _) = ntt_with_impl(&input, &params, false, NttImplementation::Radix2, None).unwrap();
    assert_eq!(protected, golden);
    assert!(mitigation_metrics.checks_performed > 0);
    assert!(mitigation_metrics.stage_checks_performed > 0);
    assert_eq!(mitigation_metrics.check_failures, 0);
}

#[test]
fn stage_checksum_sum_index_mode_records_no_failures_without_fault() {
    let params = RingParams::new(16, 24).expect("valid params");
    let input: Vec<u64> = (0..params.n).map(|i| ((i * 17 + 11) as u64) % params.modulus).collect();
    let mitigation = MitigationOptions {
        kind: MitigationKind::StageChecksum,
        action: MitigationAction::DetectOnly,
        max_retries: 1,
        checksum_mode: ChecksumMode::SumIndex,
    };
    let mut mitigation_metrics = MitigationMetrics::default();
    let mut system_metrics = NttSystemMetrics::default();

    let (protected, _) = ntt_with_impl_and_mitigation(
        &input,
        &params,
        false,
        NttImplementation::Radix2,
        Some(&mut system_metrics),
        &mitigation,
        &mut mitigation_metrics,
        None,
    )
    .unwrap();

    let (golden, _) = ntt_with_impl(&input, &params, false, NttImplementation::Radix2, None).unwrap();
    assert_eq!(protected, golden);
    assert!(mitigation_metrics.stage_checks_performed > 0);
    assert_eq!(mitigation_metrics.check_failures, 0);
    assert_eq!(mitigation_metrics.stage_checksum_s1_failures, 0);
    assert_eq!(mitigation_metrics.stage_checksum_s2_failures, 0);
}
