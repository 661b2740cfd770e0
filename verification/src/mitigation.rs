//! Software fault mitigation: options and the counters it reports.
use vstd::prelude::*;

verus! {

broadcast use vstd::string::group_string_axioms;

/// Which consistency check guards the butterfly network.
#[derive(Clone, Copy, Debug, PartialEq, Eq, Structural)]
pub enum MitigationKind {
    /// No check at all (spelled `None` in reports).
    Disabled,
    ButterflyCheck,
    StageChecksum,
}

/// What to do once a check fails.
#[derive(Clone, Copy, Debug, PartialEq, Eq, Structural)]
pub enum MitigationAction {
    DetectOnly,
    Recompute,
    Abort,
}

/// The invariants a stage checksum compares.
#[derive(Clone, Copy, Debug, PartialEq, Eq, Structural)]
pub enum ChecksumMode {
    /// S1 = sum_i a_i mod q
    Sum,
    /// S1 = sum_i a_i mod q and S2 = sum_i i*a_i mod q
    SumIndex,
}

#[derive(Clone, Debug)]
pub struct MitigationOptions {
    pub kind: MitigationKind,
    pub action: MitigationAction,
    pub max_retries: usize,
    pub checksum_mode: ChecksumMode,
}

impl Default for MitigationOptions {
    fn default() -> (r: Self)
        ensures
            r == (MitigationOptions {
                kind: MitigationKind::Disabled,
                action: MitigationAction::DetectOnly,
                max_retries: 1,
                checksum_mode: ChecksumMode::Sum,
            }),
    {
        Self {
            kind: MitigationKind::Disabled,
            action: MitigationAction::DetectOnly,
            max_retries: 1,
            checksum_mode: ChecksumMode::Sum,
        }
    }
}

impl MitigationOptions {
    /// No mitigation, detect-only, one retry, plain sums.
    pub fn disabled() -> (r: Self)
        ensures
            r == (MitigationOptions {
                kind: MitigationKind::Disabled,
                action: MitigationAction::DetectOnly,
                max_retries: 1,
                checksum_mode: ChecksumMode::Sum,
            }),
    {
        Self::default()
    }

    pub fn enabled(&self) -> (r: bool)
        ensures
            r == (self.kind != MitigationKind::Disabled),
    {
        self.kind != MitigationKind::Disabled
    }
}

#[derive(Debug, Clone)]
pub struct MitigationMetrics {
    pub mitigation_enabled: bool,
    pub mitigation_kind: String,
    pub mitigation_action: String,
    pub checksum_mode: String,
    pub checks_performed: u64,
    pub check_failures: u64,
    pub recomputations: u64,
    pub fault_detected: bool,
    pub fault_corrected: bool,
    pub mitigation_elapsed_ns: u128,
    pub stage_checks_performed: u64,
    pub stage_check_failures: u64,
    pub stage_checksum_s1_failures: u64,
    pub stage_checksum_s2_failures: u64,
}

impl Default for MitigationMetrics {
    fn default() -> (r: Self)
        ensures
            !r.mitigation_enabled,
            r.mitigation_kind@ == Seq::<char>::empty(),
            r.mitigation_action@ == Seq::<char>::empty(),
            r.checksum_mode@ == Seq::<char>::empty(),
            r.checks_performed == 0,
            r.check_failures == 0,
            r.recomputations == 0,
            !r.fault_detected,
            !r.fault_corrected,
            r.mitigation_elapsed_ns == 0,
            r.stage_checks_performed == 0,
            r.stage_check_failures == 0,
            r.stage_checksum_s1_failures == 0,
            r.stage_checksum_s2_failures == 0,
    {
        MitigationMetrics {
            mitigation_enabled: false,
            mitigation_kind: String::new(),
            mitigation_action: String::new(),
            checksum_mode: String::new(),
            checks_performed: 0,
            check_failures: 0,
            recomputations: 0,
            fault_detected: false,
            fault_corrected: false,
            mitigation_elapsed_ns: 0,
            stage_checks_performed: 0,
            stage_check_failures: 0,
            stage_checksum_s1_failures: 0,
            stage_checksum_s2_failures: 0,
        }
    }
}

/// The debug spelling of each option value.
pub open spec fn kind_label(k: MitigationKind) -> Seq<char> {
    match k {
        MitigationKind::Disabled => "None"@,
        MitigationKind::ButterflyCheck => "ButterflyCheck"@,
        MitigationKind::StageChecksum => "StageChecksum"@,
    }
}

pub open spec fn action_label(a: MitigationAction) -> Seq<char> {
    match a {
        MitigationAction::DetectOnly => "DetectOnly"@,
        MitigationAction::Recompute => "Recompute"@,
        MitigationAction::Abort => "Abort"@,
    }
}

pub open spec fn checksum_mode_label(m: ChecksumMode) -> Seq<char> {
    match m {
        ChecksumMode::Sum => "Sum"@,
        ChecksumMode::SumIndex => "SumIndex"@,
    }
}

fn kind_string(k: MitigationKind) -> (r: String)
    ensures
        r@ == kind_label(k),
{
    match k {
        MitigationKind::Disabled => "None".to_owned(),
        MitigationKind::ButterflyCheck => "ButterflyCheck".to_owned(),
        MitigationKind::StageChecksum => "StageChecksum".to_owned(),
    }
}

fn action_string(a: MitigationAction) -> (r: String)
    ensures
        r@ == action_label(a),
{
    match a {
        MitigationAction::DetectOnly => "DetectOnly".to_owned(),
        MitigationAction::Recompute => "Recompute".to_owned(),
        MitigationAction::Abort => "Abort".to_owned(),
    }
}

fn checksum_mode_string(m: ChecksumMode) -> (r: String)
    ensures
        r@ == checksum_mode_label(m),
{
    match m {
        ChecksumMode::Sum => "Sum".to_owned(),
        ChecksumMode::SumIndex => "SumIndex".to_owned(),
    }
}

/// Counts one butterfly check, and a failure when either output differs from its expectation.
pub fn record_butterfly_check_result(
    metrics: &mut MitigationMetrics,
    expected_y0: u64,
    expected_y1: u64,
    actual_y0: u64,
    actual_y1: u64,
)
    requires
        old(metrics).checks_performed < u64::MAX,
        old(metrics).check_failures < u64::MAX,
    ensures
        final(metrics).checks_performed == old(metrics).checks_performed + 1,
        (expected_y0 != actual_y0 || expected_y1 != actual_y1) ==> final(metrics).check_failures
            == old(metrics).check_failures + 1 && final(metrics).fault_detected,
        (expected_y0 == actual_y0 && expected_y1 == actual_y1) ==> final(metrics).check_failures
            == old(metrics).check_failures && final(metrics).fault_detected == old(metrics).fault_detected,
        final(metrics).mitigation_enabled == old(metrics).mitigation_enabled,
        final(metrics).mitigation_kind == old(metrics).mitigation_kind,
        final(metrics).mitigation_action == old(metrics).mitigation_action,
        final(metrics).checksum_mode == old(metrics).checksum_mode,
        final(metrics).recomputations == old(metrics).recomputations,
        final(metrics).fault_corrected == old(metrics).fault_corrected,
        final(metrics).mitigation_elapsed_ns == old(metrics).mitigation_elapsed_ns,
        final(metrics).stage_checks_performed == old(metrics).stage_checks_performed,
        final(metrics).stage_check_failures == old(metrics).stage_check_failures,
        final(metrics).stage_checksum_s1_failures == old(metrics).stage_checksum_s1_failures,
        final(metrics).stage_checksum_s2_failures == old(metrics).stage_checksum_s2_failures,
{
    metrics.checks_performed += 1;

    if expected_y0 != actual_y0 || expected_y1 != actual_y1 {
        metrics.check_failures += 1;
        metrics.fault_detected = true;
    }
}

impl MitigationMetrics {
    /// Records which mitigation is configured; counters are left as they are.
    pub fn configure(&mut self, options: &MitigationOptions)
        ensures
            final(self).mitigation_enabled == (options.kind != MitigationKind::Disabled),
            final(self).mitigation_kind@ == kind_label(options.kind),
            final(self).mitigation_action@ == action_label(options.action),
            final(self).checksum_mode@ == checksum_mode_label(options.checksum_mode),
            final(self).checks_performed == old(self).checks_performed,
            final(self).check_failures == old(self).check_failures,
            final(self).recomputations == old(self).recomputations,
            final(self).fault_detected == old(self).fault_detected,
            final(self).fault_corrected == old(self).fault_corrected,
            final(self).mitigation_elapsed_ns == old(self).mitigation_elapsed_ns,
            final(self).stage_checks_performed == old(self).stage_checks_performed,
            final(self).stage_check_failures == old(self).stage_check_failures,
            final(self).stage_checksum_s1_failures == old(self).stage_checksum_s1_failures,
            final(self).stage_checksum_s2_failures == old(self).stage_checksum_s2_failures,
    {
        self.mitigation_enabled = options.enabled();
        self.mitigation_kind = kind_string(options.kind);
        self.mitigation_action = action_string(options.action);
        self.checksum_mode = checksum_mode_string(options.checksum_mode);
    }
}

} // verus!
