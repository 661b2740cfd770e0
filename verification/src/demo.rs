//! The verdict of a demo run: did the decoded output behave as the fault setting says?
use vstd::prelude::*;

verus! {

/// What a demo run showed.
#[derive(Debug, Clone, Copy, PartialEq, Eq, Structural)]
pub struct CkksValidationReport {
    pub execution_valid: bool,
    pub fault_enabled: bool,
    pub golden_match: bool,
    pub fault_observed: Option<bool>,
}

/// Why a demo run fails validation.
#[derive(Debug, Clone, Copy, PartialEq, Eq, Structural)]
pub enum DemoValidationError {
    /// A fault was injected but the decoded output equals the fault-free one.
    FaultNotObserved,
    /// No fault was injected but the decoded output differs from the fault-free one.
    GoldenMismatch,
}

/// Checks a demo run: with a fault the decoded output must differ from the fault-free
/// output (`golden_match` false), without one it must equal it.
pub fn validate_ckks_demo_behavior(fault: bool, golden_match: bool) -> (r: Result<CkksValidationReport, DemoValidationError>)
    ensures
        fault && golden_match ==> r == Err::<CkksValidationReport, DemoValidationError>(DemoValidationError::FaultNotObserved),
        !fault && !golden_match ==> r == Err::<CkksValidationReport, DemoValidationError>(DemoValidationError::GoldenMismatch),
        fault && !golden_match ==> r == Ok::<CkksValidationReport, DemoValidationError>(
            CkksValidationReport {
                execution_valid: true,
                fault_enabled: true,
                golden_match: false,
                fault_observed: Some(true),
            },
        ),
        !fault && golden_match ==> r == Ok::<CkksValidationReport, DemoValidationError>(
            CkksValidationReport {
                execution_valid: true,
                fault_enabled: false,
                golden_match: true,
                fault_observed: None,
            },
        ),
{
    let fault_observed = if fault {
        Some(!golden_match)
    } else {
        None
    };

    let report = CkksValidationReport {
        execution_valid: true,
        fault_enabled: fault,
        golden_match,
        fault_observed,
    };

    if fault {
        if fault_observed != Some(true) {
            return Err(DemoValidationError::FaultNotObserved);
        }
    } else if !golden_match {
        return Err(DemoValidationError::GoldenMismatch);
    }

    Ok(report)
}

/// `"PASS"` or `"FAIL"`.
pub fn pass_fail(x: bool) -> (r: &'static str)
    ensures
        r@ == (if x {
            "PASS"@
        } else {
            "FAIL"@
        }),
{
    if x {
        "PASS"
    } else {
        "FAIL"
    }
}

} // verus!
