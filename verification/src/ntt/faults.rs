//! The fault model inside the transforms: which word a fault strikes and how.
use crate::fault::{FaultSite, FaultSpec};
use crate::ntt::spec::{fault_fits, fault_value, flip_value, input_fault_hits, input_faults, site_flip};
use vstd::prelude::*;

verus! {

/// Flips `bit` (and `bit + 1` when `adjacent`) of `value`, ignoring bits past 63,
/// and reduces the result modulo `q`.
pub fn flip_fault_value(value: u64, q: u64, bit: u32, adjacent: bool) -> (r: u64)
    requires
        q > 0,
        adjacent ==> bit < u32::MAX,
    ensures
        r == flip_value(value, q, bit, adjacent),
        r < q,
{
    let mut out = value;

    if bit < 64 {
        out ^= 1u64 << bit;
    }

    if adjacent {
        let bit2 = bit + 1;
        if bit2 < 64 {
            out ^= 1u64 << bit2;
        }
    }

    out % q
}

/// `value` after the faults of `fault` that strike `site` at `(current_stage, current_slot)`.
pub fn maybe_flip_fault_value_for_site(
    value: u64,
    q: u64,
    current_stage: usize,
    current_slot: usize,
    fault: Option<&FaultSpec>,
    site: FaultSite,
) -> (r: u64)
    requires
        q > 0,
        fault_fits(fault_value(fault)),
    ensures
        r == site_flip(value, q, current_stage as int, current_slot as int, fault_value(fault), site),
{
    let mut out = value;

    if let Some(f) = fault {
        if f.site == site && f.stage == current_stage && f.slot == current_slot {
            out = flip_fault_value(out, q, f.bit, f.adjacent);
        }

        if f.second_enabled && f.second_site == site && f.second_stage == current_stage
            && f.second_slot == current_slot {
            out = flip_fault_value(out, q, f.second_bit, f.second_adjacent);
        }
    }

    out
}

/// Applies the input-site faults that strike before `stage`; reports whether any did.
pub fn apply_input_faults_for_stage(a: &mut [u64], q: u64, stage: usize, fault: Option<&FaultSpec>) -> (r: bool)
    requires
        q > 0,
        fault_fits(fault_value(fault)),
    ensures
        final(a)@ == input_faults(old(a)@, q, stage as int, fault_value(fault)),
        r == input_fault_hits(old(a)@.len() as int, stage as int, fault_value(fault)),
{
    let mut faulted = false;

    if let Some(f) = fault {
        if f.site == FaultSite::Input && f.stage == stage && f.slot < a.len() {
            a[f.slot] = flip_fault_value(a[f.slot], q, f.bit, f.adjacent);
            faulted = true;
        }

        if f.second_enabled && f.second_site == FaultSite::Input && f.second_stage == stage
            && f.second_slot < a.len() {
            a[f.second_slot] = flip_fault_value(a[f.second_slot], q, f.second_bit, f.second_adjacent);
            faulted = true;
        }
    }

    faulted
}

/// The arithmetic-site fault hook of the radix-2 backend.
pub fn maybe_flip_arithmetic_site(
    value: u64,
    q: u64,
    current_stage: usize,
    current_slot: usize,
    fault: Option<&FaultSpec>,
    site: FaultSite,
) -> (r: u64)
    requires
        q > 0,
        fault_fits(fault_value(fault)),
    ensures
        r == site_flip(value, q, current_stage as int, current_slot as int, fault_value(fault), site),
{
    maybe_flip_fault_value_for_site(value, q, current_stage, current_slot, fault, site)
}

/// The arithmetic-site fault hook of the mitigated backend.
pub fn inject_arithmetic_site_value(
    value: u64,
    q: u64,
    stage: usize,
    slot: usize,
    fault: Option<&FaultSpec>,
    site: FaultSite,
) -> (r: u64)
    requires
        q > 0,
        fault_fits(fault_value(fault)),
    ensures
        r == site_flip(value, q, stage as int, slot as int, fault_value(fault), site),
{
    maybe_flip_fault_value_for_site(value, q, stage, slot, fault, site)
}

/// A single flip of `bit` without the adjacent-bit option: bits past 63 leave `value` as is.
pub open spec fn single_flip(value: u64, q: u64, bit: u32) -> u64 {
    if bit >= 64 {
        value
    } else {
        ((value ^ (1u64 << bit)) as int % (q as int)) as u64
    }
}

/// `value` after the primary fault of `fault` alone, when it strikes `site` at `(stage, slot)`.
pub open spec fn primary_site_flip(
    value: u64,
    q: u64,
    stage: int,
    slot: int,
    fault: Option<FaultSpec>,
    site: FaultSite,
) -> u64 {
    match fault {
        Some(f) => if f.site == site && f.stage == stage && f.slot == slot {
            single_flip(value, q, f.bit)
        } else {
            value
        },
        None => value,
    }
}

/// Flips `bit` of `value` and reduces; a bit past 63 leaves `value` unchanged.
pub fn flip_fault_bit_runtime(value: u64, q: u64, bit: u32) -> (r: u64)
    requires
        q > 0,
    ensures
        r == single_flip(value, q, bit),
{
    if bit >= 64 {
        value
    } else {
        (value ^ (1u64 << bit)) % q
    }
}

/// The primary fault at `(stage, slot, site)`, with whether it changed the value.
pub fn apply_arithmetic_fault_runtime(
    value: u64,
    q: u64,
    stage: usize,
    slot: usize,
    fault: Option<&FaultSpec>,
    site: FaultSite,
) -> (r: (u64, bool))
    requires
        q > 0,
    ensures
        r.0 == primary_site_flip(value, q, stage as int, slot as int, fault_value(fault), site),
        r.1 == (r.0 != value),
{
    if let Some(f) = fault {
        if f.site == site && f.stage == stage && f.slot == slot {
            let faulted = flip_fault_bit_runtime(value, q, f.bit);
            return (faulted, faulted != value);
        }
    }
    (value, false)
}

/// Same as [`flip_fault_bit_runtime`].
pub fn flip_fault_for_site(value: u64, q: u64, bit: u32) -> (r: u64)
    requires
        q > 0,
    ensures
        r == single_flip(value, q, bit),
{
    if bit >= 64 {
        value
    } else {
        (value ^ (1u64 << bit)) % q
    }
}

/// The primary fault at `(stage, slot, site)`.
pub fn apply_fault_for_site(
    value: u64,
    q: u64,
    stage: usize,
    slot: usize,
    fault: Option<&FaultSpec>,
    site: FaultSite,
) -> (r: u64)
    requires
        q > 0,
    ensures
        r == primary_site_flip(value, q, stage as int, slot as int, fault_value(fault), site),
{
    if let Some(f) = fault {
        if f.site == site && f.stage == stage && f.slot == slot {
            return flip_fault_for_site(value, q, f.bit);
        }
    }
    value
}

} // verus!
