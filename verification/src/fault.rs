//! Transient-fault descriptions and single-bit fault injection.
use crate::error::NttError;
use vstd::prelude::*;

verus! {

/// Where in a butterfly computation a bit flip strikes.
#[derive(Debug, Clone, Copy, PartialEq, Eq, Structural)]
pub enum FaultSite {
    Input,
    MulOutput,
    AddOutput,
    SubOutput,
    ButterflyOutput,
    RegisterWrite,
}

impl FaultSite {
    /// The command-line spelling of the site.
    pub fn name(&self) -> (r: &'static str)
        ensures
            r@ == fault_site_name(*self)@,
    {
        match self {
            FaultSite::Input => "input",
            FaultSite::MulOutput => "mul-output",
            FaultSite::AddOutput => "add-output",
            FaultSite::SubOutput => "sub-output",
            FaultSite::ButterflyOutput => "butterfly-output",
            FaultSite::RegisterWrite => "register-write",
        }
    }
}

/// The command-line spelling of a fault site.
pub open spec fn fault_site_name(site: FaultSite) -> &'static str {
    match site {
        FaultSite::Input => "input",
        FaultSite::MulOutput => "mul-output",
        FaultSite::AddOutput => "add-output",
        FaultSite::SubOutput => "sub-output",
        FaultSite::ButterflyOutput => "butterfly-output",
        FaultSite::RegisterWrite => "register-write",
    }
}

/// The site spelled `name` on the command line, if any.
pub open spec fn fault_site_named(name: Seq<char>) -> Option<FaultSite> {
    if name == fault_site_name(FaultSite::Input)@ {
        Some(FaultSite::Input)
    } else if name == fault_site_name(FaultSite::MulOutput)@ {
        Some(FaultSite::MulOutput)
    } else if name == fault_site_name(FaultSite::AddOutput)@ {
        Some(FaultSite::AddOutput)
    } else if name == fault_site_name(FaultSite::SubOutput)@ {
        Some(FaultSite::SubOutput)
    } else if name == fault_site_name(FaultSite::ButterflyOutput)@ {
        Some(FaultSite::ButterflyOutput)
    } else if name == fault_site_name(FaultSite::RegisterWrite)@ {
        Some(FaultSite::RegisterWrite)
    } else {
        None
    }
}

impl FaultSite {
    /// Reads a site from its command-line spelling.
    pub fn from_name(name: &str) -> (r: Option<FaultSite>)
        ensures
            r == fault_site_named(name@),
    {
        let given = name.to_owned();
        if given == "input".to_owned() {
            Some(FaultSite::Input)
        } else if given == "mul-output".to_owned() {
            Some(FaultSite::MulOutput)
        } else if given == "add-output".to_owned() {
            Some(FaultSite::AddOutput)
        } else if given == "sub-output".to_owned() {
            Some(FaultSite::SubOutput)
        } else if given == "butterfly-output".to_owned() {
            Some(FaultSite::ButterflyOutput)
        } else if given == "register-write".to_owned() {
            Some(FaultSite::RegisterWrite)
        } else {
            None
        }
    }
}

/// Law: reading the spelling of a site gives the site back.
pub proof fn law_fault_site_name_round_trip(site: FaultSite)
    ensures
        fault_site_named(fault_site_name(site)@) == Some(site),
{
    reveal_strlit("input");
    reveal_strlit("mul-output");
    reveal_strlit("add-output");
    reveal_strlit("sub-output");
    reveal_strlit("butterfly-output");
    reveal_strlit("register-write");
    let names = seq![
        "input"@,
        "mul-output"@,
        "add-output"@,
        "sub-output"@,
        "butterfly-output"@,
        "register-write"@,
    ];
    assert(names[0].len() == 5 && names[4].len() == 16 && names[5].len() == 14);
    assert(names[1].len() == 10 && names[2].len() == 10 && names[3].len() == 10);
    assert(names[1][0] == 'm' && names[2][0] == 'a' && names[3][0] == 's');
    assert(names[0] != names[1] && names[0] != names[2] && names[0] != names[3]);
    assert(names[0] != names[4] && names[0] != names[5]);
    assert(names[1] != names[2] && names[1] != names[3] && names[1] != names[4] && names[1] != names[5]);
    assert(names[2] != names[3] && names[2] != names[4] && names[2] != names[5]);
    assert(names[3] != names[4] && names[3] != names[5] && names[4] != names[5]);
}

/// Which operand of a product a fault targets.
#[derive(Debug, Clone, Copy, PartialEq, Eq, Structural)]
pub enum FaultOperand {
    A,
    B,
}

/// One fault, optionally followed by a second one, at given stage/slot/bit coordinates.
#[derive(Debug, Clone)]
pub struct FaultSpec {
    pub operand: FaultOperand,
    pub stage: usize,
    pub slot: usize,
    pub bit: u32,
    pub site: FaultSite,
    pub adjacent: bool,
    pub second_enabled: bool,
    pub second_stage: usize,
    pub second_slot: usize,
    pub second_bit: u32,
    pub second_site: FaultSite,
    pub second_adjacent: bool,
}

impl FaultSpec {
    /// An adjacent flip touches `bit + 1`, which must itself be a `u32` (for the second
    /// fault only when it is enabled).
    pub open spec fn adjacent_bits_fit(self) -> bool {
        &&& (self.adjacent ==> self.bit < u32::MAX)
        &&& (self.second_enabled && self.second_adjacent ==> self.second_bit < u32::MAX)
    }

    pub fn is_input_site(&self) -> (r: bool)
        ensures
            r == (self.site == FaultSite::Input),
    {
        matches!(self.site, FaultSite::Input)
    }

    pub fn is_arithmetic_site(&self) -> (r: bool)
        ensures
            r == (self.site != FaultSite::Input),
    {
        !self.is_input_site()
    }

    /// A single input-site fault; the second fault is disabled.
    pub fn new(operand: FaultOperand, stage: usize, slot: usize, bit: u32) -> (r: Self)
        ensures
            r == (FaultSpec {
                operand,
                stage,
                slot,
                bit,
                site: FaultSite::Input,
                adjacent: false,
                second_enabled: false,
                second_stage: stage,
                second_slot: slot,
                second_bit: bit,
                second_site: FaultSite::Input,
                second_adjacent: false,
            }),
    {
        Self {
            operand,
            stage,
            slot,
            bit,
            site: FaultSite::Input,
            adjacent: false,
            second_enabled: false,
            second_stage: stage,
            second_slot: slot,
            second_bit: bit,
            second_site: FaultSite::Input,
            second_adjacent: false,
        }
    }
}

/// `value` with bit `bit` flipped and reduced modulo `q`.
pub open spec fn bit_fault_value(value: u64, bit: u32, q: u64) -> u64 {
    ((value ^ (1u64 << bit)) % q) as u64
}

/// Flips bit `bit` of `v[slot]` and reduces the word modulo `q`.
pub fn inject_bit_fault(v: &mut [u64], slot: usize, bit: u32, modulus_bits: u32, q: u64) -> (r: Result<(), NttError>)
    requires
        q > 0,
        slot < old(v).len() && bit < modulus_bits ==> bit < 64,
    ensures
        slot >= old(v).len() ==> r == Err::<(), NttError>(NttError::FaultSlotOutOfRange { slot, len: old(v).len() })
            && final(v)@ == old(v)@,
        slot < old(v).len() && bit >= modulus_bits ==> r == Err::<(), NttError>(NttError::FaultBitOutOfRange { bit, modulus_bits })
            && final(v)@ == old(v)@,
        slot < old(v).len() && bit < modulus_bits ==> r == Ok::<(), NttError>(())
            && final(v)@ == old(v)@.update(slot as int, bit_fault_value(old(v)@[slot as int], bit, q)),
{
    if slot >= v.len() {
        return Err(NttError::FaultSlotOutOfRange { slot, len: v.len() });
    }
    if bit >= modulus_bits {
        return Err(NttError::FaultBitOutOfRange { bit, modulus_bits });
    }
    let x = v[slot] ^ (1u64 << bit);
    v[slot] = x % q;
    Ok(())
}

} // verus!
