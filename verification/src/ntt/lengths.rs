//! Every transform returns as many words as it is given.
use crate::fault::FaultSpec;
use crate::mitigation::MitigationOptions;
use crate::ntt::dif::dif_output;
use crate::ntt::four_step::four_step_output;
use crate::ntt::mitigated::{checked_stage, mitigated_after, mitigated_output, mitigated_stage};
use crate::ntt::radix2::radix2_output;
use crate::ntt::radix4::{pass_injection, radix4_output};
use crate::ntt::spec::{
    bit_reverse, dif_after, dit_after, dit_stage, finish, input_faults, lemma_input_faults_len, model_flips,
    model_injection, no_flip, no_flips, stage_flip, transform_root, StageFlips, StageInjection,
};
use crate::ntt::stockham::{stockham_injection, stockham_output};
use crate::params::{log2, RingParams};
use vstd::prelude::*;

verus! {

/// `inj` keeps the number of words.
pub open spec fn keeps_length(inj: StageInjection) -> bool {
    forall|a: Seq<u64>, t: nat| #[trigger] inj(a, t).len() == a.len()
}

pub proof fn lemma_dit_after_len(a0: Seq<u64>, q: u64, root: u64, s: nat, inj: StageInjection, flips: StageFlips)
    requires
        keeps_length(inj),
    ensures
        dit_after(a0, q, root, s, inj, flips).len() == a0.len(),
    decreases s,
{
    if s > 0 {
        lemma_dit_after_len(a0, q, root, (s - 1) as nat, inj, flips);
        let prev = dit_after(a0, q, root, (s - 1) as nat, inj, flips);
        assert(inj(prev, (s - 1) as nat).len() == prev.len());
    }
}

pub proof fn lemma_dif_after_len(a0: Seq<u64>, q: u64, root: u64, s: nat, inj: StageInjection)
    requires
        keeps_length(inj),
    ensures
        dif_after(a0, q, root, s, inj).len() == a0.len(),
    decreases s,
{
    if s > 0 {
        lemma_dif_after_len(a0, q, root, (s - 1) as nat, inj);
        let prev = dif_after(a0, q, root, (s - 1) as nat, inj);
        assert(inj(prev, (s - 1) as nat).len() == prev.len());
    }
}

pub proof fn lemma_model_injection_len(q: u64, fault: Option<FaultSpec>)
    ensures
        keeps_length(model_injection(q, fault)),
        keeps_length(pass_injection(q, fault)),
{
    assert forall|a: Seq<u64>, t: nat| #[trigger] model_injection(q, fault)(a, t).len() == a.len() by {
        lemma_input_faults_len(a, q, t as int, fault);
    }
    assert forall|a: Seq<u64>, t: nat| #[trigger] pass_injection(q, fault)(a, t).len() == a.len() by {
        lemma_input_faults_len(a, q, (t / 2) as int, fault);
    }
}

pub proof fn lemma_mitigated_after_len(a0: Seq<u64>, q: u64, root: u64, s: nat, fault: Option<FaultSpec>, opts: MitigationOptions)
    ensures
        mitigated_after(a0, q, root, s, fault, opts).len() == a0.len(),
    decreases s,
{
    if s > 0 {
        lemma_mitigated_after_len(a0, q, root, (s - 1) as nat, fault, opts);
        lemma_input_faults_len(mitigated_after(a0, q, root, (s - 1) as nat, fault, opts), q, (s - 1) as int, fault);
    }
}

/// The stage-by-stage backends return `n` words for `n` words.
pub proof fn lemma_outputs_len(input: Seq<u64>, params: RingParams, inverse: bool, fault: Option<FaultSpec>, opts: MitigationOptions)
    ensures
        radix2_output(input, params, inverse, fault).len() == input.len(),
        dif_output(input, params, inverse, fault).len() == input.len(),
        stockham_output(input, params, inverse, fault).len() == input.len(),
        radix4_output(input, params, inverse, fault).len() == input.len(),
        four_step_output(input, params, inverse, fault).len() == input.len(),
        mitigated_output(input, params, inverse, fault, opts).len() == input.len(),
{
    let q = params.modulus;
    let root = transform_root(params, inverse);
    let l = log2(params.n as nat);
    lemma_model_injection_len(q, fault);
    assert(keeps_length(stockham_injection(q, params.modulus_bits, fault)));
    lemma_dit_after_len(bit_reverse(input), q, root, l, model_injection(q, fault), model_flips(q, fault));
    lemma_dit_after_len(bit_reverse(input), q, root, l, model_injection(q, fault), no_flips());
    lemma_dit_after_len(bit_reverse(input), q, root, l, pass_injection(q, fault), no_flips());
    lemma_dit_after_len(bit_reverse(input), q, root, l, stockham_injection(q, params.modulus_bits, fault), no_flips());
    lemma_dif_after_len(input, q, root, l, model_injection(q, fault));
    lemma_mitigated_after_len(bit_reverse(input), q, root, l, fault, opts);
}

} // verus!
