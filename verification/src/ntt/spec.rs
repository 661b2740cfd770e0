//! Mathematical descriptions of the transforms: butterfly stages, bit reversal,
//! the direct transform, and the fault model.
use crate::fault::{FaultSite, FaultSpec};
use crate::modarith::{pow_mod_spec, sub_mod_spec};
use crate::params::{log2, RingParams};
use crate::ntt::{NttImplementation, NttSystemMetrics, StageTrace, max_usize};
use vstd::arithmetic::power2::*;
use vstd::prelude::*;

verus! {

/// `(a + b) mod q` on words.
pub open spec fn add_m(a: u64, b: u64, q: u64) -> u64 {
    ((a + b) % (q as int)) as u64
}

/// `a - b`, wrapped once by `q` when `a < b`.
pub open spec fn sub_m(a: u64, b: u64, q: u64) -> u64 {
    sub_mod_spec(a as int, b as int, q as int) as u64
}

/// `(a * b) mod q` on words.
pub open spec fn mul_m(a: u64, b: u64, q: u64) -> u64 {
    ((a * b) % (q as int)) as u64
}

/// `b^e mod q` on words (1 for `e = 0`).
pub open spec fn pow_m(b: u64, e: nat, q: u64) -> u64 {
    pow_mod_spec(b as int, e, q as int) as u64
}

/// `Some(*f)` for `Some(f)`.
pub open spec fn fault_value(fault: Option<&FaultSpec>) -> Option<FaultSpec> {
    match fault {
        Some(f) => Some(*f),
        None => None,
    }
}

/// A fault description whose adjacent flips stay within `u32`.
pub open spec fn fault_fits(fault: Option<FaultSpec>) -> bool {
    match fault {
        Some(f) => f.adjacent_bits_fit(),
        None => true,
    }
}

/// `value` with bit `bit` (and `bit + 1` for an adjacent fault) flipped, bits past 63
/// ignored, then reduced modulo `q`.
pub open spec fn flip_value(value: u64, q: u64, bit: u32, adjacent: bool) -> u64 {
    let x = if bit < 64 {
        value ^ (1u64 << bit)
    } else {
        value
    };
    let y = if adjacent && bit + 1 < 64 {
        x ^ (1u64 << ((bit + 1) as u32))
    } else {
        x
    };
    ((y as int) % (q as int)) as u64
}

/// `value` after every fault of `fault` that strikes `site` at `(stage, slot)`.
pub open spec fn site_flip(
    value: u64,
    q: u64,
    stage: int,
    slot: int,
    fault: Option<FaultSpec>,
    site: FaultSite,
) -> u64 {
    match fault {
        None => value,
        Some(f) => {
            let v1 = if f.site == site && f.stage == stage && f.slot == slot {
                flip_value(value, q, f.bit, f.adjacent)
            } else {
                value
            };
            if f.second_enabled && f.second_site == site && f.second_stage == stage && f.second_slot
                == slot {
                flip_value(v1, q, f.second_bit, f.second_adjacent)
            } else {
                v1
            }
        },
    }
}

/// The first input fault strikes before `stage`.
pub open spec fn first_input_fault_hits(len: int, stage: int, fault: Option<FaultSpec>) -> bool {
    match fault {
        None => false,
        Some(f) => f.site == FaultSite::Input && f.stage == stage && f.slot < len,
    }
}

/// The second input fault strikes before `stage`.
pub open spec fn second_input_fault_hits(len: int, stage: int, fault: Option<FaultSpec>) -> bool {
    match fault {
        None => false,
        Some(f) => f.second_enabled && f.second_site == FaultSite::Input && f.second_stage == stage
            && f.second_slot < len,
    }
}

/// Some input fault strikes before `stage`.
pub open spec fn input_fault_hits(len: int, stage: int, fault: Option<FaultSpec>) -> bool {
    first_input_fault_hits(len, stage, fault) || second_input_fault_hits(len, stage, fault)
}

/// `a` after the input-site faults that strike before `stage`.
pub open spec fn input_faults(a: Seq<u64>, q: u64, stage: int, fault: Option<FaultSpec>) -> Seq<u64> {
    let a1 = if first_input_fault_hits(a.len() as int, stage, fault) {
        let f = fault->0;
        a.update(f.slot as int, flip_value(a[f.slot as int], q, f.bit, f.adjacent))
    } else {
        a
    };
    if second_input_fault_hits(a.len() as int, stage, fault) {
        let f = fault->0;
        a1.update(f.second_slot as int, flip_value(a1[f.second_slot as int], q, f.second_bit, f.second_adjacent))
    } else {
        a1
    }
}

pub proof fn lemma_input_faults_len(a: Seq<u64>, q: u64, stage: int, fault: Option<FaultSpec>)
    ensures
        input_faults(a, q, stage, fault).len() == a.len(),
{
}

/// The twiddle `wl^j mod q` of butterfly `j` in a block.
pub open spec fn twiddle(wl: u64, j: int, q: u64) -> u64 {
    pow_m(wl, j as nat, q)
}

/// How a stage perturbs one arithmetic result: `flip(value, slot, site)`.
pub type SiteFlip = spec_fn(u64, int, FaultSite) -> u64;

/// No perturbation.
pub open spec fn no_flip() -> SiteFlip {
    |v: u64, slot: int, site: FaultSite| v
}

/// The perturbation of the fault model at `stage`.
pub open spec fn stage_flip(q: u64, stage: int, fault: Option<FaultSpec>) -> SiteFlip {
    |v: u64, slot: int, site: FaultSite| site_flip(v, q, stage, slot, fault, site)
}

/// The (possibly perturbed) product `w * a[hi]` of the butterfly whose lower index is `lo`.
pub open spec fn dit_product(a: Seq<u64>, lo: int, half: int, wl: u64, q: u64, flip: SiteFlip) -> u64 {
    let hi = lo + half;
    flip(mul_m(a[hi], twiddle(wl, lo % (2 * half), q), q), hi, FaultSite::MulOutput)
}

/// Upper output of the butterfly whose lower index is `lo`.
pub open spec fn dit_lo_out(a: Seq<u64>, lo: int, half: int, wl: u64, q: u64, flip: SiteFlip) -> u64 {
    let v = dit_product(a, lo, half, wl, q, flip);
    let y0 = flip(add_m(a[lo], v, q), lo, FaultSite::AddOutput);
    let y0 = flip(y0, lo, FaultSite::ButterflyOutput);
    flip(y0, lo, FaultSite::RegisterWrite)
}

/// Lower output of the butterfly whose lower index is `lo`.
pub open spec fn dit_hi_out(a: Seq<u64>, lo: int, half: int, wl: u64, q: u64, flip: SiteFlip) -> u64 {
    let hi = lo + half;
    let v = dit_product(a, lo, half, wl, q, flip);
    let y1 = flip(sub_m(a[lo], v, q), hi, FaultSite::SubOutput);
    let y1 = flip(y1, hi, FaultSite::ButterflyOutput);
    flip(y1, hi, FaultSite::RegisterWrite)
}

/// One decimation-in-time stage: every block of `len` words goes through `len/2`
/// butterflies `(u, v) -> (u + w^j v, u - w^j v)`.
pub open spec fn dit_stage(a: Seq<u64>, len: int, wl: u64, q: u64, flip: SiteFlip) -> Seq<u64> {
    let half = len / 2;
    Seq::new(
        a.len(),
        |i: int|
            if i % len < half {
                dit_lo_out(a, i, half, wl, q, flip)
            } else {
                dit_hi_out(a, i - half, half, wl, q, flip)
            },
    )
}

/// What a backend does to the words before stage `s`.
pub type StageInjection = spec_fn(Seq<u64>, nat) -> Seq<u64>;

/// The identity injection.
pub open spec fn no_injection() -> StageInjection {
    |a: Seq<u64>, s: nat| a
}

/// What a backend does inside stage `s`.
pub type StageFlips = spec_fn(nat) -> SiteFlip;

pub open spec fn no_flips() -> StageFlips {
    |s: nat| no_flip()
}

/// The twiddle step of stage `s` (block length `2^(s+1)`): `root^(n / 2^(s+1))`.
pub open spec fn dit_step(root: u64, n: nat, s: nat, q: u64) -> u64 {
    pow_m(root, n / pow2(s + 1), q)
}

/// The words after the first `s` decimation-in-time stages from `a0`.
pub open spec fn dit_after(
    a0: Seq<u64>,
    q: u64,
    root: u64,
    s: nat,
    inj: StageInjection,
    flips: StageFlips,
) -> Seq<u64>
    decreases s,
{
    if s == 0 {
        a0
    } else {
        let t = (s - 1) as nat;
        let prev = dit_after(a0, q, root, t, inj, flips);
        dit_stage(inj(prev, t), pow2(s) as int, dit_step(root, a0.len(), t, q), q, flips(t))
    }
}

/// One decimation-in-frequency stage: every block of `len` words goes through
/// `(u, v) -> (u + v, (u - v) w^j)`.
pub open spec fn dif_stage(a: Seq<u64>, len: int, wl: u64, q: u64) -> Seq<u64> {
    let half = len / 2;
    Seq::new(
        a.len(),
        |i: int|
            if i % len < half {
                add_m(a[i], a[i + half], q)
            } else {
                mul_m(sub_m(a[i - half], a[i], q), twiddle(wl, i % len - half, q), q)
            },
    )
}

/// The words after the first `s` decimation-in-frequency stages from `a0`
/// (stage `t` has blocks of `n / 2^t` words and twiddle step `root^(2^t)`).
pub open spec fn dif_after(a0: Seq<u64>, q: u64, root: u64, s: nat, inj: StageInjection) -> Seq<u64>
    decreases s,
{
    if s == 0 {
        a0
    } else {
        let t = (s - 1) as nat;
        let prev = dif_after(a0, q, root, t, inj);
        dif_stage(inj(prev, t), (a0.len() / pow2(t)) as int, pow_m(root, pow2(t), q), q)
    }
}

/// The reversal of the lowest `k` bits of `i`.
pub open spec fn rev_bits(i: nat, k: nat) -> nat
    decreases k,
{
    if k == 0 {
        0
    } else {
        (i % 2) * pow2((k - 1) as nat) + rev_bits(i / 2, (k - 1) as nat)
    }
}

/// `a` permuted into bit-reversed order.
pub open spec fn bit_reverse(a: Seq<u64>) -> Seq<u64> {
    Seq::new(a.len(), |r: int| a[rev_bits(r as nat, log2(a.len())) as int])
}

/// Every word multiplied by `c` modulo `q`.
pub open spec fn scale(a: Seq<u64>, c: u64, q: u64) -> Seq<u64> {
    Seq::new(a.len(), |i: int| mul_m(a[i], c, q))
}

/// Every word below `q`.
pub open spec fn reduced(a: Seq<u64>, q: u64) -> bool {
    forall|i: int| 0 <= i < a.len() ==> #[trigger] a[i] < q
}

/// The root a transform runs with: `ω` forward, `ω^(q-2)` backward (the inverse of `ω`,
/// as `ω^N = 1` and `q = 1 (mod 2N)`).
pub open spec fn transform_root(params: RingParams, inverse: bool) -> u64 {
    if inverse {
        pow_m(params.primitive_n_root, (params.modulus - 2) as nat, params.modulus)
    } else {
        params.primitive_n_root
    }
}

/// The factor `n^(q-2)` of the backward transform (the inverse of `n` when `2^(q-1) = 1`).
pub open spec fn inverse_scale(params: RingParams) -> u64 {
    pow_m(params.n as u64, (params.modulus - 2) as nat, params.modulus)
}

/// The final scaling of a backward transform.
pub open spec fn finish(a: Seq<u64>, params: RingParams, inverse: bool) -> Seq<u64> {
    if inverse {
        scale(a, inverse_scale(params), params.modulus)
    } else {
        a
    }
}

/// The input-site faults of the model, stage by stage.
pub open spec fn model_injection(q: u64, fault: Option<FaultSpec>) -> StageInjection {
    |a: Seq<u64>, s: nat| input_faults(a, q, s as int, fault)
}

/// The arithmetic-site faults of the model, stage by stage.
pub open spec fn model_flips(q: u64, fault: Option<FaultSpec>) -> StageFlips {
    |s: nat| stage_flip(q, s as int, fault)
}

/// Which stages report a fault in their trace.
pub type StageHits = spec_fn(nat) -> bool;

/// The number of stages below `s` that `hit` marks.
pub open spec fn count_hits(hit: StageHits, s: nat) -> nat
    decreases s,
{
    if s == 0 {
        0
    } else {
        count_hits(hit, (s - 1) as nat) + if hit((s - 1) as nat) {
            1nat
        } else {
            0nat
        }
    }
}

/// The stages at which an input-site fault strikes a vector of `n` words.
pub open spec fn model_hits(n: nat, fault: Option<FaultSpec>) -> StageHits {
    |s: nat| input_fault_hits(n as int, s as int, fault)
}

/// The traces of a stage-by-stage transform: one per stage when enabled, none otherwise.
pub open spec fn stage_traces_match(
    traces: Seq<StageTrace>,
    enabled: bool,
    a0: Seq<u64>,
    q: u64,
    root: u64,
    stages: nat,
    inj: StageInjection,
    flips: StageFlips,
    hit: StageHits,
) -> bool {
    &&& traces.len() == (if enabled {
        stages
    } else {
        0
    })
    &&& forall|s: int|
        0 <= s < traces.len() ==> {
            &&& (#[trigger] traces[s]).stage == s
            &&& traces[s].input@ == inj(dit_after(a0, q, root, s as nat, inj, flips), s as nat)
            &&& traces[s].output@ == dit_after(a0, q, root, (s + 1) as nat, inj, flips)
            &&& traces[s].faulted == hit(s as nat)
        }
}

/// `m` after `s` stages of `n/2` counted butterflies, one barrier each, `faults`
/// extra read/write pairs for injected faults, and per stage `pp` passes, `sp` buffer
/// swaps and `bp` blocks.
pub open spec fn dit_counts(m: NttSystemMetrics, n: nat, s: nat, faults: nat, pp: nat, sp: nat, bp: nat) -> NttSystemMetrics {
    NttSystemMetrics {
        num_mod_adds: (m.num_mod_adds + s * (n / 2)) as u64,
        num_mod_subs: (m.num_mod_subs + s * (n / 2)) as u64,
        num_mod_muls: (m.num_mod_muls + s * (2 * (n / 2))) as u64,
        num_twiddle_loads: (m.num_twiddle_loads + s * (n / 2)) as u64,
        num_stage_barriers: (m.num_stage_barriers + s) as u64,
        num_memory_reads: (m.num_memory_reads + s * (2 * (n / 2)) + faults) as u64,
        num_memory_writes: (m.num_memory_writes + s * (2 * (n / 2)) + faults) as u64,
        num_passes: (m.num_passes + s * pp) as u64,
        num_buffer_swaps: (m.num_buffer_swaps + s * sp) as u64,
        num_blocks: (m.num_blocks + s * bp) as u64,
        ..m
    }
}

/// `m` after recording the layout of an in-place backend: footprint, scratch of `scratch`
/// bytes, and one read and write of every word.
pub open spec fn layout_counts(m: NttSystemMetrics, n: nat, implementation: NttImplementation, scratch: int) -> NttSystemMetrics {
    NttSystemMetrics {
        ntt_impl: Some(implementation),
        input_bytes: max_usize(m.input_bytes, (n * 8) as int),
        output_bytes: max_usize(m.output_bytes, (n * 8) as int),
        scratch_bytes: max_usize(m.scratch_bytes, scratch),
        num_memory_reads: (m.num_memory_reads + n) as u64,
        num_memory_writes: (m.num_memory_writes + n) as u64,
        ..m
    }
}

/// `m` after the final scaling of a backward transform (one mul, read and write per word).
pub open spec fn scaling_counts(m: NttSystemMetrics, n: nat, inverse: bool) -> NttSystemMetrics {
    if inverse {
        NttSystemMetrics {
            num_mod_muls: (m.num_mod_muls + n) as u64,
            num_memory_reads: (m.num_memory_reads + n) as u64,
            num_memory_writes: (m.num_memory_writes + n) as u64,
            ..m
        }
    } else {
        m
    }
}

/// The counters after a complete run, up to the elapsed time, which only grows.
pub open spec fn counts_after_run(m: NttSystemMetrics, expected: NttSystemMetrics) -> bool {
    &&& m == (NttSystemMetrics { elapsed_ns: m.elapsed_ns, ..expected })
    &&& m.elapsed_ns >= expected.elapsed_ns
}

} // verus!
