//! How much one transform adds to the counters: never more than its cost bound.
use crate::ntt::dif::dif_counts;
use crate::ntt::four_step::{block_elems_for, four_step_counts};
use crate::ntt::naive::naive_counts;
use crate::ntt::radix2::{lemma_count_hits_le, radix2_counts, transform_size_ok};
use crate::ntt::radix4::{pass_count, radix4_counts};
use crate::ntt::shape::{lemma_log2_le, lemma_log2_small};
use crate::ntt::spec::{count_hits, dit_counts, layout_counts, scaling_counts, StageHits};
use crate::ntt::stockham::stockham_counts;
use crate::ntt::{has_room, transform_cost, NttImplementation, NttSystemMetrics};
use crate::params::log2;
use vstd::prelude::*;

verus! {

/// Every counter of `new` lies between its value in `old` and that value plus `extra`.
pub open spec fn grown_within(new: NttSystemMetrics, old: NttSystemMetrics, extra: int) -> bool {
    &&& old.num_mod_adds <= new.num_mod_adds <= old.num_mod_adds + extra
    &&& old.num_mod_subs <= new.num_mod_subs <= old.num_mod_subs + extra
    &&& old.num_mod_muls <= new.num_mod_muls <= old.num_mod_muls + extra
    &&& old.num_twiddle_loads <= new.num_twiddle_loads <= old.num_twiddle_loads + extra
    &&& old.num_stage_barriers <= new.num_stage_barriers <= old.num_stage_barriers + extra
    &&& old.num_memory_reads <= new.num_memory_reads <= old.num_memory_reads + extra
    &&& old.num_memory_writes <= new.num_memory_writes <= old.num_memory_writes + extra
    &&& old.num_passes <= new.num_passes <= old.num_passes + extra
    &&& old.num_buffer_swaps <= new.num_buffer_swaps <= old.num_buffer_swaps + extra
    &&& old.num_blocks <= new.num_blocks <= old.num_blocks + extra
}

/// Room left after growing within `extra`.
pub proof fn lemma_room_after(new: NttSystemMetrics, old: NttSystemMetrics, extra: int, rest: int)
    requires
        has_room(old, extra + rest),
        grown_within(new, old, extra),
    ensures
        has_room(new, rest),
{
}

/// `lay` holds the counters of `m` after a layout: one read and one write of every word.
pub open spec fn laid_out(lay: NttSystemMetrics, m: NttSystemMetrics, n: nat) -> bool {
    &&& lay.num_mod_adds == m.num_mod_adds
    &&& lay.num_mod_subs == m.num_mod_subs
    &&& lay.num_mod_muls == m.num_mod_muls
    &&& lay.num_twiddle_loads == m.num_twiddle_loads
    &&& lay.num_stage_barriers == m.num_stage_barriers
    &&& lay.num_memory_reads == m.num_memory_reads + n
    &&& lay.num_memory_writes == m.num_memory_writes + n
    &&& lay.num_passes == m.num_passes
    &&& lay.num_buffer_swaps == m.num_buffer_swaps
    &&& lay.num_blocks == m.num_blocks
}

/// The staged counts of the radix-2 schedule stay within the cost bound.
proof fn lemma_staged_within(m: NttSystemMetrics, lay: NttSystemMetrics, n: nat, f: nat, pp: nat, sp: nat, bp: nat, extra: nat)
    requires
        n >= 1,
        f <= log2(n),
        log2(n) <= n,
        pp <= 1,
        sp <= 1,
        bp <= n,
        extra <= n,
        laid_out(lay, m, n),
        has_room(m, (8 * n * (log2(n) + 2) + 16) as int),
    ensures
        ({
            let staged = dit_counts(lay, n, log2(n), f, pp, sp, bp);
            let more = NttSystemMetrics {
                num_memory_reads: (staged.num_memory_reads + extra) as u64,
                num_memory_writes: (staged.num_memory_writes + extra) as u64,
                ..staged
            };
            &&& grown_within(scaling_counts(more, n, true), m, (8 * n * (log2(n) + 2) + 16) as int)
            &&& grown_within(scaling_counts(more, n, false), m, (8 * n * (log2(n) + 2) + 16) as int)
            &&& grown_within(scaling_counts(staged, n, true), m, (8 * n * (log2(n) + 2) + 16) as int)
            &&& grown_within(scaling_counts(staged, n, false), m, (8 * n * (log2(n) + 2) + 16) as int)
        }),
{
    let l = log2(n);
    assert(l * (2 * (n / 2)) <= l * n && l * (n / 2) <= l * n) by (nonlinear_arith)
        requires
            2 * (n / 2) <= n,
    ;
    assert(l * pp <= l && l * sp <= l && l * bp <= l * n) by (nonlinear_arith)
        requires
            pp <= 1,
            sp <= 1,
            bp <= n,
    ;
    assert(n + l * n + l + n + n + n <= 8 * n * (l + 2) + 16) by (nonlinear_arith)
        requires
            l <= n,
            n >= 1,
    ;
}

/// Radix-4 passes stay within the cost bound.
proof fn lemma_radix4_within(m: NttSystemMetrics, n: nat, inverse: bool, f: nat)
    requires
        n >= 1,
        f <= pass_count(log2(n)),
        log2(n) <= n,
        has_room(m, (8 * n * (log2(n) + 2) + 16) as int),
    ensures
        grown_within(radix4_counts(m, n, inverse, f), m, (8 * n * (log2(n) + 2) + 16) as int),
{
    let l = log2(n);
    assert(l * (2 * (n / 2)) <= l * n && l * (n / 2) <= l * n) by (nonlinear_arith)
        requires
            2 * (n / 2) <= n,
    ;
    assert(n + l * n + l + 1 + n + n <= 8 * n * (l + 2) + 16) by (nonlinear_arith)
        requires
            l <= n,
            n >= 1,
    ;
}

/// The direct transform stays within its cost bound.
proof fn lemma_naive_within(m: NttSystemMetrics, n: nat, inverse: bool, faulted: bool)
    requires
        has_room(m, (4 * n * n + 4 * n + 16) as int),
    ensures
        grown_within(naive_counts(m, n, inverse, faulted), m, (4 * n * n + 4 * n + 16) as int),
{
    assert(n + 1 + n * n + n <= 4 * n * n + 4 * n + 16) by (nonlinear_arith);
    assert(n * n + n <= 4 * n * n + 4 * n + 16) by (nonlinear_arith);
}

/// A successful run of any backend grows every counter by at most its cost bound.
pub proof fn lemma_backend_within(
    m: NttSystemMetrics,
    n: nat,
    inverse: bool,
    hits: StageHits,
    faulted: bool,
    implementation: NttImplementation,
)
    requires
        transform_size_ok(n, implementation),
        has_room(m, transform_cost(n, implementation)),
    ensures
        implementation == NttImplementation::Radix2 ==> grown_within(
            radix2_counts(m, n, inverse, count_hits(hits, log2(n))),
            m,
            transform_cost(n, implementation),
        ),
        implementation == NttImplementation::DifRadix2 ==> grown_within(
            dif_counts(m, n, inverse, count_hits(hits, log2(n))),
            m,
            transform_cost(n, implementation),
        ),
        implementation == NttImplementation::Stockham ==> grown_within(
            stockham_counts(m, n, inverse, count_hits(hits, log2(n))),
            m,
            transform_cost(n, implementation),
        ),
        implementation == NttImplementation::Radix4 ==> grown_within(
            radix4_counts(m, n, inverse, count_hits(hits, pass_count(log2(n)))),
            m,
            transform_cost(n, implementation),
        ),
        implementation == NttImplementation::FourStep ==> grown_within(
            four_step_counts(m, n, inverse, count_hits(hits, log2(n))),
            m,
            transform_cost(n, implementation),
        ),
        implementation == NttImplementation::Naive ==> grown_within(
            naive_counts(m, n, inverse, faulted),
            m,
            transform_cost(n, implementation),
        ),
{
    lemma_log2_le(n);
    let l = log2(n);
    crate::params::lemma_power_of_two_log2(n);
    vstd::arithmetic::power2::lemma_pow2_pos(l);
    lemma_count_hits_le(hits, l);
    lemma_count_hits_le(hits, pass_count(l));
    let f = count_hits(hits, l);
    assert(8 * n * (l + 2) + 16 >= n) by (nonlinear_arith);
    if implementation == NttImplementation::Radix2 {
        lemma_staged_within(m, layout_counts(m, n, NttImplementation::Radix2, (n * 8) as int), n, f, 0, 0, 0, 0);
    } else if implementation == NttImplementation::DifRadix2 {
        lemma_staged_within(m, layout_counts(m, n, NttImplementation::DifRadix2, (n * 8) as int), n, f, 0, 0, 0, n);
    } else if implementation == NttImplementation::Stockham {
        lemma_staged_within(m, layout_counts(m, n, NttImplementation::Stockham, (2 * n * 8) as int), n, f, 1, 1, 0, 0);
    } else if implementation == NttImplementation::Radix4 {
        lemma_radix4_within(m, n, inverse, count_hits(hits, pass_count(l)));
    } else if implementation == NttImplementation::FourStep {
        let b = block_elems_for(n);
        assert(n / b <= n) by {
            vstd::arithmetic::div_mod::lemma_div_is_ordered_by_denominator(n as int, 1, b as int);
        }
        lemma_staged_within(m, crate::ntt::four_step::four_step_layout(m, n), n, f, 1, 0, n / b, 0);
    } else {
        lemma_naive_within(m, n, inverse, faulted);
    }
}

} // verus!
