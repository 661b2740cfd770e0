//! The blocked (four-step style) backend: each radix-2 stage is processed in
//! contiguous blocks of words, each butterfly in the block that holds its lower word.
use crate::fault::FaultSpec;
use crate::modarith::{add_mod, inv_mod, mul_mod, pow_mod, sub_mod};
use crate::ntt::bitrev::bit_reverse_copy;
use crate::ntt::faults::apply_input_faults_for_stage;
use crate::ntt::radix2::{
    copy_words, lemma_count_hits_le, lemma_counts_step, lemma_room_for_stage, lemma_run_room, lemma_stage_room,
    scale_in_place, transform_size_ok,
};
use crate::ntt::shape::{
    butterfly_lo, lemma_log2_small, lemma_overlay_full, lemma_overlay_same, lemma_overlay_start, lemma_overlay_step,
    lemma_stage_exit, lemma_stage_shape, overlay,
};
use crate::ntt::spec::{
    bit_reverse, count_hits, counts_after_run, dit_after, dit_counts, dit_stage, dit_step, fault_fits, fault_value,
    finish, layout_counts, lemma_input_faults_len, model_hits, model_injection, mul_m, no_flip, no_flips,
    scaling_counts, stage_traces_match, transform_root, twiddle,
};
use crate::ntt::stage::{lemma_block_fits, lemma_block_index, lemma_twiddle_step};
use crate::ntt::{
    add_elapsed_since, has_room, max_usize, transform_cost, with_butterflies, NttImplementation, NttSystemMetrics,
    StageTrace, WORD_BYTES,
};
use crate::params::{is_power_of_two, lemma_power_of_two_log2, log2, RingParams};
use crate::timing::clock_now;
use vstd::arithmetic::div_mod::*;
use vstd::arithmetic::mul::*;
use vstd::arithmetic::power::*;
use vstd::arithmetic::power2::*;
use vstd::bits::*;
use vstd::prelude::*;

verus! {

/// The number of butterflies (blocks of `len` words) whose lower word lies below `x`.
pub open spec fn butterflies_below(x: int, len: int) -> int {
    (x / len) * (len / 2) + if x % len < len / 2 {
        x % len
    } else {
        len / 2
    }
}

/// `x` clamped into `[lo, hi]`.
pub open spec fn clamp_to(x: int, lo: int, hi: int) -> int {
    if x < lo {
        lo
    } else if x > hi {
        hi
    } else {
        x
    }
}

/// `a0` after the butterflies of one fault-free DIT stage whose lower word lies below `c`.
pub open spec fn partial_stage(a0: Seq<u64>, len: int, wl: u64, q: u64, c: int) -> Seq<u64> {
    overlay(a0, dit_stage(a0, len, wl, q, no_flip()), len, c)
}

/// No lower word lies in `[c1, c2)`: the two partial stages agree.
proof fn lemma_partial_same(a0: Seq<u64>, len: int, wl: u64, q: u64, c1: int, c2: int)
    requires
        2 <= len,
        len % 2 == 0,
        c1 <= c2,
        forall|x: int| c1 <= x < c2 ==> #[trigger] (x % len) >= len / 2,
    ensures
        partial_stage(a0, len, wl, q, c1) == partial_stage(a0, len, wl, q, c2),
{
    lemma_overlay_same(a0, dit_stage(a0, len, wl, q, no_flip()), len, c1, c2);
}

/// Past the lower half of block `g`, no lower word lies until the next block.
proof fn lemma_block_tail(g: int, len: int)
    requires
        g >= 0,
        2 <= len,
        len % 2 == 0,
    ensures
        forall|x: int| g * len + len / 2 <= x < (g + 1) * len ==> #[trigger] (x % len) >= len / 2,
        butterflies_below(g * len + len / 2, len) == butterflies_below((g + 1) * len, len),
{
    lemma_mul_is_distributive_add_other_way(len, g, 1);
    assert forall|x: int| g * len + len / 2 <= x < (g + 1) * len implies #[trigger] (x % len) >= len / 2 by {
        lemma_fundamental_div_mod_converse(x, len, g, x - g * len);
    }
    lemma_fundamental_div_mod_converse(g * len + len / 2, len, g, len / 2);
    lemma_fundamental_div_mod_converse((g + 1) * len, len, g + 1, 0);
    lemma_mul_is_distributive_add_other_way(len / 2, g, 1);
}

/// Counting the butterfly whose lower word is `x`.
proof fn lemma_below_step(x: int, len: int)
    requires
        x >= 0,
        2 <= len,
        len % 2 == 0,
        x % len < len / 2,
    ensures
        butterflies_below(x + 1, len) == butterflies_below(x, len) + 1,
{
    lemma_fundamental_div_mod(x, len);
    lemma_mod_bound(x, len);
    lemma_mul_is_commutative(len, x / len);
    lemma_fundamental_div_mod_converse(x + 1, len, x / len, x % len + 1);
}

/// A multiple of the block length counts half its words.
proof fn lemma_below_whole(k: int, len: int)
    requires
        k >= 0,
        2 <= len,
        len % 2 == 0,
    ensures
        butterflies_below(k * len, len) == k * (len / 2),
        k * len == 2 * (k * (len / 2)),
{
    lemma_fundamental_div_mod_converse(k * len, len, k, 0);
    assert(k * len == 2 * (k * (len / 2))) by (nonlinear_arith)
        requires
            len == 2 * (len / 2),
    ;
}

/// More words never hold fewer lower words.
proof fn lemma_below_monotone(x: int, y: int, len: int)
    requires
        0 <= x <= y,
        2 <= len,
        len % 2 == 0,
    ensures
        butterflies_below(x, len) <= butterflies_below(y, len),
{
    lemma_fundamental_div_mod(x, len);
    lemma_fundamental_div_mod(y, len);
    lemma_mod_bound(x, len);
    lemma_mod_bound(y, len);
    lemma_div_is_ordered(x, y, len);
    if x / len < y / len {
        lemma_mul_inequality(x / len + 1, y / len, len / 2);
        lemma_mul_is_distributive_add_other_way(len / 2, x / len, 1);
    } else {
        assert(x % len <= y % len) by (nonlinear_arith)
            requires
                x == len * (x / len) + x % len,
                y == len * (y / len) + y % len,
                x / len == y / len,
                x <= y,
        ;
    }
}

/// A block of `len` words that starts below `end` and at a multiple of `len` ends
/// within `end` rounded up to `len`; its start lies below `end`.
proof fn lemma_group_bound(g: int, len: int, end: int)
    requires
        g >= 0,
        len >= 1,
        end >= 0,
        g < (end + len - 1) / len,
    ensures
        g * len < end,
{
    lemma_fundamental_div_mod(end + len - 1, len);
    lemma_mod_bound(end + len - 1, len);
    lemma_mul_inequality(g + 1, (end + len - 1) / len, len);
    lemma_mul_is_distributive_add_other_way(len, g, 1);
    lemma_mul_is_commutative(len, (end + len - 1) / len);
    lemma_mul_is_commutative(len, g + 1);
}

/// The first block index at or past `end` reaches `end`.
proof fn lemma_group_last(len: int, end: int)
    requires
        len >= 1,
        end >= 0,
    ensures
        ((end + len - 1) / len) * len >= end,
{
    lemma_fundamental_div_mod(end + len - 1, len);
    lemma_mod_bound(end + len - 1, len);
    lemma_mul_is_commutative(len, (end + len - 1) / len);
}

/// One butterfly more in the partial stage.
proof fn lemma_partial_step(a0: Seq<u64>, len: int, wl: u64, q: u64, x: int)
    requires
        2 <= len <= a0.len(),
        len % 2 == 0,
        (a0.len() as int) % len == 0,
        0 <= x,
        x % len < len / 2,
        x + len / 2 < a0.len(),
    ensures
        partial_stage(a0, len, wl, q, x + 1) == partial_stage(a0, len, wl, q, x).update(
            x,
            dit_stage(a0, len, wl, q, no_flip())[x],
        ).update(x + len / 2, dit_stage(a0, len, wl, q, no_flip())[x + len / 2]),
        butterfly_lo(x, len) == x,
        butterfly_lo(x + len / 2, len) == x,
{
    lemma_overlay_step(a0, dit_stage(a0, len, wl, q, no_flip()), len, x);
}

/// One fault-free DIT stage over blocks of `len` words, processed in contiguous
/// blocks of `block_elems` words: each butterfly is computed in the block that holds
/// its lower word. Counts the butterflies and one block per block.
pub fn blocked_stage_in_place(
    a: &mut Vec<u64>,
    q: u64,
    w_len: u64,
    len: usize,
    block_elems: usize,
    m: &mut NttSystemMetrics,
)
    requires
        q >= 2,
        2 <= len <= old(a).len(),
        len % 2 == 0,
        old(a).len() % len == 0,
        1 <= block_elems,
        old(a).len() % block_elems == 0,
        2 * old(a).len() <= usize::MAX,
        has_room(*old(m), old(a).len() as int),
    ensures
        final(a)@ == dit_stage(old(a)@, len as int, w_len, q, no_flip()),
        *final(m) == (NttSystemMetrics {
            num_blocks: (old(m).num_blocks + old(a).len() / block_elems) as u64,
            ..with_butterflies(*old(m), (old(a).len() / 2) as int)
        }),
{
    let n = a.len();
    let half = len / 2;
    let ghost a0 = a@;
    let ghost m0 = *m;
    let ghost li = len as int;
    proof {
        lemma_below_whole((n / len) as int, li);
        lemma_fundamental_div_mod(n as int, li);
        lemma_mul_is_commutative(li, (n / len) as int);
        lemma_overlay_start(a0, dit_stage(a0, li, w_len, q, no_flip()), li);
        assert(0int / li == 0 && 0int % li == 0) by (nonlinear_arith)
            requires
                li >= 2,
        ;
        assert(0int / (block_elems as int) == 0) by (nonlinear_arith)
            requires
                block_elems >= 1,
        ;
        assert(butterflies_below(0, li) == 0);
        assert(with_butterflies(m0, 0) == m0);
        assert(*m == (NttSystemMetrics {
            num_blocks: (m0.num_blocks + 0usize / block_elems) as u64,
            ..with_butterflies(m0, butterflies_below(0, li))
        }));
    }
    let mut block_start: usize = 0;
    while block_start < n
        invariant
            n == a.len(),
            a0.len() == n,
            li == len,
            half == len / 2,
            q >= 2,
            2 <= len <= n,
            len % 2 == 0,
            n % len == 0,
            1 <= block_elems,
            n % block_elems == 0,
            2 * n <= usize::MAX,
            block_start % block_elems == 0,
            block_start <= n,
            has_room(m0, n as int),
            butterflies_below(n as int, li) == n / 2,
            a@ == partial_stage(a0, li, w_len, q, block_start as int),
            *m == (NttSystemMetrics {
                num_blocks: (m0.num_blocks + block_start / block_elems) as u64,
                ..with_butterflies(m0, butterflies_below(block_start as int, li))
            }),
        decreases n - block_start,
    {
        proof {
            lemma_block_fits(block_start as int, block_elems as int, n as int);
        }
        let block_end = if block_start + block_elems < n {
            block_start + block_elems
        } else {
            n
        };
        let ghost bs = block_start as int;
        let ghost be = block_end as int;
        let first_group = block_start / len;
        let last_group = (block_end + len - 1) / len;
        let mut group = first_group;
        proof {
            lemma_fundamental_div_mod(bs, li);
            lemma_mod_bound(bs, li);
            lemma_mul_is_commutative(li, bs / li);
            assert(clamp_to(first_group * li, bs, be) == bs);
            lemma_div_is_ordered(bs, be + li - 1, li);
        }
        while group < last_group
            invariant
                n == a.len(),
                a0.len() == n,
                li == len,
                half == len / 2,
                q >= 2,
                2 <= len <= n,
                len % 2 == 0,
                n % len == 0,
                2 * n <= usize::MAX,
                bs == block_start,
                be == block_end,
                be == bs + block_elems,
                be <= n,
                first_group == bs / li,
                last_group == (be + li - 1) / li,
                first_group <= group <= last_group,
                has_room(m0, n as int),
                butterflies_below(n as int, li) == n / 2,
                a@ == partial_stage(a0, li, w_len, q, clamp_to(group * li, bs, be)),
                *m == (NttSystemMetrics {
                    num_blocks: (m0.num_blocks + block_start / block_elems) as u64,
                    ..with_butterflies(m0, butterflies_below(clamp_to(group * li, bs, be), li))
                }),
            decreases last_group - group,
        {
            proof {
                lemma_group_bound(group as int, li, be);
                lemma_mul_nonnegative(group as int, li);
                lemma_mod_multiples_basic(group as int, li);
                lemma_block_fits(group * li, li, n as int);
            }
            let start = group * len;
            if start < n {
                let mut w: u64 = 1;
                let mut j: usize = 0;
                proof {
                    lemma_pow0(w_len as int);
                }
                while j < half
                    invariant
                        n == a.len(),
                        a0.len() == n,
                        li == len,
                        half == len / 2,
                        q >= 2,
                        2 <= len <= n,
                        len % 2 == 0,
                        n % len == 0,
                        bs == block_start,
                        be == block_end,
                        bs <= be <= n,
                        start == group * li,
                        (start as int) % li == 0,
                        start + len <= n,
                        j <= half,
                        w == twiddle(w_len, j as int, q),
                        has_room(m0, n as int),
                        butterflies_below(n as int, li) == n / 2,
                        a@ == partial_stage(a0, li, w_len, q, clamp_to(start + j, bs, be)),
                        *m == (NttSystemMetrics {
                            num_blocks: (m0.num_blocks + block_start / block_elems) as u64,
                            ..with_butterflies(m0, butterflies_below(clamp_to(start + j, bs, be), li))
                        }),
                    decreases half - j,
                {
                    let left = start + j;
                    let right = start + j + half;
                    proof {
                        lemma_block_index(start as int, li, j as int);
                        lemma_block_index(start as int, li, (j + half) as int);
                        lemma_twiddle_step(w_len, j as nat, q);
                    }
                    if right < n {
                        if left < block_start || left >= block_end {
                            w = mul_mod(w, w_len, q);
                            assert(clamp_to(left + 1, bs, be) == clamp_to(left as int, bs, be));
                        } else {
                            proof {
                                lemma_partial_step(a0, li, w_len, q, left as int);
                                lemma_below_step(left as int, li);
                                lemma_below_monotone(left + 1, n as int, li);
                            }
                            let ghost before = a@;
                            let u = a[left];
                            let v = mul_mod(a[right], w, q);
                            a.set(left, add_mod(u, v, q));
                            a.set(right, sub_mod(u, v, q));
                            w = mul_mod(w, w_len, q);
                            proof {
                                assert(a@ == partial_stage(a0, li, w_len, q, left + 1));
                            }

                            m.num_mod_adds += 1;
                            m.num_mod_subs += 1;
                            m.num_mod_muls += 2;
                            m.num_twiddle_loads += 1;
                            m.num_memory_reads += 2;
                            m.num_memory_writes += 2;
                        }
                    }
                    j = j + 1;
                }
                proof {
                    lemma_mul_is_distributive_add_other_way(li, group as int, 1);
                    lemma_block_tail(group as int, li);
                    let c1 = clamp_to(start + half, bs, be);
                    let c2 = clamp_to((group + 1) * li, bs, be);
                    lemma_partial_same(a0, li, w_len, q, c1, c2);
                    if c1 < c2 {
                        assert(c1 >= start + half);
                        assert(c2 <= (group + 1) * li);
                        lemma_below_monotone(start + half, c1, li);
                        lemma_below_monotone(c1, c2, li);
                        lemma_below_monotone(c2, (group + 1) * li, li);
                    }
                }
            }
            group += 1;
        }
        proof {
            lemma_group_last(li, be);
            assert(clamp_to(group * li, bs, be) == be);
            let bl = block_elems as int;
            lemma_fundamental_div_mod(bs, bl);
            lemma_mul_is_distributive_add(bl, bs / bl, 1);
            lemma_fundamental_div_mod_converse(be, bl, bs / bl + 1, 0);
            lemma_div_is_ordered_by_denominator(be, 1, bl);
        }
        m.num_blocks += 1;
        block_start = block_end;
    }
    proof {
        lemma_overlay_full(a0, dit_stage(a0, li, w_len, q, no_flip()), li);
    }
}

/// Words per block of the blocked backend: `n` clamped into `[2, 256]`.
pub open spec fn block_elems_for(n: nat) -> nat {
    if n < 2 {
        2
    } else if n > 256 {
        256
    } else {
        n
    }
}

/// The output of the blocked backend: the radix-2 schedule with input-site faults only.
pub open spec fn four_step_output(input: Seq<u64>, params: RingParams, inverse: bool, fault: Option<FaultSpec>) -> Seq<u64> {
    let q = params.modulus;
    finish(
        dit_after(
            bit_reverse(input),
            q,
            transform_root(params, inverse),
            log2(params.n as nat),
            model_injection(q, fault),
            no_flips(),
        ),
        params,
        inverse,
    )
}

/// The counters once the blocked backend has recorded its layout.
pub open spec fn four_step_layout(m: NttSystemMetrics, n: nat) -> NttSystemMetrics {
    let bytes = (block_elems_for(n) * 8) as int;
    let lay = layout_counts(m, n, NttImplementation::FourStep, bytes);
    NttSystemMetrics { block_bytes: max_usize(lay.block_bytes, bytes), ..lay }
}

/// The counters after a blocked run with `faults` injected faults: one pass and
/// `n / block` blocks per stage.
pub open spec fn four_step_counts(m: NttSystemMetrics, n: nat, inverse: bool, faults: nat) -> NttSystemMetrics {
    scaling_counts(
        dit_counts(four_step_layout(m, n), n, log2(n), faults, 1, 0, n / block_elems_for(n)),
        n,
        inverse,
    )
}

/// The block length divides every power of two of at least two words.
proof fn lemma_block_divides(n: nat)
    requires
        is_power_of_two(n),
        n >= 2,
    ensures
        n % block_elems_for(n) == 0,
        1 <= block_elems_for(n) <= n,
{
    if n > 256 {
        let l = log2(n);
        lemma_power_of_two_log2(n);
        lemma2_to64();
        if l <= 8 {
            if l < 8 { lemma_pow2_strictly_increases(l, 8); }
        }
        lemma_pow2_adds(8, (l - 8) as nat);
        lemma_pow2_pos((l - 8) as nat);
        lemma_mod_multiples_basic(pow2((l - 8) as nat) as int, 256);
    } else {
        lemma_mod_self_0(n as int);
    }
}

#[verifier::rlimit(100)]
fn transform_four_step_blocked_counted(
    input: &[u64],
    params: &RingParams,
    inverse: bool,
    trace_enabled: bool,
    fault: Option<&FaultSpec>,
    m: &mut NttSystemMetrics,
) -> (r: (Vec<u64>, Vec<StageTrace>))
    requires
        params.wf(),
        input@.len() == params.n,
        transform_size_ok(params.n as nat, NttImplementation::FourStep),
        fault_fits(fault_value(fault)),
        has_room(*old(m), transform_cost(params.n as nat, NttImplementation::FourStep)),
    ensures
        r.0@ == four_step_output(input@, *params, inverse, fault_value(fault)),
        stage_traces_match(
            r.1@,
            trace_enabled,
            bit_reverse(input@),
            params.modulus,
            transform_root(*params, inverse),
            log2(params.n as nat),
            model_injection(params.modulus, fault_value(fault)),
            no_flips(),
            model_hits(params.n as nat, fault_value(fault)),
        ),
        counts_after_run(
            *final(m),
            four_step_counts(
                *old(m),
                params.n as nat,
                inverse,
                count_hits(model_hits(params.n as nat, fault_value(fault)), log2(params.n as nat)),
            ),
        ),
{
    let started = clock_now();
    let n = params.n;
    let q = params.modulus;
    let ghost l = log2(n as nat);
    let ghost fv = fault_value(fault);
    proof {
        lemma_log2_small(n as nat);
        lemma_run_room(l, n as nat);
    }

    let block_elems: usize = if n < 2 {
        2
    } else if n > 256 {
        256
    } else {
        n
    };
    let block_bytes = block_elems * WORD_BYTES;

    m.record_layout(n, NttImplementation::FourStep);
    m.record_scratch(block_bytes);
    if block_bytes > m.block_bytes {
        m.block_bytes = block_bytes;
    }
    m.num_memory_reads += n as u64;
    m.num_memory_writes += n as u64;
    let ghost m1 = *m;
    assert(m1 == four_step_layout(*old(m), n as nat));

    let mut a = bit_reverse_copy(input);
    let mut traces: Vec<StageTrace> = Vec::new();

    let root = if inverse {
        inv_mod(params.primitive_n_root, q)
    } else {
        params.primitive_n_root
    };
    let ghost a0 = bit_reverse(input@);
    let ghost inj = model_injection(q, fv);
    let ghost flips = no_flips();
    let ghost hits = model_hits(n as nat, fv);
    let ghost bp: nat = (n / block_elems) as nat;
    proof {
        lemma_div_is_ordered_by_denominator(n as int, 1, block_elems as int);
    }

    let mut len: usize = 2;
    let mut stage: usize = 0;
    proof {
        lemma2_to64();
    }

    while len <= n
        invariant
            params.wf(),
            n == params.n,
            q == params.modulus,
            q >= 2,
            l == log2(n as nat),
            l < 64,
            transform_size_ok(n as nat, NttImplementation::FourStep),
            fv == fault_value(fault),
            fault_fits(fv),
            root == transform_root(*params, inverse),
            a0 == bit_reverse(input@),
            a0.len() == n,
            inj == model_injection(q, fv),
            flips == no_flips(),
            hits == model_hits(n as nat, fv),
            block_elems == block_elems_for(n as nat),
            bp == n / block_elems,
            bp <= n,
            stage <= l,
            len == pow2((stage + 1) as nat),
            a@ == dit_after(a0, q, root, stage as nat, inj, flips),
            a@.len() == n,
            stage_traces_match(traces@, trace_enabled, a0, q, root, stage as nat, inj, flips, hits),
            has_room(m1, (l * (n + 2) + n + 8) as int),
            *m == dit_counts(m1, n as nat, stage as nat, count_hits(hits, stage as nat), 1, 0, bp),
        decreases l - stage,
    {
        proof {
            if stage == l {
                lemma_stage_exit(n as nat);
            }
            assert(stage < l);
            lemma_stage_shape(n as nat, stage as nat);
            lemma_block_divides(n as nat);
            lemma_count_hits_le(hits, stage as nat);
            lemma_stage_room(stage as nat, l, n as nat, count_hits(hits, stage as nat));
        }
        let ghost prev = a@;
        let mut before = copy_words(&a);
        let mut faulted = false;

        if apply_input_faults_for_stage(a.as_mut_slice(), q, stage, fault) {
            before = copy_words(&a);
            faulted = true;
            m.num_memory_reads += 1;
            m.num_memory_writes += 1;
        }
        proof {
            lemma_input_faults_len(prev, q, stage as int, fv);
        }
        assert(a@ == inj(prev, stage as nat));
        assert(before@ == inj(prev, stage as nat));

        let w_len = pow_mod(root, (n / len) as u64, q);
        proof {
            lemma_room_for_stage(m1, *m, n as nat, l, stage as nat, count_hits(hits, stage as nat), 1, 0, bp);
        }
        assert(w_len == dit_step(root, n as nat, stage as nat, q));
        blocked_stage_in_place(&mut a, q, w_len, len, block_elems, m);
        assert(flips(stage as nat) == no_flip());
        assert(a@ == dit_after(a0, q, root, (stage + 1) as nat, inj, flips));

        m.num_stage_barriers += 1;
        m.num_passes += 1;
        proof {
            lemma_counts_step(m1, n as nat, l, stage as nat, count_hits(hits, stage as nat), faulted, 1, 0, bp);
            assert(count_hits(hits, (stage + 1) as nat) == count_hits(hits, stage as nat) + if faulted { 1nat } else { 0nat });
        }

        if trace_enabled {
            let output = copy_words(&a);
            traces.push(StageTrace { stage, input: before, output, faulted });
        }
        proof {
            assert forall|s: int| 0 <= s < traces@.len() implies {
                &&& (#[trigger] traces@[s]).stage == s
                &&& traces@[s].input@ == inj(dit_after(a0, q, root, s as nat, inj, flips), s as nat)
                &&& traces@[s].output@ == dit_after(a0, q, root, (s + 1) as nat, inj, flips)
                &&& traces@[s].faulted == hits(s as nat)
            } by {}
        }

        proof {
            lemma2_to64();
            lemma_usize_shl_is_mul(len, 1);
            lemma_pow2_unfold((stage + 2) as nat);
        }
        stage += 1;
        len <<= 1;
    }
    proof {
        if stage < l {
            lemma_stage_shape(n as nat, stage as nat);
        }
        assert(stage == l);
        lemma_count_hits_le(hits, l);
        assert(l * (2 * (n / 2)) <= l * n) by (nonlinear_arith)
            requires
                2 * (n / 2) <= n,
        ;
        assert(l * n + l + n <= l * (n + 2) + n + 8) by (nonlinear_arith);
        assert(l * (n / 2) <= l * n) by (nonlinear_arith)
            requires
                n / 2 <= n,
        ;
        assert(l * 1 <= l * n && l * bp <= l * n) by (nonlinear_arith)
            requires
                n >= 1,
                bp <= n,
        ;
    }
    let ghost m2 = *m;

    if inverse {
        let n_inv = inv_mod(n as u64, q);
        scale_in_place(&mut a, n_inv, q, m);
    }
    assert(*m == scaling_counts(m2, n as nat, inverse));

    add_elapsed_since(m, &started);

    (a, traces)
}

/// The blocked (four-step style) backend.
pub fn transform_four_step_blocked(
    input: &[u64],
    params: &RingParams,
    inverse: bool,
    trace_enabled: bool,
    fault: Option<&FaultSpec>,
    metrics: Option<&mut NttSystemMetrics>,
) -> (r: (Vec<u64>, Vec<StageTrace>))
    requires
        params.wf(),
        input@.len() == params.n,
        transform_size_ok(params.n as nat, NttImplementation::FourStep),
        fault_fits(fault_value(fault)),
        metrics matches Some(m) ==> has_room(*m, transform_cost(params.n as nat, NttImplementation::FourStep)),
    ensures
        r.0@ == four_step_output(input@, *params, inverse, fault_value(fault)),
        stage_traces_match(
            r.1@,
            trace_enabled,
            bit_reverse(input@),
            params.modulus,
            transform_root(*params, inverse),
            log2(params.n as nat),
            model_injection(params.modulus, fault_value(fault)),
            no_flips(),
            model_hits(params.n as nat, fault_value(fault)),
        ),
        metrics matches Some(m) ==> counts_after_run(
            *final(m),
            four_step_counts(
                *m,
                params.n as nat,
                inverse,
                count_hits(model_hits(params.n as nat, fault_value(fault)), log2(params.n as nat)),
            ),
        ),
{
    match metrics {
        Some(m) => transform_four_step_blocked_counted(input, params, inverse, trace_enabled, fault, m),
        None => {
            let mut scratch = NttSystemMetrics::default();
            transform_four_step_blocked_counted(input, params, inverse, trace_enabled, fault, &mut scratch)
        },
    }
}

} // verus!
