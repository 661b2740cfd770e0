//! Facts about the stage structure of a transform of `n = 2^L` words.
use crate::params::{is_power_of_two, lemma_power_of_two_log2, log2};
use vstd::arithmetic::div_mod::*;
use vstd::arithmetic::mul::*;
use vstd::arithmetic::power2::*;
use vstd::prelude::*;

verus! {

/// Stage `s < L` of a transform of `2^L` words has blocks of `2^(s+1)` words that tile
/// the input.
pub proof fn lemma_stage_shape(n: nat, s: nat)
    requires
        is_power_of_two(n),
        s < log2(n),
    ensures
        2 <= pow2(s + 1) <= n,
        pow2(s + 1) % 2 == 0,
        n % pow2(s + 1) == 0,
        n / pow2(s + 1) == pow2((log2(n) - s - 1) as nat),
        n % 2 == 0,
        pow2(s + 1) == 2 * pow2(s),
{
    let l = log2(n);
    lemma_power_of_two_log2(n);
    lemma_pow2_unfold(s + 1);
    lemma_pow2_pos(s);
    lemma_pow2_adds(s + 1, (l - s - 1) as nat);
    lemma_pow2_pos((l - s - 1) as nat);
    let a = pow2(s + 1) as int;
    let b = pow2((l - s - 1) as nat) as int;
    assert(n == a * b);
    lemma_mul_increases(b, a);
    lemma_mul_is_commutative(a, b);
    lemma_mod_multiples_basic(b, a);
    lemma_div_multiples_vanish(b, a);
    lemma_pow2_unfold(l);
    lemma_pow2_pos((l - 1) as nat);
    lemma_mod_multiples_basic(pow2((l - 1) as nat) as int, 2);
}

/// After the last stage the block length has passed `n`.
pub proof fn lemma_stage_exit(n: nat)
    requires
        is_power_of_two(n),
    ensures
        pow2(log2(n) + 1) > n,
        pow2(log2(n) + 1) == 2 * n,
{
    lemma_power_of_two_log2(n);
    lemma_pow2_unfold(log2(n) + 1);
    lemma_pow2_pos(log2(n));
}

/// A power of two that fits `usize` has a logarithm below 64.
pub proof fn lemma_log2_small(n: nat)
    requires
        is_power_of_two(n),
        n <= usize::MAX,
    ensures
        log2(n) < 64,
        log2(n) <= n,
{
    lemma_power_of_two_log2(n);
    if log2(n) >= 64 {
        if log2(n) > 64 {
            lemma_pow2_strictly_increases(64, log2(n));
        }
        lemma2_to64_rest();
    }
    lemma_log2_le(n);
}

pub proof fn lemma_log2_le(n: nat)
    ensures
        log2(n) <= n,
    decreases n,
{
    if n > 1 {
        lemma_log2_le(n / 2);
    }
}

/// The lower word of the butterfly (blocks of `len` words) that touches word `i`.
pub open spec fn butterfly_lo(i: int, len: int) -> int {
    if i % len < len / 2 {
        i
    } else {
        i - len / 2
    }
}

/// `x` with the words of every butterfly (blocks of `len` words) whose lower word lies
/// below `c` taken from `target`.
pub open spec fn overlay(x: Seq<u64>, target: Seq<u64>, len: int, c: int) -> Seq<u64> {
    Seq::new(
        x.len(),
        |i: int|
            if butterfly_lo(i, len) < c {
                target[i]
            } else {
                x[i]
            },
    )
}

pub proof fn lemma_lo_facts(i: int, len: int)
    requires
        0 <= i,
        2 <= len,
        len % 2 == 0,
    ensures
        0 <= butterfly_lo(i, len) <= i,
        butterfly_lo(i, len) % len < len / 2,
        butterfly_lo(i, len) % len == (if i % len < len / 2 {
            i % len
        } else {
            i % len - len / 2
        }),
        butterfly_lo(i, len) / len == i / len,
{
    lemma_fundamental_div_mod(i, len);
    lemma_mod_bound(i, len);
    if i % len >= len / 2 {
        let k = i / len;
        let r = i % len - len / 2;
        assert(i - len / 2 == k * len + r);
        lemma_mul_is_commutative(k, len);
        lemma_fundamental_div_mod_converse(i - len / 2, len, k, r);
    }
}

/// No lower word lies in `[c1, c2)`: the two overlays agree.
pub proof fn lemma_overlay_same(x: Seq<u64>, target: Seq<u64>, len: int, c1: int, c2: int)
    requires
        2 <= len,
        len % 2 == 0,
        c1 <= c2,
        forall|y: int| c1 <= y < c2 ==> #[trigger] (y % len) >= len / 2,
    ensures
        overlay(x, target, len, c1) == overlay(x, target, len, c2),
{
    assert forall|i: int| 0 <= i < x.len() implies #[trigger] overlay(x, target, len, c1)[i] == overlay(
        x,
        target,
        len,
        c2,
    )[i] by {
        lemma_lo_facts(i, len);
        let lo = butterfly_lo(i, len);
        if c1 <= lo < c2 {
            assert(lo % len >= len / 2);
        }
    }
    assert(overlay(x, target, len, c1) =~= overlay(x, target, len, c2));
}

/// Nothing is taken from `target` below the first word.
pub proof fn lemma_overlay_start(x: Seq<u64>, target: Seq<u64>, len: int)
    requires
        2 <= len,
        len % 2 == 0,
    ensures
        overlay(x, target, len, 0) == x,
{
    assert forall|i: int| 0 <= i < x.len() implies #[trigger] overlay(x, target, len, 0)[i] == x[i] by {
        lemma_lo_facts(i, len);
    }
    assert(overlay(x, target, len, 0) =~= x);
}

/// Everything is taken from `target` once `c` has passed every word.
pub proof fn lemma_overlay_full(x: Seq<u64>, target: Seq<u64>, len: int)
    requires
        2 <= len,
        len % 2 == 0,
        target.len() == x.len(),
    ensures
        overlay(x, target, len, x.len() as int) == target,
{
    assert forall|i: int| 0 <= i < x.len() implies #[trigger] overlay(x, target, len, x.len() as int)[i]
        == target[i] by {
        lemma_lo_facts(i, len);
    }
    assert(overlay(x, target, len, x.len() as int) =~= target);
}

/// Taking the butterfly whose lower word is `y` changes exactly its two words.
pub proof fn lemma_overlay_step(x: Seq<u64>, target: Seq<u64>, len: int, y: int)
    requires
        2 <= len,
        len % 2 == 0,
        target.len() == x.len(),
        0 <= y,
        y % len < len / 2,
        y + len / 2 < x.len(),
    ensures
        overlay(x, target, len, y + 1) == overlay(x, target, len, y).update(y, target[y]).update(
            y + len / 2,
            target[y + len / 2],
        ),
        butterfly_lo(y, len) == y,
        butterfly_lo(y + len / 2, len) == y,
{
    let half = len / 2;
    lemma_fundamental_div_mod(y, len);
    lemma_mod_bound(y, len);
    lemma_mul_is_commutative(len, y / len);
    lemma_fundamental_div_mod_converse(y + half, len, y / len, y % len + half);
    let lhs = overlay(x, target, len, y + 1);
    let rhs = overlay(x, target, len, y).update(y, target[y]).update(y + half, target[y + half]);
    assert forall|i: int| 0 <= i < x.len() implies #[trigger] lhs[i] == rhs[i] by {
        lemma_lo_facts(i, len);
        let lo = butterfly_lo(i, len);
        if lo == y {
            if i % len < half {
                assert(i == y);
            } else {
                assert(i == y + half);
            }
        }
    }
    assert(lhs =~= rhs);
}

/// No lower word lies in the upper half of a block.
pub proof fn lemma_upper_half(start: int, len: int)
    requires
        start >= 0,
        2 <= len,
        len % 2 == 0,
        start % len == 0,
    ensures
        forall|y: int| start + len / 2 <= y < start + len ==> #[trigger] (y % len) >= len / 2,
{
    lemma_fundamental_div_mod(start, len);
    lemma_mul_is_commutative(len, start / len);
    assert forall|y: int| start + len / 2 <= y < start + len implies #[trigger] (y % len) >= len / 2 by {
        lemma_fundamental_div_mod_converse(y, len, start / len, y - start);
    }
}

} // verus!
