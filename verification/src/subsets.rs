//! Enumerating the subsets of a bit mask.
//!
//! The table builder must visit every subset of a relevant-blocker mask.
//! It does so with the subtract-and-mask step `(b - m) & m` (wrapping):
//! starting from the empty set the step walks the subsets of `m` in
//! strictly increasing numeric order, skips none, and wraps from the full
//! mask back to the empty set — so every subset is visited exactly once
//! before the empty set recurs.

use crate::bitboard::pop64;
use vstd::arithmetic::power2::{lemma2_to64, lemma_pow2_pos, lemma_pow2_unfold, pow2};
use vstd::prelude::*;

verus! {

/// Whether `b` holds only squares of `m`.
pub open spec fn in_mask(b: u64, m: u64) -> bool {
    b & m == b
}

/// The subset of `m` that follows `b`: `(b - m) & m` with wrapping
/// subtraction.
pub open spec fn next_subset(b: u64, m: u64) -> u64 {
    vstd::wrapping::u64_specs::wrapping_sub(b, m) & m
}

/// The step lands in a subset of `m` again.
pub proof fn lemma_next_subset_in_mask(b: u64, m: u64)
    by (bit_vector)
    ensures
        in_mask(next_subset(b, m), m),
{
}

/// A subset of `m` is numerically at most `m`.
pub proof fn lemma_subset_le_mask(b: u64, m: u64)
    by (bit_vector)
    requires
        in_mask(b, m),
    ensures
        b <= m,
{
}

/// Before the full mask is reached, the step strictly increases.
pub proof fn lemma_next_subset_increases(b: u64, m: u64)
    by (bit_vector)
    requires
        in_mask(b, m),
        b != m,
    ensures
        next_subset(b, m) > b,
{
}

/// The step skips no subset: no subset of `m` lies strictly between `b`
/// and its successor.
pub proof fn lemma_next_subset_no_skip(b: u64, c: u64, m: u64)
    by (bit_vector)
    requires
        in_mask(b, m),
        in_mask(c, m),
        b != m,
        b < c,
    ensures
        next_subset(b, m) <= c,
{
}

/// The step wraps to the empty set exactly from the full mask.
pub proof fn lemma_next_subset_wraps(b: u64, m: u64)
    by (bit_vector)
    requires
        in_mask(b, m),
    ensures
        next_subset(b, m) == 0 <==> b == m,
{
}

/// The position of subset `b` among the subsets of `m` in increasing
/// order: the bits of `b` at the set positions of `m`, read as a binary
/// number.
pub open spec fn subset_rank(b: u64, m: u64) -> nat
    decreases m,
{
    if m == 0 {
        0nat
    } else if m % 2 == 1 {
        ((b % 2) + 2 * subset_rank((b / 2) as u64, (m / 2) as u64)) as nat
    } else {
        subset_rank((b / 2) as u64, (m / 2) as u64)
    }
}

/// Halving preserves the subset relation, and an even mask forces an
/// even subset.
proof fn lemma_subset_halves(b: u64, m: u64)
    by (bit_vector)
    requires
        b & m == b,
    ensures
        ((b / 2) as u64) & ((m / 2) as u64) == (b / 2) as u64,
        m % 2 == 0 ==> b % 2 == 0,
        m == 0 ==> b == 0,
{
}

/// A non-empty mask has at least one set bit.
proof fn lemma_pop64_pos(m: u64)
    requires
        m != 0,
    ensures
        pop64(m) >= 1,
    decreases m,
{
    if m % 2 == 0 {
        lemma_pop64_pos((m / 2) as u64);
    }
}

/// The empty subset comes first.
pub proof fn lemma_rank_zero(m: u64)
    ensures
        subset_rank(0, m) == 0,
    decreases m,
{
    if m != 0 {
        lemma_rank_zero((m / 2) as u64);
    }
}

/// The full mask comes last: its position is `2^popcount(m) - 1`.
pub proof fn lemma_rank_full(m: u64)
    ensures
        subset_rank(m, m) + 1 == pow2(pop64(m)),
    decreases m,
{
    if m == 0 {
        assert(pow2(0) == 1) by {
            lemma2_to64();
        }
    } else {
        lemma_rank_full((m / 2) as u64);
        lemma_pop64_pos(m);
        lemma_pow2_unfold(pop64(m));
    }
}

/// Every subset's position lies below `2^popcount(m)`.
pub proof fn lemma_rank_bounds(b: u64, m: u64)
    requires
        in_mask(b, m),
    ensures
        subset_rank(b, m) < pow2(pop64(m)),
    decreases m,
{
    lemma_subset_halves(b, m);
    if m == 0 {
        assert(pow2(0) == 1) by {
            lemma2_to64();
        }
    } else {
        lemma_rank_bounds((b / 2) as u64, (m / 2) as u64);
        lemma_pop64_pos(m);
        lemma_pow2_unfold(pop64(m));
    }
}

/// Distinct subsets take distinct positions.
pub proof fn lemma_rank_injective(a: u64, b: u64, m: u64)
    requires
        in_mask(a, m),
        in_mask(b, m),
        subset_rank(a, m) == subset_rank(b, m),
    ensures
        a == b,
    decreases m,
{
    lemma_subset_halves(a, m);
    lemma_subset_halves(b, m);
    if m != 0 {
        lemma_rank_injective((a / 2) as u64, (b / 2) as u64, (m / 2) as u64);
    }
}

/// With no carry out of the lowest mask bit, the step sets that bit.
proof fn lemma_next_low(b: u64, m: u64)
    by (bit_vector)
    requires
        b & m == b,
        m % 2 == 1,
        b % 2 == 0,
    ensures
        next_subset(b, m) == b | 1,
        (b | 1) % 2 == 1,
        ((b | 1) / 2) as u64 == (b / 2) as u64,
{
}

/// With a carry out of the lowest mask bit, the step clears it and
/// steps the upper subset.
proof fn lemma_next_carry_odd(b: u64, m: u64)
    by (bit_vector)
    requires
        b & m == b,
        m % 2 == 1,
        b % 2 == 1,
        b != m,
    ensures
        next_subset(b, m) % 2 == 0,
        (next_subset(b, m) / 2) as u64 == next_subset((b / 2) as u64, (m / 2) as u64),
        (b / 2) as u64 != (m / 2) as u64,
{
}

/// A cleared low mask bit passes the step through to the upper bits.
proof fn lemma_next_carry_even(b: u64, m: u64)
    by (bit_vector)
    requires
        b & m == b,
        m % 2 == 0,
        b != m,
    ensures
        next_subset(b, m) % 2 == 0,
        (next_subset(b, m) / 2) as u64 == next_subset((b / 2) as u64, (m / 2) as u64),
        (b / 2) as u64 != (m / 2) as u64,
{
}

/// The step advances a subset's position by exactly one.
pub proof fn lemma_rank_next(b: u64, m: u64)
    requires
        in_mask(b, m),
        b != m,
    ensures
        subset_rank(next_subset(b, m), m) == subset_rank(b, m) + 1,
    decreases m,
{
    lemma_subset_halves(b, m);
    lemma_next_subset_in_mask(b, m);
    let n = next_subset(b, m);
    lemma_subset_halves(n, m);
    if m % 2 == 1 {
        if b % 2 == 0 {
            lemma_next_low(b, m);
        } else {
            lemma_next_carry_odd(b, m);
            lemma_rank_next((b / 2) as u64, (m / 2) as u64);
        }
    } else {
        lemma_next_carry_even(b, m);
        lemma_rank_next((b / 2) as u64, (m / 2) as u64);
    }
}

/// The walk itself: the subset reached after `n` steps from the empty
/// set.
pub open spec fn subset_chain(m: u64, n: nat) -> u64
    decreases n,
{
    if n == 0 {
        0u64
    } else {
        next_subset(subset_chain(m, (n - 1) as nat), m)
    }
}

/// After `n` steps the walk stands at the subset of position `n`.
proof fn lemma_chain_rank(m: u64, n: nat)
    requires
        n < pow2(pop64(m)),
    ensures
        in_mask(subset_chain(m, n), m),
        subset_rank(subset_chain(m, n), m) == n,
    decreases n,
{
    if n == 0 {
        lemma_rank_zero(m);
        assert(0u64 & m == 0u64) by (bit_vector);
    } else {
        lemma_chain_rank(m, (n - 1) as nat);
        let b = subset_chain(m, (n - 1) as nat);
        lemma_rank_full(m);
        assert(b != m);
        lemma_next_subset_in_mask(b, m);
        lemma_rank_next(b, m);
    }
}

/// The walk from the empty set visits every subset of `m` exactly once:
/// `2^popcount(m)` pairwise distinct values, each subset `c` appearing
/// at step `subset_rank(c, m)`, the empty set first and the full mask
/// last, after which the empty set recurs.
pub proof fn lemma_chain_visits_all(m: u64, c: u64)
    requires
        in_mask(c, m),
    ensures
        subset_rank(c, m) < pow2(pop64(m)),
        subset_chain(m, subset_rank(c, m)) == c,
        forall|n1: nat, n2: nat|
            n1 < n2 < pow2(pop64(m)) ==> #[trigger] subset_chain(m, n1) != #[trigger] subset_chain(
                m,
                n2,
            ),
        subset_chain(m, 0) == 0,
        subset_chain(m, (pow2(pop64(m)) - 1) as nat) == m,
        subset_chain(m, pow2(pop64(m))) == 0,
{
    lemma_pow2_pos(pop64(m));
    lemma_rank_bounds(c, m);
    lemma_chain_rank(m, subset_rank(c, m));
    lemma_rank_injective(subset_chain(m, subset_rank(c, m)), c, m);
    assert forall|n1: nat, n2: nat|
        n1 < n2 < pow2(pop64(m)) implies #[trigger] subset_chain(m, n1)
        != #[trigger] subset_chain(m, n2) by {
        lemma_chain_rank(m, n1);
        lemma_chain_rank(m, n2);
    }
    let last = (pow2(pop64(m)) - 1) as nat;
    lemma_chain_rank(m, last);
    lemma_rank_full(m);
    assert(m & m == m) by (bit_vector);
    lemma_rank_injective(subset_chain(m, last), m, m);
    lemma_next_subset_wraps(m, m);
    assert(subset_chain(m, pow2(pop64(m))) == next_subset(subset_chain(m, last), m));
}

} // verus!
