//! A 64-bit set of board squares: bit `i` stands for the square with index `i`.

use crate::square::Square;
use vstd::arithmetic::power2::{lemma2_to64, lemma2_to64_rest, pow2};
use vstd::prelude::*;
use vstd::std_specs::bits::axiom_u64_trailing_zeros;

verus! {

/// Whether bit `s` of `bb` is set, for a square index `s` in `0..64`.
pub open spec fn bb_has(bb: u64, s: int) -> bool {
    0 <= s < 64 && (bb >> (s as u64)) & 1u64 == 1u64
}

/// The number of set bits of `x`, counted from the low end by halving.
pub open spec fn pop64(x: u64) -> nat
    decreases x,
{
    if x == 0 {
        0nat
    } else {
        ((x % 2) + pop64((x / 2) as u64)) as nat
    }
}

/// A value below `pow2(k)` has at most `k` set bits.
pub proof fn lemma_pop64_bound(x: u64, k: nat)
    requires
        x < pow2(k),
    ensures
        pop64(x) <= k,
    decreases k,
{
    if x != 0 {
        if k == 0 {
            assert(pow2(0) == 1) by {
                lemma2_to64();
            }
        } else {
            vstd::arithmetic::power2::lemma_pow2_unfold(k);
            let km1 = (k - 1) as nat;
            assert(((x / 2) as u64) < pow2(km1));
            lemma_pop64_bound((x / 2) as u64, km1);
        }
    }
}

/// Every 64-bit value has at most 64 set bits.
pub proof fn lemma_pop64_le_64(x: u64)
    ensures
        pop64(x) <= 64,
{
    assert(pow2(64) == 0x1_0000_0000_0000_0000) by {
        lemma2_to64();
        lemma2_to64_rest();
    }
    lemma_pop64_bound(x, 64);
}

/// The empty set is the identity of bitwise-or.
pub proof fn lemma_or_zero(x: u64)
    by (bit_vector)
    ensures
        x | 0u64 == x,
        0u64 | x == x,
{
}

/// Bitwise-or associates.
pub proof fn lemma_or_assoc(x: u64, y: u64, z: u64)
    by (bit_vector)
    ensures
        (x | y) | z == x | (y | z),
{
}

/// A union with a non-empty set is non-empty.
pub proof fn lemma_or_nonzero_left(x: u64, y: u64)
    by (bit_vector)
    requires
        x != 0,
    ensures
        (x | y) != 0,
{
}

/// A union with a non-empty set is non-empty.
pub proof fn lemma_or_nonzero_right(x: u64, y: u64)
    by (bit_vector)
    requires
        y != 0,
    ensures
        (x | y) != 0,
{
}

/// A member of a union belongs to one of its two sides.
pub proof fn lemma_or_member(x: u64, y: u64, j: u64)
    by (bit_vector)
    requires
        ((x | y) >> j) & 1u64 == 1u64,
    ensures
        ((x >> j) & 1u64 == 1u64) || ((y >> j) & 1u64 == 1u64),
{
}

/// A one-square set holds that square alone.
pub proof fn lemma_single_bit_member(k: u64, j: u64)
    by (bit_vector)
    requires
        ((1u64 << k) >> j) & 1u64 == 1u64,
        k < 64,
        j < 64,
    ensures
        j == k,
{
}

/// The empty set has no members.
pub proof fn lemma_zero_no_member(j: u64)
    by (bit_vector)
    ensures
        (0u64 >> j) & 1u64 != 1u64,
{
}

/// Removing a square keeps the others and only them.
pub proof fn lemma_andnot_member(x: u64, k: u64, j: u64)
    by (bit_vector)
    requires
        ((x & !(1u64 << k)) >> j) & 1u64 == 1u64,
        k < 64,
        j < 64,
    ensures
        j != k,
        (x >> j) & 1u64 == 1u64,
{
}

/// A 64-bit set of squares.
#[derive(Clone, Copy, PartialEq, Eq, Structural, Debug, Hash)]
pub struct BitBoard(pub u64);

impl Default for BitBoard {
    fn default() -> (r: Self)
        ensures
            r.0 == 0,
    {
        BitBoard(0)
    }
}

impl BitBoard {
    /// The set with no squares in it.
    pub fn empty() -> (r: BitBoard)
        ensures
            r.0 == 0,
    {
        BitBoard(0)
    }

    /// How many squares the set holds.
    pub fn popcnt(self) -> (n: u32)
        ensures
            n == pop64(self.0),
    {
        proof {
            lemma_pop64_le_64(self.0);
        }
        let mut x: u64 = self.0;
        let mut n: u32 = 0;
        while x != 0
            invariant
                n + pop64(x) == pop64(self.0),
                pop64(self.0) <= 64,
            decreases x,
        {
            n = n + (x % 2) as u32;
            x = x / 2;
        }
        n
    }

    /// Whether `square` is in the set.
    pub fn has(self, square: Square) -> (b: bool)
        ensures
            b == bb_has(self.0, square@),
    {
        let i = square.to_index();
        ((self.0 >> (i as u64)) & 1) == 1
    }

    /// Whether the set holds no squares at all.
    pub fn is_empty(self) -> (b: bool)
        ensures
            b == (self.0 == 0),
    {
        self.0 == 0
    }

    /// The lowest square of the set, or `None` when the set is empty.
    pub fn next_square(self) -> (r: Option<Square>)
        ensures
            r is Some <==> self.0 != 0,
            r is Some ==> bb_has(self.0, (r->0)@) && forall|j: int|
                0 <= j < (r->0)@ ==> !bb_has(self.0, j),
    {
        proof {
            axiom_u64_trailing_zeros(self.0);
        }
        let t = self.0.trailing_zeros();
        Square::try_index(t as usize)
    }

    /// The squares of the set, lowest first.
    pub fn iter(self) -> (r: BitBoardIter)
        ensures
            r.0 == self,
    {
        BitBoardIter(self)
    }
}

/// Walks the squares of a bit set in ascending order, clearing each
/// square as it is handed out.
pub struct BitBoardIter(pub BitBoard);

impl BitBoardIter {
    /// The lowest remaining square, removed from the iterator's set;
    /// `None` once the set is exhausted.
    pub fn next(&mut self) -> (r: Option<Square>)
        ensures
            r is Some <==> old(self).0.0 != 0,
            r is None ==> final(self).0 == old(self).0,
            r is Some ==> {
                let s = (r->0)@;
                &&& bb_has(old(self).0.0, s)
                &&& forall|j: int| 0 <= j < s ==> !bb_has(old(self).0.0, j)
                &&& final(self).0.0 == old(self).0.0 & !(1u64 << (s as u64))
                &&& forall|j: int|
                    bb_has(final(self).0.0, j) <==> (bb_has(old(self).0.0, j) && j != s)
            },
    {
        let square = self.0.next_square();
        if let Some(square) = square {
            let s: u8 = square.to_index();
            let ghost x: u64 = self.0.0;
            self.0 = BitBoard(self.0.0 ^ square.bitboard().0);
            proof {
                assert((x >> (s as u64)) & 1u64 == 1u64 ==> (x ^ (1u64 << (s as u64))) == x & !(
                1u64 << (s as u64))) by (bit_vector);
                assert forall|j: int| 0 <= j < 64 implies (bb_has(x & !(1u64 << (s as u64)), j)
                    <==> (bb_has(x, j) && j != s as int)) by {
                    let ju = j as u64;
                    assert(ju < 64 && s < 64 ==> (((x & !(1u64 << (s as u64))) >> ju) & 1u64
                        == 1u64 <==> ((x >> ju) & 1u64 == 1u64 && ju != s as u64)))
                        by (bit_vector);
                }
            }
        }
        square
    }
}

} // verus!
