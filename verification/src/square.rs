//! Board coordinates: files, ranks, and the 64 squares.
//!
//! A square is identified by its file (column, 0 through 7) and rank (row,
//! 0 through 7) and ordered by `rank * 8 + file`. At the spec level a square
//! is just that index, an integer in `0..64`.

use crate::bitboard::BitBoard;
use vstd::prelude::*;

verus! {

#[derive(Clone, Copy, PartialEq, Eq, Structural, Debug, Hash)]
pub enum File {
    A,
    B,
    C,
    D,
    E,
    F,
    G,
    H,
}

#[derive(Clone, Copy, PartialEq, Eq, Structural, Debug, Hash)]
pub enum Rank {
    First,
    Second,
    Third,
    Fourth,
    Fifth,
    Sixth,
    Seventh,
    Eighth,
}

impl File {
    /// The file's position counted from the queenside: `A` is 0, `H` is 7.
    pub open spec fn as_index(self) -> int {
        match self {
            File::A => 0,
            File::B => 1,
            File::C => 2,
            File::D => 3,
            File::E => 4,
            File::F => 5,
            File::G => 6,
            File::H => 7,
        }
    }

    pub fn to_index(self) -> (i: u8)
        ensures
            i as int == self.as_index(),
    {
        match self {
            File::A => 0,
            File::B => 1,
            File::C => 2,
            File::D => 3,
            File::E => 4,
            File::F => 5,
            File::G => 6,
            File::H => 7,
        }
    }

    pub fn try_index(index: usize) -> (r: Option<File>)
        ensures
            index < 8 <==> r is Some,
            r is Some ==> (r->0).as_index() == index,
    {
        match index {
            0 => Some(File::A),
            1 => Some(File::B),
            2 => Some(File::C),
            3 => Some(File::D),
            4 => Some(File::E),
            5 => Some(File::F),
            6 => Some(File::G),
            7 => Some(File::H),
            _ => None,
        }
    }
}

impl Rank {
    /// The rank's position counted from White's side: the first rank is 0.
    pub open spec fn as_index(self) -> int {
        match self {
            Rank::First => 0,
            Rank::Second => 1,
            Rank::Third => 2,
            Rank::Fourth => 3,
            Rank::Fifth => 4,
            Rank::Sixth => 5,
            Rank::Seventh => 6,
            Rank::Eighth => 7,
        }
    }

    pub fn to_index(self) -> (i: u8)
        ensures
            i as int == self.as_index(),
    {
        match self {
            Rank::First => 0,
            Rank::Second => 1,
            Rank::Third => 2,
            Rank::Fourth => 3,
            Rank::Fifth => 4,
            Rank::Sixth => 5,
            Rank::Seventh => 6,
            Rank::Eighth => 7,
        }
    }

    pub fn try_index(index: usize) -> (r: Option<Rank>)
        ensures
            index < 8 <==> r is Some,
            r is Some ==> (r->0).as_index() == index,
    {
        match index {
            0 => Some(Rank::First),
            1 => Some(Rank::Second),
            2 => Some(Rank::Third),
            3 => Some(Rank::Fourth),
            4 => Some(Rank::Fifth),
            5 => Some(Rank::Sixth),
            6 => Some(Rank::Seventh),
            7 => Some(Rank::Eighth),
            _ => None,
        }
    }
}

/// The file of the square with index `s`.
pub open spec fn file_of(s: int) -> int {
    s % 8
}

/// The rank of the square with index `s`.
pub open spec fn rank_of(s: int) -> int {
    s / 8
}

/// A square index splits into its rank and file and nothing else.
pub proof fn lemma_file_rank(s: int)
    requires
        0 <= s < 64,
    ensures
        rank_of(s) * 8 + file_of(s) == s,
        0 <= file_of(s) < 8,
        0 <= rank_of(s) < 8,
{
    vstd::arithmetic::div_mod::lemma_fundamental_div_mod(s, 8);
}

/// Rank and file in range make a square index in range, and the index
/// splits back into them.
pub proof fn lemma_index_decomp(f: int, r: int)
    requires
        0 <= f < 8,
        0 <= r < 8,
    ensures
        0 <= r * 8 + f < 64,
        file_of(r * 8 + f) == f,
        rank_of(r * 8 + f) == r,
{
    vstd::arithmetic::div_mod::lemma_fundamental_div_mod_converse(r * 8 + f, 8, r, f);
}

/// One of the 64 board squares, held as its index `rank * 8 + file`.
#[derive(Clone, Copy, PartialEq, Eq, Structural, Debug, Hash)]
pub struct Square {
    idx: u8,
}

impl View for Square {
    type V = int;

    closed spec fn view(&self) -> int {
        self.idx as int
    }
}

impl Square {
    #[verifier::type_invariant]
    pub closed spec fn wf(self) -> bool {
        self.idx < 64
    }

    /// A well-formed square's index is in `0..64`.
    pub proof fn lemma_wf_range(self)
        requires
            self.wf(),
        ensures
            0 <= self@ < 64,
    {
    }

    pub fn new(file: File, rank: Rank) -> (s: Square)
        ensures
            s@ == rank.as_index() * 8 + file.as_index(),
    {
        Square { idx: rank.to_index() * 8 + file.to_index() }
    }

    pub fn try_index(index: usize) -> (r: Option<Square>)
        ensures
            index < 64 <==> r is Some,
            r is Some ==> (r->0)@ == index,
    {
        if index < 64 {
            Some(Square { idx: index as u8 })
        } else {
            None
        }
    }

    pub fn to_index(self) -> (i: u8)
        ensures
            i as int == self@,
            i < 64,
    {
        proof {
            use_type_invariant(self);
        }
        self.idx
    }

    pub fn file(self) -> (f: File)
        ensures
            f.as_index() == file_of(self@),
    {
        proof {
            use_type_invariant(self);
        }
        let r = File::try_index((self.idx % 8) as usize);
        r.unwrap()
    }

    pub fn rank(self) -> (r: Rank)
        ensures
            r.as_index() == rank_of(self@),
    {
        proof {
            use_type_invariant(self);
        }
        let r = Rank::try_index((self.idx / 8) as usize);
        r.unwrap()
    }

    /// The set holding this square alone.
    pub fn bitboard(self) -> (bb: BitBoard)
        ensures
            bb.0 == 1u64 << (self@ as u64),
    {
        proof {
            use_type_invariant(self);
        }
        BitBoard(1u64 << self.idx)
    }

    /// The square one step away, or `None` when that step leaves the board.
    pub fn try_offset(self, file_offset: i8, rank_offset: i8) -> (r: Option<Square>)
        ensures
            r is Some <==> (0 <= file_of(self@) + file_offset < 8 && 0 <= rank_of(self@)
                + rank_offset < 8),
            r is Some ==> (r->0)@ == (rank_of(self@) + rank_offset) * 8 + (file_of(self@)
                + file_offset),
    {
        proof {
            use_type_invariant(self);
        }
        let f: i16 = (self.idx % 8) as i16 + file_offset as i16;
        let r: i16 = (self.idx / 8) as i16 + rank_offset as i16;
        if 0 <= f && f < 8 && 0 <= r && r < 8 {
            Some(Square { idx: (r * 8 + f) as u8 })
        } else {
            None
        }
    }
}

} // verus!
