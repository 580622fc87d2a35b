//! The slider ray model: which squares a rook or bishop reaches.
//!
//! A slider owns four directional deltas. From a square it walks each
//! direction one step at a time; a ray ends at the board edge, or at the
//! first blocker it meets (the blocker's square is still reachable — a
//! capture). The relevant-blocker mask of a square collects the squares
//! where a blocker could cut a ray short: every ray square except the last
//! one, and except the piece's own square.

use crate::bitboard::{bb_has, BitBoard};
use crate::square::{file_of, rank_of, Square};
use vstd::prelude::*;

verus! {

/// Whether file `f`, rank `r` lies on the board.
pub open spec fn on_board(f: int, r: int) -> bool {
    0 <= f < 8 && 0 <= r < 8
}

/// The index of the square at file `f`, rank `r`.
pub open spec fn square_index(f: int, r: int) -> int {
    r * 8 + f
}

/// The one-square set of the square at file `f`, rank `r`.
pub open spec fn square_bit(f: int, r: int) -> u64
    recommends
        on_board(f, r),
{
    1u64 << (square_index(f, r) as u64)
}

/// How many steps of size `d` fit before coordinate `x` leaves the board.
pub open spec fn axis_steps(x: int, d: int) -> int {
    if d > 0 {
        7 - x
    } else if d < 0 {
        x
    } else {
        8
    }
}

/// An upper bound on the remaining length of a ray: the walk ends once
/// either coordinate runs off the board.
pub open spec fn ray_len(f: int, r: int, df: int, dr: int) -> int {
    if axis_steps(f, df) <= axis_steps(r, dr) {
        axis_steps(f, df)
    } else {
        axis_steps(r, dr)
    }
}

/// The squares a ray reaches from file `f`, rank `r` stepping by
/// `(df, dr)` against blockers `b`: each stepped-to square in turn, up to
/// and including the first blocker, or up to the board edge.
pub open spec fn ray_moves(f: int, r: int, df: int, dr: int, b: u64) -> u64
    decreases ray_len(f, r, df, dr),
{
    if df == 0 && dr == 0 {
        0u64
    } else if !on_board(f + df, r + dr) {
        0u64
    } else if bb_has(b, square_index(f + df, r + dr)) {
        square_bit(f + df, r + dr)
    } else {
        square_bit(f + df, r + dr) | ray_moves(f + df, r + dr, df, dr, b)
    }
}

/// The squares of a ray from file `f`, rank `r` that still have a
/// successor on the board, the starting square included: every ray square
/// except the final one.
pub open spec fn ray_interior(f: int, r: int, df: int, dr: int) -> u64
    decreases ray_len(f, r, df, dr),
{
    if df == 0 && dr == 0 {
        0u64
    } else if !on_board(f + df, r + dr) {
        0u64
    } else {
        square_bit(f, r) | ray_interior(f + df, r + dr, df, dr)
    }
}

/// A sliding piece: four ray directions, each a (file, rank) step.
#[derive(Clone, Copy, Debug)]
pub struct Slider {
    pub deltas: [(i8, i8); 4],
}

impl Slider {
    /// No direction is the zero step, so every ray walk ends.
    pub open spec fn wf(self) -> bool {
        forall|i: int|
            0 <= i < 4 ==> !((#[trigger] self.deltas@[i]).0 == 0 && self.deltas@[i].1 == 0)
    }

    /// The union of the move rays for the first `n` deltas.
    pub open spec fn rays_union(self, f: int, r: int, b: u64, n: int) -> u64
        decreases n,
    {
        if n <= 0 {
            0u64
        } else {
            self.rays_union(f, r, b, n - 1) | ray_moves(
                f,
                r,
                self.deltas@[n - 1].0 as int,
                self.deltas@[n - 1].1 as int,
                b,
            )
        }
    }

    /// The union of the ray interiors for the first `n` deltas.
    pub open spec fn interiors_union(self, f: int, r: int, n: int) -> u64
        decreases n,
    {
        if n <= 0 {
            0u64
        } else {
            self.interiors_union(f, r, n - 1) | ray_interior(
                f,
                r,
                self.deltas@[n - 1].0 as int,
                self.deltas@[n - 1].1 as int,
            )
        }
    }

    /// Every square this slider reaches from square `s` against blockers
    /// `b`. A piece standing on a blocked square cannot move at all.
    pub open spec fn moves_spec(self, s: int, b: u64) -> u64 {
        if bb_has(b, s) {
            0u64
        } else {
            self.rays_union(file_of(s), rank_of(s), b, 4)
        }
    }

    /// The relevant-blocker mask of square `s`: every square where a
    /// blocker could change what this slider reaches from `s`.
    pub open spec fn relevant_blockers_spec(self, s: int) -> u64 {
        self.interiors_union(file_of(s), rank_of(s), 4) & !(1u64 << (s as u64))
    }

    /// The rook: one ray along each rank and file direction.
    pub fn rook() -> (s: Slider)
        ensures
            s == rook_slider(),
            s.deltas@[0] == (1i8, 0i8),
            s.deltas@[1] == (0i8, -1i8),
            s.deltas@[2] == (-1i8, 0i8),
            s.deltas@[3] == (0i8, 1i8),
            s.wf(),
    {
        let s = Slider { deltas: [(1, 0), (0, -1), (-1, 0), (0, 1)] };
        proof {
            assert(s.deltas@ =~= rook_slider().deltas@);
            assert(s =~= rook_slider());
        }
        s
    }

    /// The bishop: one ray along each diagonal direction.
    pub fn bishop() -> (s: Slider)
        ensures
            s == bishop_slider(),
            s.deltas@[0] == (1i8, 1i8),
            s.deltas@[1] == (1i8, -1i8),
            s.deltas@[2] == (-1i8, -1i8),
            s.deltas@[3] == (-1i8, 1i8),
            s.wf(),
    {
        let s = Slider { deltas: [(1, 1), (1, -1), (-1, -1), (-1, 1)] };
        proof {
            assert(s.deltas@ =~= bishop_slider().deltas@);
            assert(s =~= bishop_slider());
        }
        s
    }

    /// The move set of this slider from `square` against `blockers`.
    pub fn moves(&self, square: Square, blockers: BitBoard) -> (m: BitBoard)
        requires
            self.wf(),
        ensures
            m.0 == self.moves_spec(square@, blockers.0),
    {
        let ghost s0: int = square@;
        let ghost f0: int = file_of(s0);
        let ghost r0: int = rank_of(s0);
        proof {
            use_type_invariant(square);
            square.lemma_wf_range();
            crate::square::lemma_file_rank(s0);
        }
        let mut moves: u64 = 0;
        let mut i: usize = 0;
        while i < 4
            invariant
                self.wf(),
                i <= 4,
                s0 == square@,
                0 <= s0 < 64,
                f0 == file_of(s0),
                r0 == rank_of(s0),
                square_index(f0, r0) == s0,
                moves == if bb_has(blockers.0, s0) {
                    0u64
                } else {
                    self.rays_union(f0, r0, blockers.0, i as int)
                },
            decreases 4 - i,
        {
            let (df, dr) = self.deltas[i];
            let ghost fd: int = df as int;
            let ghost rd: int = dr as int;
            let ghost start_val: u64 = moves;
            let ghost target: u64 = ray_moves(f0, r0, fd, rd, blockers.0);
            let mut ray: Square = square;
            loop
                invariant
                    s0 == square@,
                    f0 == file_of(s0),
                    r0 == rank_of(s0),
                    square_index(file_of(ray@), rank_of(ray@)) == ray@,
                    0 <= ray@ < 64,
                    fd == df as int && rd == dr as int,
                    !(fd == 0 && rd == 0),
                    target == ray_moves(f0, r0, fd, rd, blockers.0),
                    (moves | (if bb_has(blockers.0, ray@) {
                        0u64
                    } else {
                        ray_moves(file_of(ray@), rank_of(ray@), fd, rd, blockers.0)
                    })) == (start_val | (if bb_has(blockers.0, s0) {
                        0u64
                    } else {
                        target
                    })),
                ensures
                    moves == start_val | (if bb_has(blockers.0, s0) {
                        0u64
                    } else {
                        target
                    }),
                decreases ray_len(file_of(ray@), rank_of(ray@), fd, rd),
            {
                if blockers.has(ray) {
                    proof {
                        crate::bitboard::lemma_or_zero(moves);
                        crate::bitboard::lemma_or_zero(start_val);
                    }
                    break ;
                }
                match ray.try_offset(df, dr) {
                    Some(shifted) => {
                        proof {
                            crate::square::lemma_index_decomp(
                                file_of(ray@) + fd,
                                rank_of(ray@) + rd,
                            );
                        }
                        let ghost macc: u64 = moves;
                        ray = shifted;
                        moves = moves | ray.bitboard().0;
                        proof {
                            let bitn: u64 = 1u64 << (ray@ as u64);
                            let contn: u64 = if bb_has(blockers.0, ray@) {
                                0u64
                            } else {
                                ray_moves(file_of(ray@), rank_of(ray@), fd, rd, blockers.0)
                            };
                            crate::bitboard::lemma_or_assoc(macc, bitn, contn);
                            crate::bitboard::lemma_or_zero(moves);
                        }
                    },
                    None => {
                        proof {
                            crate::bitboard::lemma_or_zero(moves);
                            crate::bitboard::lemma_or_zero(start_val);
                        }
                        break ;
                    },
                }
            }
            proof {
                crate::bitboard::lemma_or_zero(start_val);
            }
            i = i + 1;
        }
        BitBoard(moves)
    }

    /// The relevant-blocker mask of `square` for this slider.
    pub fn relevant_blockers(&self, square: Square) -> (m: BitBoard)
        requires
            self.wf(),
        ensures
            m.0 == self.relevant_blockers_spec(square@),
    {
        let ghost s0: int = square@;
        let ghost f0: int = file_of(s0);
        let ghost r0: int = rank_of(s0);
        proof {
            use_type_invariant(square);
            square.lemma_wf_range();
            crate::square::lemma_file_rank(s0);
        }
        let mut blockers: u64 = 0;
        let mut i: usize = 0;
        while i < 4
            invariant
                self.wf(),
                i <= 4,
                s0 == square@,
                0 <= s0 < 64,
                f0 == file_of(s0),
                r0 == rank_of(s0),
                square_index(f0, r0) == s0,
                blockers == self.interiors_union(f0, r0, i as int),
            decreases 4 - i,
        {
            let (df, dr) = self.deltas[i];
            let ghost fd: int = df as int;
            let ghost rd: int = dr as int;
            let ghost start_val: u64 = blockers;
            let ghost target: u64 = ray_interior(f0, r0, fd, rd);
            let mut ray: Square = square;
            loop
                invariant
                    square_index(file_of(ray@), rank_of(ray@)) == ray@,
                    0 <= ray@ < 64,
                    fd == df as int && rd == dr as int,
                    !(fd == 0 && rd == 0),
                    target == ray_interior(f0, r0, fd, rd),
                    (blockers | ray_interior(file_of(ray@), rank_of(ray@), fd, rd)) == (
                    start_val | target),
                ensures
                    blockers == start_val | target,
                decreases ray_len(file_of(ray@), rank_of(ray@), fd, rd),
            {
                match ray.try_offset(df, dr) {
                    Some(shifted) => {
                        proof {
                            crate::square::lemma_index_decomp(
                                file_of(ray@) + fd,
                                rank_of(ray@) + rd,
                            );
                        }
                        let ghost macc: u64 = blockers;
                        let ghost bitc: u64 = 1u64 << (ray@ as u64);
                        blockers = blockers | ray.bitboard().0;
                        ray = shifted;
                        proof {
                            let tail: u64 = ray_interior(file_of(ray@), rank_of(ray@), fd, rd);
                            crate::bitboard::lemma_or_assoc(macc, bitc, tail);
                        }
                    },
                    None => {
                        proof {
                            crate::bitboard::lemma_or_zero(blockers);
                        }
                        break ;
                    },
                }
            }
            i = i + 1;
        }
        let own = square.bitboard();
        BitBoard(blockers & !own.0)
    }
}


impl Slider {
    /// Some direction steps to an on-board square: the piece is not
    /// walled in at `s`.
    pub open spec fn has_escape(self, s: int) -> bool {
        exists|i: int|
            0 <= i < 4 && on_board(
                file_of(s) + (#[trigger] self.deltas@[i]).0 as int,
                rank_of(s) + self.deltas@[i].1 as int,
            )
    }
}

/// The rook's four directions as a value.
pub open spec fn rook_slider() -> Slider {
    Slider { deltas: [(1i8, 0i8), (0i8, -1i8), (-1i8, 0i8), (0i8, 1i8)] }
}

/// The bishop's four directions as a value.
pub open spec fn bishop_slider() -> Slider {
    Slider { deltas: [(1i8, 1i8), (1i8, -1i8), (-1i8, -1i8), (-1i8, 1i8)] }
}

/// A rook can always step along its rank: one of the two horizontal
/// directions stays on the board.
pub proof fn lemma_rook_has_escape(slider: Slider, s: int)
    requires
        slider.deltas@[0] == (1i8, 0i8),
        slider.deltas@[2] == (-1i8, 0i8),
        0 <= s < 64,
    ensures
        slider.has_escape(s),
{
    crate::square::lemma_file_rank(s);
    if file_of(s) < 7 {
        assert(on_board(file_of(s) + slider.deltas@[0].0 as int, rank_of(s) + slider.deltas@[0].1 as int));
    } else {
        assert(on_board(file_of(s) + slider.deltas@[2].0 as int, rank_of(s) + slider.deltas@[2].1 as int));
    }
}

/// A bishop can always step along some diagonal: one of the four
/// diagonal directions stays on the board.
pub proof fn lemma_bishop_has_escape(slider: Slider, s: int)
    requires
        slider.deltas@[0] == (1i8, 1i8),
        slider.deltas@[1] == (1i8, -1i8),
        slider.deltas@[2] == (-1i8, -1i8),
        slider.deltas@[3] == (-1i8, 1i8),
        0 <= s < 64,
    ensures
        slider.has_escape(s),
{
    crate::square::lemma_file_rank(s);
    if file_of(s) < 7 {
        if rank_of(s) < 7 {
            assert(on_board(file_of(s) + slider.deltas@[0].0 as int, rank_of(s) + slider.deltas@[0].1 as int));
        } else {
            assert(on_board(file_of(s) + slider.deltas@[1].0 as int, rank_of(s) + slider.deltas@[1].1 as int));
        }
    } else {
        if rank_of(s) > 0 {
            assert(on_board(file_of(s) + slider.deltas@[2].0 as int, rank_of(s) + slider.deltas@[2].1 as int));
        } else {
            assert(on_board(file_of(s) + slider.deltas@[3].0 as int, rank_of(s) + slider.deltas@[3].1 as int));
        }
    }
}

/// A union of rays is non-empty as soon as one of them is.
proof fn lemma_rays_union_nonzero(slider: Slider, f: int, r: int, b: u64, n: int, i: int)
    requires
        0 <= i < n,
        ray_moves(f, r, slider.deltas@[i].0 as int, slider.deltas@[i].1 as int, b) != 0,
    ensures
        slider.rays_union(f, r, b, n) != 0,
    decreases n,
{
    if i == n - 1 {
        crate::bitboard::lemma_or_nonzero_right(
            slider.rays_union(f, r, b, n - 1),
            ray_moves(f, r, slider.deltas@[n - 1].0 as int, slider.deltas@[n - 1].1 as int, b),
        );
    } else {
        lemma_rays_union_nonzero(slider, f, r, b, n - 1, i);
        crate::bitboard::lemma_or_nonzero_left(
            slider.rays_union(f, r, b, n - 1),
            ray_moves(f, r, slider.deltas@[n - 1].0 as int, slider.deltas@[n - 1].1 as int, b),
        );
    }
}

/// A slider that is not walled in and does not stand on a blocker can
/// always move somewhere: its move set is never empty.
pub proof fn lemma_moves_nonempty(slider: Slider, s: int, b: u64)
    requires
        slider.wf(),
        slider.has_escape(s),
        0 <= s < 64,
        !bb_has(b, s),
    ensures
        slider.moves_spec(s, b) != 0,
{
    crate::square::lemma_file_rank(s);
    let f0 = file_of(s);
    let r0 = rank_of(s);
    let i = choose|i: int|
        0 <= i < 4 && on_board(
            f0 + (#[trigger] slider.deltas@[i]).0 as int,
            r0 + slider.deltas@[i].1 as int,
        );
    let fd = slider.deltas@[i].0 as int;
    let rd = slider.deltas@[i].1 as int;
    crate::square::lemma_index_decomp(f0 + fd, r0 + rd);
    let k = square_index(f0 + fd, r0 + rd);
    let ku = k as u64;
    assert(ku < 64 ==> 1u64 << ku != 0) by (bit_vector);
    assert(square_bit(f0 + fd, r0 + rd) != 0);
    if !bb_has(b, k) {
        crate::bitboard::lemma_or_nonzero_left(
            square_bit(f0 + fd, r0 + rd),
            ray_moves(f0 + fd, r0 + rd, fd, rd, b),
        );
    }
    assert(ray_moves(f0, r0, fd, rd, b) != 0);
    lemma_rays_union_nonzero(slider, f0, r0, b, 4, i);
}

/// Whether the square at `(pf, pr)` lies strictly in direction
/// `(df, dr)` as seen from square `s`, axis by axis.
pub open spec fn toward(s: int, df: int, dr: int, pf: int, pr: int) -> bool {
    &&& (df > 0 ==> pf > file_of(s))
    &&& (df == 0 ==> pf == file_of(s))
    &&& (df < 0 ==> pf < file_of(s))
    &&& (dr > 0 ==> pr > rank_of(s))
    &&& (dr == 0 ==> pr == rank_of(s))
    &&& (dr < 0 ==> pr < rank_of(s))
}

/// Every square of a ray interior still has an on-board successor, and
/// lies on the walked direction: it is the start, or strictly beyond it
/// on both axes of the step.
pub proof fn lemma_ray_interior_sign(f: int, r: int, df: int, dr: int, pf: int, pr: int)
    requires
        on_board(f, r),
        on_board(pf, pr),
        bb_has(ray_interior(f, r, df, dr), square_index(pf, pr)),
    ensures
        on_board(pf + df, pr + dr),
        (pf == f && pr == r) || ((df > 0 ==> pf > f) && (df == 0 ==> pf == f) && (df < 0 ==> pf
            < f) && (dr > 0 ==> pr > r) && (dr == 0 ==> pr == r) && (dr < 0 ==> pr < r)),
    decreases ray_len(f, r, df, dr),
{
    crate::square::lemma_index_decomp(f, r);
    crate::square::lemma_index_decomp(pf, pr);
    let j: u64 = square_index(pf, pr) as u64;
    if df == 0 && dr == 0 {
        crate::bitboard::lemma_zero_no_member(j);
    } else if !on_board(f + df, r + dr) {
        crate::bitboard::lemma_zero_no_member(j);
    } else {
        crate::bitboard::lemma_or_member(square_bit(f, r), ray_interior(f + df, r + dr, df, dr), j);
        if (square_bit(f, r) >> j) & 1u64 == 1u64 {
            crate::bitboard::lemma_single_bit_member(square_index(f, r) as u64, j);
            assert(square_index(f, r) == square_index(pf, pr));
            assert(pf == f && pr == r);
        } else {
            lemma_ray_interior_sign(f + df, r + dr, df, dr, pf, pr);
        }
    }
}

/// Mask minimality: a square of the relevant-blocker mask is never the
/// piece's own square, and along whichever ray it lies on it still has
/// an on-board successor — the final square of every ray is left out.
pub proof fn lemma_mask_minimality(slider: Slider, s: int, pf: int, pr: int)
    requires
        slider == rook_slider() || slider == bishop_slider(),
        0 <= s < 64,
        on_board(pf, pr),
        bb_has(slider.relevant_blockers_spec(s), square_index(pf, pr)),
    ensures
        square_index(pf, pr) != s,
        forall|i: int|
            0 <= i < 4 && toward(
                s,
                (#[trigger] slider.deltas@[i]).0 as int,
                slider.deltas@[i].1 as int,
                pf,
                pr,
            ) ==> on_board(pf + slider.deltas@[i].0 as int, pr + slider.deltas@[i].1 as int),
{
    crate::square::lemma_file_rank(s);
    crate::square::lemma_index_decomp(pf, pr);
    let f0 = file_of(s);
    let r0 = rank_of(s);
    let j: u64 = square_index(pf, pr) as u64;
    let u4 = slider.interiors_union(f0, r0, 4);
    crate::bitboard::lemma_andnot_member(u4, s as u64, j);
    let u3 = slider.interiors_union(f0, r0, 3);
    let u2 = slider.interiors_union(f0, r0, 2);
    let u1 = slider.interiors_union(f0, r0, 1);
    let ray3 = ray_interior(f0, r0, slider.deltas@[3].0 as int, slider.deltas@[3].1 as int);
    let ray2 = ray_interior(f0, r0, slider.deltas@[2].0 as int, slider.deltas@[2].1 as int);
    let ray1 = ray_interior(f0, r0, slider.deltas@[1].0 as int, slider.deltas@[1].1 as int);
    let ray0 = ray_interior(f0, r0, slider.deltas@[0].0 as int, slider.deltas@[0].1 as int);
    crate::bitboard::lemma_or_member(u3, ray3, j);
    if (ray3 >> j) & 1u64 == 1u64 {
        lemma_ray_interior_sign(f0, r0, slider.deltas@[3].0 as int, slider.deltas@[3].1 as int, pf, pr);
    } else {
        crate::bitboard::lemma_or_member(u2, ray2, j);
        if (ray2 >> j) & 1u64 == 1u64 {
            lemma_ray_interior_sign(f0, r0, slider.deltas@[2].0 as int, slider.deltas@[2].1 as int, pf, pr);
        } else {
            crate::bitboard::lemma_or_member(u1, ray1, j);
            if (ray1 >> j) & 1u64 == 1u64 {
                lemma_ray_interior_sign(f0, r0, slider.deltas@[1].0 as int, slider.deltas@[1].1 as int, pf, pr);
            } else {
                crate::bitboard::lemma_or_member(slider.interiors_union(f0, r0, 0), ray0, j);
                crate::bitboard::lemma_zero_no_member(j);
                lemma_ray_interior_sign(f0, r0, slider.deltas@[0].0 as int, slider.deltas@[0].1 as int, pf, pr);
            }
        }
    }
}

} // verus!
