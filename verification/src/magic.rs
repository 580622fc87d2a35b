//! The magic search engine and table builder.
//!
//! A magic entry compresses the blocker subsets of one square into a
//! dense table: the relevant blockers are masked out, multiplied by the
//! magic constant with 64-bit wraparound, and the top bits of the product
//! are the table slot. The builder enumerates every subset of the mask,
//! fills the table with the true ray-cast move sets, and rejects any
//! multiplier under which two subsets with different move sets land in
//! the same slot. The search draws random multipliers until one survives
//! the builder, up to a caller-given cap.

use crate::bitboard::{bb_has, BitBoard};
use crate::rng::{rng_nth_state, rng_output, rng_step, Rng};
use crate::slider::Slider;
use crate::square::Square;
use crate::subsets::{
    in_mask, lemma_next_subset_in_mask, lemma_next_subset_increases, lemma_next_subset_no_skip,
    lemma_next_subset_wraps, lemma_subset_le_mask, next_subset,
};
use vstd::arithmetic::power2::{lemma_pow2_strictly_increases, pow2};
use vstd::bits::{
    lemma_u64_pow2_no_overflow, lemma_u64_shl_is_mul, lemma_usize_pow2_no_overflow,
    lemma_usize_shl_is_mul,
};
use vstd::layout::unsigned_int_max_values;
use vstd::prelude::*;

verus! {

/// The multiply-and-shift hash: mask the blockers, multiply with
/// wraparound, and keep the top bits.
pub open spec fn magic_hash(mask: u64, magic: u64, shift: u64, blockers: u64) -> u64
    recommends
        shift < 64,
{
    vstd::wrapping::u64_specs::wrapping_mul(blockers & mask, magic) >> shift
}

/// Whether the hash is free of destructive collisions for `slider` on
/// square `s`: any two blocker subsets of `mask` that share a slot share
/// their move set too.
#[verifier::opaque]
pub open spec fn no_destructive_collision(
    slider: Slider,
    s: int,
    mask: u64,
    magic: u64,
    shift: u64,
) -> bool {
    forall|c1: u64, c2: u64|
        in_mask(c1, mask) && in_mask(c2, mask) && #[trigger] magic_hash(mask, magic, shift, c1)
            == #[trigger] magic_hash(mask, magic, shift, c2) ==> slider.moves_spec(s, c1)
            == slider.moves_spec(s, c2)
}

/// Whether `t` is a finished move table for `slider` on square `s`: every
/// blocker subset of `mask` finds its true move set at its hashed slot.
#[verifier::opaque]
pub open spec fn table_complete(
    t: Seq<BitBoard>,
    slider: Slider,
    s: int,
    mask: u64,
    magic: u64,
    shift: u64,
) -> bool {
    forall|c: u64|
        #[trigger] (c & mask) == c ==> {
            let h = magic_hash(mask, magic, shift, c) as int;
            0 <= h < t.len() && t[h].0 == slider.moves_spec(s, c)
        }
}

/// Whether every slot of `t` is accounted for: empty (the unclaimed
/// marker), or the true move set of the blocker subset that hashes to
/// it. The builder never writes anywhere else.
#[verifier::opaque]
pub open spec fn table_shape(
    t: Seq<BitBoard>,
    slider: Slider,
    s: int,
    mask: u64,
    magic: u64,
    shift: u64,
) -> bool {
    forall|k: int|
        0 <= k < t.len() ==> ((#[trigger] t[k]).0 == 0u64 || exists|c: u64|
            (c & mask) == c && magic_hash(mask, magic, shift, c) as int == k && t[k].0
                == slider.moves_spec(s, c))
}

/// The multiplier drawn on try `i` from a generator started at `s0`: the
/// bitwise and of three consecutive draws, which biases the candidate
/// toward few set bits.
pub open spec fn candidate_magic(s0: u128, i: nat) -> u64 {
    rng_output(rng_nth_state(s0, 3 * i + 1)) & rng_output(rng_nth_state(s0, 3 * i + 2))
        & rng_output(rng_nth_state(s0, 3 * i + 3))
}

/// The parameters of one square's perfect-hash table.
#[derive(Clone, Copy, PartialEq, Eq, Structural, Debug)]
pub struct MagicEntry {
    /// The square's relevant-blocker mask.
    pub mask: BitBoard,
    /// The accepted multiplier.
    pub magic: u64,
    /// 64 less the table's index width: the hash keeps the top bits.
    pub shift: u8,
    /// Where this square's slots start in the concatenated table.
    pub offset: u32,
}

/// The table builder found two blocker subsets with different move sets
/// in one slot: the multiplier is rejected.
#[derive(Clone, Copy, PartialEq, Eq, Structural, Debug)]
pub struct TableFillError;

/// A shifted-down value fits below the kept width.
proof fn lemma_shr_bound(h: u64, sh: u64)
    by (bit_vector)
    requires
        0 < sh < 64,
    ensures
        (h >> sh) < (1u64 << ((64 - sh) as u64)),
{
}

/// A subset of a mask misses every square the mask misses.
proof fn lemma_subset_excludes(c: u64, m: u64, j: u64)
    by (bit_vector)
    requires
        c & m == c,
        (m >> j) & 1u64 != 1u64,
    ensures
        (c >> j) & 1u64 != 1u64,
{
}

/// The slot of any blocker set under an entry's hash, as the runtime
/// index uses it: below `2^(64 - shift)`.
pub fn magic_index(entry: &MagicEntry, blockers: BitBoard) -> (i: usize)
    requires
        0 < entry.shift < 64,
        64 - entry.shift < usize::BITS,
    ensures
        i as u64 == magic_hash(entry.mask.0, entry.magic, entry.shift as u64, blockers.0),
        (i as nat) < pow2((64 - entry.shift) as nat),
{
    let masked: u64 = blockers.0 & entry.mask.0;
    let hash: u64 = masked.wrapping_mul(entry.magic);
    let sh: u64 = entry.shift as u64;
    let index: u64 = hash >> sh;
    proof {
        lemma_shr_bound(hash, sh);
        let w = (64 - sh) as u64;
        lemma_u64_pow2_no_overflow(w as nat);
        lemma_u64_shl_is_mul(1u64, w);
        lemma_pow2_strictly_increases(w as nat, usize::BITS as nat);
        unsigned_int_max_values();
    }
    index as usize
}

/// Any slot the hash yields lies below the kept width's range.
pub proof fn lemma_hash_below_pow2(mask: u64, magic: u64, shift: u64, c: u64)
    requires
        0 < shift < 64,
    ensures
        (magic_hash(mask, magic, shift, c) as nat) < pow2((64 - shift) as nat),
{
    let h = vstd::wrapping::u64_specs::wrapping_mul(c & mask, magic);
    lemma_shr_bound(h, shift);
    let w = (64 - shift) as u64;
    lemma_u64_pow2_no_overflow(w as nat);
    lemma_u64_shl_is_mul(1u64, w);
}

/// Fills one square's table under the given entry by walking every
/// subset of the mask. Returns the finished table, or an error exactly
/// when the multiplier suffers a destructive collision.
#[verifier::rlimit(100)]
pub fn try_make_table(slider: &Slider, square: Square, magic_entry: &MagicEntry) -> (r: Result<
    Vec<BitBoard>,
    TableFillError,
>)
    requires
        slider.wf(),
        slider.has_escape(square@),
        !bb_has(magic_entry.mask.0, square@),
        0 < magic_entry.shift < 64,
        64 - magic_entry.shift < usize::BITS,
    ensures
        r is Ok ==> (r->Ok_0)@.len() == pow2((64 - magic_entry.shift) as nat),
        r is Ok ==> table_complete(
            (r->Ok_0)@,
            *slider,
            square@,
            magic_entry.mask.0,
            magic_entry.magic,
            magic_entry.shift as u64,
        ),
        r is Ok ==> table_shape(
            (r->Ok_0)@,
            *slider,
            square@,
            magic_entry.mask.0,
            magic_entry.magic,
            magic_entry.shift as u64,
        ),
        r is Ok ==> no_destructive_collision(
            *slider,
            square@,
            magic_entry.mask.0,
            magic_entry.magic,
            magic_entry.shift as u64,
        ),
        r is Err ==> !no_destructive_collision(
            *slider,
            square@,
            magic_entry.mask.0,
            magic_entry.magic,
            magic_entry.shift as u64,
        ),
{
    let ghost s: int = square@;
    let ghost m: u64 = magic_entry.mask.0;
    let ghost mg: u64 = magic_entry.magic;
    let ghost sh: u64 = magic_entry.shift as u64;
    proof {
        use_type_invariant(square);
        square.lemma_wf_range();
        assert forall|c: u64| c & m == c implies slider.moves_spec(s, c) != 0 by {
            lemma_subset_excludes(c, m, s as u64);
            crate::slider::lemma_moves_nonempty(*slider, s, c);
        }
    }
    let index_bits: u8 = 64 - magic_entry.shift;
    let size: usize = 1usize << (index_bits as usize);
    proof {
        lemma_usize_pow2_no_overflow(index_bits as nat);
        lemma_usize_shl_is_mul(1usize, index_bits as usize);
    }
    let mut table: Vec<BitBoard> = Vec::new();
    while table.len() < size
        invariant
            table@.len() <= size,
            size as nat == pow2(index_bits as nat),
            forall|k: int| 0 <= k < table@.len() ==> table@[k].0 == 0u64,
        decreases size - table.len(),
    {
        table.push(BitBoard(0));
    }
    let mut blockers: BitBoard = BitBoard(0);
    proof {
        assert(0u64 & m == 0u64) by (bit_vector);
    }
    loop
        invariant_except_break
            slider.wf(),
            slider.has_escape(s),
            0 <= s < 64,
            s == square@,
            !bb_has(m, s),
            m == magic_entry.mask.0,
            mg == magic_entry.magic,
            sh == magic_entry.shift as u64,
            0 < magic_entry.shift < 64,
            64 - magic_entry.shift < usize::BITS,
            index_bits == 64 - magic_entry.shift,
            table@.len() == size,
            size as nat == pow2(index_bits as nat),
            forall|c: u64| c & m == c ==> #[trigger] slider.moves_spec(s, c) != 0,
            in_mask(blockers.0, m),
            forall|c: u64|
                #[trigger] (c & m) == c && c < blockers.0 ==> {
                    let h = magic_hash(m, mg, sh, c) as int;
                    0 <= h < table@.len() && table@[h].0 == slider.moves_spec(s, c)
                },
            forall|k: int|
                0 <= k < table@.len() && #[trigger] table@[k].0 != 0u64 ==> exists|c: u64|
                    #[trigger] (c & m) == c && c <= blockers.0 && magic_hash(m, mg, sh, c) as int
                        == k && table@[k].0 == slider.moves_spec(s, c),
        ensures
            table@.len() == size,
            size as nat == pow2(index_bits as nat),
            table_complete(table@, *slider, s, m, mg, sh),
            table_shape(table@, *slider, s, m, mg, sh),
        decreases m - blockers.0,
    {
        let ghost entry_table = table@;
        let moves: BitBoard = slider.moves(square, blockers);
        let idx: usize = magic_index(magic_entry, blockers);
        proof {
            assert(blockers.0 & m == blockers.0);
        }
        if table[idx].is_empty() {
            let ghost told = table@;
            table[idx] = moves;
            proof {
                assert forall|c: u64|
                    #[trigger] (c & m) == c && c < blockers.0 implies {
                    let h = magic_hash(m, mg, sh, c) as int;
                    0 <= h < table@.len() && table@[h].0 == slider.moves_spec(s, c)
                } by {
                    let h = magic_hash(m, mg, sh, c) as int;
                    if h == idx as int {
                        assert(told[h].0 == slider.moves_spec(s, c));
                        assert(told[h].0 == 0u64);
                        assert(slider.moves_spec(s, c) != 0);
                    }
                }
            }
        } else {
            let here = table[idx];
            if !(here.0 == moves.0) {
                proof {
                    let k = idx as int;
                    let c1 = choose|c: u64|
                        #[trigger] (c & m) == c && c <= blockers.0 && magic_hash(m, mg, sh, c)
                            as int == k && table@[k].0 == slider.moves_spec(s, c);
                    assert(!no_destructive_collision(*slider, s, m, mg, sh)) by {
                        reveal(no_destructive_collision);
                        assert(magic_hash(m, mg, sh, c1) == magic_hash(m, mg, sh, blockers.0));
                        assert(slider.moves_spec(s, c1) != slider.moves_spec(s, blockers.0));
                    }
                }
                return Err(TableFillError);
            }
        }
        let ghost prev: u64 = blockers.0;
        proof {
            assert(forall|k: int|
                0 <= k < table@.len() && k != idx as int ==> table@[k] == entry_table[k]);
            assert(table@[idx as int].0 == slider.moves_spec(s, prev));
        }
        let next: u64 = blockers.0.wrapping_sub(magic_entry.mask.0) & magic_entry.mask.0;
        proof {
            assert(next == next_subset(prev, m));
            lemma_next_subset_in_mask(prev, m);
            lemma_next_subset_wraps(prev, m);
            lemma_subset_le_mask(prev, m);
            if prev != m {
                lemma_next_subset_increases(prev, m);
            }
            lemma_next_subset_in_mask(prev, m);
            assert forall|c: u64| #[trigger] (c & m) == c && c < next implies {
                let h = magic_hash(m, mg, sh, c) as int;
                0 <= h < table@.len() && table@[h].0 == slider.moves_spec(s, c)
            } by {
                if c > prev {
                    if prev != m {
                        lemma_next_subset_no_skip(prev, c, m);
                    } else {
                        lemma_subset_le_mask(c, m);
                    }
                }
            }
        }
        blockers = BitBoard(next);
        if blockers.is_empty() {
            proof {
                assert(prev == m);
                assert(table_complete(table@, *slider, s, m, mg, sh)) by {
                    reveal(table_complete);
                    assert forall|c: u64| #[trigger] (c & m) == c implies {
                        let h = magic_hash(m, mg, sh, c) as int;
                        0 <= h < table@.len() && table@[h].0 == slider.moves_spec(s, c)
                    } by {
                        lemma_subset_le_mask(c, m);
                    }
                }
                assert(table_shape(table@, *slider, s, m, mg, sh)) by {
                    reveal(table_shape);
                    assert forall|k: int|
                        0 <= k < table@.len() && (#[trigger] table@[k]).0 != 0u64 implies exists|
                        c: u64,
                    |
                        (c & m) == c && magic_hash(m, mg, sh, c) as int == k && table@[k].0
                            == slider.moves_spec(s, c) by {
                        if k == idx as int {
                            assert((prev & m) == prev && magic_hash(m, mg, sh, prev) as int == k
                                && table@[k].0 == slider.moves_spec(s, prev));
                        } else {
                            assert(table@[k] == entry_table[k]);
                            let c0 = choose|c: u64|
                                (c & m) == c && c <= prev && magic_hash(m, mg, sh, c) as int == k
                                    && entry_table[k].0 == slider.moves_spec(s, c);
                            assert((c0 & m) == c0 && magic_hash(m, mg, sh, c0) as int == k
                                && table@[k].0 == slider.moves_spec(s, c0));
                        }
                    }
                }
            }
            break ;
        }
        proof {
            lemma_subset_le_mask(blockers.0, m);
        }
    }
    proof {
        assert(no_destructive_collision(*slider, s, m, mg, sh)) by {
            reveal(no_destructive_collision);
            reveal(table_complete);
            assert forall|c1: u64, c2: u64|
                in_mask(c1, m) && in_mask(c2, m) && #[trigger] magic_hash(m, mg, sh, c1)
                    == #[trigger] magic_hash(m, mg, sh, c2) implies slider.moves_spec(s, c1)
                == slider.moves_spec(s, c2) by {
                assert(table@[magic_hash(m, mg, sh, c1) as int].0 == slider.moves_spec(s, c1));
                assert(table@[magic_hash(m, mg, sh, c2) as int].0 == slider.moves_spec(s, c2));
            }
        }
    }
    Ok(table)
}

/// Draws multipliers until one fills the square's table without a
/// destructive collision, or until `max_tries` candidates have failed.
/// Success yields the entry (offset still zero) and its finished table.
#[verifier::rlimit(100)]
pub fn find_magic(
    slider: &Slider,
    square: Square,
    index_bits: u8,
    rng: &mut Rng,
    max_tries: u64,
) -> (r: Option<(MagicEntry, Vec<BitBoard>)>)
    requires
        slider.wf(),
        slider.has_escape(square@),
        0 < index_bits < 64,
        index_bits < usize::BITS,
    ensures
        r is Some ==> {
            let entry = (r->0).0;
            let table = (r->0).1;
            &&& entry.mask.0 == slider.relevant_blockers_spec(square@)
            &&& entry.shift == 64 - index_bits
            &&& entry.offset == 0
            &&& table@.len() == pow2(index_bits as nat)
            &&& table_complete(
                table@,
                *slider,
                square@,
                entry.mask.0,
                entry.magic,
                entry.shift as u64,
            )
            &&& table_shape(table@, *slider, square@, entry.mask.0, entry.magic, entry.shift as u64)
            &&& no_destructive_collision(
                *slider,
                square@,
                entry.mask.0,
                entry.magic,
                entry.shift as u64,
            )
            &&& exists|i: nat|
                i < max_tries && entry.magic == candidate_magic(old(rng)@, i) && final(rng)@
                    == rng_nth_state(old(rng)@, 3 * i + 3) && (forall|j: nat|
                    j < i ==> !no_destructive_collision(
                        *slider,
                        square@,
                        slider.relevant_blockers_spec(square@),
                        candidate_magic(old(rng)@, j),
                        (64 - index_bits) as u64,
                    ))
        },
        r is None ==> final(rng)@ == rng_nth_state(old(rng)@, 3 * max_tries as nat) && (forall|
            j: nat,
        |
            j < max_tries ==> !no_destructive_collision(
                *slider,
                square@,
                slider.relevant_blockers_spec(square@),
                candidate_magic(old(rng)@, j),
                (64 - index_bits) as u64,
            )),
{
    let ghost s: int = square@;
    let ghost s0: u128 = rng@;
    proof {
        use_type_invariant(square);
        square.lemma_wf_range();
    }
    let mask: BitBoard = slider.relevant_blockers(square);
    proof {
        let iu = crate::slider::Slider::interiors_union(
            *slider,
            crate::square::file_of(s),
            crate::square::rank_of(s),
            4,
        );
        let su = s as u64;
        assert(su < 64 ==> ((iu & !(1u64 << su)) >> su) & 1u64 != 1u64) by (bit_vector);
    }
    let shift: u8 = 64 - index_bits;
    let mut t: u64 = 0;
    loop
        invariant_except_break
            slider.wf(),
            slider.has_escape(s),
            0 <= s < 64,
            s == square@,
            0 < index_bits < 64,
            index_bits < usize::BITS,
            shift == 64 - index_bits,
            mask.0 == slider.relevant_blockers_spec(s),
            !bb_has(mask.0, s),
            t <= max_tries,
            s0 == old(rng)@,
            rng@ == rng_nth_state(s0, 3 * t as nat),
            forall|j: nat|
                j < t ==> !no_destructive_collision(
                    *slider,
                    s,
                    mask.0,
                    candidate_magic(s0, j),
                    shift as u64,
                ),
        ensures
            t == max_tries,
            rng@ == rng_nth_state(s0, 3 * max_tries as nat),
            forall|j: nat|
                j < max_tries ==> !no_destructive_collision(
                    *slider,
                    s,
                    mask.0,
                    candidate_magic(s0, j),
                    shift as u64,
                ),
        decreases max_tries - t,
    {
        if t >= max_tries {
            break ;
        }
        let a: u64 = rng.next_u64();
        let b: u64 = rng.next_u64();
        let c: u64 = rng.next_u64();
        let magic: u64 = a & b & c;
        proof {
            let n0 = 3 * (t as nat);
            assert(rng_nth_state(s0, n0 + 1) == rng_step(rng_nth_state(s0, n0)));
            assert(rng_nth_state(s0, n0 + 2) == rng_step(rng_nth_state(s0, n0 + 1)));
            assert(rng_nth_state(s0, n0 + 3) == rng_step(rng_nth_state(s0, n0 + 2)));
            assert(rng@ == rng_nth_state(s0, n0 + 3));
            assert(magic == candidate_magic(s0, t as nat));
        }
        let magic_entry = MagicEntry { mask, magic, shift, offset: 0 };
        match try_make_table(slider, square, &magic_entry) {
            Ok(table) => {
                proof {
                    let i: nat = t as nat;
                    assert(i < max_tries);
                    assert(magic_entry.magic == candidate_magic(old(rng)@, i));
                    assert(rng@ == rng_nth_state(old(rng)@, 3 * i + 3));
                    assert(exists|i: nat|
                        i < max_tries && magic_entry.magic == candidate_magic(old(rng)@, i)
                            && rng@ == rng_nth_state(old(rng)@, 3 * i + 3) && (forall|j: nat|
                            j < i ==> !no_destructive_collision(
                                *slider,
                                square@,
                                slider.relevant_blockers_spec(square@),
                                candidate_magic(old(rng)@, j),
                                (64 - index_bits) as u64,
                            )));
                }
                return Some((magic_entry, table));
            },
            Err(_) => {
            },
        }
        t = t + 1;
    }
    None
}

} // verus!
