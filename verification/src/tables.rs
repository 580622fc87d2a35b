//! Concatenated move tables and the constant-time runtime query.
//!
//! Once every square of a piece kind has an accepted magic entry, the 64
//! per-square tables are laid out one after another; each entry's
//! `offset` is the running sum of the earlier squares' table sizes. A
//! query masks the blockers, hashes them, and reads one slot — the
//! answer is the true ray-cast move set for the relevant blockers.
//!
//! The whole build is deterministic in the generator's seed, so the spec
//! functions below can say exactly when it succeeds: square by square,
//! each search starts from the state the earlier searches leave and
//! accepts the first of up to `max_tries` candidates whose hash is
//! collision-free.

use crate::bitboard::{pop64, BitBoard};
use crate::magic::{
    candidate_magic, find_magic, magic_hash, magic_index, no_destructive_collision,
    table_complete, table_shape, MagicEntry,
};
use crate::rng::{rng_nth_state, Rng};
use crate::slider::{bishop_slider, rook_slider, Slider};
use crate::square::Square;
use vstd::arithmetic::power2::pow2;
use vstd::prelude::*;

verus! {

/// Whether `e` is a sound entry for square `q` of `slider`, with its
/// slots inside `t`: the mask is the square's relevant blockers, the
/// shift is 64 less the mask's population count, every blocker subset
/// finds its true move set at `offset` plus its hash, and every slot of
/// the segment is either empty or one of those move sets.
pub open spec fn entry_ok(slider: Slider, e: MagicEntry, t: Seq<BitBoard>, q: int) -> bool {
    &&& e.mask.0 == slider.relevant_blockers_spec(q)
    &&& e.shift as int == 64 - pop64(e.mask.0)
    &&& 0 < e.shift < 64
    &&& 64 - e.shift < usize::BITS
    &&& e.offset as int + pow2((64 - e.shift) as nat) <= t.len()
    &&& forall|c: u64|
        #[trigger] (c & e.mask.0) == c ==> t[e.offset as int + magic_hash(
            e.mask.0,
            e.magic,
            e.shift as u64,
            c,
        ) as int].0 == slider.moves_spec(q, c)
    &&& forall|k: int|
        e.offset as int <= k < e.offset as int + pow2((64 - e.shift) as nat) ==> ((
        #[trigger] t[k]).0 == 0u64 || exists|c: u64|
            (c & e.mask.0) == c && e.offset as int + magic_hash(
                e.mask.0,
                e.magic,
                e.shift as u64,
                c,
            ) as int == k && t[k].0 == slider.moves_spec(q, c))
}

/// The summed slot counts of the first `n` entries: entry `q` spans
/// `2^(64 - shift)` slots.
pub open spec fn total_size(magics: Seq<MagicEntry>, n: int) -> int
    decreases n,
{
    if n <= 0 {
        0
    } else {
        total_size(magics, n - 1) + pow2((64 - magics[n - 1].shift) as nat)
    }
}

/// The sum over the first `n` entries reads nothing beyond them.
proof fn lemma_total_size_prefix(m1: Seq<MagicEntry>, m2: Seq<MagicEntry>, n: int)
    requires
        forall|i: int| 0 <= i < n ==> m1[i] == m2[i],
    ensures
        total_size(m1, n) == total_size(m2, n),
    decreases n,
{
    if n > 0 {
        lemma_total_size_prefix(m1, m2, n - 1);
    }
}

/// Whether `magics` and the concatenated `t` answer every query for
/// `slider`: one sound entry per square, offsets the running sums of the
/// earlier table sizes, and the whole table exactly their total.
pub open spec fn tables_wf(slider: Slider, magics: Seq<MagicEntry>, t: Seq<BitBoard>) -> bool {
    &&& magics.len() == 64
    &&& forall|q: int| 0 <= q < 64 ==> entry_ok(slider, #[trigger] magics[q], t, q)
    &&& forall|q: int| 0 <= q < 64 ==> (#[trigger] magics[q]).offset as int == total_size(magics, q)
    &&& t.len() == total_size(magics, 64)
}

/// The hash shift square `q` gets: 64 less its mask's population count.
pub open spec fn shift_of(slider: Slider, q: int) -> u64 {
    (64 - pop64(slider.relevant_blockers_spec(q))) as u64
}

/// Whether the multiplier drawn on try `i` from state `s0` is accepted
/// for square `q`: its hash is free of destructive collisions.
pub open spec fn candidate_works(slider: Slider, q: int, s0: u128, i: nat) -> bool {
    no_destructive_collision(
        slider,
        q,
        slider.relevant_blockers_spec(q),
        candidate_magic(s0, i),
        shift_of(slider, q),
    )
}

/// The first try at or after `i` whose multiplier is accepted, or
/// `max_tries` when none below the cap is.
pub open spec fn first_good(slider: Slider, q: int, s0: u128, max_tries: u64, i: nat) -> nat
    decreases max_tries - i,
{
    if i >= max_tries {
        max_tries as nat
    } else if candidate_works(slider, q, s0, i) {
        i
    } else {
        first_good(slider, q, s0, max_tries, i + 1)
    }
}

/// A try that works, before which none does, is the first.
proof fn lemma_first_good_at(slider: Slider, q: int, s0: u128, max_tries: u64, i: nat, k: nat)
    requires
        k <= i,
        i < max_tries,
        candidate_works(slider, q, s0, i),
        forall|j: nat| j < i ==> !candidate_works(slider, q, s0, j),
    ensures
        first_good(slider, q, s0, max_tries, k) == i,
    decreases i - k,
{
    if k < i {
        lemma_first_good_at(slider, q, s0, max_tries, i, k + 1);
    }
}

/// When no try below the cap works, the search exhausts it.
proof fn lemma_first_good_none(slider: Slider, q: int, s0: u128, max_tries: u64, k: nat)
    requires
        forall|j: nat| j < max_tries ==> !candidate_works(slider, q, s0, j),
    ensures
        first_good(slider, q, s0, max_tries, k) == max_tries,
    decreases max_tries - k,
{
    if k < max_tries {
        lemma_first_good_none(slider, q, s0, max_tries, k + 1);
    }
}

/// Whether square `q`'s search from state `s0` succeeds within the cap.
pub open spec fn search_ok(slider: Slider, q: int, s0: u128, max_tries: u64) -> bool {
    first_good(slider, q, s0, max_tries, 0) < max_tries
}

/// How many values square `q`'s search draws from state `s0`: three per
/// candidate, up to and including the accepted one; three times the cap
/// on exhaustion.
pub open spec fn search_draws(slider: Slider, q: int, s0: u128, max_tries: u64) -> nat {
    if search_ok(slider, q, s0, max_tries) {
        3 * (first_good(slider, q, s0, max_tries, 0) + 1)
    } else {
        3 * max_tries as nat
    }
}

/// The generator state when square `n`'s search begins, all earlier
/// squares' draws consumed.
pub open spec fn state_at_square(slider: Slider, n: int, s0: u128, max_tries: u64) -> u128
    decreases n,
{
    if n <= 0 {
        s0
    } else {
        rng_nth_state(
            state_at_square(slider, n - 1, s0, max_tries),
            search_draws(slider, n - 1, state_at_square(slider, n - 1, s0, max_tries), max_tries),
        )
    }
}

/// The summed table sizes of the squares below `n`, as their masks give
/// them.
pub open spec fn masks_total(slider: Slider, n: int) -> int
    decreases n,
{
    if n <= 0 {
        0
    } else {
        masks_total(slider, n - 1) + pow2(pop64(slider.relevant_blockers_spec(n - 1)))
    }
}

/// Whether square `q`'s table fits the machine: a non-empty mask of
/// fewer than 32 bits whose table the address space can index, starting
/// within the offset field's range.
pub open spec fn square_feasible(slider: Slider, q: int) -> bool {
    &&& 0 < pop64(slider.relevant_blockers_spec(q)) < 32
    &&& pop64(slider.relevant_blockers_spec(q)) < usize::BITS
    &&& masks_total(slider, q) <= u32::MAX
}

/// Whether square `q`'s part of the build goes through: the square is
/// feasible and its search, from the state the earlier searches leave,
/// succeeds within the cap.
pub open spec fn square_built(slider: Slider, q: int, s0: u128, max_tries: u64) -> bool {
    square_feasible(slider, q) && search_ok(
        slider,
        q,
        state_at_square(slider, q, s0, max_tries),
        max_tries,
    )
}

/// Whether the build gets through the first `n` squares.
pub open spec fn build_ok(slider: Slider, n: int, s0: u128, max_tries: u64) -> bool {
    forall|q: int| 0 <= q < n ==> #[trigger] square_built(slider, q, s0, max_tries)
}

/// Searches magics for all 64 squares of one slider and lays their
/// tables out contiguously, assigning each entry its offset. Succeeds
/// exactly when every square is feasible and finds a magic within
/// `max_tries` candidates; on failure the result names nothing, but the
/// first failing square and the generator's final state are pinned.
#[verifier::rlimit(100)]
pub fn build_kind(slider: &Slider, rng: &mut Rng, max_tries: u64) -> (r: Option<
    (Vec<MagicEntry>, Vec<BitBoard>),
>)
    requires
        slider.wf(),
        forall|q: int| 0 <= q < 64 ==> slider.has_escape(q),
    ensures
        r is Some <==> build_ok(*slider, 64, old(rng)@, max_tries),
        r is Some ==> tables_wf(*slider, (r->0).0@, (r->0).1@) && final(rng)@ == state_at_square(
            *slider,
            64,
            old(rng)@,
            max_tries,
        ),
        r is None ==> exists|n: int|
            0 <= n < 64 && build_ok(*slider, n, old(rng)@, max_tries) && !(#[trigger] square_built(
                *slider,
                n,
                old(rng)@,
                max_tries,
            )) && final(rng)@ == (if square_feasible(*slider, n) {
                rng_nth_state(
                    state_at_square(*slider, n, old(rng)@, max_tries),
                    3 * max_tries as nat,
                )
            } else {
                state_at_square(*slider, n, old(rng)@, max_tries)
            }),
{
    let ghost s0: u128 = rng@;
    let mut magics: Vec<MagicEntry> = Vec::new();
    let mut table: Vec<BitBoard> = Vec::new();
    let mut s: usize = 0;
    while s < 64
        invariant
            slider.wf(),
            forall|q: int| 0 <= q < 64 ==> slider.has_escape(q),
            s <= 64,
            s0 == old(rng)@,
            rng@ == state_at_square(*slider, s as int, s0, max_tries),
            build_ok(*slider, s as int, s0, max_tries),
            magics@.len() == s,
            forall|q: int| 0 <= q < s ==> entry_ok(*slider, #[trigger] magics@[q], table@, q),
            forall|q: int|
                0 <= q < s ==> (#[trigger] magics@[q]).offset as int == total_size(magics@, q),
            table@.len() == total_size(magics@, s as int),
            total_size(magics@, s as int) == masks_total(*slider, s as int),
        decreases 64 - s,
    {
        let square = match Square::try_index(s) {
            Some(sq) => sq,
            None => {
                return None;
            },
        };
        let mask = slider.relevant_blockers(square);
        let bits32: u32 = mask.popcnt();
        let off: usize = table.len();
        if bits32 == 0 || bits32 >= 32 || bits32 >= usize::BITS || off > u32::MAX as usize {
            proof {
                assert(!square_feasible(*slider, s as int));
                assert(!square_built(*slider, s as int, s0, max_tries));
            }
            return None;
        }
        let index_bits: u8 = bits32 as u8;
        let ghost sigma: u128 = rng@;
        match find_magic(slider, square, index_bits, rng, max_tries) {
            None => {
                proof {
                    assert forall|j: nat| j < max_tries implies !candidate_works(
                        *slider,
                        s as int,
                        sigma,
                        j,
                    ) by {
                        assert((64 - index_bits) as u64 == shift_of(*slider, s as int));
                        assert(!no_destructive_collision(
                            *slider,
                            square@,
                            slider.relevant_blockers_spec(square@),
                            candidate_magic(sigma, j),
                            (64 - index_bits) as u64,
                        ));
                    }
                    lemma_first_good_none(*slider, s as int, sigma, max_tries, 0);
                    assert(!search_ok(*slider, s as int, sigma, max_tries));
                    assert(sigma == state_at_square(*slider, s as int, s0, max_tries));
                    assert(!square_built(*slider, s as int, s0, max_tries));
                }
                return None;
            },
            Some((entry, seg)) => {
                proof {
                    let i = choose|i: nat|
                        i < max_tries && entry.magic == candidate_magic(sigma, i) && rng@
                            == rng_nth_state(sigma, 3 * i + 3) && (forall|j: nat|
                            j < i ==> !no_destructive_collision(
                                *slider,
                                square@,
                                slider.relevant_blockers_spec(square@),
                                candidate_magic(sigma, j),
                                (64 - index_bits) as u64,
                            ));
                    assert((64 - index_bits) as u64 == shift_of(*slider, s as int));
                    assert(candidate_works(*slider, s as int, sigma, i));
                    assert(forall|j: nat| j < i ==> !candidate_works(*slider, s as int, sigma, j));
                    lemma_first_good_at(*slider, s as int, sigma, max_tries, i, 0);
                    assert(search_ok(*slider, s as int, sigma, max_tries));
                    assert(search_draws(*slider, s as int, sigma, max_tries) == 3 * i + 3);
                    assert(rng@ == state_at_square(*slider, s as int + 1, s0, max_tries));
                }
                let entry2 = MagicEntry {
                    mask: entry.mask,
                    magic: entry.magic,
                    shift: entry.shift,
                    offset: off as u32,
                };
                let ghost old_table = table@;
                let ghost old_magics = magics@;
                magics.push(entry2);
                let mut j: usize = 0;
                while j < seg.len()
                    invariant
                        j <= seg.len(),
                        table@.len() == off + j,
                        off == old_table.len(),
                        forall|k: int| 0 <= k < off ==> table@[k] == old_table[k],
                        forall|k: int| 0 <= k < j ==> table@[off + k] == seg@[k],
                    decreases seg.len() - j,
                {
                    let x = seg[j];
                    table.push(x);
                    j = j + 1;
                }
                proof {
                    reveal(table_complete);
                    reveal(table_shape);
                    assert forall|c: u64| #[trigger] (c & entry2.mask.0) == c implies table@[
                        entry2.offset as int + magic_hash(
                            entry2.mask.0,
                            entry2.magic,
                            entry2.shift as u64,
                            c,
                        ) as int].0 == slider.moves_spec(s as int, c) by {
                        let h = magic_hash(entry2.mask.0, entry2.magic, entry2.shift as u64, c)
                            as int;
                        assert(0 <= h < seg@.len() && seg@[h].0 == slider.moves_spec(square@, c));
                        assert(table@[off + h] == seg@[h]);
                    }
                    assert forall|k: int|
                        entry2.offset as int <= k < entry2.offset as int + pow2(
                            (64 - entry2.shift) as nat,
                        ) implies ((#[trigger] table@[k]).0 == 0u64 || exists|c: u64|
                        (c & entry2.mask.0) == c && entry2.offset as int + magic_hash(
                            entry2.mask.0,
                            entry2.magic,
                            entry2.shift as u64,
                            c,
                        ) as int == k && table@[k].0 == slider.moves_spec(s as int, c)) by {
                        let kk = k - off;
                        assert(table@[k] == seg@[kk]);
                        if seg@[kk].0 != 0u64 {
                            let c0 = choose|c: u64|
                                (c & entry.mask.0) == c && magic_hash(
                                    entry.mask.0,
                                    entry.magic,
                                    entry.shift as u64,
                                    c,
                                ) as int == kk && seg@[kk].0 == slider.moves_spec(square@, c);
                            assert((c0 & entry2.mask.0) == c0 && entry2.offset as int
                                + magic_hash(
                                entry2.mask.0,
                                entry2.magic,
                                entry2.shift as u64,
                                c0,
                            ) as int == k && table@[k].0 == slider.moves_spec(s as int, c0));
                        }
                    }
                    assert(entry_ok(*slider, entry2, table@, s as int));
                    assert forall|q: int| 0 <= q < s + 1 implies entry_ok(
                        *slider,
                        #[trigger] magics@[q],
                        table@,
                        q,
                    ) by {
                        if q < s {
                            let eq = magics@[q];
                            assert(entry_ok(*slider, eq, old_table, q));
                            assert forall|c: u64| #[trigger] (c & eq.mask.0) == c implies table@[
                                eq.offset as int + magic_hash(
                                    eq.mask.0,
                                    eq.magic,
                                    eq.shift as u64,
                                    c,
                                ) as int].0 == slider.moves_spec(q, c) by {
                                let h = eq.offset as int + magic_hash(
                                    eq.mask.0,
                                    eq.magic,
                                    eq.shift as u64,
                                    c,
                                ) as int;
                                crate::magic::lemma_hash_below_pow2(
                                    eq.mask.0,
                                    eq.magic,
                                    eq.shift as u64,
                                    c,
                                );
                                assert(0 <= h < off);
                                assert(table@[h] == old_table[h]);
                            }
                            assert forall|k: int|
                                eq.offset as int <= k < eq.offset as int + pow2(
                                    (64 - eq.shift) as nat,
                                ) implies ((#[trigger] table@[k]).0 == 0u64 || exists|c: u64|
                                (c & eq.mask.0) == c && eq.offset as int + magic_hash(
                                    eq.mask.0,
                                    eq.magic,
                                    eq.shift as u64,
                                    c,
                                ) as int == k && table@[k].0 == slider.moves_spec(q, c)) by {
                                assert(table@[k] == old_table[k]);
                                if old_table[k].0 != 0u64 {
                                    let c0 = choose|c: u64|
                                        (c & eq.mask.0) == c && eq.offset as int + magic_hash(
                                            eq.mask.0,
                                            eq.magic,
                                            eq.shift as u64,
                                            c,
                                        ) as int == k && old_table[k].0 == slider.moves_spec(
                                            q,
                                            c,
                                        );
                                    assert((c0 & eq.mask.0) == c0 && eq.offset as int
                                        + magic_hash(
                                        eq.mask.0,
                                        eq.magic,
                                        eq.shift as u64,
                                        c0,
                                    ) as int == k && table@[k].0 == slider.moves_spec(q, c0));
                                }
                            }
                        }
                    }
                    assert forall|q: int|
                        0 <= q < s + 1 implies (#[trigger] magics@[q]).offset as int
                        == total_size(magics@, q) by {
                        lemma_total_size_prefix(magics@, old_magics, q);
                    }
                    lemma_total_size_prefix(magics@, old_magics, s as int);
                    assert(table@.len() == total_size(magics@, s as int + 1));
                    assert(total_size(magics@, s as int + 1) == masks_total(
                        *slider,
                        s as int + 1,
                    ));
                    assert(square_feasible(*slider, s as int));
                    assert(sigma == state_at_square(*slider, s as int, s0, max_tries));
                    assert(square_built(*slider, s as int, s0, max_tries));
                    assert forall|q: int| 0 <= q < s + 1 implies #[trigger] square_built(
                        *slider,
                        q,
                        s0,
                        max_tries,
                    ) by {
                    }
                }
            },
        }
        s = s + 1;
    }
    Some((magics, table))
}

/// The finished move tables of both piece kinds: immutable once built,
/// and sound for every query.
pub struct MoveTables {
    rook_magics: Vec<MagicEntry>,
    rook_table: Vec<BitBoard>,
    bishop_magics: Vec<MagicEntry>,
    bishop_table: Vec<BitBoard>,
}

impl MoveTables {
    /// Both kinds' magics and concatenated tables are sound: this holds
    /// of every value of the type, and is what the lookup contracts
    /// rest on.
    #[verifier::type_invariant]
    pub closed spec fn wf(self) -> bool {
        &&& tables_wf(rook_slider(), self.rook_magics@, self.rook_table@)
        &&& tables_wf(bishop_slider(), self.bishop_magics@, self.bishop_table@)
    }

    /// Builds both kinds' tables from the given generator, capping each
    /// square's search at `max_tries` candidates: the rook's 64 squares
    /// first, then the bishop's from the state the rook searches leave.
    pub fn build(rng: &mut Rng, max_tries: u64) -> (r: Option<MoveTables>)
        ensures
            r is Some <==> (build_ok(rook_slider(), 64, old(rng)@, max_tries) && build_ok(
                bishop_slider(),
                64,
                state_at_square(rook_slider(), 64, old(rng)@, max_tries),
                max_tries,
            )),
            r is Some ==> (r->0).wf() && final(rng)@ == state_at_square(
                bishop_slider(),
                64,
                state_at_square(rook_slider(), 64, old(rng)@, max_tries),
                max_tries,
            ),
    {
        let rook = Slider::rook();
        let bishop = Slider::bishop();
        proof {
            assert forall|q: int| 0 <= q < 64 implies rook.has_escape(q) by {
                crate::slider::lemma_rook_has_escape(rook, q);
            }
            assert forall|q: int| 0 <= q < 64 implies bishop.has_escape(q) by {
                crate::slider::lemma_bishop_has_escape(bishop, q);
            }
        }
        let (rook_magics, rook_table) = match build_kind(&rook, rng, max_tries) {
            Some(p) => p,
            None => {
                return None;
            },
        };
        let (bishop_magics, bishop_table) = match build_kind(&bishop, rng, max_tries) {
            Some(p) => p,
            None => {
                return None;
            },
        };
        Some(MoveTables { rook_magics, rook_table, bishop_magics, bishop_table })
    }

    /// The rook's move set from `square`, looked up in constant time:
    /// exactly the ray-cast answer for the relevant blockers.
    pub fn get_rook_moves(&self, square: Square, blockers: BitBoard) -> (m: BitBoard)
        ensures
            m.0 == rook_slider().moves_spec(
                square@,
                blockers.0 & rook_slider().relevant_blockers_spec(square@),
            ),
    {
        proof {
            use_type_invariant(self);
            use_type_invariant(square);
            square.lemma_wf_range();
        }
        let si: usize = square.to_index() as usize;
        let e: MagicEntry = self.rook_magics[si];
        let i: usize = magic_index(&e, blockers);
        // the table's length is a machine word, so the slot index fits one
        let _table_len: usize = self.rook_table.len();
        proof {
            lookup_sound(rook_slider(), e, self.rook_table@, square@, blockers.0);
        }
        self.rook_table[e.offset as usize + i]
    }

    /// The bishop's move set from `square`, looked up in constant time:
    /// exactly the ray-cast answer for the relevant blockers.
    pub fn get_bishop_moves(&self, square: Square, blockers: BitBoard) -> (m: BitBoard)
        ensures
            m.0 == bishop_slider().moves_spec(
                square@,
                blockers.0 & bishop_slider().relevant_blockers_spec(square@),
            ),
    {
        proof {
            use_type_invariant(self);
            use_type_invariant(square);
            square.lemma_wf_range();
        }
        let si: usize = square.to_index() as usize;
        let e: MagicEntry = self.bishop_magics[si];
        let i: usize = magic_index(&e, blockers);
        // the table's length is a machine word, so the slot index fits one
        let _table_len: usize = self.bishop_table.len();
        proof {
            lookup_sound(bishop_slider(), e, self.bishop_table@, square@, blockers.0);
        }
        self.bishop_table[e.offset as usize + i]
    }
}

/// A sound entry answers the masked query: the slot of any blocker set
/// holds the move set of its relevant part.
proof fn lookup_sound(slider: Slider, e: MagicEntry, t: Seq<BitBoard>, q: int, b: u64)
    requires
        entry_ok(slider, e, t, q),
    ensures
        ({
            let c = b & e.mask.0;
            &&& magic_hash(e.mask.0, e.magic, e.shift as u64, b) == magic_hash(
                e.mask.0,
                e.magic,
                e.shift as u64,
                c,
            )
            &&& t[e.offset as int + magic_hash(e.mask.0, e.magic, e.shift as u64, b) as int].0
                == slider.moves_spec(q, c)
        }),
{
    let m = e.mask.0;
    let c = b & m;
    assert((b & m) & m == b & m) by (bit_vector);
    assert(c & m == c);
}

} // verus!
