use magics::bitboard::BitBoard;
use magics::magic::{magic_index, try_make_table, MagicEntry};
use magics::magic::find_magic;
use magics::rng::Rng;
use magics::slider::Slider;
use magics::square::Square;
use magics::tables::{build_kind, MoveTables};

fn sq(file: usize, rank: usize) -> Square {
    Square::try_index(rank * 8 + file).unwrap()
}

fn bb(squares: &[(usize, usize)]) -> BitBoard {
    let mut v: u64 = 0;
    for &(f, r) in squares {
        v |= sq(f, r).bitboard().0;
    }
    BitBoard(v)
}

#[test]
fn rippler_visits_every_subset_once() {
    // All 2^popcount subsets of a mask, empty set and mask included,
    // each exactly once, in increasing order, before empty recurs.
    let m: u64 = 0b1011;
    let mut seen: Vec<u64> = Vec::new();
    let mut b: u64 = 0;
    loop {
        seen.push(b);
        b = b.wrapping_sub(m) & m;
        if b == 0 {
            break;
        }
    }
    assert_eq!(seen, vec![0, 1, 2, 3, 8, 9, 10, 11]);
    assert_eq!(seen.len(), 1 << m.count_ones());
    assert!(seen.contains(&0));
    assert!(seen.contains(&m));
}

#[test]
fn magic_index_formula() {
    // index = ((blockers & mask) * magic) >> shift, wrapping.
    let entry = MagicEntry {
        mask: BitBoard(0xFF),
        magic: 0x0101_0101_0101_0101,
        shift: 56,
        offset: 0,
    };
    let i = magic_index(&entry, BitBoard(0xAB));
    let expected = (0xABu64 & 0xFF).wrapping_mul(0x0101_0101_0101_0101) >> 56;
    assert_eq!(i as u64, expected);
    assert_eq!(i, 0xAB);
    // Irrelevant bits are masked out before hashing.
    let j = magic_index(&entry, BitBoard(0xFFFF_0000_0000_00AB));
    assert_eq!(j, i);
}

#[test]
fn zero_magic_collides() {
    // The zero multiplier maps every subset to slot zero: a destructive
    // collision, so the builder rejects it.
    let slider = Slider::rook();
    let square = sq(3, 3);
    let mask = slider.relevant_blockers(square);
    let entry = MagicEntry { mask, magic: 0, shift: 64 - 10, offset: 0 };
    assert!(try_make_table(&slider, square, &entry).is_err());
}

#[test]
fn find_magic_fills_a_consistent_table() {
    let slider = Slider::rook();
    let square = sq(3, 3);
    let mask = slider.relevant_blockers(square);
    let bits = mask.popcnt() as u8;
    let mut rng = Rng::default();
    let (entry, table) = find_magic(&slider, square, bits, &mut rng, 1_000_000).unwrap();
    assert_eq!(entry.mask.0, mask.0);
    assert_eq!(entry.shift, 64 - bits);
    assert_eq!(table.len(), 1usize << bits);
    // Every subset of the mask answers with the ray-cast move set.
    let mut b: u64 = 0;
    loop {
        let moves = slider.moves(square, BitBoard(b));
        assert_eq!(table[magic_index(&entry, BitBoard(b))].0, moves.0);
        b = b.wrapping_sub(mask.0) & mask.0;
        if b == 0 {
            break;
        }
    }
}

#[test]
fn search_exhaustion_returns_none() {
    // A cap of zero candidates can never succeed.
    let slider = Slider::rook();
    let square = sq(0, 0);
    let bits = slider.relevant_blockers(square).popcnt() as u8;
    let mut rng = Rng::default();
    assert!(find_magic(&slider, square, bits, &mut rng, 0).is_none());
}

#[test]
fn rng_is_deterministic() {
    let mut a = Rng::default();
    let mut b = Rng::default();
    let first = a.next_u64();
    assert_eq!(first, b.next_u64());
    assert_eq!(a.next_u64(), b.next_u64());
    let mut c = Rng::from_state(12345 | 1);
    let mut d = Rng::from_state(12345 | 1);
    assert_eq!(c.next_u64(), d.next_u64());
    // The stream moves: consecutive draws differ.
    let mut e = Rng::default();
    assert_ne!(e.next_u64(), e.next_u64());
}

#[test]
fn build_kind_concatenates_in_square_order() {
    // 64 entries; each shift is 64 minus its mask's population count;
    // each offset is the running sum of the earlier table sizes; the
    // concatenated table is exactly their total.
    let bishop = Slider::bishop();
    let mut rng = Rng::default();
    let (magics, table) = build_kind(&bishop, &mut rng, 100_000_000).unwrap();
    assert_eq!(magics.len(), 64);
    let mut running: usize = 0;
    for s in 0..64 {
        let entry = &magics[s];
        let mask = bishop.relevant_blockers(Square::try_index(s).unwrap());
        assert_eq!(entry.mask.0, mask.0);
        assert_eq!(entry.shift as u32, 64 - mask.popcnt());
        assert_eq!(entry.offset as usize, running);
        running += 1usize << (64 - entry.shift);
    }
    assert_eq!(table.len(), running);
}

#[test]
fn lookup_matches_ray_cast_scenario() {
    // Blockers on D6, H8, D5, H3, C3, D2, F2; piece on D4. The table
    // lookup must agree with direct ray casting for both piece kinds.
    let blockers = bb(&[(3, 5), (7, 7), (3, 4), (7, 2), (2, 2), (3, 1), (5, 1)]);
    let d4 = sq(3, 3);
    let mut rng = Rng::default();
    let tables = MoveTables::build(&mut rng, 100_000_000).unwrap();

    let rook_moves = tables.get_rook_moves(d4, blockers);
    assert_eq!(rook_moves.0, 0x0000_0008_F708_0800);
    assert_eq!(rook_moves.0, Slider::rook().moves(d4, blockers).0);
    assert!(rook_moves.has(sq(3, 4))); // stops on the D5 blocker
    assert!(rook_moves.has(sq(3, 2)));
    assert!(rook_moves.has(sq(3, 1)));
    assert!(!rook_moves.has(sq(3, 0))); // cannot pass the D2 blocker

    let bishop_moves = tables.get_bishop_moves(d4, blockers);
    assert_eq!(bishop_moves.0, 0x8041_2214_0014_2000);
    assert_eq!(bishop_moves.0, Slider::bishop().moves(d4, blockers).0);

    // Identical queries return identical results.
    assert_eq!(tables.get_rook_moves(d4, blockers).0, rook_moves.0);
    assert_eq!(tables.get_bishop_moves(d4, blockers).0, bishop_moves.0);
}
