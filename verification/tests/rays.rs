use magics::bitboard::BitBoard;
use magics::slider::Slider;
use magics::square::Square;

fn sq(file: usize, rank: usize) -> Square {
    Square::try_index(rank * 8 + file).unwrap()
}

#[test]
fn rook_a1_no_blockers() {
    // The whole A file above and the whole first rank to the right.
    let m = Slider::rook().moves(sq(0, 0), BitBoard(0));
    assert_eq!(m.0, 0x0101_0101_0101_01FE);
    assert_eq!(m.popcnt(), 14);
}

#[test]
fn rook_a1_blocker_on_a2() {
    // The upward ray stops on (and includes) A2; the first rank is open.
    let blockers = sq(0, 1).bitboard();
    let m = Slider::rook().moves(sq(0, 0), blockers);
    assert_eq!(m.0, 0x0000_0000_0000_01FE);
    assert_eq!(m.popcnt(), 8);
}

#[test]
fn rook_a1_blockers_on_a2_and_b1() {
    // With both adjacent squares held, the rook reaches exactly those two.
    let blockers = BitBoard(sq(0, 1).bitboard().0 | sq(1, 0).bitboard().0);
    let m = Slider::rook().moves(sq(0, 0), blockers);
    assert_eq!(m.0, 0x0000_0000_0000_0102);
    assert_eq!(m.popcnt(), 2);
}

#[test]
fn bishop_d4_no_blockers() {
    // Both full diagonals through D4, D4 itself excluded.
    let m = Slider::bishop().moves(sq(3, 3), BitBoard(0));
    assert_eq!(m.0, 0x8041_2214_0014_2241);
    assert_eq!(m.popcnt(), 13);
}

#[test]
fn moves_empty_when_own_square_blocked() {
    let blockers = sq(3, 3).bitboard();
    let m = Slider::rook().moves(sq(3, 3), blockers);
    assert!(m.is_empty());
}

#[test]
fn rook_d4_relevant_blockers() {
    // Interior of the D file and fourth rank: edges and D4 left out.
    let m = Slider::rook().relevant_blockers(sq(3, 3));
    assert_eq!(m.0, 0x0008_0808_7608_0800);
    assert_eq!(m.popcnt(), 10);
}

#[test]
fn bishop_d4_relevant_blockers() {
    let m = Slider::bishop().relevant_blockers(sq(3, 3));
    assert_eq!(m.0, 0x0040_2214_0014_2200);
    assert_eq!(m.popcnt(), 9);
}

#[test]
fn rook_a1_mask_minimal() {
    // The mask keeps interior squares only: not A1, not the ray ends.
    let m = Slider::rook().relevant_blockers(sq(0, 0));
    assert_eq!(m.0, 0x0001_0101_0101_017E);
    assert_eq!(m.popcnt(), 12);
    assert!(!m.has(sq(0, 0)));
    assert!(!m.has(sq(0, 7)));
    assert!(!m.has(sq(7, 0)));
}
