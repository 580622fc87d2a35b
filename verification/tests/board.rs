use magics::bitboard::BitBoard;
use magics::square::{File, Rank, Square};

fn sq(file: usize, rank: usize) -> Square {
    Square::try_index(rank * 8 + file).unwrap()
}

#[test]
fn square_new_and_parts() {
    let d4 = Square::new(File::D, Rank::Fourth);
    assert_eq!(d4.to_index(), 27);
    assert!(matches!(d4.file(), File::D));
    assert!(matches!(d4.rank(), Rank::Fourth));
    assert_eq!(d4.bitboard().0, 1u64 << 27);
}

#[test]
fn square_try_index_bounds() {
    assert!(Square::try_index(0).is_some());
    assert!(Square::try_index(63).is_some());
    assert!(Square::try_index(64).is_none());
}

#[test]
fn square_try_offset() {
    let a1 = sq(0, 0);
    assert!(a1.try_offset(-1, 0).is_none());
    assert!(a1.try_offset(0, -1).is_none());
    let b2 = a1.try_offset(1, 1).unwrap();
    assert_eq!(b2.to_index(), 9);
    let h8 = sq(7, 7);
    assert!(h8.try_offset(1, 0).is_none());
    assert!(h8.try_offset(0, 1).is_none());
}

#[test]
fn bitboard_popcnt() {
    assert_eq!(BitBoard(0).popcnt(), 0);
    assert_eq!(BitBoard(0xFF).popcnt(), 8);
    assert_eq!(BitBoard(u64::MAX).popcnt(), 64);
    assert_eq!(BitBoard(0x8000_0000_0000_0001).popcnt(), 2);
}

#[test]
fn bitboard_membership() {
    let b = BitBoard(1u64 << 27);
    assert!(b.has(sq(3, 3)));
    assert!(!b.has(sq(4, 3)));
    assert!(!b.is_empty());
    assert!(BitBoard(0).is_empty());
    assert!(BitBoard::empty().is_empty());
}

#[test]
fn bitboard_next_square_lowest() {
    assert!(BitBoard(0).next_square().is_none());
    let b = BitBoard((1u64 << 5) | (1u64 << 40));
    assert_eq!(b.next_square().unwrap().to_index(), 5);
}

#[test]
fn bitboard_iter_ascending() {
    let b = BitBoard((1u64 << 3) | (1u64 << 17) | (1u64 << 62));
    let mut it = b.iter();
    let mut got = Vec::new();
    while let Some(s) = it.next() {
        got.push(s.to_index());
    }
    assert_eq!(got, vec![3, 17, 62]);
}
