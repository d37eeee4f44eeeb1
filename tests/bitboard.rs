use movegen::attacks::{bitscan, pawn_attacks, rot_left, Side};
use movegen::bitboard::{contains, offset_bb, pop_count, sq_bb};
use movegen::geometry::{attacks_from_sq, Geometry};

#[test]
fn pop_count_and_bitscan() {
    assert_eq!(pop_count(0), 0);
    assert_eq!(pop_count(u64::MAX), 64);
    assert_eq!(pop_count(0b1011_0000), 3);
    assert_eq!(bitscan(0b1011_0000), 4);
    assert_eq!(bitscan(1u64 << 63), 63);
}

#[test]
fn single_squares() {
    assert_eq!(sq_bb(0), 1);
    assert_eq!(sq_bb(63), 1u64 << 63);
    assert!(contains(1u64 << 42, 42));
    assert!(!contains(1u64 << 42, 41));
    assert_eq!(offset_bb(0, 0, -1, 0), 0);
    assert_eq!(offset_bb(3, 4, 1, 2), 1u64 << 38);
}

#[test]
fn rotation_wraps() {
    assert_eq!(rot_left(1u64 << 63, 1), 1);
    assert_eq!(rot_left(1, 9), 1u64 << 9);
    assert_eq!(rot_left(1u64 << 60, 9), 1u64 << 5);
}

#[test]
fn piece_patterns() {
    // Knight on a1 strikes b3 and c2.
    assert_eq!(attacks_from_sq(Geometry::Knight, 0, 0), (1u64 << 17) | (1u64 << 10));
    // King on h8 strikes g8, g7 and h7.
    assert_eq!(attacks_from_sq(Geometry::King, 63, 0), (1u64 << 62) | (1u64 << 54) | (1u64 << 55));
    // Rook on a1 on an empty board strikes 14 squares.
    assert_eq!(pop_count(attacks_from_sq(Geometry::NonDiag, 0, 0)), 14);
    // Bishop on d4 blocked on f6 reaches f6 but not g7.
    let b = attacks_from_sq(Geometry::Diag, 27, 1u64 << 45);
    assert!(contains(b, 45));
    assert!(!contains(b, 54));
    assert_eq!(pop_count(attacks_from_sq(Geometry::Diag, 27, 0)), 13);
}

#[test]
fn pawn_capture_squares() {
    // White pawn on e4 strikes d5 and f5; black pawn on e5 strikes d4 and f4.
    assert_eq!(pawn_attacks(Side::White, 1u64 << 28), (1u64 << 35) | (1u64 << 37));
    assert_eq!(pawn_attacks(Side::Black, 1u64 << 36), (1u64 << 27) | (1u64 << 29));
    assert_eq!(Side::White.flip(), Side::Black);
}
