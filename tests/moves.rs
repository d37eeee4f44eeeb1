use movegen::attacks::Kind;
use movegen::moves::{Castle, Move, MoveCounter, MoveKind, MoveList, MoveVec};

#[test]
fn add_moves_splits_pushes_and_captures() {
    let mut list = MoveVec::new();
    // from e4 (28) to d5 (35) and e5 (36); an enemy man stands on d5.
    list.add_moves(28, (1u64 << 35) | (1u64 << 36), 1u64 << 35);
    assert_eq!(list.len(), 2);
    assert_eq!(list.at(0), Move { from: 28, to: 36, kind: MoveKind::Push });
    assert_eq!(list.at(1), Move { from: 28, to: 35, kind: MoveKind::Capture });
}

#[test]
fn pawn_push_to_last_rank_gives_four_promotions() {
    let mut list = MoveVec::new();
    // white pawn a7 (48) to a8 (56), b2 (9) to b3 (17); shift 8.
    list.add_pawn_pushes(8, (1u64 << 56) | (1u64 << 17));
    let moves = list.to_vec();
    assert_eq!(moves.len(), 5);
    let kinds: Vec<MoveKind> = moves.iter().filter(|m| m.to == 56).map(|m| m.kind).collect();
    assert_eq!(
        kinds,
        vec![
            MoveKind::Promotion(Kind::Queen),
            MoveKind::Promotion(Kind::Knight),
            MoveKind::Promotion(Kind::Bishop),
            MoveKind::Promotion(Kind::Rook),
        ]
    );
    assert!(moves.iter().all(|m| m.to != 56 || m.from == 48));
    assert_eq!(moves[4], Move { from: 9, to: 17, kind: MoveKind::Push });
}

#[test]
fn pawn_capture_to_first_rank_promotes() {
    let mut list = MoveVec::new();
    // black pawn on b2 (9) captures on a1 (0): rotation by 55 (that is, -9).
    list.add_pawn_captures(55, 1u64 << 0);
    assert_eq!(list.len(), 4);
    for i in 0..4 {
        let m = list.at(i);
        assert_eq!(m.from, 9);
        assert_eq!(m.to, 0);
    }
    assert_eq!(list.at(0).kind, MoveKind::CapturePromotion(Kind::Queen));
    assert_eq!(list.at(3).kind, MoveKind::CapturePromotion(Kind::Rook));
}

#[test]
fn castle_and_ep_are_single_moves() {
    let mut list = MoveVec::new();
    list.add_castle(Castle::WhiteKingSide);
    list.add_pawn_ep_capture(36, 43);
    assert_eq!(list.at(0), Move { from: 4, to: 6, kind: MoveKind::Castle(Castle::WhiteKingSide) });
    assert_eq!(list.at(1), Move { from: 36, to: 43, kind: MoveKind::EpCapture });
    list.truncate(1);
    assert_eq!(list.len(), 1);
}

#[test]
fn counter_matches_vector() {
    let mut list = MoveVec::new();
    let mut counter = MoveCounter::new();
    let targets = 0xff00_0000_0000_ff00u64 | (1u64 << 60);
    list.add_pawn_pushes(8, targets);
    counter.add_pawn_pushes(8, targets);
    list.add_moves(1, 0x0000_0000_00a5_0000, 0x0000_0000_0005_0000);
    counter.add_moves(1, 0x0000_0000_00a5_0000, 0x0000_0000_0005_0000);
    list.add_castle(Castle::BlackQueenSide);
    counter.add_castle(Castle::BlackQueenSide);
    assert_eq!(list.len(), counter.len());
    assert_eq!(counter.len(), 32 + 8 + 4 + 1);
}
