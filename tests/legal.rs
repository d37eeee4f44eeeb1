use movegen::attacks::{Men, Position, Side};
use movegen::legal::{legal_moves, Board, Castling};
use movegen::moves::{MoveCounter, MoveKind, MoveVec};

const STARTING_POSITION_FEN: &str = "rnbqkbnr/pppppppp/8/8/8/8/PPPPPPPP/RNBQKBNR w KQkq - 0 1";

fn empty_men() -> Men {
    Men { pawns: 0, knights: 0, bishops: 0, rooks: 0, queens: 0, kings: 0 }
}

/// Reads a FEN string: placement, side to move, castling rights and en passant square.
fn board_from_fen(fen: &str) -> Board {
    let fields: Vec<&str> = fen.split(' ').collect();
    let mut white = empty_men();
    let mut black = empty_men();
    for (i, row) in fields[0].split('/').enumerate() {
        let rank = 7 - i as u32;
        let mut file = 0u32;
        for c in row.chars() {
            if let Some(d) = c.to_digit(10) {
                file += d;
                continue;
            }
            let bit = 1u64 << (rank * 8 + file);
            let men = if c.is_ascii_uppercase() { &mut white } else { &mut black };
            match c.to_ascii_lowercase() {
                'p' => men.pawns |= bit,
                'n' => men.knights |= bit,
                'b' => men.bishops |= bit,
                'r' => men.rooks |= bit,
                'q' => men.queens |= bit,
                'k' => men.kings |= bit,
                _ => panic!("bad piece"),
            }
            file += 1;
        }
    }
    let to_move = if fields.get(1) == Some(&"b") { Side::Black } else { Side::White };
    let rights = fields.get(2).copied().unwrap_or("-");
    let castling = Castling {
        white_king_side: rights.contains('K'),
        white_queen_side: rights.contains('Q'),
        black_king_side: rights.contains('k'),
        black_queen_side: rights.contains('q'),
    };
    let ep_square = match fields.get(3) {
        Some(s) if *s != "-" => {
            let b = s.as_bytes();
            Some((b[1] - b'1') * 8 + (b[0] - b'a'))
        }
        _ => None,
    };
    Board { position: Position { white, black }, to_move, ep_square, castling }
}

fn count(fen: &str) -> usize {
    let board = &board_from_fen(fen);
    let mut list = MoveVec::new();
    legal_moves(board, &mut list);
    list.len()
}

#[test]
fn test_move_vec() {
    let board = &board_from_fen(STARTING_POSITION_FEN);
    let mut list = MoveVec::new();

    legal_moves(&board, &mut list);

    assert_eq!(list.len(), 20);
}

#[test]
fn counter_counts_start_position() {
    let board = &board_from_fen(STARTING_POSITION_FEN);
    let mut counter = MoveCounter::new();
    legal_moves(board, &mut counter);
    assert_eq!(counter.len(), 20);
}

#[test]
fn black_start_position() {
    assert_eq!(count("rnbqkbnr/pppppppp/8/8/4P3/8/PPPP1PPP/RNBQKBNR b KQkq e3 0 1"), 20);
}

#[test]
fn castling_and_pins_position() {
    assert_eq!(count("r3k2r/p1ppqpb1/bn2pnp1/3PN3/1p2P3/2N2Q1p/PPPBBPPP/R3K2R w KQkq - 0 1"), 48);
}

#[test]
fn rook_and_pawn_endgame() {
    assert_eq!(count("8/2p5/3p4/KP5r/1R3p1k/8/4P1P1/8 w - - 0 1"), 14);
}

#[test]
fn check_with_promotions() {
    assert_eq!(count("r3k2r/Pppp1ppp/1b3nbN/nP6/BBP1P3/q4N2/Pp1P2PP/R2Q1RK1 w kq - 0 1"), 6);
}

#[test]
fn promotion_captures_position() {
    assert_eq!(count("rnbq1k1r/pp1Pbppp/2p5/8/2B5/8/PPP1NnPP/RNBQK2R w KQ - 1 8"), 44);
}

#[test]
fn en_passant_capture_offered() {
    let board = &board_from_fen("4k3/8/8/3pP3/8/8/8/4K3 w - d6 0 1");
    let mut list = MoveVec::new();
    legal_moves(board, &mut list);
    let eps: Vec<_> = list.iter().filter(|m| m.kind == MoveKind::EpCapture).collect();
    assert_eq!(eps.len(), 1);
    assert_eq!(eps[0].from, 36);
    assert_eq!(eps[0].to, 43);
}

#[test]
fn en_passant_refused_when_it_exposes_king() {
    // Taking en passant would clear the fifth rank between the rook and the king.
    let board = &board_from_fen("8/8/8/K2pP2r/8/8/8/4k3 w - d6 0 1");
    let mut list = MoveVec::new();
    legal_moves(board, &mut list);
    assert!(list.iter().all(|m| m.kind != MoveKind::EpCapture));
}

#[test]
fn double_check_allows_king_moves_only() {
    // Knight on d3 and rook on e8 both check the king on e1.
    let board = &board_from_fen("4r2k/8/8/8/8/3n4/8/R3K3 w Q - 0 1");
    let mut list = MoveVec::new();
    legal_moves(board, &mut list);
    assert!(list.len() > 0);
    assert!(list.iter().all(|m| m.from == 4));
    assert!(list.iter().all(|m| !matches!(m.kind, MoveKind::Castle(_))));
}
