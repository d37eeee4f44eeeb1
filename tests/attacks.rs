use movegen::attacks::{
    attacked_squares_ignoring_ep, checks_to_sq, king_danger_squares, slider_diag_rays_to_squares,
    slider_non_diag_rays_to_squares, Men, Position, Side,
};

const STARTING_POSITION_FEN: &str = "rnbqkbnr/pppppppp/8/8/8/8/PPPPPPPP/RNBQKBNR w";

fn empty_men() -> Men {
    Men { pawns: 0, knights: 0, bishops: 0, rooks: 0, queens: 0, kings: 0 }
}

/// Reads the placement field of a FEN string.
fn position_from_fen(fen: &str) -> Position {
    let mut white = empty_men();
    let mut black = empty_men();
    let placement = fen.split(' ').next().unwrap();
    for (i, row) in placement.split('/').enumerate() {
        let rank = 7 - i as u32;
        let mut file = 0u32;
        for c in row.chars() {
            if let Some(d) = c.to_digit(10) {
                file += d;
                continue;
            }
            let bit = 1u64 << (rank * 8 + file);
            let men = if c.is_ascii_uppercase() { &mut white } else { &mut black };
            match c.to_ascii_lowercase() {
                'p' => men.pawns |= bit,
                'n' => men.knights |= bit,
                'b' => men.bishops |= bit,
                'r' => men.rooks |= bit,
                'q' => men.queens |= bit,
                'k' => men.kings |= bit,
                _ => panic!("bad piece"),
            }
            file += 1;
        }
    }
    Position { white, black }
}

fn sq(name: &str) -> u8 {
    let b = name.as_bytes();
    (b[1] - b'1') * 8 + (b[0] - b'a')
}

fn bb(names: &[&str]) -> u64 {
    names.iter().fold(0, |acc, n| acc | (1u64 << sq(n)))
}

/// Draws a square set, rank 8 on top.
fn diagram(b: u64) -> String {
    let mut s = String::from("  ABCDEFGH\n");
    for rank in (0..8).rev() {
        s.push_str(&format!("{}|", rank + 1));
        for file in 0..8 {
            s.push(if b >> (rank * 8 + file) & 1 == 1 { '#' } else { '.' });
        }
        s.push_str(&format!("|{}\n", rank + 1));
    }
    s.push_str("  ABCDEFGH\n");
    s
}

#[test]
fn test_checks_to_sq() {
    let position = &position_from_fen("rnbqkbnr/pppppp1p/8/8/8/8/PPPPPPPP/RNB1KBNR w");
    let attacks = checks_to_sq(sq("c6"), Side::Black, position);

    let expected = "  ABCDEFGH
8|.#......|8
7|.#.#....|7
6|........|6
5|........|5
4|........|4
3|........|3
2|........|2
1|........|1
  ABCDEFGH
";
    assert_eq!(diagram(attacks), expected);
}

#[test]
fn test_slider_rays_to_square() {
    let position = &position_from_fen("rnbqk1nr/pppppppp/8/6b2/8/8/PPPPPPPP/RNBQKBNR w");
    let attacks = slider_diag_rays_to_squares(bb(&["d2"]), bb(&["g5"]), position);

    let expected = "  ABCDEFGH
8|........|8
7|........|7
6|........|6
5|........|5
4|.....#..|4
3|....#...|3
2|........|2
1|........|1
  ABCDEFGH
";
    assert_eq!(diagram(attacks), expected);
}

#[test]
fn checks_known_squares() {
    let position = &position_from_fen("rnbqkbnr/pppppp1p/8/8/8/8/PPPPPPPP/RNB1KBNR w");
    assert_eq!(checks_to_sq(sq("c6"), Side::Black, position), bb(&["b7", "d7", "b8"]));
}

#[test]
fn start_position_middle_not_attacked() {
    let position = &position_from_fen(STARTING_POSITION_FEN);
    let white = attacked_squares_ignoring_ep(Side::White, position);
    let black = attacked_squares_ignoring_ep(Side::Black, position);
    // Ranks 4 and 5 are struck by nobody.
    assert_eq!(white & 0x0000_00ff_ff00_0000, 0);
    assert_eq!(black & 0x0000_00ff_ff00_0000, 0);
    // White strikes all of rank 3, black all of rank 6.
    assert_eq!(white & 0x0000_0000_00ff_0000, 0x0000_0000_00ff_0000);
    assert_eq!(black & 0x0000_ff00_0000_0000, 0x0000_ff00_0000_0000);
    for s in 24..40u8 {
        assert_eq!(checks_to_sq(s, Side::White, position), 0);
        assert_eq!(checks_to_sq(s, Side::Black, position), 0);
    }
}

#[test]
fn attackers_non_empty_iff_attacked() {
    let position = &position_from_fen("r3k2r/p1ppqpb1/bn2pnp1/3PN3/1p2P3/2N2Q1p/PPPBBPPP/R3K2R w");
    for side in [Side::White, Side::Black] {
        let attacked = attacked_squares_ignoring_ep(side, position);
        for s in 0..64u8 {
            let checkers = checks_to_sq(s, side, position);
            assert_eq!(checkers != 0, attacked >> s & 1 == 1);
        }
    }
}

#[test]
fn king_danger_sees_through_king() {
    // White king e1, black rook a1: f1 stays in danger once the king steps off e1.
    let position = &position_from_fen("4k3/8/8/8/8/8/8/r3K3 w");
    let king = bb(&["e1"]);
    let danger = king_danger_squares(king, Side::Black, position);
    assert_ne!(danger & bb(&["f1"]), 0);
    let plain = attacked_squares_ignoring_ep(Side::Black, position);
    assert_eq!(plain & bb(&["f1"]), 0);
    assert_ne!(plain & bb(&["e1"]), 0);
}

#[test]
fn pawn_attacks_do_not_wrap() {
    // White pawns on a2 and h2 strike b3 and g3 only.
    let position = &position_from_fen("4k3/8/8/8/8/8/P6P/4K3 w");
    let white = attacked_squares_ignoring_ep(Side::White, position);
    assert_eq!(white & 0x0000_0000_00ff_0000, bb(&["b3", "g3"]));
    assert_eq!(white & bb(&["h1", "a3", "h3"]), 0);
    // Black pawns on a7 and h7 strike b6 and g6 only.
    let position = &position_from_fen("4k3/p6p/8/8/8/8/8/4K3 w");
    let black = attacked_squares_ignoring_ep(Side::Black, position);
    assert_eq!(black & 0x0000_ff00_0000_0000, bb(&["b6", "g6"]));
}

#[test]
fn knight_and_slider_checks() {
    // Black king e8 attacked by a knight on d6 and a rook on e1 through an empty file.
    let position = &position_from_fen("4k3/8/3N4/8/8/8/8/K3R3 w");
    assert_eq!(checks_to_sq(sq("e8"), Side::White, position), bb(&["d6", "e1"]));
    // A man on e4 blocks the rook.
    let position = &position_from_fen("4k3/8/3N4/8/4p3/8/8/K3R3 w");
    assert_eq!(checks_to_sq(sq("e8"), Side::White, position), bb(&["d6"]));
}

#[test]
fn rook_pin_ray() {
    // Black rook e8, white king e1: the ray between them is e2..e7.
    let position = &position_from_fen("k3r3/8/8/8/8/8/8/4K3 w");
    let ray = slider_non_diag_rays_to_squares(bb(&["e1"]), bb(&["e8"]), position);
    assert_eq!(ray, bb(&["e2", "e3", "e4", "e5", "e6", "e7"]));
}

#[test]
fn king_is_among_attackers() {
    // White king e1, black king e8: e2 is struck by the white king only.
    let position = &position_from_fen("4k3/8/8/8/8/8/8/4K3 w");
    assert_eq!(checks_to_sq(sq("e2"), Side::White, position), bb(&["e1"]));
    let white = attacked_squares_ignoring_ep(Side::White, position);
    assert_ne!(white & bb(&["e2"]), 0);
}
