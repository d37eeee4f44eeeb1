use vstd::prelude::*;
use crate::attacks::{
    Men, Position, Side, single, pawns_inside, checker, checks_to_sq, bitscan, attacked,
    attacked_squares_ignoring_ep, capture_mask, rot_left, Kind, pawn_sees, shift_of, wrap_file,
    lemma_masked_file, lemma_pawn_shift,
};
use crate::bitboard::{in_set, bit, lemma_bit, lemma_set_ops, sq_bb, contains, END_ROWS, rank, file};
use crate::geometry::{Geometry, reach, sees, attacks_from_sq, knight_sees, king_sees, bishop_sees, rook_sees};
use crate::moves::{
    origin, Castle, Gen, Move, MoveKind, MoveList, all_moves, expand, gen_moves, lemma_expand_len,
    promo_kind,
};

verus! {

/// `b` with the square `from` carried to `to`, if `b` holds `from`.
pub open spec fn carried(b: u64, from: int, to: int) -> u64 {
    if in_set(b, from) {
        (b & !bit(from)) | bit(to)
    } else {
        b
    }
}

pub open spec fn carried_men(m: Men, from: int, to: int) -> Men {
    Men {
        pawns: carried(m.pawns, from, to),
        knights: carried(m.knights, from, to),
        bishops: carried(m.bishops, from, to),
        rooks: carried(m.rooks, from, to),
        queens: carried(m.queens, from, to),
        kings: carried(m.kings, from, to),
    }
}

pub open spec fn taken_men(m: Men, x: int) -> Men {
    Men {
        pawns: m.pawns & !bit(x),
        knights: m.knights & !bit(x),
        bishops: m.bishops & !bit(x),
        rooks: m.rooks & !bit(x),
        queens: m.queens & !bit(x),
        kings: m.kings & !bit(x),
    }
}

/// The position after the man of `side` on `from` moves to `to` and the man of the other
/// side on `victim` leaves the board.
pub open spec fn after(pos: Position, side: Side, from: int, to: int, victim: int) -> Position {
    if side == Side::White {
        Position {
            white: carried_men(pos.white, from, to),
            black: taken_men(pos.black, victim),
        }
    } else {
        Position {
            white: taken_men(pos.white, victim),
            black: carried_men(pos.black, from, to),
        }
    }
}

/// The king of `side` is struck by a man of the other side.
pub open spec fn in_check(pos: Position, side: Side) -> bool {
    exists|k: int|
        in_set(pos.men_of(side).kings, k) && exists|s: int|
            #[trigger] checker(pos, side.flipped(), pos.occupied(), k, s)
}

fn carry(b: u64, from: u8, to: u8) -> (r: u64)
    requires
        from < 64,
        to < 64,
    ensures
        r == carried(b, from as int, to as int),
{
    if contains(b, from) {
        (b & !sq_bb(from)) | sq_bb(to)
    } else {
        b
    }
}

fn carry_men(m: Men, from: u8, to: u8) -> (r: Men)
    requires
        from < 64,
        to < 64,
    ensures
        r == carried_men(m, from as int, to as int),
{
    Men {
        pawns: carry(m.pawns, from, to),
        knights: carry(m.knights, from, to),
        bishops: carry(m.bishops, from, to),
        rooks: carry(m.rooks, from, to),
        queens: carry(m.queens, from, to),
        kings: carry(m.kings, from, to),
    }
}

fn take_men(m: Men, x: u8) -> (r: Men)
    requires
        x < 64,
    ensures
        r == taken_men(m, x as int),
{
    let b = !sq_bb(x);
    Men {
        pawns: m.pawns & b,
        knights: m.knights & b,
        bishops: m.bishops & b,
        rooks: m.rooks & b,
        queens: m.queens & b,
        kings: m.kings & b,
    }
}

/// Plays the man of `side` on `from` to `to`, taking the man on `victim`.
pub fn play(pos: &Position, side: Side, from: u8, to: u8, victim: u8) -> (r: Position)
    requires
        from < 64,
        to < 64,
        victim < 64,
    ensures
        r == after(*pos, side, from as int, to as int, victim as int),
{
    match side {
        Side::White => Position {
            white: carry_men(pos.white, from, to),
            black: take_men(pos.black, victim),
        },
        Side::Black => Position {
            white: take_men(pos.white, victim),
            black: carry_men(pos.black, from, to),
        },
    }
}

/// Whether the king of `side` is struck.
pub fn king_attacked(pos: &Position, side: Side) -> (r: bool)
    requires
        single(pos.men_of(side).kings),
        pawns_inside(pos.men_of(side.flipped()).pawns),
    ensures
        r == in_check(*pos, side),
{
    let them = side.flip();
    let kings = pos.men(side).kings;
    let k = bitscan(kings);
    let checkers = checks_to_sq(k, them, pos);
    let r = any(checkers);
    proof {
        if exists|s: int| in_set(checkers, s) {
            let s = choose|s: int| in_set(checkers, s);
            assert(checker(*pos, them, pos.occupied(), k as int, s));
        }
        if in_check(*pos, side) {
            let kk = choose|kk: int|
                in_set(kings, kk) && exists|s: int|
                    #[trigger] checker(*pos, them, pos.occupied(), kk, s);
            assert(kk == k);
            let s = choose|s: int| #[trigger] checker(*pos, them, pos.occupied(), kk, s);
            assert(in_set(checkers, s));
        }
    }
    r
}

/// Whether `b` holds some square.
pub fn any(b: u64) -> (r: bool)
    ensures
        r == exists|s: int| in_set(b, s),
{
    let mut i: u8 = 0;
    while i < 64
        invariant
            i <= 64,
            forall|t: int| 0 <= t < i ==> !in_set(b, t),
        decreases 64 - i,
    {
        if contains(b, i) {
            return true;
        }
        i = i + 1;
    }
    false
}

proof fn lemma_after_keeps(pos: Position, side: Side, from: int, to: int, victim: int)
    requires
        pos.wf(),
        0 <= from < 64,
        0 <= to < 64,
        0 <= victim < 64,
    ensures
        single(after(pos, side, from, to, victim).men_of(side).kings),
        pawns_inside(after(pos, side, from, to, victim).men_of(side.flipped()).pawns),
{
    let a = after(pos, side, from, to, victim);
    let k = pos.men_of(side).kings;
    let p = pos.men_of(side.flipped()).pawns;
    lemma_bit(from);
    lemma_bit(to);
    lemma_bit(victim);
    lemma_set_ops(bit(from), bit(to));
    lemma_set_ops(bit(victim), 0);
    lemma_set_ops(k, !bit(from));
    lemma_set_ops(k & !bit(from), bit(to));
    lemma_set_ops(p, !bit(victim));
    assert(a.men_of(side).kings == carried(k, from, to));
    assert(a.men_of(side.flipped()).pawns == p & !bit(victim));
    if in_set(k, from) {
        assert(in_set(carried(k, from, to), to));
        assert forall|t: int| in_set(carried(k, from, to), t) implies t == to by {
            if t != to {
                assert(in_set(k, t) && t != from);
            }
        }
    }
}

/// Whether the king of `side` stands unattacked once the man on `from` has moved to `to`
/// taking the man on `victim`.
pub fn safe_after(pos: &Position, side: Side, from: u8, to: u8, victim: u8) -> (r: bool)
    requires
        pos.wf(),
        from < 64,
        to < 64,
        victim < 64,
    ensures
        r == !in_check(after(*pos, side, from as int, to as int, victim as int), side),
{
    let p = play(pos, side, from, to, victim);
    proof {
        lemma_after_keeps(*pos, side, from as int, to as int, victim as int);
    }
    !king_attacked(&p, side)
}

/// The squares of `cands` that the man on `from` can move to with its king left unattacked.
fn safe_targets(pos: &Position, side: Side, from: u8, cands: u64) -> (r: u64)
    requires
        pos.wf(),
        from < 64,
    ensures
        forall|t: int| #[trigger]
            in_set(r, t) <==> in_set(cands, t) && !in_check(after(*pos, side, from as int, t, t), side),
{
    let mut acc: u64 = 0;
    let mut i: u8 = 0;
    proof {
        lemma_set_ops(0, 0);
    }
    while i < 64
        invariant
            i <= 64,
            pos.wf(),
            from < 64,
            forall|t: int| #[trigger]
                in_set(acc, t) <==> 0 <= t < i && in_set(cands, t) && !in_check(after(*pos, side, from as int, t, t), side),
        decreases 64 - i,
    {
        if contains(cands, i) && safe_after(pos, side, from, i, i) {
            let b = sq_bb(i);
            proof {
                lemma_set_ops(acc, b);
            }
            acc = acc | b;
        }
        i = i + 1;
    }
    acc
}

/// The squares of `cands` that a pawn reaches from its target rotated back by `shift`
/// with its king left unattacked.
fn safe_pawn_targets(pos: &Position, side: Side, shift: usize, cands: u64) -> (r: u64)
    requires
        pos.wf(),
    ensures
        forall|t: int| #[trigger]
            in_set(r, t) <==> in_set(cands, t) && !in_check(
                after(*pos, side, origin(t as u8, shift) as int, t, t),
                side,
            ),
{
    let mut acc: u64 = 0;
    let mut i: u8 = 0;
    proof {
        lemma_set_ops(0, 0);
    }
    while i < 64
        invariant
            i <= 64,
            pos.wf(),
            forall|t: int| #[trigger]
                in_set(acc, t) <==> 0 <= t < i && in_set(cands, t) && !in_check(
                    after(*pos, side, origin(t as u8, shift) as int, t, t),
                    side,
                ),
        decreases 64 - i,
    {
        let from = ((i as usize + 64 - shift % 64) % 64) as u8;
        if contains(cands, i) && safe_after(pos, side, from, i, i) {
            let b = sq_bb(i);
            proof {
                lemma_set_ops(acc, b);
            }
            acc = acc | b;
        }
        i = i + 1;
    }
    acc
}

/// Which castlings each side may still make.
#[derive(Clone, Copy, PartialEq, Eq, Structural, Debug)]
pub struct Castling {
    pub white_king_side: bool,
    pub white_queen_side: bool,
    pub black_king_side: bool,
    pub black_queen_side: bool,
}

/// A position with the side to move, the en passant target square and the castling rights.
#[derive(Clone, Copy, PartialEq, Eq, Structural, Debug)]
pub struct Board {
    pub position: Position,
    pub to_move: Side,
    pub ep_square: Option<u8>,
    pub castling: Castling,
}

impl Board {
    pub open spec fn wf(self) -> bool {
        &&& self.position.wf()
        &&& (self.ep_square matches Some(e) ==> e < 64)
        &&& separate_men(self.position.men_of(self.to_move))
    }
}

/// The other men of `m`: knights, bishops, rooks and queens.
pub open spec fn pieces_of(m: Men) -> u64 {
    m.knights | m.bishops | m.rooks | m.queens
}

/// No square holds two of a pawn, the king and another man.
pub open spec fn separate_men(m: Men) -> bool {
    &&& forall|s: int| #[trigger] in_set(m.pawns, s) ==> !in_set(m.kings, s) && !in_set(pieces_of(m), s)
    &&& forall|s: int| #[trigger] in_set(m.kings, s) ==> !in_set(pieces_of(m), s)
}

/// The stage of generation at which `m` is emitted: king moves, then each piece by its
/// square, pawn pushes of one and of two ranks, pawn captures by direction, en passant,
/// castling.
pub open spec fn stage(board: Board, m: Move) -> int {
    let ours = board.position.men_of(board.to_move);
    let us = board.to_move;
    let s = m.from as int;
    let t = m.to as int;
    if m.kind is Castle {
        castle_stage(m.kind->Castle_0)
    } else if m.kind is EpCapture {
        150
    } else if in_set(ours.pawns, s) {
        pawn_stage(us, s, t, m.kind is Capture || m.kind is CapturePromotion)
    } else if in_set(ours.kings, s) {
        0
    } else {
        1 + s
    }
}

pub open spec fn castle_stage(c: Castle) -> int {
    if c == Castle::WhiteKingSide || c == Castle::BlackKingSide {
        200
    } else {
        201
    }
}

pub open spec fn pawn_stage(us: Side, s: int, t: int, capture: bool) -> int {
    if capture {
        130 + capture_dir(us, s, t)
    } else if rank(t) == rank(s) + forward(us) {
        120
    } else {
        121
    }
}

/// The moves of `s` from index `lo` on are distinct, with stages in `k0..k1`.
pub open spec fn staged_in(board: Board, s: Seq<Move>, lo: int, k0: int, k1: int) -> bool {
    &&& s.subrange(lo, s.len() as int).no_duplicates()
    &&& forall|i: int| lo <= i < s.len() ==> k0 <= #[trigger] stage(board, s[i]) < k1
}

proof fn lemma_staged_empty(board: Board, s: Seq<Move>, k0: int, k1: int)
    ensures
        staged_in(board, s, s.len() as int, k0, k1),
{
    assert(s.subrange(s.len() as int, s.len() as int).len() == 0);
}

proof fn lemma_staged_widen(board: Board, s: Seq<Move>, lo: int, k0: int, k1: int, k2: int)
    requires
        staged_in(board, s, lo, k0, k1),
        k1 <= k2,
    ensures
        staged_in(board, s, lo, k0, k2),
{
    assert forall|i: int| lo <= i < s.len() implies k0 <= #[trigger] stage(board, s[i]) < k2 by {
        assert(k0 <= stage(board, s[i]) < k1);
    }
}

proof fn lemma_staged_join(board: Board, s1: Seq<Move>, s2: Seq<Move>, lo: int, k0: int, k1: int, k2: int)
    requires
        0 <= lo <= s1.len() <= s2.len(),
        s2.subrange(0, s1.len() as int) == s1,
        staged_in(board, s1, lo, k0, k1),
        staged_in(board, s2, s1.len() as int, k1, k2),
        k0 <= k1 <= k2,
    ensures
        staged_in(board, s2, lo, k0, k2),
{
    let a = s1.subrange(lo, s1.len() as int);
    let b = s2.subrange(s1.len() as int, s2.len() as int);
    let c = s2.subrange(lo, s2.len() as int);
    assert forall|i: int| lo <= i < s1.len() implies s2[i] == s1[i] by {
        assert(s2.subrange(0, s1.len() as int)[i] == s2[i]);
    }
    assert forall|i: int, j: int| 0 <= i < c.len() && 0 <= j < c.len() && i != j implies c[i] != c[j] by {
        let x = lo + i;
        let y = lo + j;
        if x < s1.len() && y < s1.len() {
            assert(a[i] == c[i] && a[j] == c[j]);
        } else if x >= s1.len() && y >= s1.len() {
            assert(b[x - s1.len()] == c[i] && b[y - s1.len()] == c[j]);
        } else if x < s1.len() {
            assert(stage(board, s2[x]) < k1 <= stage(board, s2[y]));
        } else {
            assert(stage(board, s2[y]) < k1 <= stage(board, s2[x]));
        }
    }
    assert forall|i: int| lo <= i < s2.len() implies k0 <= #[trigger] stage(board, s2[i]) < k2 by {
        if i < s1.len() {
            assert(s2.subrange(0, s1.len() as int)[i] == s2[i]);
            assert(k0 <= stage(board, s1[i]) < k1);
        }
    }
}

proof fn lemma_expand_nodup(b: u64, n: nat, g: Gen)
    requires
        n <= 64,
    ensures
        expand(b, n, g).no_duplicates(),
        forall|i: int| 0 <= i < expand(b, n, g).len() ==> (#[trigger] expand(b, n, g)[i]).to < n,
    decreases n,
{
    if n > 0 {
        let k = (n - 1) as nat;
        lemma_expand_nodup(b, k, g);
        if in_set(b, k as int) {
            let p = expand(b, k, g);
            let x = gen_moves(g, k as u8);
            let e = expand(b, n, g);
            assert(e == p + x);
            assert forall|i: int| 0 <= i < e.len() implies (#[trigger] e[i]).to < n by {
                if i >= p.len() {
                    assert(e[i] == x[i - p.len()]);
                }
            }
            assert forall|i: int, j: int| 0 <= i < e.len() && 0 <= j < e.len() && i != j implies e[i] != e[j] by {
                if i >= p.len() && j >= p.len() {
                    assert(e[i] == x[i - p.len()] && e[j] == x[j - p.len()]);
                } else if i >= p.len() {
                    assert(e[i] == x[i - p.len()] && e[j] == p[j]);
                } else if j >= p.len() {
                    assert(e[j] == x[j - p.len()] && e[i] == p[i]);
                } else {
                    assert(e[i] == p[i] && e[j] == p[j]);
                }
            }
        }
    }
}

/// The stage of the king's or a piece's moves from `from`.
pub open spec fn piece_stage(board: Board, from: int) -> int {
    if in_set(board.position.men_of(board.to_move).kings, from) {
        0
    } else {
        1 + from
    }
}

/// The square of the pawn taken en passant on `to`.
pub open spec fn ep_victim(side: Side, to: u8) -> u8 {
    if side == Side::White {
        origin(to, 8)
    } else {
        origin(to, 56)
    }
}

/// The castling is allowed: the right is kept, the squares between king and rook are
/// empty, and no square the king stands on or crosses is struck by the other side.
pub open spec fn castle_ok(board: Board, c: Castle) -> bool {
    let pos = board.position;
    let occ = pos.occupied();
    let us = board.to_move;
    let them = us.flipped();
    let base: int = if us == Side::White { 0 } else { 56 };
    let right = match c {
        Castle::WhiteKingSide => us == Side::White && board.castling.white_king_side,
        Castle::WhiteQueenSide => us == Side::White && board.castling.white_queen_side,
        Castle::BlackKingSide => us == Side::Black && board.castling.black_king_side,
        Castle::BlackQueenSide => us == Side::Black && board.castling.black_queen_side,
    };
    let king_side = c == Castle::WhiteKingSide || c == Castle::BlackKingSide;
    &&& right
    &&& !attacked(pos, them, occ, base + 4)
    &&& king_side ==> {
        &&& !in_set(occ, base + 5)
        &&& !in_set(occ, base + 6)
        &&& !attacked(pos, them, occ, base + 5)
        &&& !attacked(pos, them, occ, base + 6)
    }
    &&& !king_side ==> {
        &&& !in_set(occ, base + 1)
        &&& !in_set(occ, base + 2)
        &&& !in_set(occ, base + 3)
        &&& !attacked(pos, them, occ, base + 3)
        &&& !attacked(pos, them, occ, base + 2)
    }
}

/// A piece a pawn may promote to.
pub open spec fn promo_piece(k: Kind) -> bool {
    k == Kind::Queen || k == Kind::Knight || k == Kind::Bishop || k == Kind::Rook
}

/// `m` is a legal move of the side to move on `board`: a king or piece move, a pawn push
/// or capture (promoting on an end rank), an en passant capture, each leaving the mover's
/// king unattacked; or a castling whose rules hold.
pub open spec fn legal_move(board: Board, m: Move) -> bool {
    let pos = board.position;
    let us = board.to_move;
    let s = m.from as int;
    let t = m.to as int;
    match m.kind {
        MoveKind::Castle(c) => castle_ok(board, c) && m == castle_move(c),
        MoveKind::EpCapture => ep_target(board, s) && m.to == ep_sq(board) && !in_check(
            after(pos, us, s, t, ep_victim(us, m.to) as int),
            us,
        ),
        MoveKind::Promotion(k) => pawn_push_target(pos, us, s, t) && in_set(END_ROWS, t)
            && promo_piece(k) && !in_check(after(pos, us, s, t, t), us),
        MoveKind::CapturePromotion(k) => pawn_capture_target(pos, us, s, t) && in_set(END_ROWS, t)
            && promo_piece(k) && !in_check(after(pos, us, s, t, t), us),
        _ => {
            &&& m == plain_move(pos, us, s, t)
            &&& (piece_target(pos, us, s, t) || king_target(pos, us, s, t) || ((pawn_push_target(
                pos,
                us,
                s,
                t,
            ) || pawn_capture_target(pos, us, s, t)) && !in_set(END_ROWS, t)))
            &&& !in_check(after(pos, us, s, t, t), us)
        },
    }
}

/// The moves of `s` from index `lo` on are legal on `board`.
pub open spec fn legal_from(board: Board, s: Seq<Move>, lo: int) -> bool {
    forall|i: int| lo <= i < s.len() ==> legal_move(board, #[trigger] s[i])
}

/// The square a move made by `g` to `t` leaves.
pub open spec fn gen_from(g: Gen, t: u8) -> u8 {
    match g {
        Gen::From(f, _) => f,
        Gen::Shift(shift, _) => origin(t, shift),
        Gen::Promo(shift, _) => origin(t, shift),
    }
}

pub open spec fn plain_gen(g: Gen) -> bool {
    match g {
        Gen::From(_, k) => k == MoveKind::Push || k == MoveKind::Capture,
        Gen::Shift(_, k) => k == MoveKind::Push || k == MoveKind::Capture,
        Gen::Promo(_, _) => true,
    }
}

proof fn lemma_expand_elems(b: u64, n: nat, g: Gen)
    requires
        n <= 64,
        plain_gen(g),
    ensures
        forall|i: int|
            0 <= i < expand(b, n, g).len() ==> {
                let m = #[trigger] expand(b, n, g)[i];
                &&& in_set(b, m.to as int)
                &&& m.from == gen_from(g, m.to)
                &&& !(m.kind is Castle)
                &&& !(m.kind is EpCapture)
                &&& exists|j: int| 0 <= j < gen_moves(g, m.to).len() && m == #[trigger] gen_moves(g, m.to)[j]
            },
    decreases n,
{
    if n > 0 {
        let k = (n - 1) as nat;
        lemma_expand_elems(b, k, g);
        if in_set(b, k as int) {
            let x = gen_moves(g, k as u8);
            assert forall|i: int| 0 <= i < expand(b, n, g).len() implies ({
                let m = #[trigger] expand(b, n, g)[i];
                exists|j: int| 0 <= j < gen_moves(g, m.to).len() && m == #[trigger] gen_moves(g, m.to)[j]
            }) by {
                let m = expand(b, n, g)[i];
                if i >= expand(b, k, g).len() {
                    let j = i - expand(b, k, g).len();
                    assert(m == x[j]);
                    assert(m.to == k as u8);
                } else {
                    assert(m == expand(b, k, g)[i]);
                }
            }
        }
    }
}

proof fn lemma_extend_safe(board: Board, s: Seq<Move>, x: Seq<Move>, lo: int)
    requires
        0 <= lo <= s.len(),
        legal_from(board, s, lo),
        forall|i: int| 0 <= i < x.len() ==> legal_move(board, #[trigger] x[i]),
    ensures
        legal_from(board, s + x, lo),
        (s + x).subrange(0, lo) == s.subrange(0, lo),
{
    assert forall|i: int| lo <= i < (s + x).len() implies legal_move(board, #[trigger] (s + x)[i]) by {
        if i >= s.len() {
            assert((s + x)[i] == x[i - s.len()]);
        }
    }
    assert((s + x).subrange(0, lo) =~= s.subrange(0, lo));
}

/// The plain move of the man of `side` from `s` to `t`: a capture where a man of the other
/// side stands, a push elsewhere.
pub open spec fn plain_move(pos: Position, side: Side, s: int, t: int) -> Move {
    Move {
        from: s as u8,
        to: t as u8,
        kind: if in_set(pos.men_of(side.flipped()).all(), t) {
            MoveKind::Capture
        } else {
            MoveKind::Push
        },
    }
}

/// `m` stands in `s` at index `lo` or later.
pub open spec fn emitted_after(s: Seq<Move>, lo: int, m: Move) -> bool {
    exists|i: int| lo <= i < s.len() && #[trigger] s[i] == m
}

/// The knight, bishop, rook or queen of `side` on `s` strikes `t`, which holds neither a man
/// of `side` nor the other king.
pub open spec fn piece_target(pos: Position, side: Side, s: int, t: int) -> bool {
    let ours = pos.men_of(side);
    let occ = pos.occupied();
    &&& ((in_set(ours.knights, s) && knight_sees(s, t)) || (in_set(pos.diag(side), s)
        && bishop_sees(occ, s, t)) || (in_set(pos.non_diag(side), s) && rook_sees(occ, s, t)))
    &&& !in_set(ours.all(), t)
    &&& !in_set(pos.men_of(side.flipped()).kings, t)
}

/// The king of `side` on `s` steps to `t`, which holds neither a man of `side` nor the
/// other king.
pub open spec fn king_target(pos: Position, side: Side, s: int, t: int) -> bool {
    let ours = pos.men_of(side);
    &&& in_set(ours.kings, s)
    &&& king_sees(s, t)
    &&& !in_set(ours.all(), t)
    &&& !in_set(pos.men_of(side.flipped()).kings, t)
}

proof fn lemma_expand_covers(b: u64, n: nat, g: Gen, t: u8)
    requires
        n <= 64,
        t < n,
        in_set(b, t as int),
    ensures
        exists|i: int|
            0 <= i < expand(b, n, g).len() && #[trigger] expand(b, n, g)[i] == gen_moves(g, t)[0],
    decreases n,
{
    let m = (n - 1) as nat;
    if t as int == m {
        let i = expand(b, m, g).len() as int;
        assert(gen_moves(g, t).len() >= 1);
        assert(expand(b, n, g)[i] == gen_moves(g, t)[0]);
        assert(0 <= i < expand(b, n, g).len());
    } else {
        lemma_expand_covers(b, m, g, t);
        let i = choose|i: int|
            0 <= i < expand(b, m, g).len() && #[trigger] expand(b, m, g)[i] == gen_moves(g, t)[0];
        if in_set(b, m as int) {
            assert(expand(b, n, g)[i] == expand(b, m, g)[i]);
        }
        assert(expand(b, n, g)[i] == gen_moves(g, t)[0]);
    }
}

proof fn lemma_expand_covers_all(b: u64, n: nat, g: Gen, t: u8, j: int)
    requires
        n <= 64,
        t < n,
        in_set(b, t as int),
        0 <= j < gen_moves(g, t).len(),
    ensures
        exists|i: int|
            0 <= i < expand(b, n, g).len() && #[trigger] expand(b, n, g)[i] == gen_moves(g, t)[j],
    decreases n,
{
    let m = (n - 1) as nat;
    if t as int == m {
        let i = expand(b, m, g).len() + j;
        assert(expand(b, n, g)[i] == gen_moves(g, t)[j]);
    } else {
        lemma_expand_covers_all(b, m, g, t, j);
        let i = choose|i: int|
            0 <= i < expand(b, m, g).len() && #[trigger] expand(b, m, g)[i] == gen_moves(g, t)[j];
        if in_set(b, m as int) {
            assert(expand(b, n, g)[i] == expand(b, m, g)[i]);
        }
        assert(expand(b, n, g)[i] == gen_moves(g, t)[j]);
    }
}

/// How the moves of a pawn to `t` are made: promotions on an end rank, else one move.
pub open spec fn pawn_gen(shift: usize, t: int, capture: bool) -> Gen {
    if in_set(END_ROWS, t) {
        Gen::Promo(shift, capture)
    } else {
        Gen::Shift(shift, if capture { MoveKind::Capture } else { MoveKind::Push })
    }
}

proof fn lemma_emitted_carry(s1: Seq<Move>, s2: Seq<Move>, lo: int, m: Move)
    requires
        0 <= lo,
        s1.len() <= s2.len(),
        s2.subrange(0, s1.len() as int) == s1,
        emitted_after(s1, lo, m),
    ensures
        emitted_after(s2, lo, m),
{
    let i = choose|i: int| lo <= i < s1.len() && #[trigger] s1[i] == m;
    assert(s2.subrange(0, s1.len() as int)[i] == s2[i]);
}

/// Emits the moves of the man on `from` to the safe squares of `cands`.
fn emit_piece<L: MoveList>(board: &Board, list: &mut L, from: u8, cands: u64)
    requires
        board.wf(),
        from < 64,
        in_set(board.position.men_of(board.to_move).kings, from as int) || in_set(
            pieces_of(board.position.men_of(board.to_move)),
            from as int,
        ),
        forall|t: int|
            #[trigger] in_set(cands, t) ==> piece_target(board.position, board.to_move, from as int, t)
                || king_target(board.position, board.to_move, from as int, t),
        old(list).inv(),
        old(list).emitted().len() + 512 <= usize::MAX,
    ensures
        final(list).inv(),
        extends(*board, old(list).emitted(), final(list).emitted()),
        final(list).emitted().len() <= old(list).emitted().len() + 512,
        staged_in(
            *board,
            final(list).emitted(),
            old(list).emitted().len() as int,
            piece_stage(*board, from as int),
            piece_stage(*board, from as int) + 1,
        ),
        forall|t: int|
            #![trigger in_set(cands, t)]
            in_set(cands, t) && !in_check(
                after(board.position, board.to_move, from as int, t, t),
                board.to_move,
            ) ==> emitted_after(
                final(list).emitted(),
                old(list).emitted().len() as int,
                plain_move(board.position, board.to_move, from as int, t),
            ),
{
    let pos = &board.position;
    let us = board.to_move;
    let them = us.flip();
    let safe = safe_targets(pos, us, from, cands);
    let enemy = pos.men(them);
    let enemy_all = enemy.pawns | enemy.knights | enemy.bishops | enemy.rooks | enemy.queens | enemy.kings;
    list.add_moves(from, safe, enemy_all);
    proof {
        let o = old(list).emitted();
        let g0 = Gen::From(from, MoveKind::Push);
        let g1 = Gen::From(from, MoveKind::Capture);
        let x0 = all_moves(safe & !enemy_all, g0);
        let x1 = all_moves(safe & enemy_all, g1);
        lemma_set_ops(safe, enemy_all);
        lemma_set_ops(safe, !enemy_all);
        lemma_set_ops(enemy_all, 0);
        lemma_expand_elems(safe & !enemy_all, 64, g0);
        lemma_expand_elems(safe & enemy_all, 64, g1);
        lemma_expand_len(safe & !enemy_all, 64, g0);
        lemma_expand_len(safe & enemy_all, 64, g1);
        assert forall|i: int| 0 <= i < x0.len() implies legal_move(*board, #[trigger] x0[i]) by {
            assert(in_set(safe, x0[i].to as int));
        }
        assert forall|i: int| 0 <= i < x1.len() implies legal_move(*board, #[trigger] x1[i]) by {
            assert(in_set(safe, x1[i].to as int));
        }
        assert(legal_from(*board, o, o.len() as int));
        lemma_extend_safe(*board, o, x0, o.len() as int);
        lemma_extend_safe(*board, o + x0, x1, o.len() as int);
        assert(o.subrange(0, o.len() as int) =~= o);
        let f = list.emitted();
        assert forall|t: int|
            #![trigger in_set(cands, t)]
            in_set(cands, t) && !in_check(after(*pos, us, from as int, t, t), us) implies emitted_after(
                f,
                o.len() as int,
                plain_move(*pos, us, from as int, t),
            ) by {
            assert(in_set(safe, t));
            let m = plain_move(*pos, us, from as int, t);
            if in_set(enemy_all, t) {
                lemma_expand_covers(safe & enemy_all, 64, g1, t as u8);
                let j = choose|j: int|
                    0 <= j < x1.len() && #[trigger] expand(safe & enemy_all, 64, g1)[j] == gen_moves(g1, t as u8)[0];
                assert(f[o.len() + x0.len() + j] == m);
            } else {
                lemma_expand_covers(safe & !enemy_all, 64, g0, t as u8);
                let j = choose|j: int|
                    0 <= j < x0.len() && #[trigger] expand(safe & !enemy_all, 64, g0)[j] == gen_moves(g0, t as u8)[0];
                assert(f[o.len() + j] == m);
            }
        }
        lemma_expand_nodup(safe & !enemy_all, 64, g0);
        lemma_expand_nodup(safe & enemy_all, 64, g1);
        let seg = f.subrange(o.len() as int, f.len() as int);
        assert(seg =~= x0 + x1);
        assert forall|i: int, j: int| 0 <= i < seg.len() && 0 <= j < seg.len() && i != j implies seg[i] != seg[j] by {
            if i < x0.len() && j < x0.len() {
                assert(seg[i] == x0[i] && seg[j] == x0[j]);
            } else if i >= x0.len() && j >= x0.len() {
                assert(seg[i] == x1[i - x0.len()] && seg[j] == x1[j - x0.len()]);
            } else if i < x0.len() {
                assert(seg[i].kind == MoveKind::Push && seg[j].kind == MoveKind::Capture);
            } else {
                assert(seg[j].kind == MoveKind::Push && seg[i].kind == MoveKind::Capture);
            }
        }
        let ours = pos.men_of(us);
        assert forall|i: int| o.len() <= i < f.len() implies piece_stage(*board, from as int) <= #[trigger] stage(*board, f[i])
            < piece_stage(*board, from as int) + 1 by {
            if i < o.len() + x0.len() {
                assert(f[i] == x0[i - o.len()]);
            } else {
                assert(f[i] == x1[i - o.len() - x0.len()]);
            }
            assert(!in_set(ours.pawns, from as int));
        }
    }
}

/// `s1` is `s0` followed by moves that are legal on `board`.
pub open spec fn extends(board: Board, s0: Seq<Move>, s1: Seq<Move>) -> bool {
    &&& s0.len() <= s1.len()
    &&& s1.subrange(0, s0.len() as int) == s0
    &&& legal_from(board, s1, s0.len() as int)
}

proof fn lemma_extends_trans(board: Board, s0: Seq<Move>, s1: Seq<Move>, s2: Seq<Move>)
    requires
        extends(board, s0, s1),
        extends(board, s1, s2),
    ensures
        extends(board, s0, s2),
{
    assert forall|i: int| s0.len() <= i < s2.len() implies legal_move(board, #[trigger] s2[i]) by {
        if i < s1.len() {
            assert(s2.subrange(0, s1.len() as int)[i] == s2[i]);
        }
    }
    assert(s2.subrange(0, s0.len() as int) =~= s1.subrange(0, s0.len() as int));
}

proof fn lemma_extends_refl(board: Board, s: Seq<Move>)
    ensures
        extends(board, s, s),
{
    assert(s.subrange(0, s.len() as int) =~= s);
}

/// Emits the pawn moves to the safe squares of `cands`, each from its target rotated back
/// by `shift`: captures if `capture` is set, else pushes.
proof fn lemma_pawn_batch(
    board: Board,
    shift: usize,
    capture: bool,
    stg: int,
    safe: u64,
    cands: u64,
    o: Seq<Move>,
    f: Seq<Move>,
)
    requires
        board.wf(),
        forall|t: int| #[trigger] in_set(safe, t) ==> in_set(cands, t),
        forall|t: int|
            #[trigger] in_set(cands, t) ==> if capture {
                pawn_capture_target(board.position, board.to_move, origin(t as u8, shift) as int, t)
            } else {
                pawn_push_target(board.position, board.to_move, origin(t as u8, shift) as int, t)
            },
        forall|t: int|
            #[trigger] in_set(cands, t) ==> pawn_stage(
                board.to_move,
                origin(t as u8, shift) as int,
                t,
                capture,
            ) == stg,
        f == o + all_moves(safe & END_ROWS, Gen::Promo(shift, capture)) + all_moves(
            safe & !END_ROWS,
            Gen::Shift(shift, if capture { MoveKind::Capture } else { MoveKind::Push }),
        ),
    ensures
        staged_in(board, f, o.len() as int, stg, stg + 1),
{
    let pos = board.position;
    let us = board.to_move;
    let k = if capture { MoveKind::Capture } else { MoveKind::Push };
    let g0 = Gen::Promo(shift, capture);
    let g1 = Gen::Shift(shift, k);
    let x0 = all_moves(safe & END_ROWS, g0);
    let x1 = all_moves(safe & !END_ROWS, g1);
    lemma_set_ops(safe, END_ROWS);
    lemma_set_ops(safe, !END_ROWS);
    lemma_set_ops(END_ROWS, 0);
    lemma_expand_elems(safe & END_ROWS, 64, g0);
    lemma_expand_elems(safe & !END_ROWS, 64, g1);
        lemma_expand_nodup(safe & END_ROWS, 64, g0);
        lemma_expand_nodup(safe & !END_ROWS, 64, g1);
        let seg = f.subrange(o.len() as int, f.len() as int);
        assert(seg =~= x0 + x1);
        assert forall|i: int, j: int| 0 <= i < seg.len() && 0 <= j < seg.len() && i != j implies seg[i] != seg[j] by {
            if i < x0.len() && j < x0.len() {
                assert(seg[i] == x0[i] && seg[j] == x0[j]);
            } else if i >= x0.len() && j >= x0.len() {
                assert(seg[i] == x1[i - x0.len()] && seg[j] == x1[j - x0.len()]);
            } else if i < x0.len() {
                assert(seg[i] == x0[i] && seg[j] == x1[j - x0.len()]);
                assert(in_set(END_ROWS, seg[i].to as int) && !in_set(END_ROWS, seg[j].to as int));
            } else {
                assert(seg[j] == x0[j] && seg[i] == x1[i - x0.len()]);
                assert(in_set(END_ROWS, seg[j].to as int) && !in_set(END_ROWS, seg[i].to as int));
            }
        }
        let ours = pos.men_of(us);
        assert forall|i: int| o.len() <= i < f.len() implies stg <= #[trigger] stage(board, f[i]) < stg + 1 by {
            let m = f[i];
            if i < o.len() + x0.len() {
                assert(m == x0[i - o.len()]);
            } else {
                assert(m == x1[i - o.len() - x0.len()]);
            }
            assert(in_set(safe, m.to as int));
            assert(in_set(cands, m.to as int));
            assert(in_set(ours.pawns, m.from as int));
        }
}

fn emit_pawns<L: MoveList>(
    board: &Board,
    list: &mut L,
    shift: usize,
    cands: u64,
    capture: bool,
    stg: Ghost<int>,
)
    requires
        board.wf(),
        forall|t: int|
            #[trigger] in_set(cands, t) ==> pawn_stage(
                board.to_move,
                origin(t as u8, shift) as int,
                t,
                capture,
            ) == stg@,
        forall|t: int|
            #[trigger] in_set(cands, t) ==> if capture {
                pawn_capture_target(board.position, board.to_move, origin(t as u8, shift) as int, t)
            } else {
                pawn_push_target(board.position, board.to_move, origin(t as u8, shift) as int, t)
            },
        old(list).inv(),
        old(list).emitted().len() + 512 <= usize::MAX,
    ensures
        final(list).inv(),
        extends(*board, old(list).emitted(), final(list).emitted()),
        final(list).emitted().len() <= old(list).emitted().len() + 512,
        forall|t: int, j: int|
            #![trigger in_set(cands, t), gen_moves(pawn_gen(shift, t, capture), t as u8)[j]]
            in_set(cands, t) && !in_check(
                after(board.position, board.to_move, origin(t as u8, shift) as int, t, t),
                board.to_move,
            ) && 0 <= j < gen_moves(pawn_gen(shift, t, capture), t as u8).len() ==> emitted_after(
                final(list).emitted(),
                old(list).emitted().len() as int,
                gen_moves(pawn_gen(shift, t, capture), t as u8)[j],
            ),
        staged_in(*board, final(list).emitted(), old(list).emitted().len() as int, stg@, stg@ + 1),
{
    let pos = &board.position;
    let us = board.to_move;
    let safe = safe_pawn_targets(pos, us, shift, cands);
    let k = if capture { MoveKind::Capture } else { MoveKind::Push };
    if capture {
        list.add_pawn_captures(shift, safe);
    } else {
        list.add_pawn_pushes(shift, safe);
    }
    proof {
        let o = old(list).emitted();
        let g0 = Gen::Promo(shift, capture);
        let g1 = Gen::Shift(shift, k);
        let x0 = all_moves(safe & END_ROWS, g0);
        let x1 = all_moves(safe & !END_ROWS, g1);
        lemma_set_ops(safe, END_ROWS);
        lemma_set_ops(safe, !END_ROWS);
        lemma_set_ops(pos.white.all(), pos.black.all());
        lemma_set_ops(END_ROWS, 0);
        lemma_expand_elems(safe & END_ROWS, 64, g0);
        lemma_expand_elems(safe & !END_ROWS, 64, g1);
        lemma_expand_len(safe & END_ROWS, 64, g0);
        lemma_expand_len(safe & !END_ROWS, 64, g1);
        assert forall|i: int| 0 <= i < x0.len() implies legal_move(*board, #[trigger] x0[i]) by {
            assert(in_set(safe, x0[i].to as int));
        }
        assert forall|i: int| 0 <= i < x1.len() implies legal_move(*board, #[trigger] x1[i]) by {
            assert(in_set(safe, x1[i].to as int));
        }
        assert(legal_from(*board, o, o.len() as int));
        lemma_extend_safe(*board, o, x0, o.len() as int);
        lemma_extend_safe(*board, o + x0, x1, o.len() as int);
        assert(o.subrange(0, o.len() as int) =~= o);
        let f = list.emitted();
        lemma_set_ops(END_ROWS, 0);
        assert forall|t: int, j: int|
            #![trigger in_set(cands, t), gen_moves(pawn_gen(shift, t, capture), t as u8)[j]]
            in_set(cands, t) && !in_check(after(*pos, us, origin(t as u8, shift) as int, t, t), us)
                && 0 <= j < gen_moves(pawn_gen(shift, t, capture), t as u8).len() implies emitted_after(
                f,
                o.len() as int,
                gen_moves(pawn_gen(shift, t, capture), t as u8)[j],
            ) by {
            assert(in_set(safe, t));
            let m = gen_moves(pawn_gen(shift, t, capture), t as u8)[j];
            if in_set(END_ROWS, t) {
                lemma_expand_covers_all(safe & END_ROWS, 64, g0, t as u8, j);
                let i = choose|i: int|
                    0 <= i < x0.len() && #[trigger] expand(safe & END_ROWS, 64, g0)[i] == m;
                assert(f[o.len() + i] == m);
            } else {
                lemma_expand_covers_all(safe & !END_ROWS, 64, g1, t as u8, j);
                let i = choose|i: int|
                    0 <= i < x1.len() && #[trigger] expand(safe & !END_ROWS, 64, g1)[i] == m;
                assert(f[o.len() + x0.len() + i] == m);
            }
        }
        lemma_pawn_batch(*board, shift, capture, stg@, safe, cands, o, f);
    }
}

/// The en passant target square, or a1 where there is none.
pub open spec fn ep_sq(board: Board) -> u8 {
    match board.ep_square {
        Some(e) => e,
        None => 0,
    }
}

/// A pawn of the side to move on `s` can take en passant: the board has an en passant
/// square and the pawn strikes it.
pub open spec fn ep_target(board: Board, s: int) -> bool {
    &&& board.ep_square is Some
    &&& in_set(board.position.men_of(board.to_move).pawns, s)
    &&& pawn_sees(board.to_move, s, ep_sq(board) as int)
}

pub open spec fn ep_move(s: int, e: u8) -> Move {
    Move { from: s as u8, to: e, kind: MoveKind::EpCapture }
}

/// Which capture direction of `side` brings a pawn from `from` onto `e`.
pub open spec fn ep_dir(side: Side, e: u8, from: u8) -> int {
    if from as int == (e + 64 - shift_of(side, 0)) % 64 {
        0
    } else {
        1
    }
}

proof fn lemma_ep_append(board: Board, e: u8, o: Seq<Move>, before: Seq<Move>, m: Move, i: int)
    requires
        o.len() <= before.len(),
        staged_in(board, before, o.len() as int, 150, 151),
        forall|x: int|
            o.len() <= x < before.len() ==> ep_dir(board.to_move, e, (#[trigger] before[x]).from) < i,
        m.kind is EpCapture,
        ep_dir(board.to_move, e, m.from) == i,
    ensures
        staged_in(board, before.push(m), o.len() as int, 150, 151),
{
    let f = before.push(m);
    let seg = f.subrange(o.len() as int, f.len() as int);
    let pseg = before.subrange(o.len() as int, before.len() as int);
    assert forall|a: int, b: int| 0 <= a < seg.len() && 0 <= b < seg.len() && a != b implies seg[a] != seg[b] by {
        if a < pseg.len() && b < pseg.len() {
            assert(seg[a] == pseg[a] && seg[b] == pseg[b]);
        } else if a < pseg.len() {
            assert(seg[a] == before[o.len() + a]);
            assert(ep_dir(board.to_move, e, seg[a].from) < i);
        } else if b < pseg.len() {
            assert(seg[b] == before[o.len() + b]);
            assert(ep_dir(board.to_move, e, seg[b].from) < i);
        }
    }
    assert forall|y: int| o.len() <= y < f.len() implies 150 <= #[trigger] stage(board, f[y]) < 151 by {
        if y < before.len() {
            assert(f[y] == before[y]);
        }
    }
}

/// Emits the en passant captures onto `e` that leave the king safe.
fn emit_ep<L: MoveList>(board: &Board, list: &mut L, e: u8)
    requires
        board.wf(),
        board.ep_square == Some(e),
        old(list).inv(),
        old(list).emitted().len() + 1024 <= usize::MAX,
    ensures
        final(list).inv(),
        extends(*board, old(list).emitted(), final(list).emitted()),
        final(list).emitted().len() <= old(list).emitted().len() + 2,
        forall|s: int|
            #[trigger] in_set(board.position.men_of(board.to_move).pawns, s) && pawn_sees(
                board.to_move,
                s,
                e as int,
            ) && !in_check(
                after(board.position, board.to_move, s, e as int, ep_victim(board.to_move, e) as int),
                board.to_move,
            ) ==> emitted_after(final(list).emitted(), old(list).emitted().len() as int, ep_move(s, e)),
        staged_in(*board, final(list).emitted(), old(list).emitted().len() as int, 150, 151),
{
    let pos = &board.position;
    let us = board.to_move;
    let pawns = pos.men(us).pawns;
    let victim: u8 = match us {
        Side::White => ((e as usize + 56) % 64) as u8,
        Side::Black => ((e as usize + 8) % 64) as u8,
    };
    proof {
        lemma_extends_refl(*board, list.emitted());
        lemma_staged_empty(*board, list.emitted(), 150, 151);
    }
    let mut i: usize = 0;
    while i < 2
        invariant
            board.wf(),
            board.ep_square == Some(e),
            e < 64,
            pos == &board.position,
            us == board.to_move,
            victim == ep_victim(us, e),
            i <= 2,
            list.inv(),
            extends(*board, old(list).emitted(), list.emitted()),
            list.emitted().len() <= old(list).emitted().len() + i,
            old(list).emitted().len() + 1024 <= usize::MAX,
            pawns == pos.men_of(us).pawns,
            staged_in(*board, list.emitted(), old(list).emitted().len() as int, 150, 151),
            forall|x: int|
                old(list).emitted().len() <= x < list.emitted().len() ==> ep_dir(
                    us,
                    e,
                    (#[trigger] list.emitted()[x]).from,
                ) < i,
            forall|s: int|
                #[trigger] in_set(pawns, s) && pawn_sees(us, s, e as int) && capture_dir(us, s, e as int) < i
                    && !in_check(after(*pos, us, s, e as int, victim as int), us) ==> emitted_after(
                    list.emitted(),
                    old(list).emitted().len() as int,
                    ep_move(s, e),
                ),
        decreases 2 - i,
    {
        let (k, m) = capture_mask(us, i);
        let rot = rot_left(pawns, k);
        let cand = rot & m;
        let ghost before = list.emitted();
        proof {
            lemma_extends_refl(*board, before);
            lemma_set_ops(rot, m);
        }
        if contains(cand, e) {
            let from = ((e as usize + 64 - k as usize % 64) % 64) as u8;
            if safe_after(pos, us, from, e, victim) {
                list.add_pawn_ep_capture(from, e);
                proof {
                    lemma_masked_file(i as int, e as int);
                    assert(in_set(pawns, from as int));
                    assert(1 <= rank(from as int) <= 6);
                    lemma_pawn_shift(us, from as int, e as int);
                    assert(from as int == (e + 64 - shift_of(us, i as int)) % 64 && file(e as int) != wrap_file(i as int));
                    assert(pawn_sees(us, from as int, e as int));
                    let x = seq![Move { from, to: e, kind: MoveKind::EpCapture }];
                    assert(list.emitted() == before + x);
                    assert(legal_move(*board, x[0]));
                    assert(legal_from(*board, before, before.len() as int));
                    lemma_extend_safe(*board, before, x, before.len() as int);
                    assert(before.subrange(0, before.len() as int) =~= before);
                    lemma_extends_trans(*board, old(list).emitted(), before, list.emitted());
                    assert(list.emitted()[before.len() as int] == x[0]);
                    assert(ep_dir(us, e, from) == i);
                    lemma_ep_append(*board, e, old(list).emitted(), before, x[0], i as int);
                }
            }
        }
        proof {
            let f = list.emitted();
            assert(extends(*board, before, f));
            assert forall|s: int|
                #[trigger] in_set(pawns, s) && pawn_sees(us, s, e as int) && capture_dir(us, s, e as int) < i + 1
                    && !in_check(after(*pos, us, s, e as int, victim as int), us) implies emitted_after(
                    f,
                    old(list).emitted().len() as int,
                    ep_move(s, e),
                ) by {
                if capture_dir(us, s, e as int) < i {
                    lemma_emitted_carry(before, f, old(list).emitted().len() as int, ep_move(s, e));
                } else {
                    assert(1 <= rank(s) <= 6);
                    lemma_pawn_shift(us, s, e as int);
                    lemma_masked_file(i as int, e as int);
                    assert(s == (e + 64 - shift_of(us, i as int)) % 64 && file(e as int) != wrap_file(i as int));
                    assert(in_set(cand, e as int));
                    assert(f[before.len() as int] == ep_move(s, e));
                    assert(old(list).emitted().len() <= before.len());
                }
            }
        }
        i = i + 1;
    }
}

/// Emits castling `c` if `ok` holds and states `castle_ok`.
fn emit_castle<L: MoveList>(board: &Board, list: &mut L, c: Castle, ok: bool)
    requires
        board.wf(),
        ok == castle_ok(*board, c),
        old(list).inv(),
        old(list).emitted().len() + 512 <= usize::MAX,
    ensures
        final(list).inv(),
        extends(*board, old(list).emitted(), final(list).emitted()),
        final(list).emitted().len() <= old(list).emitted().len() + 1,
        castle_ok(*board, c) ==> emitted_after(
            final(list).emitted(),
            old(list).emitted().len() as int,
            castle_move(c),
        ),
        staged_in(*board, final(list).emitted(), old(list).emitted().len() as int, castle_stage(c), castle_stage(c) + 1),
{
    proof {
        lemma_extends_refl(*board, list.emitted());
        lemma_staged_empty(*board, list.emitted(), castle_stage(c), castle_stage(c) + 1);
    }
    if ok {
        list.add_castle(c);
        proof {
            let o = old(list).emitted();
            let x = seq![
                Move {
                    from: c.king_squares().0,
                    to: c.king_squares().1,
                    kind: MoveKind::Castle(c),
                },
            ];
            assert(list.emitted() == o + x);
            assert(legal_move(*board, x[0]));
            assert(legal_from(*board, o, o.len() as int));
            lemma_extend_safe(*board, o, x, o.len() as int);
            assert(o.subrange(0, o.len() as int) =~= o);
            assert(list.emitted()[o.len() as int] == castle_move(c));
            let f = list.emitted();
            assert(f.subrange(o.len() as int, f.len() as int) =~= x);
            assert(stage(*board, f[o.len() as int]) == castle_stage(c));
        }
    }
}

/// The king's move of castling `c`.
pub open spec fn castle_move(c: Castle) -> Move {
    Move { from: c.king_squares().0, to: c.king_squares().1, kind: MoveKind::Castle(c) }
}

/// Emits the castlings whose rules hold.
fn emit_castles<L: MoveList>(board: &Board, list: &mut L)
    requires
        board.wf(),
        old(list).inv(),
        old(list).emitted().len() + 1024 <= usize::MAX,
    ensures
        final(list).inv(),
        extends(*board, old(list).emitted(), final(list).emitted()),
        final(list).emitted().len() <= old(list).emitted().len() + 2,
        forall|c: Castle|
            #[trigger] castle_ok(*board, c) ==> emitted_after(
                final(list).emitted(),
                old(list).emitted().len() as int,
                castle_move(c),
            ),
        staged_in(*board, final(list).emitted(), old(list).emitted().len() as int, 200, 202),
{
    let pos = &board.position;
    let us = board.to_move;
    let them = us.flip();
    let att = attacked_squares_ignoring_ep(them, pos);
    let occ = pos.bb_occupied();
    let (base, ks, qs, kc, qc): (u8, bool, bool, Castle, Castle) = match us {
        Side::White => (
            0,
            board.castling.white_king_side,
            board.castling.white_queen_side,
            Castle::WhiteKingSide,
            Castle::WhiteQueenSide,
        ),
        Side::Black => (
            56,
            board.castling.black_king_side,
            board.castling.black_queen_side,
            Castle::BlackKingSide,
            Castle::BlackQueenSide,
        ),
    };
    let home_safe = !contains(att, base + 4);
    let ok_k = ks && home_safe && !contains(occ, base + 5) && !contains(occ, base + 6) && !contains(
        att,
        base + 5,
    ) && !contains(att, base + 6);
    let ok_q = qs && home_safe && !contains(occ, base + 1) && !contains(occ, base + 2) && !contains(
        occ,
        base + 3,
    ) && !contains(att, base + 3) && !contains(att, base + 2);
    let ghost s0 = list.emitted();
    emit_castle(board, list, kc, ok_k);
    let ghost s1 = list.emitted();
    emit_castle(board, list, qc, ok_q);
    proof {
        lemma_extends_trans(*board, s0, s1, list.emitted());
        lemma_staged_join(*board, s1, list.emitted(), s0.len() as int, 200, 201, 202);
        if castle_ok(*board, kc) {
            lemma_emitted_carry(s1, list.emitted(), s0.len() as int, castle_move(kc));
        }
        assert forall|c: Castle|
            #[trigger] castle_ok(*board, c) implies emitted_after(list.emitted(), s0.len() as int, castle_move(c)) by {
            if c == qc {
                let i = choose|i: int| s1.len() <= i < list.emitted().len() && #[trigger] list.emitted()[i] == castle_move(qc);
                assert(s0.len() <= i);
            }
        }
    }
}

/// One rank toward the other side, in rank steps.
pub open spec fn forward(side: Side) -> int {
    if side == Side::White {
        1
    } else {
        -1
    }
}

/// The rank from which the pawns of `side` start.
pub open spec fn pawn_home(side: Side) -> int {
    if side == Side::White {
        1
    } else {
        6
    }
}

/// A pawn of `side` on `s` pushes to `t`: one rank forward onto an empty square, or two
/// ranks from its home rank across an empty square.
pub open spec fn pawn_push_target(pos: Position, side: Side, s: int, t: int) -> bool {
    let occ = pos.occupied();
    &&& in_set(pos.men_of(side).pawns, s)
    &&& 0 <= t < 64
    &&& !in_set(occ, t)
    &&& file(t) == file(s)
    &&& (rank(t) == rank(s) + forward(side) || (rank(s) == pawn_home(side) && rank(t) == rank(s) + 2
        * forward(side) && !in_set(occ, s + 8 * forward(side))))
}

/// A pawn of `side` on `s` captures on `t`, where a man of the other side, not its king,
/// stands.
pub open spec fn pawn_capture_target(pos: Position, side: Side, s: int, t: int) -> bool {
    &&& in_set(pos.men_of(side).pawns, s)
    &&& pawn_sees(side, s, t)
    &&& in_set(pos.men_of(side.flipped()).all(), t)
    &&& !in_set(pos.men_of(side.flipped()).kings, t)
}

/// The moves of a pawn from `s` to `t`: the four promotions, to queen, knight, bishop and
/// rook, onto an end rank; one move elsewhere.
pub open spec fn pawn_moves(s: int, t: int, capture: bool) -> Seq<Move> {
    if in_set(END_ROWS, t) {
        seq![
            Move { from: s as u8, to: t as u8, kind: promo_kind(capture, Kind::Queen) },
            Move { from: s as u8, to: t as u8, kind: promo_kind(capture, Kind::Knight) },
            Move { from: s as u8, to: t as u8, kind: promo_kind(capture, Kind::Bishop) },
            Move { from: s as u8, to: t as u8, kind: promo_kind(capture, Kind::Rook) },
        ]
    } else {
        seq![
            Move {
                from: s as u8,
                to: t as u8,
                kind: if capture { MoveKind::Capture } else { MoveKind::Push },
            },
        ]
    }
}

proof fn lemma_pawn_moves(shift: usize, s: int, t: int, capture: bool)
    requires
        0 <= s < 64,
        0 <= t < 64,
        origin(t as u8, shift) as int == s,
    ensures
        gen_moves(pawn_gen(shift, t, capture), t as u8) == pawn_moves(s, t, capture),
{
    assert(gen_moves(pawn_gen(shift, t, capture), t as u8) =~= pawn_moves(s, t, capture));
}

/// Which of the two capture directions of `side` takes a pawn from `s` to `t`.
pub open spec fn capture_dir(side: Side, s: int, t: int) -> int {
    if s == (t + 64 - shift_of(side, 0)) % 64 && file(t) != wrap_file(0) {
        0
    } else {
        1
    }
}

proof fn lemma_rank_masks(t: u64)
    by (bit_vector)
    requires
        t < 64,
    ensures
        (RANK_3 >> t) & 1u64 == 1u64 <==> t / 8 == 2,
        (RANK_6 >> t) & 1u64 == 1u64 <==> t / 8 == 5,
{
}

pub const RANK_3: u64 = 0x0000_0000_00ff_0000;

pub const RANK_6: u64 = 0x0000_ff00_0000_0000;

/// The rotation that carries a pawn of `side` one rank forward.
pub open spec fn push_shift(side: Side) -> usize {
    if side == Side::White {
        8
    } else {
        56
    }
}

/// The rotation that carries a pawn of `side` two ranks forward.
pub open spec fn double_shift(side: Side) -> usize {
    if side == Side::White {
        16
    } else {
        48
    }
}

proof fn lemma_white_push_bits(s: u64, t: u64)
    by (bit_vector)
    requires
        8 <= s < 56,
        t < 64,
    ensures
        s == (t + 56) % 64 <==> (t % 8 == s % 8 && t / 8 == s / 8 + 1),
        8 <= s < 16 ==> (s == (t + 48) % 64 <==> (t % 8 == s % 8 && t / 8 == s / 8 + 2)),
{
}

proof fn lemma_black_push_bits(s: u64, t: u64)
    by (bit_vector)
    requires
        8 <= s < 56,
        t < 64,
    ensures
        s == (t + 8) % 64 <==> (t % 8 == s % 8 && t / 8 + 1 == s / 8),
        48 <= s < 56 ==> (s == (t + 16) % 64 <==> (t % 8 == s % 8 && t / 8 + 2 == s / 8)),
{
}

/// Where a pawn on `s`, away from the end ranks, lands on `t` after a push rotation.
proof fn lemma_push_coords(side: Side, s: int, t: int)
    requires
        0 <= s < 64,
        0 <= t < 64,
        1 <= rank(s) <= 6,
    ensures
        (s == (t + 64 - push_shift(side)) % 64) <==> (file(t) == file(s) && rank(t) == rank(s)
            + forward(side)),
        rank(s) == pawn_home(side) ==> ((s == (t + 64 - double_shift(side)) % 64) <==> (file(t)
            == file(s) && rank(t) == rank(s) + 2 * forward(side))),
{
    if side == Side::White {
        lemma_white_push_bits(s as u64, t as u64);
    } else {
        lemma_black_push_bits(s as u64, t as u64);
    }
}

/// The squares reached by pawn pushes of one rank and of two ranks.
fn push_sets(board: &Board) -> (r: (u64, u64))
    requires
        board.wf(),
    ensures
        forall|t: int|
            #[trigger] in_set(r.0, t) ==> pawn_push_target(
                board.position,
                board.to_move,
                origin(t as u8, push_shift(board.to_move)) as int,
                t,
            ),
        forall|t: int|
            #[trigger] in_set(r.1, t) ==> pawn_push_target(
                board.position,
                board.to_move,
                origin(t as u8, double_shift(board.to_move)) as int,
                t,
            ),
        forall|s: int, t: int|
            #[trigger] pawn_push_target(board.position, board.to_move, s, t) ==> if rank(t) == rank(s)
                + forward(board.to_move) {
                in_set(r.0, t) && origin(t as u8, push_shift(board.to_move)) as int == s
            } else {
                in_set(r.1, t) && origin(t as u8, double_shift(board.to_move)) as int == s
            },
{
    let pos = &board.position;
    let us = board.to_move;
    let occ = pos.bb_occupied();
    let pawns = pos.men(us).pawns;
    let empty = !occ;
    let (push, mid_rank): (u32, u64) = match us {
        Side::White => (8, RANK_3),
        Side::Black => (56, RANK_6),
    };
    let rot1 = rot_left(pawns, push);
    let single_push = rot1 & empty;
    let lifted = single_push & mid_rank;
    let rot2 = rot_left(lifted, push);
    let double_push = rot2 & empty;
    proof {
        let double = double_shift(us);
        lemma_set_ops(rot1, empty);
        lemma_set_ops(single_push, mid_rank);
        lemma_set_ops(rot2, empty);
        lemma_set_ops(occ, 0);
        assert forall|t: int| #[trigger] in_set(single_push, t) implies pawn_push_target(
            *pos,
            us,
            origin(t as u8, push as usize) as int,
            t,
        ) by {
            let s = origin(t as u8, push as usize) as int;
            assert(s == (t + 64 - push) % 64);
            assert(in_set(pawns, s));
            lemma_push_coords(us, s, t);
        }
        assert forall|t: int| #[trigger] in_set(double_push, t) implies pawn_push_target(
            *pos,
            us,
            origin(t as u8, double) as int,
            t,
        ) by {
            let mid = (t + 64 - push) % 64;
            assert(in_set(lifted, mid));
            lemma_rank_masks(mid as u64);
            let s = (mid + 64 - push) % 64;
            assert(in_set(pawns, s));
            lemma_push_coords(us, s, mid);
            lemma_push_coords(us, mid, t);
            lemma_push_coords(us, s, t);
            assert(origin(t as u8, double) as int == (t + 64 - double) % 64);
        }
        assert forall|s: int, t: int| #[trigger] pawn_push_target(*pos, us, s, t) implies if rank(t) == rank(s)
            + forward(us) {
            in_set(single_push, t) && origin(t as u8, push_shift(us)) as int == s
        } else {
            in_set(double_push, t) && origin(t as u8, double) as int == s
        } by {
            lemma_push_coords(us, s, t);
            if rank(t) != rank(s) + forward(us) {
                let mid = s + 8 * forward(us);
                lemma_push_coords(us, s, mid);
                lemma_push_coords(us, mid, t);
                lemma_rank_masks(mid as u64);
                assert(in_set(single_push, mid));
                assert(in_set(lifted, mid));
            }
        }
    }
    (single_push, double_push)
}

/// Emits the pawn pushes, one rank and two from the home rank, that leave the king safe.
fn emit_pawn_pushes<L: MoveList>(board: &Board, list: &mut L)
    requires
        board.wf(),
        old(list).inv(),
        old(list).emitted().len() + 2048 <= usize::MAX,
    ensures
        final(list).inv(),
        extends(*board, old(list).emitted(), final(list).emitted()),
        final(list).emitted().len() <= old(list).emitted().len() + 1024,
        forall|s: int, t: int, j: int|
            #[trigger] pawn_push_target(board.position, board.to_move, s, t) && !in_check(
                after(board.position, board.to_move, s, t, t),
                board.to_move,
            ) && 0 <= j < pawn_moves(s, t, false).len() ==> emitted_after(
                final(list).emitted(),
                old(list).emitted().len() as int,
                #[trigger] pawn_moves(s, t, false)[j],
            ),
        staged_in(*board, final(list).emitted(), old(list).emitted().len() as int, 120, 122),
{
    let pos = &board.position;
    let us = board.to_move;
    let ghost start = list.emitted();
    proof {
        lemma_extends_refl(*board, start);
    }
    let (push, double): (usize, usize) = match us {
        Side::White => (8, 16),
        Side::Black => (56, 48),
    };
    let (single_push, double_push) = push_sets(board);
    emit_pawns(board, list, push, single_push, false, Ghost(120));
    let ghost s2 = list.emitted();
    emit_pawns(board, list, double, double_push, false, Ghost(121));
    let ghost s3 = list.emitted();
    proof {
        lemma_staged_join(*board, s2, s3, start.len() as int, 120, 121, 122);
    }
    proof {
        lemma_extends_trans(*board, start, s2, s3);
        assert forall|s: int, t: int, j: int|
            #[trigger] pawn_push_target(*pos, us, s, t) && !in_check(after(*pos, us, s, t, t), us) && 0 <= j
                < pawn_moves(s, t, false).len() implies emitted_after(
                s3,
                start.len() as int,
                #[trigger] pawn_moves(s, t, false)[j],
            ) by {
            let m = pawn_moves(s, t, false)[j];
            assert(0 <= s < 64);
            if rank(t) == rank(s) + forward(us) {
                lemma_pawn_moves(push, s, t, false);
                assert(emitted_after(s2, start.len() as int, m));
                lemma_emitted_carry(s2, s3, start.len() as int, m);
            } else {
                lemma_pawn_moves(double, s, t, false);
                assert(emitted_after(s3, s2.len() as int, m));
                let i = choose|i: int| s2.len() <= i < s3.len() && #[trigger] s3[i] == m;
                assert(start.len() <= i);
            }
        }
    }
}

/// Emits the pawn captures in direction `i` that leave the king safe.
fn emit_capture_dir<L: MoveList>(board: &Board, list: &mut L, i: usize)
    requires
        board.wf(),
        i < 2,
        old(list).inv(),
        old(list).emitted().len() + 1024 <= usize::MAX,
    ensures
        final(list).inv(),
        extends(*board, old(list).emitted(), final(list).emitted()),
        final(list).emitted().len() <= old(list).emitted().len() + 512,
        staged_in(*board, final(list).emitted(), old(list).emitted().len() as int, 130 + i, 131 + i),
        forall|s: int, t: int, j: int|
            #[trigger] pawn_capture_target(board.position, board.to_move, s, t) && capture_dir(
                board.to_move,
                s,
                t,
            ) == i && !in_check(after(board.position, board.to_move, s, t, t), board.to_move) && 0
                <= j < pawn_moves(s, t, true).len() ==> emitted_after(
                final(list).emitted(),
                old(list).emitted().len() as int,
                #[trigger] pawn_moves(s, t, true)[j],
            ),
{
    let pos = &board.position;
    let us = board.to_move;
    let them = us.flip();
    let ours = pos.men(us);
    let theirs = pos.men(them);
    let their_all = theirs.pawns | theirs.knights | theirs.bishops | theirs.rooks | theirs.queens
        | theirs.kings;
    let pawns = ours.pawns;
    let (k, m) = capture_mask(us, i);
    let rot = rot_left(pawns, k);
    let caps = rot & m & their_all & !theirs.kings;
    let ghost before = list.emitted();
    proof {
        lemma_set_ops(rot, m);
        lemma_set_ops(rot & m, their_all);
        lemma_set_ops(rot & m & their_all, !theirs.kings);
        lemma_set_ops(theirs.kings, 0);
        assert forall|t: int| #[trigger] in_set(caps, t) implies pawn_capture_target(
            *pos,
            us,
            origin(t as u8, k as usize) as int,
            t,
        ) by {
            let s = origin(t as u8, k as usize) as int;
            assert(s == (t + 64 - k) % 64);
            lemma_masked_file(i as int, t);
            assert(in_set(pawns, s));
            assert(1 <= rank(s) <= 6);
            lemma_pawn_shift(us, s, t);
            assert(0 <= i < 2 && s == (t + 64 - shift_of(us, i as int)) % 64 && file(t) != wrap_file(i as int));
        }
    }
    emit_pawns(board, list, k as usize, caps, true, Ghost(130 + i as int));
    proof {
        lemma_set_ops(rot, m);
        lemma_set_ops(rot & m, their_all);
        lemma_set_ops(rot & m & their_all, !theirs.kings);
        lemma_set_ops(theirs.kings, 0);
        let f = list.emitted();
        assert forall|s: int, t: int, j: int|
            #[trigger] pawn_capture_target(*pos, us, s, t) && capture_dir(us, s, t) == i && !in_check(
                after(*pos, us, s, t, t),
                us,
            ) && 0 <= j < pawn_moves(s, t, true).len() implies emitted_after(
                f,
                before.len() as int,
                #[trigger] pawn_moves(s, t, true)[j],
            ) by {
            let mv = pawn_moves(s, t, true)[j];
            {
                assert(1 <= rank(s) <= 6);
                lemma_pawn_shift(us, s, t);
                lemma_masked_file(i as int, t);
                assert(s == (t + 64 - shift_of(us, i as int)) % 64 && file(t) != wrap_file(i as int));
                assert(in_set(caps, t));
                lemma_pawn_moves(k as usize, s, t, true);
                assert(emitted_after(f, before.len() as int, mv));
            }
        }
    }
}

/// Emits the pawn captures, promoting ones included, that leave the king safe.
fn emit_pawn_captures<L: MoveList>(board: &Board, list: &mut L)
    requires
        board.wf(),
        old(list).inv(),
        old(list).emitted().len() + 2048 <= usize::MAX,
    ensures
        final(list).inv(),
        extends(*board, old(list).emitted(), final(list).emitted()),
        final(list).emitted().len() <= old(list).emitted().len() + 1024,
        forall|s: int, t: int, j: int|
            #[trigger] pawn_capture_target(board.position, board.to_move, s, t) && !in_check(
                after(board.position, board.to_move, s, t, t),
                board.to_move,
            ) && 0 <= j < pawn_moves(s, t, true).len() ==> emitted_after(
                final(list).emitted(),
                old(list).emitted().len() as int,
                #[trigger] pawn_moves(s, t, true)[j],
            ),
        staged_in(*board, final(list).emitted(), old(list).emitted().len() as int, 130, 132),
{
    let pos = &board.position;
    let us = board.to_move;
    let them = us.flip();
    let ours = pos.men(us);
    let theirs = pos.men(them);
    let occ = pos.bb_occupied();
    let their_all = theirs.pawns | theirs.knights | theirs.bishops | theirs.rooks | theirs.queens
        | theirs.kings;
    let ghost start = list.emitted();
    proof {
        lemma_extends_refl(*board, start);
    }
    let pawns = ours.pawns;
    proof {
        lemma_staged_empty(*board, start, 130, 130);
    }
    let mut i: usize = 0;
    while i < 2
        invariant
            board.wf(),
            pos == &board.position,
            us == board.to_move,
            i <= 2,
            list.inv(),
            staged_in(*board, list.emitted(), start.len() as int, 130, 130 + i),
            extends(*board, start, list.emitted()),
            list.emitted().len() <= start.len() + 512 * i,
            start.len() + 2048 <= usize::MAX,
            pawns == pos.men_of(us).pawns,
            theirs == pos.men_of(us.flipped()),
            their_all == theirs.all(),
            forall|s: int, t: int, j: int|
                #[trigger] pawn_capture_target(*pos, us, s, t) && capture_dir(us, s, t) < i && !in_check(
                    after(*pos, us, s, t, t),
                    us,
                ) && 0 <= j < pawn_moves(s, t, true).len() ==> emitted_after(
                    list.emitted(),
                    start.len() as int,
                    #[trigger] pawn_moves(s, t, true)[j],
                ),
        decreases 2 - i,
    {
        let ghost before = list.emitted();
        emit_capture_dir(board, list, i);
        proof {
            lemma_staged_join(*board, before, list.emitted(), start.len() as int, 130, 130 + i, 131 + i);
            lemma_extends_trans(*board, start, before, list.emitted());
            let f = list.emitted();
            assert forall|s: int, t: int, j: int|
                #[trigger] pawn_capture_target(*pos, us, s, t) && capture_dir(us, s, t) < i + 1 && !in_check(
                    after(*pos, us, s, t, t),
                    us,
                ) && 0 <= j < pawn_moves(s, t, true).len() implies emitted_after(
                    f,
                    start.len() as int,
                    #[trigger] pawn_moves(s, t, true)[j],
                ) by {
                let mv = pawn_moves(s, t, true)[j];
                if capture_dir(us, s, t) < i {
                    lemma_emitted_carry(before, f, start.len() as int, mv);
                } else {
                    let x = choose|x: int| before.len() <= x < f.len() && #[trigger] f[x] == mv;
                    assert(start.len() <= x);
                }
            }
        }
        i = i + 1;
    }
}

/// Emits every legal move of the side to move on `board`: each man's moves to the squares
/// it strikes or, for pawns, pushes to, kept where the mover's own king is left
/// unattacked; en passant captures; and the castlings whose rules hold.
pub fn legal_moves<L: MoveList>(board: &Board, list: &mut L)
    requires
        board.wf(),
        old(list).inv(),
        old(list).emitted().len() + 65536 <= usize::MAX,
    ensures
        final(list).inv(),
        extends(*board, old(list).emitted(), final(list).emitted()),
        forall|s: int, t: int|
            #[trigger] piece_target(board.position, board.to_move, s, t) && !in_check(
                after(board.position, board.to_move, s, t, t),
                board.to_move,
            ) ==> emitted_after(
                final(list).emitted(),
                old(list).emitted().len() as int,
                plain_move(board.position, board.to_move, s, t),
            ),
        forall|s: int, t: int|
            #[trigger] king_target(board.position, board.to_move, s, t) && !in_check(
                after(board.position, board.to_move, s, t, t),
                board.to_move,
            ) ==> emitted_after(
                final(list).emitted(),
                old(list).emitted().len() as int,
                plain_move(board.position, board.to_move, s, t),
            ),
        forall|c: Castle|
            #[trigger] castle_ok(*board, c) ==> emitted_after(
                final(list).emitted(),
                old(list).emitted().len() as int,
                castle_move(c),
            ),
        forall|s: int|
            #[trigger] ep_target(*board, s) && !in_check(
                after(
                    board.position,
                    board.to_move,
                    s,
                    ep_sq(*board) as int,
                    ep_victim(board.to_move, ep_sq(*board)) as int,
                ),
                board.to_move,
            ) ==> emitted_after(
                final(list).emitted(),
                old(list).emitted().len() as int,
                ep_move(s, ep_sq(*board)),
            ),
        forall|s: int, t: int, j: int|
            #[trigger] pawn_push_target(board.position, board.to_move, s, t) && !in_check(
                after(board.position, board.to_move, s, t, t),
                board.to_move,
            ) && 0 <= j < pawn_moves(s, t, false).len() ==> emitted_after(
                final(list).emitted(),
                old(list).emitted().len() as int,
                #[trigger] pawn_moves(s, t, false)[j],
            ),
        forall|s: int, t: int, j: int|
            #[trigger] pawn_capture_target(board.position, board.to_move, s, t) && !in_check(
                after(board.position, board.to_move, s, t, t),
                board.to_move,
            ) && 0 <= j < pawn_moves(s, t, true).len() ==> emitted_after(
                final(list).emitted(),
                old(list).emitted().len() as int,
                #[trigger] pawn_moves(s, t, true)[j],
            ),
        final(list).emitted().subrange(
            old(list).emitted().len() as int,
            final(list).emitted().len() as int,
        ).no_duplicates(),
{
    let pos = &board.position;
    let us = board.to_move;
    let them = us.flip();
    let ours = pos.men(us);
    let theirs = pos.men(them);
    let occ = pos.bb_occupied();
    let our_all = ours.pawns | ours.knights | ours.bishops | ours.rooks | ours.queens | ours.kings;
    let their_all = theirs.pawns | theirs.knights | theirs.bishops | theirs.rooks | theirs.queens
        | theirs.kings;
    let open = !our_all & !theirs.kings;
    let ghost start = list.emitted();
    proof {
        lemma_extends_refl(*board, start);
        assert(single(ours.kings));
    }

    let ksq = bitscan(ours.kings);
    let around = attacks_from_sq(Geometry::King, ksq, occ);
    let king_cands = around & open;
    proof {
        lemma_set_ops(our_all, 0);
        lemma_set_ops(theirs.kings, 0);
        lemma_set_ops(!our_all, !theirs.kings);
        lemma_set_ops(around, open);
    }
    emit_piece(board, list, ksq, king_cands);
    let ghost after_king = list.emitted();
    proof {
        lemma_extends_refl(*board, after_king);
        assert(staged_in(*board, after_king, start.len() as int, 0, 1));
        assert forall|s: int, t: int|
            #[trigger] king_target(*pos, us, s, t) && !in_check(after(*pos, us, s, t, t), us) implies emitted_after(
                after_king,
                start.len() as int,
                plain_move(*pos, us, s, t),
            ) by {
            assert(s == ksq);
            assert(in_set(king_cands, t));
        }
    }

    let men = ours.knights | ours.bishops | ours.rooks | ours.queens;
    let diag = ours.bishops | ours.queens;
    let non_diag = ours.rooks | ours.queens;
    let mut s: u8 = 0;
    while s < 64
        invariant
            board.wf(),
            pos == &board.position,
            us == board.to_move,
            s <= 64,
            list.inv(),
            extends(*board, start, list.emitted()),
            list.emitted().len() <= start.len() + 512 * (s as int + 1),
            start.len() + 65536 <= usize::MAX,
            ours == pos.men_of(us),
            theirs == pos.men_of(us.flipped()),
            occ == pos.occupied(),
            our_all == ours.all(),
            open == !our_all & !theirs.kings,
            men == ours.knights | ours.bishops | ours.rooks | ours.queens,
            diag == pos.diag(us),
            non_diag == pos.non_diag(us),
            extends(*board, after_king, list.emitted()),
            staged_in(*board, list.emitted(), start.len() as int, 0, 1 + s),
            separate_men(ours),
            forall|s2: int, t: int|
                0 <= s2 < s && #[trigger] piece_target(*pos, us, s2, t) && !in_check(
                    after(*pos, us, s2, t, t),
                    us,
                ) ==> emitted_after(list.emitted(), start.len() as int, plain_move(*pos, us, s2, t)),
        decreases 64 - s,
    {
        let ghost before = list.emitted();
        proof {
            lemma_set_ops(ours.knights | ours.bishops | ours.rooks, ours.queens);
            lemma_set_ops(ours.knights | ours.bishops, ours.rooks);
            lemma_set_ops(ours.knights, ours.bishops);
            lemma_set_ops(ours.bishops, ours.queens);
            lemma_set_ops(ours.rooks, ours.queens);
        }
        proof {
            lemma_extends_refl(*board, before);
        }
        if contains(men, s) {
            let kn = if contains(ours.knights, s) {
                attacks_from_sq(Geometry::Knight, s, occ)
            } else {
                0
            };
            let dg = if contains(diag, s) {
                attacks_from_sq(Geometry::Diag, s, occ)
            } else {
                0
            };
            let nd = if contains(non_diag, s) {
                attacks_from_sq(Geometry::NonDiag, s, occ)
            } else {
                0
            };
            let cands = kn | dg | nd;
            let targets = cands & open;
            proof {
                lemma_set_ops(0, 0);
                lemma_set_ops(kn, dg);
                lemma_set_ops(kn | dg, nd);
                lemma_set_ops(cands, open);
                lemma_set_ops(our_all, 0);
                lemma_set_ops(theirs.kings, 0);
                lemma_set_ops(!our_all, !theirs.kings);
                assert forall|t: int| #[trigger] piece_target(*pos, us, s as int, t) implies in_set(targets, t) by {
                    if in_set(ours.knights, s as int) && knight_sees(s as int, t) {
                        assert(in_set(kn, t));
                    }
                    if in_set(pos.diag(us), s as int) && bishop_sees(occ, s as int, t) {
                        assert(in_set(dg, t));
                    }
                    if in_set(pos.non_diag(us), s as int) && rook_sees(occ, s as int, t) {
                        assert(in_set(nd, t));
                    }
                    assert(in_set(cands, t));
                    assert(in_set(open, t));
                }
            }
            proof {
                assert(in_set(pieces_of(ours), s as int));
                assert(!in_set(ours.kings, s as int));
            }
            emit_piece(board, list, s, targets);
            proof {
                lemma_staged_join(*board, before, list.emitted(), start.len() as int, 0, 1 + s, 2 + s);
                lemma_extends_trans(*board, start, before, list.emitted());
                lemma_extends_trans(*board, after_king, before, list.emitted());
                assert forall|t: int|
                    #[trigger] piece_target(*pos, us, s as int, t) && !in_check(
                        after(*pos, us, s as int, t, t),
                        us,
                    ) implies emitted_after(list.emitted(), start.len() as int, plain_move(*pos, us, s as int, t)) by {
                    assert(in_set(targets, t));
                    let m = plain_move(*pos, us, s as int, t);
                    assert(emitted_after(list.emitted(), before.len() as int, m));
                    let i = choose|i: int| before.len() <= i < list.emitted().len() && #[trigger] list.emitted()[i] == m;
                    assert(start.len() <= i);
                }
            }
        } else {
            proof {
                lemma_staged_widen(*board, list.emitted(), start.len() as int, 0, 1 + s, 2 + s);
                assert forall|t: int|
                    #[trigger] piece_target(*pos, us, s as int, t) && !in_check(
                        after(*pos, us, s as int, t, t),
                        us,
                    ) implies emitted_after(list.emitted(), start.len() as int, plain_move(*pos, us, s as int, t)) by {
                    assert(in_set(men, s as int));
                }
            }
        }
        proof {
            assert forall|s2: int, t: int|
                0 <= s2 < s + 1 && #[trigger] piece_target(*pos, us, s2, t) && !in_check(
                    after(*pos, us, s2, t, t),
                    us,
                ) implies emitted_after(list.emitted(), start.len() as int, plain_move(*pos, us, s2, t)) by {
                if s2 < s {
                    lemma_emitted_carry(before, list.emitted(), start.len() as int, plain_move(*pos, us, s2, t));
                }
            }
        }
        s = s + 1;
    }
    let ghost after_pieces = list.emitted();
    proof {
        lemma_extends_refl(*board, after_pieces);
    }

    let ghost before_pushes = list.emitted();
    proof {
        lemma_staged_widen(*board, before_pushes, start.len() as int, 0, 65, 120);
    }
    emit_pawn_pushes(board, list);
    let ghost s3 = list.emitted();
    proof {
        lemma_staged_join(*board, before_pushes, s3, start.len() as int, 0, 120, 122);
        lemma_staged_widen(*board, s3, start.len() as int, 0, 122, 130);
        lemma_extends_trans(*board, start, before_pushes, s3);
        lemma_extends_trans(*board, after_pieces, before_pushes, s3);
        lemma_extends_refl(*board, s3);
    }
    emit_pawn_captures(board, list);
    let ghost after_caps = list.emitted();
    proof {
        lemma_staged_join(*board, s3, after_caps, start.len() as int, 0, 130, 132);
        lemma_staged_widen(*board, after_caps, start.len() as int, 0, 132, 150);
        lemma_extends_trans(*board, start, s3, after_caps);
        lemma_extends_trans(*board, after_pieces, s3, after_caps);
    }
    proof {
        lemma_extends_refl(*board, after_caps);
    }

    if let Some(e) = board.ep_square {
        let ghost before = list.emitted();
        emit_ep(board, list, e);
        proof {
            lemma_staged_join(*board, before, list.emitted(), start.len() as int, 0, 150, 151);
            lemma_staged_widen(*board, list.emitted(), start.len() as int, 0, 151, 200);
            lemma_extends_trans(*board, start, before, list.emitted());
            lemma_extends_trans(*board, after_pieces, before, list.emitted());
            lemma_extends_trans(*board, after_caps, before, list.emitted());
            let f = list.emitted();
            assert forall|s: int|
                #[trigger] ep_target(*board, s) && !in_check(
                    after(*pos, us, s, e as int, ep_victim(us, e) as int),
                    us,
                ) implies emitted_after(f, start.len() as int, ep_move(s, e)) by {
                let x = choose|x: int| before.len() <= x < f.len() && #[trigger] f[x] == ep_move(s, e);
                assert(start.len() <= before.len());
            }
        }
    } else {
        proof {
            lemma_staged_widen(*board, list.emitted(), start.len() as int, 0, 150, 200);
        }
    }
    let ghost after_ep = list.emitted();
    proof {
        lemma_extends_refl(*board, after_ep);
    }
    let ghost before = list.emitted();
    emit_castles(board, list);
    proof {
        lemma_staged_join(*board, before, list.emitted(), start.len() as int, 0, 200, 202);
        assert forall|c: Castle|
            #[trigger] castle_ok(*board, c) implies emitted_after(list.emitted(), start.len() as int, castle_move(c)) by {
            let i = choose|i: int| before.len() <= i < list.emitted().len() && #[trigger] list.emitted()[i] == castle_move(c);
            assert(start.len() <= before.len());
        }
        lemma_extends_trans(*board, start, before, list.emitted());
        lemma_extends_trans(*board, after_pieces, before, list.emitted());
        lemma_extends_trans(*board, after_caps, before, list.emitted());
        lemma_extends_trans(*board, after_ep, before, list.emitted());
        let f = list.emitted();
        assert forall|s: int|
            #[trigger] ep_target(*board, s) && !in_check(
                after(*pos, us, s, ep_sq(*board) as int, ep_victim(us, ep_sq(*board)) as int),
                us,
            ) implies emitted_after(f, start.len() as int, ep_move(s, ep_sq(*board))) by {
            lemma_emitted_carry(after_ep, f, start.len() as int, ep_move(s, ep_sq(*board)));
        }
        lemma_extends_trans(*board, s3, after_caps, f);
        assert forall|s: int, t: int, j: int|
            #[trigger] pawn_push_target(*pos, us, s, t) && !in_check(after(*pos, us, s, t, t), us) && 0 <= j
                < pawn_moves(s, t, false).len() implies emitted_after(
                f,
                start.len() as int,
                #[trigger] pawn_moves(s, t, false)[j],
            ) by {
            let mv = pawn_moves(s, t, false)[j];
            let x = choose|x: int| before_pushes.len() <= x < s3.len() && #[trigger] s3[x] == mv;
            assert(start.len() <= before_pushes.len());
            assert(emitted_after(s3, start.len() as int, mv));
            lemma_emitted_carry(s3, f, start.len() as int, mv);
        }
        assert forall|s: int, t: int, j: int|
            #[trigger] pawn_capture_target(*pos, us, s, t) && !in_check(after(*pos, us, s, t, t), us) && 0
                <= j < pawn_moves(s, t, true).len() implies emitted_after(
                f,
                start.len() as int,
                #[trigger] pawn_moves(s, t, true)[j],
            ) by {
            let mv = pawn_moves(s, t, true)[j];
            let x = choose|x: int| s3.len() <= x < after_caps.len() && #[trigger] after_caps[x] == mv;
            assert(start.len() <= s3.len());
            assert(emitted_after(after_caps, start.len() as int, mv));
            lemma_emitted_carry(after_caps, f, start.len() as int, mv);
        }
        assert forall|s: int, t: int|
            #[trigger] piece_target(*pos, us, s, t) && !in_check(after(*pos, us, s, t, t), us) implies emitted_after(
                f,
                start.len() as int,
                plain_move(*pos, us, s, t),
            ) by {
            assert(0 <= s < 64);
            lemma_emitted_carry(after_pieces, f, start.len() as int, plain_move(*pos, us, s, t));
        }
        assert(extends(*board, after_king, f)) by {
            lemma_extends_trans(*board, after_king, after_pieces, f);
        }
        assert forall|s: int, t: int|
            #[trigger] king_target(*pos, us, s, t) && !in_check(after(*pos, us, s, t, t), us) implies emitted_after(
                f,
                start.len() as int,
                plain_move(*pos, us, s, t),
            ) by {
            lemma_emitted_carry(after_king, f, start.len() as int, plain_move(*pos, us, s, t));
        }
    }
}

} // verus!
