use vstd::prelude::*;
use crate::bitboard::{
    in_set, rank, file, lemma_set_ops, sq_bb, contains, FILE_A, FILE_H,
};
use crate::geometry::{
    Geometry, abs, sees, reach, bishop_sees, rook_sees, knight_sees, king_sees, attacks_from_sq,
    attacks_from_set, rook_attacks, bishop_attacks, lemma_rook_symmetric, lemma_bishop_symmetric,
};

verus! {

#[derive(Clone, Copy, PartialEq, Eq, Structural, Debug)]
pub enum Side {
    White,
    Black,
}

impl Side {
    pub open spec fn flipped(self) -> Side {
        match self {
            Side::White => Side::Black,
            Side::Black => Side::White,
        }
    }

    /// The other side.
    pub fn flip(self) -> (r: Side)
        ensures
            r == self.flipped(),
    {
        match self {
            Side::White => Side::Black,
            Side::Black => Side::White,
        }
    }
}

#[derive(Clone, Copy, PartialEq, Eq, Structural, Debug)]
pub enum Kind {
    Pawn,
    Knight,
    Bishop,
    Rook,
    Queen,
    King,
}

/// The squares of each kind of man of one side.
#[derive(Clone, Copy, PartialEq, Eq, Structural, Debug)]
pub struct Men {
    pub pawns: u64,
    pub knights: u64,
    pub bishops: u64,
    pub rooks: u64,
    pub queens: u64,
    pub kings: u64,
}

impl Men {
    pub open spec fn all(self) -> u64 {
        self.pawns | self.knights | self.bishops | self.rooks | self.queens | self.kings
    }

    pub open spec fn of(self, k: Kind) -> u64 {
        match k {
            Kind::Pawn => self.pawns,
            Kind::Knight => self.knights,
            Kind::Bishop => self.bishops,
            Kind::Rook => self.rooks,
            Kind::Queen => self.queens,
            Kind::King => self.kings,
        }
    }
}

/// `b` holds exactly one square.
pub open spec fn single(b: u64) -> bool {
    exists|s: int| #[trigger] in_set(b, s) && forall|t: int| in_set(b, t) ==> t == s
}

/// No pawn stands on the first or last rank.
pub open spec fn pawns_inside(b: u64) -> bool {
    forall|s: int| #[trigger] in_set(b, s) ==> 1 <= rank(s) <= 6
}

/// A board: where the men of each side stand.
#[derive(Clone, Copy, PartialEq, Eq, Structural, Debug)]
pub struct Position {
    pub white: Men,
    pub black: Men,
}

impl Position {
    pub open spec fn men_of(self, side: Side) -> Men {
        match side {
            Side::White => self.white,
            Side::Black => self.black,
        }
    }

    pub open spec fn occupied(self) -> u64 {
        self.white.all() | self.black.all()
    }

    /// Bishops and queens of `side`.
    pub open spec fn diag(self, side: Side) -> u64 {
        self.men_of(side).bishops | self.men_of(side).queens
    }

    /// Rooks and queens of `side`.
    pub open spec fn non_diag(self, side: Side) -> u64 {
        self.men_of(side).rooks | self.men_of(side).queens
    }

    /// Each side has one king and no pawn on an end rank.
    pub open spec fn wf(self) -> bool {
        &&& single(self.white.kings)
        &&& single(self.black.kings)
        &&& pawns_inside(self.white.pawns)
        &&& pawns_inside(self.black.pawns)
    }

    pub fn men(&self, side: Side) -> (r: Men)
        ensures
            r == self.men_of(side),
    {
        match side {
            Side::White => self.white,
            Side::Black => self.black,
        }
    }

    /// The squares of the men of `kind` of `side`.
    pub fn bb_pc(&self, kind: Kind, side: Side) -> (r: u64)
        ensures
            r == self.men_of(side).of(kind),
    {
        let m = self.men(side);
        match kind {
            Kind::Pawn => m.pawns,
            Kind::Knight => m.knights,
            Kind::Bishop => m.bishops,
            Kind::Rook => m.rooks,
            Kind::Queen => m.queens,
            Kind::King => m.kings,
        }
    }

    pub fn bb_occupied(&self) -> (r: u64)
        ensures
            r == self.occupied(),
    {
        let w = self.white;
        let b = self.black;
        (w.pawns | w.knights | w.bishops | w.rooks | w.queens | w.kings) | (b.pawns | b.knights
            | b.bishops | b.rooks | b.queens | b.kings)
    }

    pub fn bb_empty(&self) -> (r: u64)
        ensures
            r == !self.occupied(),
    {
        !self.bb_occupied()
    }

    /// The sliders of `side`: those that move along diagonals, and those that move
    /// along ranks and files. Queens are in both.
    pub fn bb_sliders(&self, side: Side) -> (r: (u64, u64))
        ensures
            r == (self.diag(side), self.non_diag(side)),
    {
        let m = self.men(side);
        (m.bishops | m.queens, m.rooks | m.queens)
    }
}

/// A pawn of `side` on `s` captures on `t`.
pub open spec fn pawn_sees(side: Side, s: int, t: int) -> bool {
    &&& 0 <= s < 64
    &&& 0 <= t < 64
    &&& abs(file(t) - file(s)) == 1
    &&& rank(t) - rank(s) == (if side == Side::White { 1int } else { -1int })
}

pub open spec fn pawn_reach(side: Side, pawns: u64, t: int) -> bool {
    exists|s: int| in_set(pawns, s) && #[trigger] pawn_sees(side, s, t)
}

/// The rotation that carries a pawn of `side` to its `i`-th capture square.
pub open spec fn shift_of(side: Side, i: int) -> int {
    if side == Side::White {
        if i == 0 { 7 } else { 9 }
    } else {
        if i == 0 { 55 } else { 57 }
    }
}

/// The file where the `i`-th rotation of `side` lands after wrapping round the board.
pub open spec fn wrap_file(i: int) -> int {
    if i == 0 { 7 } else { 0 }
}

/// The rotation amount and the file mask of the `i`-th capture direction of `side`.
pub fn capture_mask(side: Side, i: usize) -> (r: (u32, u64))
    requires
        i < 2,
    ensures
        r.0 as int == shift_of(side, i as int),
        r.1 == !(if i == 0 { FILE_H } else { FILE_A }),
{
    match side {
        Side::White => if i == 0 { (7, !FILE_H) } else { (9, !FILE_A) },
        Side::Black => if i == 0 { (55, !FILE_H) } else { (57, !FILE_A) },
    }
}

proof fn lemma_rot_bit(b: u64, k: u64, t: u64)
    by (bit_vector)
    requires
        0 < k < 64,
        t < 64,
    ensures
        (((b << k) | (b >> ((64 - k) as u64))) >> t) & 1u64 == 1u64 <==> (b >> (((t + 64 - k)
            % 64) as u64)) & 1u64 == 1u64,
{
}

proof fn lemma_file_masks(t: u64)
    by (bit_vector)
    requires
        t < 64,
    ensures
        (FILE_H >> t) & 1u64 == 1u64 <==> t % 8 == 7,
        (FILE_A >> t) & 1u64 == 1u64 <==> t % 8 == 0,
{
}

/// `b` rotated left by `k` bits.
pub fn rot_left(b: u64, k: u32) -> (r: u64)
    requires
        0 < k < 64,
    ensures
        forall|t: int| 0 <= t < 64 ==> (#[trigger] in_set(r, t) <==> in_set(b, (t + 64 - k) % 64)),
{
    let r = (b << k) | (b >> (64 - k));
    assert forall|t: int| 0 <= t < 64 implies (#[trigger] in_set(r, t) <==> in_set(b, (t + 64 - k) % 64)) by {
        lemma_rot_bit(b, k as u64, t as u64);
    }
    r
}

pub proof fn lemma_masked_file(i: int, t: int)
    requires
        0 <= i < 2,
        0 <= t < 64,
    ensures
        in_set(!(if i == 0 { FILE_H } else { FILE_A }), t) <==> file(t) != wrap_file(i),
{
    lemma_file_masks(t as u64);
    lemma_set_ops(FILE_H, 0);
    lemma_set_ops(FILE_A, 0);
}

proof fn lemma_pawn_white_bits(s: u64, t: u64)
    by (bit_vector)
    requires
        8 <= s < 56,
        t < 64,
    ensures
        (t / 8 == s / 8 + 1 && (t % 8 + 1 == s % 8 || s % 8 + 1 == t % 8)) <==> ((s == (t + 57)
            % 64 && t % 8 != 7) || (s == (t + 55) % 64 && t % 8 != 0)),
{
}

proof fn lemma_pawn_black_bits(s: u64, t: u64)
    by (bit_vector)
    requires
        8 <= s < 56,
        t < 64,
    ensures
        (s / 8 == t / 8 + 1 && (t % 8 + 1 == s % 8 || s % 8 + 1 == t % 8)) <==> ((s == (t + 9)
            % 64 && t % 8 != 7) || (s == (t + 7) % 64 && t % 8 != 0)),
{
}

/// A pawn on `s`, away from the end ranks, captures on `t` exactly when `s` rotated by one
/// of its side's capture shifts lands on `t` without wrapping round a file edge.
pub proof fn lemma_pawn_shift(side: Side, s: int, t: int)
    requires
        0 <= s < 64,
        0 <= t < 64,
        1 <= rank(s) <= 6,
    ensures
        pawn_sees(side, s, t) <==> exists|i: int|
            0 <= i < 2 && s == (t + 64 - shift_of(side, i)) % 64 && file(t) != #[trigger] wrap_file(i),
{
    if side == Side::White {
        lemma_pawn_white_bits(s as u64, t as u64);
    } else {
        lemma_pawn_black_bits(s as u64, t as u64);
    }
    if s == (t + 64 - shift_of(side, 0)) % 64 && file(t) != wrap_file(0) {
        assert(pawn_sees(side, s, t));
    }
    if s == (t + 64 - shift_of(side, 1)) % 64 && file(t) != wrap_file(1) {
        assert(pawn_sees(side, s, t));
    }
    if pawn_sees(side, s, t) {
        if s == (t + 64 - shift_of(side, 0)) % 64 && file(t) != wrap_file(0) {
            assert(0 <= 0int < 2 && s == (t + 64 - shift_of(side, 0)) % 64 && file(t) != wrap_file(0));
        } else {
            assert(0 <= 1int < 2 && s == (t + 64 - shift_of(side, 1)) % 64 && file(t) != wrap_file(1));
        }
    }
}

/// The squares struck by the pawns of `side` on `pawns`.
pub fn pawn_attacks(side: Side, pawns: u64) -> (r: u64)
    requires
        pawns_inside(pawns),
    ensures
        forall|t: int| #[trigger] in_set(r, t) <==> pawn_reach(side, pawns, t),
{
    let (k0, m0) = capture_mask(side, 0);
    let (k1, m1) = capture_mask(side, 1);
    let r0 = rot_left(pawns, k0);
    let r1 = rot_left(pawns, k1);
    let a = r0 & m0;
    let b = r1 & m1;
    proof {
        lemma_set_ops(r0, m0);
        lemma_set_ops(r1, m1);
        lemma_set_ops(a, b);
        assert forall|t: int| #[trigger] in_set(a | b, t) <==> pawn_reach(side, pawns, t) by {
            if 0 <= t < 64 {
                lemma_masked_file(0, t);
                lemma_masked_file(1, t);
                let s0 = (t + 64 - shift_of(side, 0)) % 64;
                let s1 = (t + 64 - shift_of(side, 1)) % 64;
                if in_set(pawns, s0) && file(t) != wrap_file(0) {
                    lemma_pawn_shift(side, s0, t);
                    assert(pawn_sees(side, s0, t));
                }
                if in_set(pawns, s1) && file(t) != wrap_file(1) {
                    lemma_pawn_shift(side, s1, t);
                    assert(pawn_sees(side, s1, t));
                }
                if pawn_reach(side, pawns, t) {
                    let s = choose|s: int| in_set(pawns, s) && #[trigger] pawn_sees(side, s, t);
                    lemma_pawn_shift(side, s, t);
                }
            }
        }
    }
    a | b
}

proof fn lemma_pawn_white_from(s: u64, t: u64)
    by (bit_vector)
    requires
        8 <= s < 56,
        t < 64,
    ensures
        (t / 8 == s / 8 + 1 && (t % 8 + 1 == s % 8 || s % 8 + 1 == t % 8)) <==> ((t == (s + 9)
            % 64 && s % 8 != 7) || (t == (s + 7) % 64 && s % 8 != 0)),
{
}

proof fn lemma_pawn_black_from(s: u64, t: u64)
    by (bit_vector)
    requires
        8 <= s < 56,
        t < 64,
    ensures
        (s / 8 == t / 8 + 1 && (t % 8 + 1 == s % 8 || s % 8 + 1 == t % 8)) <==> ((t == (s + 57)
            % 64 && s % 8 != 7) || (t == (s + 55) % 64 && s % 8 != 0)),
{
}

/// A pawn of `side` on `s`, away from the end ranks, captures on `t` exactly when `t`
/// rotated by one of the other side's capture shifts lands on `s` without wrapping.
proof fn lemma_pawn_source(side: Side, s: int, t: int)
    requires
        0 <= s < 64,
        0 <= t < 64,
        1 <= rank(s) <= 6,
    ensures
        pawn_sees(side, s, t) <==> exists|i: int|
            0 <= i < 2 && t == (s + 64 - shift_of(side.flipped(), i)) % 64 && file(s)
                != #[trigger] wrap_file(i),
{
    if side == Side::White {
        lemma_pawn_white_from(s as u64, t as u64);
    } else {
        lemma_pawn_black_from(s as u64, t as u64);
    }
    let o = side.flipped();
    if pawn_sees(side, s, t) {
        if t == (s + 64 - shift_of(o, 0)) % 64 && file(s) != wrap_file(0) {
            assert(0 <= 0int < 2 && t == (s + 64 - shift_of(o, 0)) % 64 && file(s) != wrap_file(0));
        } else {
            assert(0 <= 1int < 2 && t == (s + 64 - shift_of(o, 1)) % 64 && file(s) != wrap_file(1));
        }
    }
}

/// The lowest square of a non-empty set.
pub fn bitscan(b: u64) -> (r: u8)
    requires
        exists|s: int| in_set(b, s),
    ensures
        r < 64,
        in_set(b, r as int),
        forall|t: int| 0 <= t < r ==> !in_set(b, t),
{
    let ghost w = choose|s: int| in_set(b, s);
    let mut i: u8 = 0;
    while !contains(b, i)
        invariant
            0 <= w < 64,
            in_set(b, w),
            i <= w,
            forall|t: int| 0 <= t < i ==> !in_set(b, t),
        decreases 64 - i,
    {
        i = i + 1;
    }
    i
}

/// Some man of `side` strikes `t`, with `occ` the squares that block sliders.
pub open spec fn attacked(pos: Position, side: Side, occ: u64, t: int) -> bool {
    ||| reach(Geometry::Diag, pos.diag(side), occ, t)
    ||| reach(Geometry::NonDiag, pos.non_diag(side), occ, t)
    ||| reach(Geometry::Knight, pos.men_of(side).knights, occ, t)
    ||| reach(Geometry::King, pos.men_of(side).kings, occ, t)
    ||| pawn_reach(side, pos.men_of(side).pawns, t)
}

/// A knight, pawn, slider or king of `side` on `s` strikes `sq`, with the sliders' rays
/// traced from `sq` through `occ`.
pub open spec fn checker(pos: Position, side: Side, occ: u64, sq: int, s: int) -> bool {
    ||| in_set(pos.men_of(side).knights, s) && knight_sees(sq, s)
    ||| in_set(pos.men_of(side).pawns, s) && pawn_sees(side, s, sq)
    ||| in_set(pos.non_diag(side), s) && rook_sees(occ, sq, s)
    ||| in_set(pos.diag(side), s) && bishop_sees(occ, sq, s)
    ||| in_set(pos.men_of(side).kings, s) && king_sees(sq, s)
}

/// The squares struck by the men of `side`, sliders blocked by `occ`.
fn attacks_by(side: Side, position: &Position, occ: u64) -> (r: u64)
    requires
        single(position.men_of(side).kings),
        pawns_inside(position.men_of(side).pawns),
    ensures
        forall|t: int| #[trigger] in_set(r, t) <==> attacked(*position, side, occ, t),
{
    let (diag, non_diag) = position.bb_sliders(side);
    let a = bishop_attacks(diag, occ);
    let b = rook_attacks(non_diag, occ);
    let knights = position.bb_pc(Kind::Knight, side);
    let c = attacks_from_set(Geometry::Knight, knights, occ);
    let kings = position.bb_pc(Kind::King, side);
    let k = bitscan(kings);
    let d = attacks_from_sq(Geometry::King, k, occ);
    let pawns = position.bb_pc(Kind::Pawn, side);
    let e = pawn_attacks(side, pawns);
    proof {
        lemma_set_ops(a, b);
        lemma_set_ops(a | b, c);
        lemma_set_ops(a | b | c, d);
        lemma_set_ops(a | b | c | d, e);
        assert forall|t: int| #[trigger] in_set(d, t) <==> reach(Geometry::King, kings, occ, t) by {
            if reach(Geometry::King, kings, occ, t) {
                let s = choose|s: int| in_set(kings, s) && #[trigger] sees(Geometry::King, occ, s, t);
                assert(s == k);
            }
        }
    }
    a | b | c | d | e
}

/// The squares a king on `king` may not move to: those struck by `attacker`, with the
/// king taken off the board so that a slider's ray runs on through its square.
pub fn king_danger_squares(king: u64, attacker: Side, position: &Position) -> (r: u64)
    requires
        single(position.men_of(attacker).kings),
        pawns_inside(position.men_of(attacker).pawns),
    ensures
        forall|t: int| #[trigger]
            in_set(r, t) <==> attacked(*position, attacker, position.occupied() & !king, t),
{
    let occupied_without_king = position.bb_occupied() & !king;
    attacks_by(attacker, position, occupied_without_king)
}

/// The squares struck by `attacker`, leaving en passant aside.
pub fn attacked_squares_ignoring_ep(attacker: Side, position: &Position) -> (r: u64)
    requires
        single(position.men_of(attacker).kings),
        pawns_inside(position.men_of(attacker).pawns),
    ensures
        forall|t: int| #[trigger] in_set(r, t) <==> attacked(*position, attacker, position.occupied(), t),
{
    let occupied = position.bb_occupied();
    attacks_by(attacker, position, occupied)
}

/// The men of `attacker` that strike `sq`: knights, pawns, sliders and the king. On the
/// square of the other king, a non-empty result means check.
pub fn checks_to_sq(sq: u8, attacker: Side, position: &Position) -> (r: u64)
    requires
        sq < 64,
        pawns_inside(position.men_of(attacker).pawns),
    ensures
        forall|s: int| #[trigger]
            in_set(r, s) <==> checker(*position, attacker, position.occupied(), sq as int, s),
{
    let occupied = position.bb_occupied();
    let knights = position.bb_pc(Kind::Knight, attacker);
    let kn = attacks_from_sq(Geometry::Knight, sq, occupied);
    let a = kn & knights;
    let pawns = position.bb_pc(Kind::Pawn, attacker);
    let target = sq_bb(sq);
    let other = attacker.flip();
    let (k0, m0) = capture_mask(other, 0);
    let (k1, m1) = capture_mask(other, 1);
    let r0 = rot_left(target, k0);
    let r1 = rot_left(target, k1);
    let b = r0 & m0 & pawns;
    let c = r1 & m1 & pawns;
    let (diag, non_diag) = position.bb_sliders(attacker);
    let rk = attacks_from_sq(Geometry::NonDiag, sq, occupied);
    let bs = attacks_from_sq(Geometry::Diag, sq, occupied);
    let d = rk & non_diag;
    let e = bs & diag;
    let kings = position.bb_pc(Kind::King, attacker);
    let ks = attacks_from_sq(Geometry::King, sq, occupied);
    let f = ks & kings;
    proof {
        lemma_set_ops(ks, kings);
        lemma_set_ops(kn, knights);
        lemma_set_ops(r0, m0);
        lemma_set_ops(r0 & m0, pawns);
        lemma_set_ops(r1, m1);
        lemma_set_ops(r1 & m1, pawns);
        lemma_set_ops(rk, non_diag);
        lemma_set_ops(bs, diag);
        lemma_set_ops(b, c);
        lemma_set_ops(a, b);
        lemma_set_ops(a | b, c);
        lemma_set_ops(a | b | c, d);
        lemma_set_ops(a | b | c | d, e);
        assert forall|s: int| #[trigger] in_set(b | c, s) <==> in_set(pawns, s) && pawn_sees(attacker, s, sq as int) by {
            if 0 <= s < 64 {
                lemma_masked_file(0, s);
                lemma_masked_file(1, s);
                if in_set(pawns, s) {
                    lemma_pawn_source(attacker, s, sq as int);
                    if pawn_sees(attacker, s, sq as int) {
                        let i = choose|i: int|
                            0 <= i < 2 && sq as int == (s + 64 - shift_of(other, i)) % 64 && file(s)
                                != #[trigger] wrap_file(i);
                        if i == 0 {
                            assert(in_set(b, s));
                        } else {
                            assert(in_set(c, s));
                        }
                    }
                }
            }
        }
    }
    let r = a | b | c | d | e | f;
    proof {
        lemma_set_ops(a | b | c | d | e, f);
        assert(knights == position.men_of(attacker).knights);
        assert(pawns == position.men_of(attacker).pawns);
        assert(kings == position.men_of(attacker).kings);
        assert forall|s: int| #[trigger]
            in_set(r, s) <==> checker(*position, attacker, occupied, sq as int, s) by {
            assert(in_set(r, s) <==> (in_set(a, s) || in_set(b | c, s) || in_set(d, s) || in_set(e, s)
                || in_set(f, s)));
        }
    }
    r
}

/// The squares struck both from `source` and from `attacker` along diagonals, with the
/// complement of `empty` blocking: for a slider on `attacker` and a king on `source` in
/// line, the squares between them.
pub fn pin_ray_diag(source: u64, empty: u64, attacker: u64) -> (r: u64)
    ensures
        forall|t: int| #[trigger]
            in_set(r, t) <==> reach(Geometry::Diag, source, !empty, t) && reach(Geometry::Diag, attacker, !empty, t),
{
    let occ = !empty;
    let a = bishop_attacks(source, occ);
    let b = bishop_attacks(attacker, occ);
    proof {
        lemma_set_ops(a, b);
    }
    a & b
}

/// As `pin_ray_diag`, along ranks and files.
pub fn pin_ray_non_diag(source: u64, empty: u64, attacker: u64) -> (r: u64)
    ensures
        forall|t: int| #[trigger]
            in_set(r, t) <==> reach(Geometry::NonDiag, source, !empty, t) && reach(Geometry::NonDiag, attacker, !empty, t),
{
    let occ = !empty;
    let a = rook_attacks(source, occ);
    let b = rook_attacks(attacker, occ);
    proof {
        lemma_set_ops(a, b);
    }
    a & b
}

proof fn lemma_not_not(x: u64)
    by (bit_vector)
    ensures
        !(!x) == x,
{
}

/// The squares between `source` and a diagonal slider on `attacker`, in line on `position`.
pub fn slider_diag_rays_to_squares(source: u64, attacker: u64, position: &Position) -> (r: u64)
    ensures
        forall|t: int| #[trigger]
            in_set(r, t) <==> reach(Geometry::Diag, source, position.occupied(), t) && reach(Geometry::Diag, attacker, position.occupied(), t),
{
    let empty = position.bb_empty();
    proof {
        lemma_not_not(position.occupied());
    }
    pin_ray_diag(source, empty, attacker)
}

/// The squares between `source` and a rank-or-file slider on `attacker` on `position`.
pub fn slider_non_diag_rays_to_squares(source: u64, attacker: u64, position: &Position) -> (r: u64)
    ensures
        forall|t: int| #[trigger]
            in_set(r, t) <==> reach(Geometry::NonDiag, source, position.occupied(), t) && reach(Geometry::NonDiag, attacker, position.occupied(), t),
{
    let empty = position.bb_empty();
    proof {
        lemma_not_not(position.occupied());
    }
    pin_ray_non_diag(source, empty, attacker)
}

/// The attackers of `sq` that `checks_to_sq` reports exist exactly when `sq` is one of the
/// squares struck by `side`, as its attacked squares count them.
pub proof fn lemma_checkers_iff_attacked(pos: Position, side: Side, sq: int)
    requires
        0 <= sq < 64,
    ensures
        (exists|s: int| #[trigger] checker(pos, side, pos.occupied(), sq, s)) <==> attacked(
            pos,
            side,
            pos.occupied(),
            sq,
        ),
{
    let occ = pos.occupied();
    let m = pos.men_of(side);
    if exists|s: int| #[trigger] checker(pos, side, occ, sq, s) {
        let s = choose|s: int| #[trigger] checker(pos, side, occ, sq, s);
        assert(0 <= s < 64);
        lemma_rook_symmetric(occ, sq, s);
        lemma_bishop_symmetric(occ, sq, s);
        if in_set(m.knights, s) && knight_sees(sq, s) {
            assert(sees(Geometry::Knight, occ, s, sq));
        } else if in_set(m.pawns, s) && pawn_sees(side, s, sq) {
        } else if in_set(pos.non_diag(side), s) && rook_sees(occ, sq, s) {
            assert(sees(Geometry::NonDiag, occ, s, sq));
        } else if in_set(pos.diag(side), s) && bishop_sees(occ, sq, s) {
            assert(sees(Geometry::Diag, occ, s, sq));
        } else {
            assert(sees(Geometry::King, occ, s, sq));
        }
    }
    if reach(Geometry::King, m.kings, occ, sq) {
        let s = choose|s: int| in_set(m.kings, s) && #[trigger] sees(Geometry::King, occ, s, sq);
        assert(checker(pos, side, occ, sq, s));
    }
    if reach(Geometry::Diag, pos.diag(side), occ, sq) {
        let s = choose|s: int| in_set(pos.diag(side), s) && #[trigger] sees(Geometry::Diag, occ, s, sq);
        lemma_bishop_symmetric(occ, sq, s);
        assert(checker(pos, side, occ, sq, s));
    }
    if reach(Geometry::NonDiag, pos.non_diag(side), occ, sq) {
        let s = choose|s: int| in_set(pos.non_diag(side), s) && #[trigger] sees(Geometry::NonDiag, occ, s, sq);
        lemma_rook_symmetric(occ, sq, s);
        assert(checker(pos, side, occ, sq, s));
    }
    if reach(Geometry::Knight, m.knights, occ, sq) {
        let s = choose|s: int| in_set(m.knights, s) && #[trigger] sees(Geometry::Knight, occ, s, sq);
        assert(checker(pos, side, occ, sq, s));
    }
    if pawn_reach(side, m.pawns, sq) {
        let s = choose|s: int| in_set(m.pawns, s) && #[trigger] pawn_sees(side, s, sq);
        assert(checker(pos, side, occ, sq, s));
    }
}

} // verus!
