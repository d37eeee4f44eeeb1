use vstd::prelude::*;
use crate::bitboard::{in_set, rank, file, on_board, sq_of, lemma_set_ops, sq_bb, offset_bb, contains};

verus! {

/// The four ways a piece can strike a square.
#[derive(Clone, Copy, PartialEq, Eq, Structural)]
pub enum Geometry {
    /// Bishop-type sliding along diagonals.
    Diag,
    /// Rook-type sliding along ranks and files.
    NonDiag,
    Knight,
    King,
}

pub open spec fn abs(x: int) -> int {
    if x < 0 {
        -x
    } else {
        x
    }
}

/// A ray from rank `r`, file `f` in direction `(dr, df)`, taking up to `fuel` steps,
/// reaches `t`: every square before `t` on the ray is empty in `occ`.
/// The first occupied square is reached too, so that it can be captured.
pub open spec fn ray_hits(occ: u64, r: int, f: int, dr: int, df: int, t: int, fuel: nat) -> bool
    decreases fuel,
{
    if fuel == 0 || !on_board(r + dr, f + df) {
        false
    } else if t == sq_of(r + dr, f + df) {
        true
    } else if in_set(occ, sq_of(r + dr, f + df)) {
        false
    } else {
        ray_hits(occ, r + dr, f + df, dr, df, t, (fuel - 1) as nat)
    }
}

pub open spec fn ray_from(occ: u64, s: int, dr: int, df: int, t: int) -> bool {
    ray_hits(occ, rank(s), file(s), dr, df, t, 8)
}

pub open spec fn rook_sees(occ: u64, s: int, t: int) -> bool {
    ray_from(occ, s, 1, 0, t) || ray_from(occ, s, -1, 0, t) || ray_from(occ, s, 0, 1, t)
        || ray_from(occ, s, 0, -1, t)
}

pub open spec fn bishop_sees(occ: u64, s: int, t: int) -> bool {
    ray_from(occ, s, 1, 1, t) || ray_from(occ, s, 1, -1, t) || ray_from(occ, s, -1, 1, t)
        || ray_from(occ, s, -1, -1, t)
}

pub open spec fn knight_sees(s: int, t: int) -> bool {
    let dr = rank(t) - rank(s);
    let df = file(t) - file(s);
    0 <= s < 64 && 0 <= t < 64 && ((abs(dr) == 1 && abs(df) == 2) || (abs(dr) == 2 && abs(df)
        == 1))
}

pub open spec fn king_sees(s: int, t: int) -> bool {
    let dr = rank(t) - rank(s);
    let df = file(t) - file(s);
    0 <= s < 64 && 0 <= t < 64 && abs(dr) <= 1 && abs(df) <= 1 && s != t
}

/// A piece of geometry `g` on `s` strikes `t`, with `occ` the occupied squares.
pub open spec fn sees(g: Geometry, occ: u64, s: int, t: int) -> bool {
    match g {
        Geometry::Diag => bishop_sees(occ, s, t),
        Geometry::NonDiag => rook_sees(occ, s, t),
        Geometry::Knight => knight_sees(s, t),
        Geometry::King => king_sees(s, t),
    }
}

/// Some piece of geometry `g` on a square of `srcs` strikes `t`.
pub open spec fn reach(g: Geometry, srcs: u64, occ: u64, t: int) -> bool {
    exists|s: int| in_set(srcs, s) && #[trigger] sees(g, occ, s, t)
}

/// The squares that a ray reaches from rank `r`, file `f` in `fuel` steps or fewer.
fn slide(occ: u64, r: i32, f: i32, dr: i32, df: i32, fuel: u32) -> (res: u64)
    requires
        0 <= r < 8,
        0 <= f < 8,
        -1 <= dr <= 1,
        -1 <= df <= 1,
        fuel <= 8,
    ensures
        forall|t: int| #[trigger]
            in_set(res, t) <==> ray_hits(occ, r as int, f as int, dr as int, df as int, t, fuel as nat),
    decreases fuel,
{
    let nr = r + dr;
    let nf = f + df;
    if fuel == 0 || nr < 0 || nr >= 8 || nf < 0 || nf >= 8 {
        proof {
            lemma_set_ops(0, 0);
        }
        0
    } else {
        let s = (8 * nr + nf) as u8;
        let b = sq_bb(s);
        if contains(occ, s) {
            b
        } else {
            let rest = slide(occ, nr, nf, dr, df, fuel - 1);
            proof {
                lemma_set_ops(b, rest);
            }
            b | rest
        }
    }
}

fn rook_from_sq(r: i32, f: i32, occ: u64) -> (res: u64)
    requires
        0 <= r < 8,
        0 <= f < 8,
    ensures
        forall|t: int| #[trigger] in_set(res, t) <==> rook_sees(occ, sq_of(r as int, f as int), t),
{
    let a = slide(occ, r, f, 1, 0, 8);
    let b = slide(occ, r, f, -1, 0, 8);
    let c = slide(occ, r, f, 0, 1, 8);
    let d = slide(occ, r, f, 0, -1, 8);
    proof {
        lemma_set_ops(a, b);
        lemma_set_ops(a | b, c);
        lemma_set_ops(a | b | c, d);
    }
    a | b | c | d
}

fn bishop_from_sq(r: i32, f: i32, occ: u64) -> (res: u64)
    requires
        0 <= r < 8,
        0 <= f < 8,
    ensures
        forall|t: int| #[trigger] in_set(res, t) <==> bishop_sees(occ, sq_of(r as int, f as int), t),
{
    let a = slide(occ, r, f, 1, 1, 8);
    let b = slide(occ, r, f, 1, -1, 8);
    let c = slide(occ, r, f, -1, 1, 8);
    let d = slide(occ, r, f, -1, -1, 8);
    proof {
        lemma_set_ops(a, b);
        lemma_set_ops(a | b, c);
        lemma_set_ops(a | b | c, d);
    }
    a | b | c | d
}

fn knight_from_sq(sq: u8) -> (res: u64)
    requires
        sq < 64,
    ensures
        forall|t: int| #[trigger] in_set(res, t) <==> knight_sees(sq as int, t),
{
    let r = (sq / 8) as i32;
    let f = (sq % 8) as i32;
    let a = offset_bb(r, f, 1, 2);
    let b = offset_bb(r, f, 1, -2);
    let c = offset_bb(r, f, -1, 2);
    let d = offset_bb(r, f, -1, -2);
    let e = offset_bb(r, f, 2, 1);
    let g = offset_bb(r, f, 2, -1);
    let h = offset_bb(r, f, -2, 1);
    let i = offset_bb(r, f, -2, -1);
    let res = a | b | c | d | e | g | h | i;
    proof {
        lemma_set_ops(a, b);
        lemma_set_ops(a | b, c);
        lemma_set_ops(a | b | c, d);
        lemma_set_ops(a | b | c | d, e);
        lemma_set_ops(a | b | c | d | e, g);
        lemma_set_ops(a | b | c | d | e | g, h);
        lemma_set_ops(a | b | c | d | e | g | h, i);
        assert forall|t: int| #[trigger] in_set(res, t) <==> knight_sees(sq as int, t) by {
            if 0 <= t < 64 {
                assert(0 <= rank(t) < 8 && 0 <= file(t) < 8);
            }
        }
    }
    res
}

fn king_from_sq(sq: u8) -> (res: u64)
    requires
        sq < 64,
    ensures
        forall|t: int| #[trigger] in_set(res, t) <==> king_sees(sq as int, t),
{
    let r = (sq / 8) as i32;
    let f = (sq % 8) as i32;
    let a = offset_bb(r, f, 1, 1);
    let b = offset_bb(r, f, 1, 0);
    let c = offset_bb(r, f, 1, -1);
    let d = offset_bb(r, f, 0, 1);
    let e = offset_bb(r, f, 0, -1);
    let g = offset_bb(r, f, -1, 1);
    let h = offset_bb(r, f, -1, 0);
    let i = offset_bb(r, f, -1, -1);
    let res = a | b | c | d | e | g | h | i;
    proof {
        lemma_set_ops(a, b);
        lemma_set_ops(a | b, c);
        lemma_set_ops(a | b | c, d);
        lemma_set_ops(a | b | c | d, e);
        lemma_set_ops(a | b | c | d | e, g);
        lemma_set_ops(a | b | c | d | e | g, h);
        lemma_set_ops(a | b | c | d | e | g | h, i);
        assert forall|t: int| #[trigger] in_set(res, t) <==> king_sees(sq as int, t) by {
            if 0 <= t < 64 {
                assert(0 <= rank(t) < 8 && 0 <= file(t) < 8);
            }
        }
    }
    res
}

/// The squares struck by a piece of geometry `g` on `sq`.
pub fn attacks_from_sq(g: Geometry, sq: u8, occ: u64) -> (res: u64)
    requires
        sq < 64,
    ensures
        forall|t: int| #[trigger] in_set(res, t) <==> sees(g, occ, sq as int, t),
{
    let r = (sq / 8) as i32;
    let f = (sq % 8) as i32;
    match g {
        Geometry::NonDiag => rook_from_sq(r, f, occ),
        Geometry::Diag => bishop_from_sq(r, f, occ),
        Geometry::Knight => knight_from_sq(sq),
        Geometry::King => king_from_sq(sq),
    }
}

/// The squares struck by the pieces of geometry `g` on the squares of `srcs`.
pub fn attacks_from_set(g: Geometry, srcs: u64, occ: u64) -> (res: u64)
    ensures
        forall|t: int| #[trigger] in_set(res, t) <==> reach(g, srcs, occ, t),
{
    let mut acc: u64 = 0;
    let mut i: u8 = 0;
    proof {
        lemma_set_ops(0, 0);
    }
    while i < 64
        invariant
            i <= 64,
            forall|t: int| #[trigger]
                in_set(acc, t) <==> exists|s: int| 0 <= s < i && in_set(srcs, s) && #[trigger] sees(g, occ, s, t),
        decreases 64 - i,
    {
        if contains(srcs, i) {
            let a = attacks_from_sq(g, i, occ);
            proof {
                lemma_set_ops(acc, a);
                assert forall|t: int| #[trigger]
                    in_set(acc | a, t) <==> exists|s: int|
                        0 <= s < i + 1 && in_set(srcs, s) && #[trigger] sees(g, occ, s, t) by {
                    if in_set(a, t) {
                        assert(sees(g, occ, i as int, t));
                    }
                }
            }
            acc = acc | a;
        }
        i = i + 1;
    }
    acc
}

pub fn rook_attacks(srcs: u64, occ: u64) -> (res: u64)
    ensures
        forall|t: int| #[trigger] in_set(res, t) <==> reach(Geometry::NonDiag, srcs, occ, t),
{
    attacks_from_set(Geometry::NonDiag, srcs, occ)
}

pub fn bishop_attacks(srcs: u64, occ: u64) -> (res: u64)
    ensures
        forall|t: int| #[trigger] in_set(res, t) <==> reach(Geometry::Diag, srcs, occ, t),
{
    attacks_from_set(Geometry::Diag, srcs, occ)
}

/// The coordinate `x` moved `k` steps in direction `d`.
pub open spec fn step(x: int, d: int, k: int) -> int {
    if d > 0 {
        x + k
    } else if d < 0 {
        x - k
    } else {
        x
    }
}

/// The squares of the ray strictly before its `k`-th step are empty in `occ`.
pub open spec fn ray_clear(occ: u64, r: int, f: int, dr: int, df: int, k: int) -> bool {
    forall|j: int|
        1 <= j < k ==> !in_set(occ, #[trigger] sq_of(step(r, dr, j), step(f, df, j)))
}

/// `t` lies at some step `k <= fuel` of the ray, on the board, with the way to it clear.
pub open spec fn ray_closed(occ: u64, r: int, f: int, dr: int, df: int, t: int, fuel: nat) -> bool {
    exists|k: int|
        1 <= k <= fuel && on_board(step(r, dr, k), step(f, df, k)) && t == sq_of(
            step(r, dr, k),
            step(f, df, k),
        ) && #[trigger] ray_clear(occ, r, f, dr, df, k)
}

proof fn lemma_ray_closed(occ: u64, r: int, f: int, dr: int, df: int, t: int, fuel: nat)
    requires
        on_board(r, f),
        -1 <= dr <= 1,
        -1 <= df <= 1,
    ensures
        ray_hits(occ, r, f, dr, df, t, fuel) <==> ray_closed(occ, r, f, dr, df, t, fuel),
    decreases fuel,
{
    if fuel == 0 {
    } else if !on_board(r + dr, f + df) {
        if ray_closed(occ, r, f, dr, df, t, fuel) {
            let k = choose|k: int|
                1 <= k <= fuel && on_board(step(r, dr, k), step(f, df, k)) && t == sq_of(
                    step(r, dr, k),
                    step(f, df, k),
                ) && #[trigger] ray_clear(occ, r, f, dr, df, k);
            assert(false);
        }
    } else if t == sq_of(r + dr, f + df) {
        assert(ray_clear(occ, r, f, dr, df, 1));
    } else if in_set(occ, sq_of(r + dr, f + df)) {
        if ray_closed(occ, r, f, dr, df, t, fuel) {
            let k = choose|k: int|
                1 <= k <= fuel && on_board(step(r, dr, k), step(f, df, k)) && t == sq_of(
                    step(r, dr, k),
                    step(f, df, k),
                ) && #[trigger] ray_clear(occ, r, f, dr, df, k);
            assert(sq_of(step(r, dr, 1), step(f, df, 1)) == sq_of(r + dr, f + df));
            assert(false);
        }
    } else {
        let nr = r + dr;
        let nf = f + df;
        let m = (fuel - 1) as nat;
        lemma_ray_closed(occ, nr, nf, dr, df, t, m);
        if ray_closed(occ, nr, nf, dr, df, t, m) {
            let k = choose|k: int|
                1 <= k <= m && on_board(step(nr, dr, k), step(nf, df, k)) && t == sq_of(
                    step(nr, dr, k),
                    step(nf, df, k),
                ) && #[trigger] ray_clear(occ, nr, nf, dr, df, k);
            assert forall|j: int|
                1 <= j < k + 1 implies !in_set(occ, #[trigger] sq_of(step(r, dr, j), step(f, df, j))) by {
                if j > 1 {
                    assert(sq_of(step(r, dr, j), step(f, df, j)) == sq_of(
                        step(nr, dr, j - 1),
                        step(nf, df, j - 1),
                    ));
                }
            }
            assert(ray_clear(occ, r, f, dr, df, k + 1));
        }
        if ray_closed(occ, r, f, dr, df, t, fuel) {
            let k = choose|k: int|
                1 <= k <= fuel && on_board(step(r, dr, k), step(f, df, k)) && t == sq_of(
                    step(r, dr, k),
                    step(f, df, k),
                ) && #[trigger] ray_clear(occ, r, f, dr, df, k);
            assert(k != 1);
            assert forall|j: int|
                1 <= j < k - 1 implies !in_set(occ, #[trigger] sq_of(step(nr, dr, j), step(nf, df, j))) by {
                assert(sq_of(step(nr, dr, j), step(nf, df, j)) == sq_of(
                    step(r, dr, j + 1),
                    step(f, df, j + 1),
                ));
            }
            assert(ray_clear(occ, nr, nf, dr, df, k - 1));
        }
    }
}

proof fn lemma_ray_reverse(occ: u64, a: int, b: int, dr: int, df: int)
    requires
        0 <= a < 64,
        -1 <= dr <= 1,
        -1 <= df <= 1,
        ray_from(occ, a, dr, df, b),
    ensures
        0 <= b < 64,
        ray_from(occ, b, -dr, -df, a),
{
    let ra = rank(a);
    let fa = file(a);
    lemma_ray_closed(occ, ra, fa, dr, df, b, 8);
    let k = choose|k: int|
        1 <= k <= 8 && on_board(step(ra, dr, k), step(fa, df, k)) && b == sq_of(
            step(ra, dr, k),
            step(fa, df, k),
        ) && #[trigger] ray_clear(occ, ra, fa, dr, df, k);
    let rb = step(ra, dr, k);
    let fb = step(fa, df, k);
    assert(rank(b) == rb && file(b) == fb);
    lemma_ray_closed(occ, rb, fb, -dr, -df, a, 8);
    assert forall|j: int|
        1 <= j < k implies !in_set(occ, #[trigger] sq_of(step(rb, -dr, j), step(fb, -df, j))) by {
        assert(sq_of(step(rb, -dr, j), step(fb, -df, j)) == sq_of(
            step(ra, dr, k - j),
            step(fa, df, k - j),
        ));
    }
    assert(ray_clear(occ, rb, fb, -dr, -df, k));
    assert(a == sq_of(step(rb, -dr, k), step(fb, -df, k)));
}

/// A rook-type piece on `a` strikes `b` exactly when one on `b` strikes `a`.
pub proof fn lemma_rook_symmetric(occ: u64, a: int, b: int)
    requires
        0 <= a < 64,
        0 <= b < 64,
    ensures
        rook_sees(occ, a, b) <==> rook_sees(occ, b, a),
{
    if ray_from(occ, a, 1, 0, b) { lemma_ray_reverse(occ, a, b, 1, 0); }
    if ray_from(occ, a, -1, 0, b) { lemma_ray_reverse(occ, a, b, -1, 0); }
    if ray_from(occ, a, 0, 1, b) { lemma_ray_reverse(occ, a, b, 0, 1); }
    if ray_from(occ, a, 0, -1, b) { lemma_ray_reverse(occ, a, b, 0, -1); }
    if ray_from(occ, b, 1, 0, a) { lemma_ray_reverse(occ, b, a, 1, 0); }
    if ray_from(occ, b, -1, 0, a) { lemma_ray_reverse(occ, b, a, -1, 0); }
    if ray_from(occ, b, 0, 1, a) { lemma_ray_reverse(occ, b, a, 0, 1); }
    if ray_from(occ, b, 0, -1, a) { lemma_ray_reverse(occ, b, a, 0, -1); }
}

/// A bishop-type piece on `a` strikes `b` exactly when one on `b` strikes `a`.
pub proof fn lemma_bishop_symmetric(occ: u64, a: int, b: int)
    requires
        0 <= a < 64,
        0 <= b < 64,
    ensures
        bishop_sees(occ, a, b) <==> bishop_sees(occ, b, a),
{
    if ray_from(occ, a, 1, 1, b) { lemma_ray_reverse(occ, a, b, 1, 1); }
    if ray_from(occ, a, 1, -1, b) { lemma_ray_reverse(occ, a, b, 1, -1); }
    if ray_from(occ, a, -1, 1, b) { lemma_ray_reverse(occ, a, b, -1, 1); }
    if ray_from(occ, a, -1, -1, b) { lemma_ray_reverse(occ, a, b, -1, -1); }
    if ray_from(occ, b, 1, 1, a) { lemma_ray_reverse(occ, b, a, 1, 1); }
    if ray_from(occ, b, 1, -1, a) { lemma_ray_reverse(occ, b, a, 1, -1); }
    if ray_from(occ, b, -1, 1, a) { lemma_ray_reverse(occ, b, a, -1, 1); }
    if ray_from(occ, b, -1, -1, a) { lemma_ray_reverse(occ, b, a, -1, -1); }
}

} // verus!
