use vstd::prelude::*;

verus! {

/// A set of board squares: bit `s` is set exactly when square `s` is a member.
/// Squares are numbered `8 * rank + file`, a1 = 0, h8 = 63.
pub type BB = u64;

/// A square index in `0..64`.
pub type Square = u8;

/// The first and the last rank, where pawns promote.
pub const END_ROWS: u64 = 0xff00_0000_0000_00ff;

pub const FILE_A: u64 = 0x0101_0101_0101_0101;

pub const FILE_H: u64 = 0x8080_8080_8080_8080;

/// Membership of square `s` in the set `b`.
pub open spec fn in_set(b: u64, s: int) -> bool {
    0 <= s < 64 && (b >> (s as u64)) & 1u64 == 1u64
}

pub open spec fn rank(s: int) -> int {
    s / 8
}

pub open spec fn file(s: int) -> int {
    s % 8
}

pub open spec fn on_board(r: int, f: int) -> bool {
    0 <= r < 8 && 0 <= f < 8
}

pub open spec fn sq_of(r: int, f: int) -> int {
    8 * r + f
}

/// The squares of `b` below `n`, in increasing order.
pub open spec fn squares_below(b: u64, n: nat) -> Seq<u8>
    decreases n,
{
    if n == 0 {
        Seq::empty()
    } else if in_set(b, n - 1) {
        squares_below(b, (n - 1) as nat).push((n - 1) as u8)
    } else {
        squares_below(b, (n - 1) as nat)
    }
}

/// The squares of `b` in increasing order.
pub open spec fn squares(b: u64) -> Seq<u8> {
    squares_below(b, 64)
}

proof fn lemma_bit_ops(a: u64, b: u64, s: u64)
    by (bit_vector)
    requires
        s < 64,
    ensures
        ((a | b) >> s) & 1u64 == 1u64 <==> ((a >> s) & 1u64 == 1u64 || (b >> s) & 1u64 == 1u64),
        ((a & b) >> s) & 1u64 == 1u64 <==> ((a >> s) & 1u64 == 1u64 && (b >> s) & 1u64 == 1u64),
        ((!a) >> s) & 1u64 == 1u64 <==> !((a >> s) & 1u64 == 1u64),
        (0u64 >> s) & 1u64 != 1u64,
{
}

/// Union, intersection and complement of square sets act on each square.
pub proof fn lemma_set_ops(a: u64, b: u64)
    ensures
        forall|s: int| #[trigger] in_set(a | b, s) <==> in_set(a, s) || in_set(b, s),
        forall|s: int| #[trigger] in_set(a & b, s) <==> in_set(a, s) && in_set(b, s),
        forall|s: int| 0 <= s < 64 ==> #[trigger] in_set(!a, s) != in_set(a, s),
        forall|s: int| !#[trigger] in_set(0u64, s),
{
    assert forall|s: int| #[trigger] in_set(a | b, s) <==> in_set(a, s) || in_set(b, s) by {
        if 0 <= s < 64 {
            lemma_bit_ops(a, b, s as u64);
        }
    }
    assert forall|s: int| #[trigger] in_set(a & b, s) <==> in_set(a, s) && in_set(b, s) by {
        if 0 <= s < 64 {
            lemma_bit_ops(a, b, s as u64);
        }
    }
    assert forall|s: int| 0 <= s < 64 implies #[trigger] in_set(!a, s) != in_set(a, s) by {
        lemma_bit_ops(a, b, s as u64);
    }
    assert forall|s: int| !#[trigger] in_set(0u64, s) by {
        if 0 <= s < 64 {
            lemma_bit_ops(a, b, s as u64);
        }
    }
}

proof fn lemma_single_bit(s: u64, t: u64)
    by (bit_vector)
    requires
        s < 64,
        t < 64,
    ensures
        ((1u64 << s) >> t) & 1u64 == 1u64 <==> s == t,
{
}

/// The set holding square `s` alone, as a value.
pub open spec fn bit(s: int) -> u64 {
    1u64 << (s as u64)
}

pub proof fn lemma_bit(s: int)
    requires
        0 <= s < 64,
    ensures
        forall|t: int| #[trigger] in_set(bit(s), t) <==> t == s,
{
    assert forall|t: int| #[trigger] in_set(bit(s), t) <==> t == s by {
        if 0 <= t < 64 {
            lemma_single_bit(s as u64, t as u64);
        }
    }
}

/// Whether square `s` is in `b`.
pub fn contains(b: u64, s: u8) -> (r: bool)
    requires
        s < 64,
    ensures
        r == in_set(b, s as int),
{
    (b >> s) & 1 == 1
}

/// The set holding square `s` alone.
pub fn sq_bb(s: u8) -> (r: u64)
    requires
        s < 64,
    ensures
        r == bit(s as int),
        forall|t: int| #[trigger] in_set(r, t) <==> t == s as int,
{
    let r = 1u64 << s;
    assert forall|t: int| #[trigger] in_set(r, t) <==> t == s as int by {
        if 0 <= t < 64 {
            lemma_single_bit(s as u64, t as u64);
        }
    }
    r
}

/// The set holding the square at rank `r + dr` and file `f + df`, or no square
/// where that lies off the board.
pub fn offset_bb(r: i32, f: i32, dr: i32, df: i32) -> (res: u64)
    requires
        -8 <= r <= 16,
        -8 <= f <= 16,
        -8 <= dr <= 8,
        -8 <= df <= 8,
    ensures
        forall|t: int| #[trigger]
            in_set(res, t) <==> on_board(r + dr, f + df) && t == sq_of(r + dr, f + df),
{
    let nr = r + dr;
    let nf = f + df;
    if 0 <= nr && nr < 8 && 0 <= nf && nf < 8 {
        sq_bb((8 * nr + nf) as u8)
    } else {
        proof {
            lemma_set_ops(0, 0);
        }
        0
    }
}

/// Number of squares in `b`.
pub fn pop_count(b: u64) -> (n: u32)
    ensures
        n as int == squares(b).len(),
{
    let mut n: u32 = 0;
    let mut i: u8 = 0;
    while i < 64
        invariant
            i <= 64,
            n as int == squares_below(b, i as nat).len(),
            n <= i,
        decreases 64 - i,
    {
        if contains(b, i) {
            n = n + 1;
        }
        i = i + 1;
    }
    n
}

} // verus!
