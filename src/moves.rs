use vstd::prelude::*;
use crate::attacks::Kind;
use vstd::std_specs::slice::into_iter_elts;
use crate::bitboard::{in_set, contains, lemma_set_ops, END_ROWS};

verus! {

/// The four castlings.
#[derive(Clone, Copy, PartialEq, Eq, Structural, Debug)]
pub enum Castle {
    WhiteKingSide,
    WhiteQueenSide,
    BlackKingSide,
    BlackQueenSide,
}

impl Castle {
    /// The king's square before and after the castling.
    pub open spec fn king_squares(self) -> (u8, u8) {
        match self {
            Castle::WhiteKingSide => (4, 6),
            Castle::WhiteQueenSide => (4, 2),
            Castle::BlackKingSide => (60, 62),
            Castle::BlackQueenSide => (60, 58),
        }
    }
}

#[derive(Clone, Copy, PartialEq, Eq, Structural, Debug)]
pub enum MoveKind {
    Push,
    Capture,
    Castle(Castle),
    EpCapture,
    Promotion(Kind),
    CapturePromotion(Kind),
}

/// One ply: where a man leaves, where it lands, and how.
#[derive(Clone, Copy, PartialEq, Eq, Structural, Debug)]
pub struct Move {
    pub from: u8,
    pub to: u8,
    pub kind: MoveKind,
}

impl Move {
    pub fn new_push(from: u8, to: u8) -> (r: Move)
        ensures
            r == (Move { from, to, kind: MoveKind::Push }),
    {
        Move { from, to, kind: MoveKind::Push }
    }

    pub fn new_capture(from: u8, to: u8) -> (r: Move)
        ensures
            r == (Move { from, to, kind: MoveKind::Capture }),
    {
        Move { from, to, kind: MoveKind::Capture }
    }

    pub fn new_ep_capture(from: u8, to: u8) -> (r: Move)
        ensures
            r == (Move { from, to, kind: MoveKind::EpCapture }),
    {
        Move { from, to, kind: MoveKind::EpCapture }
    }

    /// The king's move of a castling.
    pub fn new_castle(castle: Castle) -> (r: Move)
        ensures
            r == (Move {
                from: castle.king_squares().0,
                to: castle.king_squares().1,
                kind: MoveKind::Castle(castle),
            }),
    {
        let (from, to): (u8, u8) = match castle {
            Castle::WhiteKingSide => (4, 6),
            Castle::WhiteQueenSide => (4, 2),
            Castle::BlackKingSide => (60, 62),
            Castle::BlackQueenSide => (60, 58),
        };
        Move { from, to, kind: MoveKind::Castle(castle) }
    }

    pub fn new_promotion(from: u8, to: u8, kind: Kind) -> (r: Move)
        ensures
            r == (Move { from, to, kind: MoveKind::Promotion(kind) }),
    {
        Move { from, to, kind: MoveKind::Promotion(kind) }
    }

    pub fn new_capture_promotion(from: u8, to: u8, kind: Kind) -> (r: Move)
        ensures
            r == (Move { from, to, kind: MoveKind::CapturePromotion(kind) }),
    {
        Move { from, to, kind: MoveKind::CapturePromotion(kind) }
    }

    pub open spec fn is_promotion(self) -> bool {
        self.kind is Promotion || self.kind is CapturePromotion
    }
}

/// The square a pawn left to land on `to` after a rotation by `shift`: `to` rotated
/// back by `shift`.
pub open spec fn origin(to: u8, shift: usize) -> u8 {
    ((to as int + 64 - (shift % 64) as int) % 64) as u8
}

/// How the moves to one target square are made.
#[derive(Clone, Copy, PartialEq, Eq, Structural, Debug)]
pub enum Gen {
    /// One move of this kind from a fixed square.
    From(u8, MoveKind),
    /// One move of this kind from the target rotated back by the shift.
    Shift(usize, MoveKind),
    /// Four promotions, to queen, knight, bishop and rook, from the target rotated back
    /// by the shift; captures if the flag is set.
    Promo(usize, bool),
}

pub open spec fn promo_kind(capture: bool, k: Kind) -> MoveKind {
    if capture {
        MoveKind::CapturePromotion(k)
    } else {
        MoveKind::Promotion(k)
    }
}

/// The moves made to the target square `t`.
pub open spec fn gen_moves(g: Gen, t: u8) -> Seq<Move> {
    match g {
        Gen::From(from, k) => seq![Move { from, to: t, kind: k }],
        Gen::Shift(shift, k) => seq![Move { from: origin(t, shift), to: t, kind: k }],
        Gen::Promo(shift, cap) => {
            let o = origin(t, shift);
            seq![
                Move { from: o, to: t, kind: promo_kind(cap, Kind::Queen) },
                Move { from: o, to: t, kind: promo_kind(cap, Kind::Knight) },
                Move { from: o, to: t, kind: promo_kind(cap, Kind::Bishop) },
                Move { from: o, to: t, kind: promo_kind(cap, Kind::Rook) },
            ]
        },
    }
}

/// The moves made to the squares of `b` below `n`, square by square upward.
pub open spec fn expand(b: u64, n: nat, g: Gen) -> Seq<Move>
    decreases n,
{
    if n == 0 {
        Seq::empty()
    } else if in_set(b, n - 1) {
        expand(b, (n - 1) as nat, g) + gen_moves(g, (n - 1) as u8)
    } else {
        expand(b, (n - 1) as nat, g)
    }
}

/// The moves made to all squares of `b`.
pub open spec fn all_moves(b: u64, g: Gen) -> Seq<Move> {
    expand(b, 64, g)
}

pub proof fn lemma_expand_len(b: u64, n: nat, g: Gen)
    ensures
        expand(b, n, g).len() <= 4 * n,
    decreases n,
{
    if n > 0 {
        lemma_expand_len(b, (n - 1) as nat, g);
    }
}

/// An accumulator of the moves that a generation pass emits.
pub trait MoveList: Sized {
    /// The moves emitted so far, in order.
    spec fn emitted(&self) -> Seq<Move>;

    spec fn inv(&self) -> bool;

    /// One move from `from` to each square of `targets`: a capture where `enemy` stands,
    /// a push elsewhere.
    fn add_moves(&mut self, from: u8, targets: u64, enemy: u64)
        requires
            old(self).inv(),
            old(self).emitted().len() + 512 <= usize::MAX,
        ensures
            final(self).inv(),
            final(self).emitted() == old(self).emitted() + all_moves(
                targets & !enemy,
                Gen::From(from, MoveKind::Push),
            ) + all_moves(targets & enemy, Gen::From(from, MoveKind::Capture)),
    ;

    fn add_castle(&mut self, castle: Castle)
        requires
            old(self).inv(),
            old(self).emitted().len() + 512 <= usize::MAX,
        ensures
            final(self).inv(),
            final(self).emitted() == old(self).emitted().push(
                Move {
                    from: castle.king_squares().0,
                    to: castle.king_squares().1,
                    kind: MoveKind::Castle(castle),
                },
            ),
    ;

    fn add_pawn_ep_capture(&mut self, from: u8, to: u8)
        requires
            old(self).inv(),
            old(self).emitted().len() + 512 <= usize::MAX,
        ensures
            final(self).inv(),
            final(self).emitted() == old(self).emitted().push(
                Move { from, to, kind: MoveKind::EpCapture },
            ),
    ;

    /// Pawn pushes to the squares of `targets`, each from its target rotated back by
    /// `shift`: four promotions to a square of an end rank, one push elsewhere.
    fn add_pawn_pushes(&mut self, shift: usize, targets: u64)
        requires
            old(self).inv(),
            old(self).emitted().len() + 512 <= usize::MAX,
        ensures
            final(self).inv(),
            final(self).emitted() == old(self).emitted() + all_moves(
                targets & END_ROWS,
                Gen::Promo(shift, false),
            ) + all_moves(targets & !END_ROWS, Gen::Shift(shift, MoveKind::Push)),
    ;

    /// As `add_pawn_pushes`, with captures and capturing promotions.
    fn add_pawn_captures(&mut self, shift: usize, targets: u64)
        requires
            old(self).inv(),
            old(self).emitted().len() + 512 <= usize::MAX,
        ensures
            final(self).inv(),
            final(self).emitted() == old(self).emitted() + all_moves(
                targets & END_ROWS,
                Gen::Promo(shift, true),
            ) + all_moves(targets & !END_ROWS, Gen::Shift(shift, MoveKind::Capture)),
    ;
}

/// The moves made to target `t`, built as `gen_moves` describes.
fn make_moves(g: Gen, t: u8) -> (r: Vec<Move>)
    requires
        t < 64,
    ensures
        r@ == gen_moves(g, t),
{
    match g {
        Gen::From(from, k) => vec![Move { from, to: t, kind: k }],
        Gen::Shift(shift, k) => {
            let from = ((t as usize + 64 - shift % 64) % 64) as u8;
            vec![Move { from, to: t, kind: k }]
        },
        Gen::Promo(shift, cap) => {
            let from = ((t as usize + 64 - shift % 64) % 64) as u8;
            let mut v: Vec<Move> = Vec::new();
            if cap {
                v.push(Move::new_capture_promotion(from, t, Kind::Queen));
                v.push(Move::new_capture_promotion(from, t, Kind::Knight));
                v.push(Move::new_capture_promotion(from, t, Kind::Bishop));
                v.push(Move::new_capture_promotion(from, t, Kind::Rook));
            } else {
                v.push(Move::new_promotion(from, t, Kind::Queen));
                v.push(Move::new_promotion(from, t, Kind::Knight));
                v.push(Move::new_promotion(from, t, Kind::Bishop));
                v.push(Move::new_promotion(from, t, Kind::Rook));
            }
            v
        },
    }
}

/// Collects the emitted moves in a vector.
#[derive(Clone)]
pub struct MoveVec {
    moves: Vec<Move>,
}

impl MoveVec {
    pub fn new() -> (r: MoveVec)
        ensures
            r.inv(),
            r.emitted() == Seq::<Move>::empty(),
    {
        MoveVec { moves: Vec::new() }
    }

    pub fn len(&self) -> (r: usize)
        ensures
            r == self.emitted().len(),
    {
        self.moves.len()
    }

    /// The move at position `idx`.
    pub fn at(&self, idx: usize) -> (r: Move)
        requires
            idx < self.emitted().len(),
        ensures
            r == self.emitted()[idx as int],
    {
        self.moves[idx]
    }

    /// Keeps the first `len` moves.
    pub fn truncate(&mut self, len: usize)
        ensures
            len <= old(self).emitted().len() ==> final(self).emitted() == old(self).emitted().subrange(0, len as int),
            len > old(self).emitted().len() ==> final(self).emitted() == old(self).emitted(),
    {
        self.moves.truncate(len);
    }

    /// The moves, in the order they were emitted.
    pub fn to_vec(&self) -> (r: Vec<Move>)
        ensures
            r@ == self.emitted(),
    {
        self.moves.clone()
    }

    /// Walks the moves in the order they were emitted.
    pub fn iter(&self) -> (r: std::slice::Iter<'_, Move>)
        ensures
            into_iter_elts(r) == self.emitted(),
    {
        let r = self.moves.as_slice().iter();
        proof {
            broadcast use vstd::std_specs::slice::axiom_spec_slice_iter;
            assert(vstd::std_specs::iter::IteratorSpec::remaining(&r) == self.moves@.as_ref());
            assert(self.moves@.as_ref().unref() =~= self.moves@);
        }
        r
    }

    fn insert(&mut self, g: Gen, targets: u64)
        ensures
            final(self).moves@ == old(self).moves@ + all_moves(targets, g),
    {
        let mut i: u8 = 0;
        while i < 64
            invariant
                i <= 64,
                self.moves@ == old(self).moves@ + expand(targets, i as nat, g),
            decreases 64 - i,
        {
            if contains(targets, i) {
                let mut v = make_moves(g, i);
                self.moves.append(&mut v);
            }
            proof {
                assert(self.moves@ =~= old(self).moves@ + expand(targets, (i + 1) as nat, g));
            }
            i = i + 1;
        }
    }
}

impl MoveList for MoveVec {
    closed spec fn emitted(&self) -> Seq<Move> {
        self.moves@
    }

    closed spec fn inv(&self) -> bool {
        true
    }

    fn add_moves(&mut self, from: u8, targets: u64, enemy: u64) {
        self.insert(Gen::From(from, MoveKind::Push), targets & !enemy);
        self.insert(Gen::From(from, MoveKind::Capture), targets & enemy);
    }

    fn add_castle(&mut self, castle: Castle) {
        self.moves.push(Move::new_castle(castle));
    }

    fn add_pawn_ep_capture(&mut self, from: u8, to: u8) {
        self.moves.push(Move::new_ep_capture(from, to));
    }

    fn add_pawn_pushes(&mut self, shift: usize, targets: u64) {
        self.insert(Gen::Promo(shift, false), targets & END_ROWS);
        self.insert(Gen::Shift(shift, MoveKind::Push), targets & !END_ROWS);
    }

    fn add_pawn_captures(&mut self, shift: usize, targets: u64) {
        self.insert(Gen::Promo(shift, true), targets & END_ROWS);
        self.insert(Gen::Shift(shift, MoveKind::Capture), targets & !END_ROWS);
    }
}

/// Counts the emitted moves without keeping them.
pub struct MoveCounter {
    count: usize,
    seen: Ghost<Seq<Move>>,
}

impl MoveCounter {
    pub fn new() -> (r: MoveCounter)
        ensures
            r.inv(),
            r.emitted() == Seq::<Move>::empty(),
    {
        MoveCounter { count: 0, seen: Ghost(Seq::empty()) }
    }

    /// The number of moves emitted.
    pub fn len(&self) -> (r: usize)
        requires
            self.inv(),
        ensures
            r == self.emitted().len(),
    {
        self.count
    }

    fn insert(&mut self, g: Gen, targets: u64)
        requires
            old(self).inv(),
            old(self).seen@.len() + 256 <= usize::MAX,
        ensures
            final(self).inv(),
            final(self).seen@ == old(self).seen@ + all_moves(targets, g),
            final(self).seen@.len() <= old(self).seen@.len() + 256,
    {
        proof {
            lemma_expand_len(targets, 64, g);
        }
        let mut i: u8 = 0;
        while i < 64
            invariant
                i <= 64,
                self.inv(),
                self.seen@ == old(self).seen@ + expand(targets, i as nat, g),
                old(self).seen@.len() + 256 <= usize::MAX,
            decreases 64 - i,
        {
            proof {
                lemma_expand_len(targets, i as nat, g);
            }
            if contains(targets, i) {
                let n: usize = match g {
                    Gen::Promo(_, _) => 4,
                    _ => 1,
                };
                self.count = self.count + n;
                self.seen = Ghost(self.seen@ + gen_moves(g, i));
            }
            proof {
                assert(self.seen@ =~= old(self).seen@ + expand(targets, (i + 1) as nat, g));
            }
            i = i + 1;
        }
    }
}

impl MoveList for MoveCounter {
    closed spec fn emitted(&self) -> Seq<Move> {
        self.seen@
    }

    closed spec fn inv(&self) -> bool {
        self.count == self.seen@.len()
    }

    fn add_moves(&mut self, from: u8, targets: u64, enemy: u64) {
        self.insert(Gen::From(from, MoveKind::Push), targets & !enemy);
        self.insert(Gen::From(from, MoveKind::Capture), targets & enemy);
    }

    fn add_castle(&mut self, castle: Castle) {
        self.count = self.count + 1;
        self.seen = Ghost(self.seen@.push(
            Move {
                from: castle.king_squares().0,
                to: castle.king_squares().1,
                kind: MoveKind::Castle(castle),
            },
        ));
    }

    fn add_pawn_ep_capture(&mut self, from: u8, to: u8) {
        self.count = self.count + 1;
        self.seen = Ghost(self.seen@.push(Move { from, to, kind: MoveKind::EpCapture }));
    }

    fn add_pawn_pushes(&mut self, shift: usize, targets: u64) {
        self.insert(Gen::Promo(shift, false), targets & END_ROWS);
        self.insert(Gen::Shift(shift, MoveKind::Push), targets & !END_ROWS);
    }

    fn add_pawn_captures(&mut self, shift: usize, targets: u64) {
        self.insert(Gen::Promo(shift, true), targets & END_ROWS);
        self.insert(Gen::Shift(shift, MoveKind::Capture), targets & !END_ROWS);
    }
}

/// Selects the moves that land on `t`.
pub open spec fn lands_on(t: u8) -> spec_fn(Move) -> bool {
    |m: Move| m.to == t
}

proof fn lemma_filter_same_target(s: Seq<Move>, u: u8, t: u8)
    requires
        forall|i: int| 0 <= i < s.len() ==> (#[trigger] s[i]).to == u,
    ensures
        s.filter(lands_on(t)) == (if u == t { s } else { Seq::<Move>::empty() }),
    decreases s.len(),
{
    reveal(Seq::filter);
    if s.len() > 0 {
        lemma_filter_same_target(s.drop_last(), u, t);
        if u == t {
            assert(s.drop_last().push(s.last()) =~= s);
        }
    }
}

proof fn lemma_expand_filter(b: u64, n: nat, g: Gen, t: u8)
    requires
        n <= 64,
    ensures
        expand(b, n, g).filter(lands_on(t)) == (if (t as int) < n && in_set(b, t as int) {
            gen_moves(g, t)
        } else {
            Seq::<Move>::empty()
        }),
    decreases n,
{
    reveal(Seq::filter);
    if n > 0 {
        let m = (n - 1) as nat;
        lemma_expand_filter(b, m, g, t);
        if in_set(b, m as int) {
            let x = gen_moves(g, m as u8);
            Seq::filter_distributes_over_add(expand(b, m, g), x, lands_on(t));
            lemma_filter_same_target(x, m as u8, t);
            if (t as int) < m && in_set(b, t as int) {
                assert(gen_moves(g, t) + Seq::<Move>::empty() =~= gen_moves(g, t));
            } else if t as int == m {
                assert(Seq::<Move>::empty() + gen_moves(g, t) =~= gen_moves(g, t));
            } else {
                assert(Seq::<Move>::empty() + Seq::<Move>::empty() =~= Seq::<Move>::empty());
            }
        }
    }
}

/// A pawn target on an end rank yields exactly the four promotions, to queen, knight,
/// bishop and rook in that order, and no other move to that square; any other target
/// yields exactly one plain move.
pub proof fn lemma_promotion_expands(targets: u64, shift: usize, capture: bool, kind: MoveKind, t: u8)
    requires
        t < 64,
        in_set(targets, t as int),
    ensures
        ({
            let added = all_moves(targets & END_ROWS, Gen::Promo(shift, capture)) + all_moves(
                targets & !END_ROWS,
                Gen::Shift(shift, kind),
            );
            &&& in_set(END_ROWS, t as int) ==> added.filter(lands_on(t)) == gen_moves(
                Gen::Promo(shift, capture),
                t,
            )
            &&& !in_set(END_ROWS, t as int) ==> added.filter(lands_on(t)) == gen_moves(
                Gen::Shift(shift, kind),
                t,
            )
        }),
{
    let p = all_moves(targets & END_ROWS, Gen::Promo(shift, capture));
    let q = all_moves(targets & !END_ROWS, Gen::Shift(shift, kind));
    lemma_set_ops(targets, END_ROWS);
    lemma_set_ops(targets, !END_ROWS);
    lemma_set_ops(END_ROWS, 0);
    lemma_expand_filter(targets & END_ROWS, 64, Gen::Promo(shift, capture), t);
    lemma_expand_filter(targets & !END_ROWS, 64, Gen::Shift(shift, kind), t);
    Seq::filter_distributes_over_add(p, q, lands_on(t));
    if in_set(END_ROWS, t as int) {
        assert(p.filter(lands_on(t)) + Seq::<Move>::empty() =~= p.filter(lands_on(t)));
    } else {
        assert(Seq::<Move>::empty() + q.filter(lands_on(t)) =~= q.filter(lands_on(t)));
    }
}

} // verus!
