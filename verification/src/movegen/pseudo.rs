//! What move generation produces, stated over the position: the pseudo-legal moves of a
//! side, in the order in which they are written.
use crate::bits::holds;
use crate::castling::{
    includes, BLACK_LONG_CASTLE, BLACK_SHORT_CASTLE, WHITE_LONG_CASTLE, WHITE_SHORT_CASTLE,
};
use crate::chess_move::{
    Move, CAPTURE, DOUBLE_PUSH, EN_PASSANT, LONG_CASTLE, PROMOTE_CAPTURE_TO_BISHOP,
    PROMOTE_CAPTURE_TO_KNIGHT, PROMOTE_CAPTURE_TO_QUEEN, PROMOTE_CAPTURE_TO_ROOK, PROMOTE_TO_BISHOP,
    PROMOTE_TO_KNIGHT, PROMOTE_TO_QUEEN, PROMOTE_TO_ROOK, QUIET, SHORT_CASTLE,
};
use crate::movegen::non_sliding::{king_reaches, knight_reaches};
use crate::movegen::sliding::{bishop_attacks, rook_attacks};
use crate::piece::{Color, Piece, BB, BK, BN, BQ, BR, WB, WHITE, WK, WN, WP, WQ, WR};
use crate::position::{piece_of, Position};
use crate::square::{Square, A1, A8, B1, B8, C1, C8, D1, D8, E1, E8, F1, F8, G1, G8, H1, H8};
use vstd::prelude::*;

verus! {

/// The moves `f` gives for the squares below `n` that satisfy `pred`, lowest square first.
pub open spec fn collect(pred: spec_fn(int) -> bool, f: spec_fn(int) -> Seq<Move>, n: int) -> Seq<
    Move,
>
    decreases n,
{
    if n <= 0 {
        Seq::empty()
    } else {
        collect(pred, f, n - 1) + if pred(n - 1) {
            f(n - 1)
        } else {
            Seq::empty()
        }
    }
}

/// `base` with the moves `ms` written over it from position `at` on.
pub open spec fn overwrite(base: Seq<Move>, at: int, ms: Seq<Move>) -> Seq<Move> {
    Seq::new(
        base.len(),
        |i: int|
            if at <= i < at + ms.len() {
                ms[i - at]
            } else {
                base[i]
            },
    )
}

/// Squares that do not satisfy `pred` add nothing.
pub proof fn lemma_collect_skip(
    pred: spec_fn(int) -> bool,
    f: spec_fn(int) -> Seq<Move>,
    a: int,
    b: int,
)
    requires
        0 <= a <= b,
        forall|j: int| a <= j < b ==> !#[trigger] pred(j),
    ensures
        collect(pred, f, b) == collect(pred, f, a),
    decreases b - a,
{
    if a < b {
        lemma_collect_skip(pred, f, a, b - 1);
        assert(collect(pred, f, b - 1) + Seq::<Move>::empty() =~= collect(pred, f, b - 1));
    }
}

/// Collecting over more squares gives no fewer moves.
pub proof fn lemma_collect_grows(
    pred: spec_fn(int) -> bool,
    f: spec_fn(int) -> Seq<Move>,
    a: int,
    b: int,
)
    requires
        0 <= a <= b,
    ensures
        collect(pred, f, a).len() <= collect(pred, f, b).len(),
    decreases b - a,
{
    if a < b {
        lemma_collect_grows(pred, f, a, b - 1);
    }
}

/// Every collected move comes from a square that satisfies `pred`.
pub proof fn lemma_collect_member(
    pred: spec_fn(int) -> bool,
    f: spec_fn(int) -> Seq<Move>,
    n: int,
    m: Move,
)
    requires
        0 <= n,
        collect(pred, f, n).contains(m),
    ensures
        exists|t: int| 0 <= t < n && #[trigger] pred(t) && f(t).contains(m),
    decreases n,
{
    if n > 0 {
        let before = collect(pred, f, n - 1);
        let here = if pred(n - 1) {
            f(n - 1)
        } else {
            Seq::empty()
        };
        let i = choose|i: int| 0 <= i < (before + here).len() && (before + here)[i] == m;
        if i < before.len() {
            assert(before[i] == m);
            lemma_collect_member(pred, f, n - 1, m);
        } else {
            assert(here[i - before.len()] == m);
            assert(pred(n - 1) && f(n - 1).contains(m));
        }
    }
}

/// Writing no moves changes nothing.
pub proof fn lemma_overwrite_nothing(base: Seq<Move>, at: int)
    ensures
        overwrite(base, at, Seq::empty()) == base,
{
    assert(overwrite(base, at, Seq::empty()) =~= base);
}

/// Writing two runs of moves one after the other is writing their concatenation.
pub proof fn lemma_overwrite_twice(base: Seq<Move>, at: int, a: Seq<Move>, b: Seq<Move>)
    requires
        0 <= at,
        at + a.len() + b.len() <= base.len(),
    ensures
        overwrite(overwrite(base, at, a), at + a.len(), b) == overwrite(base, at, a + b),
{
    assert(overwrite(overwrite(base, at, a), at + a.len(), b) =~= overwrite(base, at, a + b));
}

/// Collecting at most `k` moves from each of `n` squares gives at most `n * k` moves.
pub proof fn lemma_collect_bound(
    pred: spec_fn(int) -> bool,
    f: spec_fn(int) -> Seq<Move>,
    n: int,
    k: int,
)
    requires
        0 <= n,
        forall|t: int| 0 <= t < n ==> (#[trigger] f(t)).len() <= k,
    ensures
        collect(pred, f, n).len() <= n * k,
    decreases n,
{
    if n > 0 {
        lemma_collect_bound(pred, f, n - 1, k);
        assert((n - 1) * k + k == n * k) by (nonlinear_arith);
        assert(f(n - 1).len() <= k);
    } else {
        assert(n * k == 0) by (nonlinear_arith)
            requires
                n == 0,
        ;
    }
}

/// A buffer of this many moves holds the pseudo-legal moves of any position.
pub const MAX_MOVES: usize = 21952;

/// No position has more than `MAX_MOVES` pseudo-legal moves.
pub proof fn lemma_moves_fit(p: Position, c: Color)
    ensures
        p.pseudo_legal(c).len() <= MAX_MOVES,
{
    lemma_pawn_moves_fit(p, c);
    lemma_piece_moves_fit(p, piece_of(c, WN));
    lemma_piece_moves_fit(p, piece_of(c, WB));
    lemma_piece_moves_fit(p, piece_of(c, WR));
    lemma_piece_moves_fit(p, piece_of(c, WQ));
    lemma_piece_moves_fit(p, piece_of(c, WK));
}

/// The pawns of one colour have at most four moves to each of 64 squares by a single
/// step, one by a double step, and four by a capture to either side.
pub proof fn lemma_pawn_moves_fit(p: Position, c: Color)
    ensures
        p.single_pushes(c).len() <= 256,
        p.double_pushes(c).len() <= 64,
        p.diagonals(c, true).len() <= 256,
        p.diagonals(c, false).len() <= 256,
        p.pawn_moves(c).len() <= 832,
{
    lemma_collect_bound(p.single_push_target(c), p.single_push_at(c), 64, 4);
    lemma_collect_bound(p.double_push_target(c), p.double_push_at(c), 64, 1);
    lemma_collect_bound(p.diagonal_target(c, true), p.diagonal_at(c, true), 64, 4);
    lemma_collect_bound(p.diagonal_target(c, false), p.diagonal_at(c, false), 64, 4);
}

/// The pieces of one kind have at most 64 times 66 moves.
pub proof fn lemma_piece_moves_fit(p: Position, piece: Piece)
    ensures
        p.piece_moves(piece).len() <= 4224,
{
    let f = p.moves_from(piece);
    assert forall|from: int| 0 <= from < 64 implies (#[trigger] f(from)).len() <= 66 by {
        lemma_collect_bound(p.piece_target(piece, from), p.piece_move_at(piece, from), 64, 1);
    }
    lemma_collect_bound(p.holds_kind(piece), f, 64, 66);
}

/// The number of squares a pawn of colour `c` advances by one step.
pub open spec fn forward(c: Color) -> int {
    if c.0 == WHITE {
        8
    } else {
        -8
    }
}

/// Whether `t` lies on the rank where pawns of colour `c` promote.
pub open spec fn on_last_rank(c: Color, t: int) -> bool {
    t / 8 == if c.0 == WHITE {
        7int
    } else {
        0int
    }
}

/// The four promotions of a pawn move, knight first.
pub open spec fn promotions(from: int, to: int, taking: bool) -> Seq<Move> {
    if taking {
        seq![
            Move::build(from, to, PROMOTE_CAPTURE_TO_KNIGHT as int),
            Move::build(from, to, PROMOTE_CAPTURE_TO_BISHOP as int),
            Move::build(from, to, PROMOTE_CAPTURE_TO_ROOK as int),
            Move::build(from, to, PROMOTE_CAPTURE_TO_QUEEN as int),
        ]
    } else {
        seq![
            Move::build(from, to, PROMOTE_TO_KNIGHT as int),
            Move::build(from, to, PROMOTE_TO_BISHOP as int),
            Move::build(from, to, PROMOTE_TO_ROOK as int),
            Move::build(from, to, PROMOTE_TO_QUEEN as int),
        ]
    }
}

impl Position {
    /// Whether a pawn of colour `c` can step onto `t`: `t` is empty and the pawn stands
    /// right behind it.
    pub open spec fn single_push_target(self, c: Color) -> spec_fn(int) -> bool {
        |t: int|
            self.empty_at(t) && 0 <= t - forward(c) < 64 && self.mailbox[t - forward(c)]
                == piece_of(c, WP)
    }

    /// The moves of the pawn that steps onto `t`.
    pub open spec fn single_push_at(self, c: Color) -> spec_fn(int) -> Seq<Move> {
        |t: int|
            if on_last_rank(c, t) {
                promotions(t - forward(c), t, false)
            } else {
                seq![Move::build(t - forward(c), t, QUIET as int)]
            }
    }

    /// The single steps of the pawns of colour `c`, by target square.
    pub open spec fn single_pushes(self, c: Color) -> Seq<Move> {
        collect(self.single_push_target(c), self.single_push_at(c), 64)
    }

    /// Whether a pawn of colour `c` can advance two squares onto `t`: it stands on its home
    /// rank two squares behind `t`, and `t` and the square between are empty.
    pub open spec fn double_push_target(self, c: Color) -> spec_fn(int) -> bool {
        |t: int|
            {
                let from = t - 2 * forward(c);
                &&& self.empty_at(t)
                &&& 0 <= from < 64
                &&& from / 8 == if c.0 == WHITE {
                    1int
                } else {
                    6int
                }
                &&& self.mailbox[from] == piece_of(c, WP)
                &&& self.empty_at(t - forward(c))
            }
    }

    /// The move of the pawn that advances two squares onto `t`.
    pub open spec fn double_push_at(self, c: Color) -> spec_fn(int) -> Seq<Move> {
        |t: int| seq![Move::build(t - 2 * forward(c), t, DOUBLE_PUSH as int)]
    }

    /// The double steps of the pawns of colour `c`, by target square.
    pub open spec fn double_pushes(self, c: Color) -> Seq<Move> {
        collect(self.double_push_target(c), self.double_push_at(c), 64)
    }

    /// Whether a pawn of colour `c` can take on `t` towards the a-file (`is_left`) or
    /// towards the h-file: it stands diagonally behind `t`, and `t` holds an enemy piece
    /// or is the en-passant target.
    pub open spec fn diagonal_target(self, c: Color, is_left: bool) -> spec_fn(int) -> bool {
        |t: int|
            {
                let from = diagonal_origin(c, is_left, t);
                &&& 0 <= from < 64
                &&& from % 8 != if is_left {
                    0int
                } else {
                    7int
                }
                &&& self.mailbox[from] == piece_of(c, WP)
                &&& (self.mailbox[t].is_of(c.other()) || holds(self.en_passant.0, t))
            }
    }

    /// The moves of the pawn that takes on `t`.
    pub open spec fn diagonal_at(self, c: Color, is_left: bool) -> spec_fn(int) -> Seq<Move> {
        |t: int|
            if on_last_rank(c, t) {
                promotions(diagonal_origin(c, is_left, t), t, true)
            } else {
                seq![
                    Move::build(
                        diagonal_origin(c, is_left, t),
                        t,
                        if holds(self.en_passant.0, t) {
                            EN_PASSANT as int
                        } else {
                            CAPTURE as int
                        },
                    ),
                ]
            }
    }

    /// The captures of the pawns of colour `c` to one side, by target square.
    pub open spec fn diagonals(self, c: Color, is_left: bool) -> Seq<Move> {
        collect(self.diagonal_target(c, is_left), self.diagonal_at(c, is_left), 64)
    }

    /// The pawn moves of colour `c`: single steps, double steps, captures towards the
    /// a-file, captures towards the h-file.
    pub open spec fn pawn_moves(self, c: Color) -> Seq<Move> {
        self.single_pushes(c) + self.double_pushes(c) + self.diagonals(c, true) + self.diagonals(
            c,
            false,
        )
    }

    /// Whether the piece `piece`, standing on `from`, attacks `to`. Pawns and the empty
    /// mark attack nothing here.
    pub open spec fn reaches(self, piece: Piece, from: int, to: int) -> bool {
        let occ = self.occupied();
        let sq = Square(from as u8);
        if piece.0 == WN || piece.0 == BN {
            knight_reaches(from, to)
        } else if piece.0 == WB || piece.0 == BB {
            holds(bishop_attacks(sq, occ), to)
        } else if piece.0 == WR || piece.0 == BR {
            holds(rook_attacks(sq, occ), to)
        } else if piece.0 == WQ || piece.0 == BQ {
            holds(rook_attacks(sq, occ) | bishop_attacks(sq, occ), to)
        } else if piece.0 == WK || piece.0 == BK {
            king_reaches(from, to)
        } else {
            false
        }
    }

    /// Whether `piece` on `from` can move to `to`: it attacks `to` and no piece of its own
    /// colour stands there.
    pub open spec fn piece_target(self, piece: Piece, from: int) -> spec_fn(int) -> bool {
        |to: int| self.reaches(piece, from, to) && !self.mailbox[to].is_of(piece.side())
    }

    /// The move of `piece` from `from` to `to`: a capture when an enemy piece stands on
    /// `to`.
    pub open spec fn piece_move_at(self, piece: Piece, from: int) -> spec_fn(int) -> Seq<Move> {
        |to: int|
            seq![
                Move::build(
                    from,
                    to,
                    if self.mailbox[to].is_of(piece.side().other()) {
                        CAPTURE as int
                    } else {
                        QUIET as int
                    },
                ),
            ]
    }

    /// Short castling of colour `c`, if the right is there, the two squares between king
    /// and rook are empty, the rook stands in its corner, and neither the king's square
    /// nor the two squares it crosses are attacked.
    pub open spec fn short_castle(self, c: Color) -> Seq<Move> {
        let white = c.0 == WHITE;
        let e = if white { E1 } else { E8 };
        let f = if white { F1 } else { F8 };
        let g = if white { G1 } else { G8 };
        let h = if white { H1 } else { H8 };
        if includes(
            self.castling.bits,
            if white {
                WHITE_SHORT_CASTLE
            } else {
                BLACK_SHORT_CASTLE
            },
        ) && self.empty_at(f as int) && self.empty_at(g as int) && self.mailbox[h as int]
            == piece_of(c, WR) && !self.attacked(Square(e), c.other()) && !self.attacked(
            Square(f),
            c.other(),
        ) && !self.attacked(Square(g), c.other()) {
            seq![Move::build(e as int, f as int, SHORT_CASTLE as int)]
        } else {
            Seq::empty()
        }
    }

    /// Long castling of colour `c`, if the right is there, the three squares between king
    /// and rook are empty, the rook stands in its corner, and neither the king's square
    /// nor the two squares it crosses are attacked.
    pub open spec fn long_castle(self, c: Color) -> Seq<Move> {
        let white = c.0 == WHITE;
        let e = if white { E1 } else { E8 };
        let d = if white { D1 } else { D8 };
        let cc = if white { C1 } else { C8 };
        let b = if white { B1 } else { B8 };
        let a = if white { A1 } else { A8 };
        if includes(
            self.castling.bits,
            if white {
                WHITE_LONG_CASTLE
            } else {
                BLACK_LONG_CASTLE
            },
        ) && self.empty_at(d as int) && self.empty_at(cc as int) && self.empty_at(b as int)
            && self.mailbox[a as int] == piece_of(c, WR) && !self.attacked(Square(e), c.other())
            && !self.attacked(Square(d), c.other()) && !self.attacked(Square(cc), c.other()) {
            seq![Move::build(e as int, cc as int, LONG_CASTLE as int)]
        } else {
            Seq::empty()
        }
    }

    /// The castling moves written after the moves of each king.
    pub open spec fn castles(self, piece: Piece) -> Seq<Move> {
        if piece.0 == WK || piece.0 == BK {
            self.short_castle(piece.side()) + self.long_castle(piece.side())
        } else {
            Seq::empty()
        }
    }

    /// The moves of the piece `piece` that stands on `from`, by target square, followed by
    /// the castling moves if it is a king.
    pub open spec fn moves_from(self, piece: Piece) -> spec_fn(int) -> Seq<Move> {
        |from: int|
            collect(self.piece_target(piece, from), self.piece_move_at(piece, from), 64)
                + self.castles(piece)
    }

    /// The moves of all pieces of the kind `piece`, by the square they stand on.
    pub open spec fn piece_moves(self, piece: Piece) -> Seq<Move> {
        collect(self.holds_kind(piece), self.moves_from(piece), 64)
    }

    /// The pseudo-legal moves of colour `c`: pawns first, then knights, bishops, rooks,
    /// queens and the king.
    pub open spec fn pseudo_legal(self, c: Color) -> Seq<Move> {
        self.pawn_moves(c) + self.piece_moves(piece_of(c, WN)) + self.piece_moves(piece_of(c, WB))
            + self.piece_moves(piece_of(c, WR)) + self.piece_moves(piece_of(c, WQ))
            + self.piece_moves(piece_of(c, WK))
    }
}

/// The square from which a pawn of colour `c` takes on `t`, towards the a-file or towards
/// the h-file.
pub open spec fn diagonal_origin(c: Color, is_left: bool, t: int) -> int {
    t - forward(c) + if is_left {
        1int
    } else {
        -1int
    }
}

} // verus!
