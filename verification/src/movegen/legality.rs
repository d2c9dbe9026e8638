//! What the generated moves are: every pseudo-legal move carries one of the fourteen named
//! flags, and in a sound position every pseudo-legal move of the side to move is a move
//! that `make_move` accepts.
use crate::bits::{holds, lemma_at_most_one, lemma_holds_bit, lemma_zero_holds_nothing, lowest};
use crate::chess_move::{
    Move, CAPTURE, DOUBLE_PUSH, EN_PASSANT, LONG_CASTLE, PROMOTE_CAPTURE_TO_BISHOP,
    PROMOTE_CAPTURE_TO_KNIGHT, PROMOTE_CAPTURE_TO_QUEEN, PROMOTE_CAPTURE_TO_ROOK, PROMOTE_TO_BISHOP,
    PROMOTE_TO_KNIGHT, PROMOTE_TO_QUEEN, PROMOTE_TO_ROOK, QUIET, SHORT_CASTLE,
};
use crate::movegen::pseudo::{
    collect, diagonal_origin, forward, lemma_collect_member, on_last_rank, promotions,
};
use crate::piece::{Color, WB, WHITE, WK, WN, WQ, WR};
use crate::position::{piece_of, Position};
use vstd::prelude::*;

verus! {

/// Whether a flag is one of the fourteen that name a kind of move; 6 and 7 name none.
pub open spec fn is_named_flag(flag: int) -> bool {
    0 <= flag < 16 && flag != 6 && flag != 7
}

/// The parts of a packed move are the parts it was built from.
pub proof fn lemma_build_parts(from: int, to: int, flag: int)
    requires
        0 <= from < 64,
        0 <= to < 64,
        0 <= flag < 16,
    ensures
        Move::build(from, to, flag).from_ix() == from,
        Move::build(from, to, flag).to_ix() == to,
        Move::build(from, to, flag).flag() == flag,
{
}

/// A member of a concatenation is a member of one of its parts.
pub proof fn lemma_concat_member(a: Seq<Move>, b: Seq<Move>, m: Move)
    requires
        (a + b).contains(m),
    ensures
        a.contains(m) || b.contains(m),
{
    let i = choose|i: int| 0 <= i < (a + b).len() && (a + b)[i] == m;
    if i < a.len() {
        assert(a[i] == m);
    } else {
        assert(b[i - a.len()] == m);
    }
}

/// A promotion move is one of the four that `promotions` lists.
proof fn lemma_promotion_member(from: int, to: int, taking: bool, m: Move)
    requires
        0 <= from < 64,
        0 <= to < 64,
        promotions(from, to, taking).contains(m),
    ensures
        m.from_ix() == from,
        m.to_ix() == to,
        if taking {
            12 <= m.flag() < 16
        } else {
            8 <= m.flag() < 12
        },
{
    let s = promotions(from, to, taking);
    let i = choose|i: int| 0 <= i < s.len() && s[i] == m;
    lemma_build_parts(from, to, PROMOTE_TO_KNIGHT as int);
    lemma_build_parts(from, to, PROMOTE_TO_BISHOP as int);
    lemma_build_parts(from, to, PROMOTE_TO_ROOK as int);
    lemma_build_parts(from, to, PROMOTE_TO_QUEEN as int);
    lemma_build_parts(from, to, PROMOTE_CAPTURE_TO_KNIGHT as int);
    lemma_build_parts(from, to, PROMOTE_CAPTURE_TO_BISHOP as int);
    lemma_build_parts(from, to, PROMOTE_CAPTURE_TO_ROOK as int);
    lemma_build_parts(from, to, PROMOTE_CAPTURE_TO_QUEEN as int);
    assert(s.len() == 4);
    assert(s[0] == m || s[1] == m || s[2] == m || s[3] == m);
}

/// The single steps carry named flags, and those of the side to move can be made.
proof fn lemma_single_push_plays(p: Position, c: Color, m: Move)
    requires
        p.wf(),
        c.wf(),
        p.single_pushes(c).contains(m),
    ensures
        is_named_flag(m.flag()),
        p.sound() && c == p.side ==> p.plays(m),
{
    lemma_collect_member(p.single_push_target(c), p.single_push_at(c), 64, m);
    let t = choose|t: int|
        0 <= t < 64 && #[trigger] p.single_push_target(c)(t) && p.single_push_at(c)(t).contains(m);
    let from = t - forward(c);
    if on_last_rank(c, t) {
        lemma_promotion_member(from, t, false, m);
    } else {
        let s = p.single_push_at(c)(t);
        assert(s.len() == 1);
        assert(s[0] == m);
        lemma_build_parts(from, t, QUIET as int);
    }
}

/// The double steps carry a named flag, and those of the side to move can be made.
proof fn lemma_double_push_plays(p: Position, c: Color, m: Move)
    requires
        p.wf(),
        c.wf(),
        p.double_pushes(c).contains(m),
    ensures
        is_named_flag(m.flag()),
        p.sound() && c == p.side ==> p.plays(m),
{
    lemma_collect_member(p.double_push_target(c), p.double_push_at(c), 64, m);
    let t = choose|t: int|
        0 <= t < 64 && #[trigger] p.double_push_target(c)(t) && p.double_push_at(c)(t).contains(m);
    let from = t - 2 * forward(c);
    let s = p.double_push_at(c)(t);
    assert(s.len() == 1);
    assert(s[0] == m);
    lemma_build_parts(from, t, DOUBLE_PUSH as int);
}

/// The pawn captures carry named flags, and those of the side to move can be made.
proof fn lemma_diagonal_plays(p: Position, c: Color, is_left: bool, m: Move)
    requires
        p.wf(),
        c.wf(),
        p.diagonals(c, is_left).contains(m),
    ensures
        is_named_flag(m.flag()),
        p.sound() && c == p.side ==> p.plays(m),
{
    lemma_collect_member(p.diagonal_target(c, is_left), p.diagonal_at(c, is_left), 64, m);
    let t = choose|t: int|
        0 <= t < 64 && #[trigger] p.diagonal_target(c, is_left)(t) && p.diagonal_at(c, is_left)(
            t,
        ).contains(m);
    let from = diagonal_origin(c, is_left, t);
    let ep = p.en_passant.0;
    if holds(ep, t) {
        lemma_zero_holds_nothing(ep);
        lemma_at_most_one(ep);
        lemma_holds_bit(lowest(ep), t);
        assert(t == lowest(ep));
    }
    assert(p.mailbox[t].wf());
    if on_last_rank(c, t) {
        lemma_promotion_member(from, t, true, m);
    } else {
        let s = p.diagonal_at(c, is_left)(t);
        assert(s.len() == 1);
        assert(s[0] == m);
        lemma_build_parts(from, t, EN_PASSANT as int);
        lemma_build_parts(from, t, CAPTURE as int);
    }
}

/// The moves of the knights, bishops, rooks, queens and king carry named flags, and those
/// of the side to move can be made.
proof fn lemma_piece_plays(p: Position, c: Color, kind: u8, m: Move)
    requires
        p.wf(),
        c.wf(),
        kind == WN || kind == WB || kind == WR || kind == WQ || kind == WK,
        p.piece_moves(piece_of(c, kind)).contains(m),
    ensures
        is_named_flag(m.flag()),
        p.sound() && c == p.side ==> p.plays(m),
{
    let piece = piece_of(c, kind);
    lemma_collect_member(p.holds_kind(piece), p.moves_from(piece), 64, m);
    let from = choose|from: int|
        0 <= from < 64 && #[trigger] p.holds_kind(piece)(from) && p.moves_from(piece)(
            from,
        ).contains(m);
    let plain = collect(p.piece_target(piece, from), p.piece_move_at(piece, from), 64);
    lemma_concat_member(plain, p.castles(piece), m);
    if plain.contains(m) {
        lemma_collect_member(p.piece_target(piece, from), p.piece_move_at(piece, from), 64, m);
        let to = choose|to: int|
            0 <= to < 64 && #[trigger] p.piece_target(piece, from)(to) && p.piece_move_at(
                piece,
                from,
            )(to).contains(m);
        let s = p.piece_move_at(piece, from)(to);
        assert(s.len() == 1);
        assert(s[0] == m);
        lemma_build_parts(from, to, QUIET as int);
        lemma_build_parts(from, to, CAPTURE as int);
        assert(p.mailbox[to].wf());
    } else {
        assert(kind == WK);
        lemma_concat_member(p.short_castle(c), p.long_castle(c), m);
        let white = c.0 == WHITE;
        if p.short_castle(c).contains(m) {
            let s = p.short_castle(c);
            assert(s.len() == 1);
            assert(s[0] == m);
            lemma_build_parts(
                if white {
                    4
                } else {
                    60
                },
                if white {
                    5
                } else {
                    61
                },
                SHORT_CASTLE as int,
            );
        } else {
            let s = p.long_castle(c);
            assert(s.len() == 1);
            assert(s[0] == m);
            lemma_build_parts(
                if white {
                    4
                } else {
                    60
                },
                if white {
                    2
                } else {
                    58
                },
                LONG_CASTLE as int,
            );
        }
    }
}

/// In a sound position every pseudo-legal move of the side to move can be made, is a move
/// of a piece of that side, and takes no piece of that side.
pub proof fn lemma_generated_plays(p: Position, m: Move)
    requires
        p.sound(),
        p.pseudo_legal(p.side).contains(m),
    ensures
        p.plays(m),
{
    lemma_generated_shape(p, p.side, m);
}

/// Every pseudo-legal move, of either side and in any position, carries one of the fourteen
/// named flags; the flags 6 and 7 are never produced. In a sound position the moves of
/// the side to move can also be made.
pub proof fn lemma_generated_shape(p: Position, c: Color, m: Move)
    requires
        p.wf(),
        c.wf(),
        p.pseudo_legal(c).contains(m),
    ensures
        is_named_flag(m.flag()),
        p.sound() && c == p.side ==> p.plays(m),
{
    let a = p.pawn_moves(c);
    let n = p.piece_moves(piece_of(c, WN));
    let b = p.piece_moves(piece_of(c, WB));
    let r = p.piece_moves(piece_of(c, WR));
    let q = p.piece_moves(piece_of(c, WQ));
    let k = p.piece_moves(piece_of(c, WK));
    lemma_concat_member(a + n + b + r + q, k, m);
    if k.contains(m) {
        lemma_piece_plays(p, c, WK, m);
    } else {
        lemma_concat_member(a + n + b + r, q, m);
        if q.contains(m) {
            lemma_piece_plays(p, c, WQ, m);
        } else {
            lemma_concat_member(a + n + b, r, m);
            if r.contains(m) {
                lemma_piece_plays(p, c, WR, m);
            } else {
                lemma_concat_member(a + n, b, m);
                if b.contains(m) {
                    lemma_piece_plays(p, c, WB, m);
                } else {
                    lemma_concat_member(a, n, m);
                    if n.contains(m) {
                        lemma_piece_plays(p, c, WN, m);
                    } else {
                        let s1 = p.single_pushes(c);
                        let s2 = p.double_pushes(c);
                        let s3 = p.diagonals(c, true);
                        let s4 = p.diagonals(c, false);
                        lemma_concat_member(s1 + s2 + s3, s4, m);
                        if s4.contains(m) {
                            lemma_diagonal_plays(p, c, false, m);
                        } else {
                            lemma_concat_member(s1 + s2, s3, m);
                            if s3.contains(m) {
                                lemma_diagonal_plays(p, c, true, m);
                            } else {
                                lemma_concat_member(s1, s2, m);
                                if s2.contains(m) {
                                    lemma_double_push_plays(p, c, m);
                                } else {
                                    lemma_single_push_plays(p, c, m);
                                }
                            }
                        }
                    }
                }
            }
        }
    }
}

} // verus!
