//! Pseudo-legal move generation into a caller's buffer.
use crate::bitboard::BitBoard;
use crate::bits::{
    drop_lowest, holds, lemma_bit_lowest, lemma_bit_meets, lemma_holds_connectives,
    lemma_holds_shift, lemma_lowest, lemma_zero_holds_nothing, lowest,
};
use crate::board::Board;
use crate::castling::{
    CastlingRights, BLACK_LONG_CASTLE, BLACK_SHORT_CASTLE, WHITE_LONG_CASTLE, WHITE_SHORT_CASTLE,
};
use crate::chess_move::{
    Move, MoveFlags, CAPTURE, DOUBLE_PUSH, EN_PASSANT, LONG_CASTLE, PROMOTE_CAPTURE_TO_BISHOP,
    PROMOTE_CAPTURE_TO_KNIGHT, PROMOTE_CAPTURE_TO_QUEEN, PROMOTE_CAPTURE_TO_ROOK, PROMOTE_TO_BISHOP,
    PROMOTE_TO_KNIGHT, PROMOTE_TO_QUEEN, PROMOTE_TO_ROOK, QUIET, SHORT_CASTLE,
};
use crate::masks::{lemma_mask_squares, FILE_A, FILE_H, RANK_1, RANK_2, RANK_7, RANK_8};
use crate::movegen::AttackTables;
use crate::movegen::non_sliding::{get_king_attacks, get_knight_attacks};
use crate::movegen::pseudo::{
    collect, diagonal_origin, forward, lemma_collect_grows, lemma_collect_skip,
    lemma_overwrite_nothing, lemma_overwrite_twice, overwrite, promotions,
};
use crate::movegen::sliding::{get_bishop_attacks, get_queen_attacks, get_rook_attacks};
use crate::piece::{Color, Piece, BB, BK, BN, BP, BQ, BR, WB, WHITE, WK, WN, WP, WQ, WR};
use crate::square::{Square, A1, A8, B1, B8, C1, C8, D1, D8, E1, E8, F1, F8, G1, G8, H1, H8};
use vstd::prelude::*;

verus! {

/// The state of a walk over the squares of `rest`, lowest first, that has written the moves
/// of the squares below `next`: `rest` holds the squares of `pred` from `next` on, and the
/// buffer holds the moves collected so far.
pub open spec fn walk_inv(
    pred: spec_fn(int) -> bool,
    f: spec_fn(int) -> Seq<Move>,
    rest: u64,
    next: int,
    base: Seq<Move>,
    start: int,
    now: Seq<Move>,
    index: int,
) -> bool {
    &&& 0 <= next <= 64
    &&& 0 <= start
    &&& forall|t: int| 0 <= t < 64 ==> holds(rest, t) == (t >= next && pred(t))
    &&& index == start + collect(pred, f, next).len()
    &&& now == overwrite(base, start, collect(pred, f, next))
    &&& start + collect(pred, f, 64).len() <= base.len()
}

/// What the lowest square of the rest of a walk is: the next square of `pred`, whose moves
/// still fit into the buffer.
proof fn lemma_walk_next(
    pred: spec_fn(int) -> bool,
    f: spec_fn(int) -> Seq<Move>,
    rest: u64,
    next: int,
    base: Seq<Move>,
    start: int,
    now: Seq<Move>,
    index: int,
)
    requires
        walk_inv(pred, f, rest, next, base, start, now, index),
        rest != 0,
    ensures
        next <= lowest(rest) < 64,
        pred(lowest(rest)),
        collect(pred, f, lowest(rest)) == collect(pred, f, next),
        collect(pred, f, lowest(rest) + 1) == collect(pred, f, next) + f(lowest(rest)),
        index + f(lowest(rest)).len() <= base.len(),
        forall|t: int|
            0 <= t < 64 ==> holds(drop_lowest(rest), t) == (t >= lowest(rest) + 1 && pred(t)),
{
    lemma_lowest(rest);
    let t = lowest(rest);
    assert(holds(rest, t));
    assert forall|j: int| next <= j < t implies !#[trigger] pred(j) by {
        assert(!holds(rest, j));
    }
    lemma_collect_skip(pred, f, next, t);
    lemma_collect_grows(pred, f, t + 1, 64);
    assert forall|i: int| 0 <= i < 64 implies holds(drop_lowest(rest), i) == (i >= t + 1 && pred(
        i,
    )) by {
        assert(holds(drop_lowest(rest), i) == (holds(rest, i) && i != t));
        if i < t {
            assert(!holds(rest, i));
        }
    }
}

/// When the rest of a walk is empty, every move has been written.
proof fn lemma_walk_done(
    pred: spec_fn(int) -> bool,
    f: spec_fn(int) -> Seq<Move>,
    rest: u64,
    next: int,
    base: Seq<Move>,
    start: int,
    now: Seq<Move>,
    index: int,
)
    requires
        walk_inv(pred, f, rest, next, base, start, now, index),
        rest == 0,
    ensures
        collect(pred, f, 64) == collect(pred, f, next),
{
    lemma_zero_holds_nothing(rest);
    assert forall|j: int| next <= j < 64 implies !#[trigger] pred(j) by {
        assert(!holds(rest, j));
    }
    lemma_collect_skip(pred, f, next, 64);
}

/// Writes the single steps of the pawns of `color` into `moves` from `index` on and
/// returns the index after the last move written.
pub fn scan_pawn_single_push(board: &Board, color: Color, moves: &mut [Move], index: usize) -> (r:
    usize)
    requires
        board.wf(),
        color.wf(),
        index + board@.single_pushes(color).len() <= old(moves)@.len(),
    ensures
        r == index + board@.single_pushes(color).len(),
        final(moves)@ == overwrite(old(moves)@, index as int, board@.single_pushes(color)),
{
    let mut index = index;
    let ghost start = index as int;
    let ghost base = moves@;
    let ghost p = board@;
    let ghost pred = p.single_push_target(color);
    let ghost f = p.single_push_at(color);
    let is_white = color.0 == WHITE;
    let piece_bb = if is_white {
        board.pieces[Piece(WP).to_usize()]
    } else {
        board.pieces[Piece(BP).to_usize()]
    };
    let all_occupancy = board.all_occupancy();
    let enemy_backrank = if is_white {
        BitBoard(RANK_8)
    } else {
        BitBoard(RANK_1)
    };
    let shifted = if is_white {
        piece_bb.0 << 8u8
    } else {
        piece_bb.0 >> 8u8
    };
    let mut pawn_moves = BitBoard(shifted & !all_occupancy.0);
    proof {
        assert forall|t: int| 0 <= t < 64 implies holds(pawn_moves.0, t) == (t >= 0 && pred(
            t,
        )) by {
            lemma_holds_connectives(shifted, !all_occupancy.0, t);
            lemma_holds_connectives(all_occupancy.0, 0, t);
            lemma_holds_shift(piece_bb.0, 8, t);
            assert(all_occupancy.contains(t) == board@.mailbox[t].is_piece());
            assert(board.state@[t].wf());
            if is_white {
                if t >= 8 {
                    assert(holds(board.pieces@[WP as int].0, t - 8) == (board.state@[t - 8].0
                        == WP));
                }
            } else {
                if t + 8 < 64 {
                    assert(holds(board.pieces@[BP as int].0, t + 8) == (board.state@[t + 8].0
                        == BP));
                }
            }
        }
        lemma_overwrite_nothing(base, start);
    }
    let ghost mut next: int = 0;
    while pawn_moves.is_not_empty()
        invariant
            walk_inv(pred, f, pawn_moves.0, next, base, start, moves@, index as int),
            pred == p.single_push_target(color),
            f == p.single_push_at(color),
            color.wf(),
            is_white == (color.0 == WHITE),
            enemy_backrank.0 == if is_white {
                RANK_8
            } else {
                RANK_1
            },
        decreases pawn_moves.0,
    {
        proof {
            lemma_walk_next(pred, f, pawn_moves.0, next, base, start, moves@, index as int);
            lemma_lowest(pawn_moves.0);
        }
        let to_bb = pawn_moves.lsb();
        let to_square = Square(to_bb.bit_scan());
        proof {
            lemma_bit_lowest(lowest(pawn_moves.0));
            lemma_bit_meets(to_square.0 as int, enemy_backrank.0);
            lemma_mask_squares(to_square.0 as int);
        }
        let from_square = if is_white {
            to_square.south().unwrap()
        } else {
            to_square.north().unwrap()
        };
        pawn_moves = pawn_moves.pop_lsb();
        let ghost done = collect(pred, f, next);
        let ghost t = to_square.0 as int;
        if (to_bb.0 & enemy_backrank.0) != 0 {
            moves[index] = Move::new(from_square, to_square, MoveFlags { bits: PROMOTE_TO_KNIGHT });
            index += 1;
            moves[index] = Move::new(from_square, to_square, MoveFlags { bits: PROMOTE_TO_BISHOP });
            index += 1;
            moves[index] = Move::new(from_square, to_square, MoveFlags { bits: PROMOTE_TO_ROOK });
            index += 1;
            moves[index] = Move::new(from_square, to_square, MoveFlags { bits: PROMOTE_TO_QUEEN });
            index += 1;
            proof {
                assert(f(t) == promotions(t - forward(color), t, false));
                assert(moves@ =~= overwrite(base, start, done + f(t)));
            }
        } else {
            moves[index] = Move::new(from_square, to_square, MoveFlags { bits: QUIET });
            index += 1;
            proof {
                assert(moves@ =~= overwrite(base, start, done + f(t)));
            }
        }
        proof {
            next = t + 1;
        }
    }
    proof {
        lemma_walk_done(pred, f, pawn_moves.0, next, base, start, moves@, index as int);
    }
    index
}

/// Writes the double steps of the pawns of `color` into `moves` from `index` on and
/// returns the index after the last move written.
pub fn scan_pawn_double_push(board: &Board, color: Color, moves: &mut [Move], index: usize) -> (r:
    usize)
    requires
        board.wf(),
        color.wf(),
        index + board@.double_pushes(color).len() <= old(moves)@.len(),
    ensures
        r == index + board@.double_pushes(color).len(),
        final(moves)@ == overwrite(old(moves)@, index as int, board@.double_pushes(color)),
{
    let mut index = index;
    let ghost start = index as int;
    let ghost base = moves@;
    let ghost p = board@;
    let ghost pred = p.double_push_target(color);
    let ghost f = p.double_push_at(color);
    let is_white = color.0 == WHITE;
    let piece_bb = if is_white {
        board.pieces[Piece(WP).to_usize()]
    } else {
        board.pieces[Piece(BP).to_usize()]
    };
    let all_occupancy = board.all_occupancy();
    let home = if is_white {
        piece_bb.0 & RANK_2
    } else {
        piece_bb.0 & RANK_7
    };
    let once = if is_white {
        (home << 8u8) & !all_occupancy.0
    } else {
        (home >> 8u8) & !all_occupancy.0
    };
    let twice = if is_white {
        once << 8u8
    } else {
        once >> 8u8
    };
    let mut pawn_moves = BitBoard(twice & !all_occupancy.0);
    proof {
        assert forall|t: int| 0 <= t < 64 implies holds(pawn_moves.0, t) == (t >= 0 && pred(
            t,
        )) by {
            let mid = t - forward(color);
            let from = t - 2 * forward(color);
            lemma_holds_connectives(twice, !all_occupancy.0, t);
            lemma_holds_connectives(all_occupancy.0, 0, t);
            lemma_holds_shift(once, 8, t);
            assert(all_occupancy.contains(t) == board@.mailbox[t].is_piece());
            assert(board.state@[t].wf());
            if 0 <= mid < 64 {
                lemma_holds_connectives(
                    if is_white {
                        home << 8u64
                    } else {
                        home >> 8u64
                    },
                    !all_occupancy.0,
                    mid,
                );
                lemma_holds_connectives(all_occupancy.0, 0, mid);
                lemma_holds_shift(home, 8, mid);
                assert(all_occupancy.contains(mid) == board@.mailbox[mid].is_piece());
                assert(board.state@[mid].wf());
                if 0 <= from < 64 {
                    lemma_mask_squares(from);
                    if is_white {
                        lemma_holds_connectives(piece_bb.0, RANK_2, from);
                        assert(holds(board.pieces@[WP as int].0, from) == (board.state@[from].0
                            == WP));
                    } else {
                        lemma_holds_connectives(piece_bb.0, RANK_7, from);
                        assert(holds(board.pieces@[BP as int].0, from) == (board.state@[from].0
                            == BP));
                    }
                }
            }
        }
        lemma_overwrite_nothing(base, start);
    }
    let ghost mut next: int = 0;
    while pawn_moves.is_not_empty()
        invariant
            walk_inv(pred, f, pawn_moves.0, next, base, start, moves@, index as int),
            pred == p.double_push_target(color),
            f == p.double_push_at(color),
            color.wf(),
            is_white == (color.0 == WHITE),
        decreases pawn_moves.0,
    {
        proof {
            lemma_walk_next(pred, f, pawn_moves.0, next, base, start, moves@, index as int);
            lemma_lowest(pawn_moves.0);
            lemma_bit_lowest(lowest(pawn_moves.0));
        }
        let to_bb = pawn_moves.lsb();
        let to_square = Square(to_bb.bit_scan());
        let from_square = if is_white {
            to_square.south().unwrap().south().unwrap()
        } else {
            to_square.north().unwrap().north().unwrap()
        };
        pawn_moves = pawn_moves.pop_lsb();
        let ghost done = collect(pred, f, next);
        let ghost t = to_square.0 as int;
        moves[index] = Move::new(from_square, to_square, MoveFlags { bits: DOUBLE_PUSH });
        index += 1;
        proof {
            assert(moves@ =~= overwrite(base, start, done + f(t)));
            next = t + 1;
        }
    }
    proof {
        lemma_walk_done(pred, f, pawn_moves.0, next, base, start, moves@, index as int);
    }
    index
}

/// Writes the captures of the pawns of `color` towards the a-file (`is_left`) or towards
/// the h-file into `moves` from `index` on and returns the index after the last move
/// written.
pub fn scan_pawn_diagonal_attacks(
    board: &Board,
    color: Color,
    is_left: bool,
    moves: &mut [Move],
    index: usize,
) -> (r: usize)
    requires
        board.wf(),
        color.wf(),
        index + board@.diagonals(color, is_left).len() <= old(moves)@.len(),
    ensures
        r == index + board@.diagonals(color, is_left).len(),
        final(moves)@ == overwrite(old(moves)@, index as int, board@.diagonals(color, is_left)),
{
    let mut index = index;
    let ghost start = index as int;
    let ghost base = moves@;
    let ghost p = board@;
    let ghost pred = p.diagonal_target(color, is_left);
    let ghost f = p.diagonal_at(color, is_left);
    let is_white = color.0 == WHITE;
    let piece_bb = if is_white {
        board.pieces[Piece(WP).to_usize()]
    } else {
        board.pieces[Piece(BP).to_usize()]
    };
    let shift: u8 = if is_left != is_white {
        9
    } else {
        7
    };
    let not_on_file = if is_left {
        !FILE_A
    } else {
        !FILE_H
    };
    let enemy_backrank = if is_white {
        BitBoard(RANK_8)
    } else {
        BitBoard(RANK_1)
    };
    let able = piece_bb.0 & not_on_file;
    let shifted = if is_white {
        able << shift
    } else {
        able >> shift
    };
    let enemy_occupancy = board.occupancy[color.enemy().to_usize()];
    let prey = enemy_occupancy.0 | board.en_passant.0;
    let mut pawn_moves = BitBoard(shifted & prey);
    proof {
        assert forall|t: int| 0 <= t < 64 implies holds(pawn_moves.0, t) == (t >= 0 && pred(
            t,
        )) by {
            let from = diagonal_origin(color, is_left, t);
            lemma_holds_connectives(shifted, prey, t);
            lemma_holds_connectives(enemy_occupancy.0, board.en_passant.0, t);
            lemma_holds_shift(able, shift as int, t);
            assert(board.state@[t].wf());
            assert(holds(board.occupancy@[0].0, t) == (board.state@[t].0 <= WK));
            assert(holds(board.occupancy@[1].0, t) == (BP <= board.state@[t].0 <= BK));
            if 0 <= from < 64 {
                lemma_mask_squares(from);
                lemma_holds_connectives(piece_bb.0, not_on_file, from);
                lemma_holds_connectives(FILE_A, 0, from);
                lemma_holds_connectives(FILE_H, 0, from);
                if is_white {
                    assert(holds(board.pieces@[WP as int].0, from) == (board.state@[from].0
                        == WP));
                } else {
                    assert(holds(board.pieces@[BP as int].0, from) == (board.state@[from].0
                        == BP));
                }
            }
        }
        lemma_overwrite_nothing(base, start);
    }
    let ghost mut next: int = 0;
    while pawn_moves.is_not_empty()
        invariant
            walk_inv(pred, f, pawn_moves.0, next, base, start, moves@, index as int),
            pred == p.diagonal_target(color, is_left),
            f == p.diagonal_at(color, is_left),
            p == board@,
            color.wf(),
            is_white == (color.0 == WHITE),
            enemy_backrank.0 == if is_white {
                RANK_8
            } else {
                RANK_1
            },
        decreases pawn_moves.0,
    {
        proof {
            lemma_walk_next(pred, f, pawn_moves.0, next, base, start, moves@, index as int);
            lemma_lowest(pawn_moves.0);
            lemma_bit_lowest(lowest(pawn_moves.0));
        }
        let to_bb = pawn_moves.lsb();
        let to_square = Square(to_bb.bit_scan());
        proof {
            lemma_bit_meets(to_square.0 as int, enemy_backrank.0);
            lemma_bit_meets(to_square.0 as int, board.en_passant.0);
            lemma_mask_squares(to_square.0 as int);
        }
        let from_square = if is_white && is_left {
            to_square.south_east().unwrap()
        } else if is_white && !is_left {
            to_square.south_west().unwrap()
        } else if !is_white && is_left {
            to_square.north_east().unwrap()
        } else {
            to_square.north_west().unwrap()
        };
        pawn_moves = pawn_moves.pop_lsb();
        let ghost done = collect(pred, f, next);
        let ghost t = to_square.0 as int;
        if (to_bb.0 & enemy_backrank.0) != 0 {
            moves[index] = Move::new(
                from_square,
                to_square,
                MoveFlags { bits: PROMOTE_CAPTURE_TO_KNIGHT },
            );
            index += 1;
            moves[index] = Move::new(
                from_square,
                to_square,
                MoveFlags { bits: PROMOTE_CAPTURE_TO_BISHOP },
            );
            index += 1;
            moves[index] = Move::new(
                from_square,
                to_square,
                MoveFlags { bits: PROMOTE_CAPTURE_TO_ROOK },
            );
            index += 1;
            moves[index] = Move::new(
                from_square,
                to_square,
                MoveFlags { bits: PROMOTE_CAPTURE_TO_QUEEN },
            );
            index += 1;
            proof {
                assert(f(t) == promotions(diagonal_origin(color, is_left, t), t, true));
                assert(moves@ =~= overwrite(base, start, done + f(t)));
            }
        } else {
            let is_en_passant = (to_bb.0 & board.en_passant.0) != 0;
            moves[index] = Move::new(
                from_square,
                to_square,
                MoveFlags {
                    bits: if is_en_passant {
                        EN_PASSANT
                    } else {
                        CAPTURE
                    },
                },
            );
            index += 1;
            proof {
                assert(moves@ =~= overwrite(base, start, done + f(t)));
            }
        }
        proof {
            next = t + 1;
        }
    }
    proof {
        lemma_walk_done(pred, f, pawn_moves.0, next, base, start, moves@, index as int);
    }
    index
}

/// Writes the pawn moves of `color` into `moves` from `index` on and returns the index
/// after the last move written.
pub fn scan_pawn_moves(board: &Board, color: Color, moves: &mut [Move], index: usize) -> (r: usize)
    requires
        board.wf(),
        color.wf(),
        index + board@.pawn_moves(color).len() <= old(moves)@.len(),
    ensures
        r == index + board@.pawn_moves(color).len(),
        final(moves)@ == overwrite(old(moves)@, index as int, board@.pawn_moves(color)),
{
    let ghost base = moves@;
    let ghost p = board@;
    let ghost a = p.single_pushes(color);
    let ghost b = p.double_pushes(color);
    let ghost c = p.diagonals(color, true);
    let ghost d = p.diagonals(color, false);
    let mut index = index;
    let ghost start = index as int;
    index = scan_pawn_single_push(board, color, moves, index);
    index = scan_pawn_double_push(board, color, moves, index);
    index = scan_pawn_diagonal_attacks(board, color, true, moves, index);
    index = scan_pawn_diagonal_attacks(board, color, false, moves, index);
    proof {
        lemma_overwrite_twice(base, start, a, b);
        lemma_overwrite_twice(base, start, a + b, c);
        lemma_overwrite_twice(base, start, a + b + c, d);
    }
    index
}

/// Writes the moves of the piece `piece` that stands on `from_square`, by target square,
/// into `moves` from `index` on and returns the index after the last move written.
fn scan_moves_from(
    board: &Board,
    tables: &AttackTables,
    piece: Piece,
    from_square: Square,
    moves: &mut [Move],
    index: usize,
) -> (r: usize)
    requires
        board.wf(),
        tables.wf(),
        from_square.wf(),
        piece.is_piece() && piece.0 != WP && piece.0 != BP,
        index + collect(
            board@.piece_target(piece, from_square.0 as int),
            board@.piece_move_at(piece, from_square.0 as int),
            64,
        ).len() <= old(moves)@.len(),
    ensures
        r == index + collect(
            board@.piece_target(piece, from_square.0 as int),
            board@.piece_move_at(piece, from_square.0 as int),
            64,
        ).len(),
        final(moves)@ == overwrite(
            old(moves)@,
            index as int,
            collect(
                board@.piece_target(piece, from_square.0 as int),
                board@.piece_move_at(piece, from_square.0 as int),
                64,
            ),
        ),
{
    let mut index = index;
    let ghost start = index as int;
    let ghost base = moves@;
    let ghost p = board@;
    let ghost from = from_square.0 as int;
    let ghost pred = p.piece_target(piece, from);
    let ghost f = p.piece_move_at(piece, from);
    let enemy = piece.color().enemy();
    let all_occupancy = board.all_occupancy();
    proof {
        board.lemma_occupied();
    }
    let reach = if piece.0 == WN || piece.0 == BN {
        get_knight_attacks(&tables.leapers, from_square)
    } else if piece.0 == WB || piece.0 == BB {
        get_bishop_attacks(&tables.sliders, from_square, all_occupancy)
    } else if piece.0 == WR || piece.0 == BR {
        get_rook_attacks(&tables.sliders, from_square, all_occupancy)
    } else if piece.0 == WQ || piece.0 == BQ {
        get_queen_attacks(&tables.sliders, from_square, all_occupancy)
    } else {
        get_king_attacks(&tables.leapers, from_square)
    };
    let own = board.occupancy[piece.color().to_usize()];
    let theirs = board.occupancy[enemy.to_usize()];
    let mut piece_moves = BitBoard(reach.0 & !own.0);
    proof {
        assert forall|t: int| 0 <= t < 64 implies holds(piece_moves.0, t) == (t >= 0 && pred(
            t,
        )) by {
            lemma_holds_connectives(reach.0, !own.0, t);
            lemma_holds_connectives(own.0, 0, t);
            assert(reach.contains(t) == p.reaches(piece, from, t));
            assert(board.state@[t].wf());
            assert(holds(board.occupancy@[0].0, t) == (board.state@[t].0 <= WK));
            assert(holds(board.occupancy@[1].0, t) == (BP <= board.state@[t].0 <= BK));
        }
        lemma_overwrite_nothing(base, start);
    }
    let ghost mut next: int = 0;
    while piece_moves.is_not_empty()
        invariant
            walk_inv(pred, f, piece_moves.0, next, base, start, moves@, index as int),
            pred == p.piece_target(piece, from),
            f == p.piece_move_at(piece, from),
            p == board@,
            board.wf(),
            from == from_square.0,
            from_square.wf(),
            piece.is_piece(),
            enemy == piece.side().other(),
            theirs == board.occupancy@[enemy.0 as int],
        decreases piece_moves.0,
    {
        proof {
            lemma_walk_next(pred, f, piece_moves.0, next, base, start, moves@, index as int);
            lemma_lowest(piece_moves.0);
            lemma_bit_lowest(lowest(piece_moves.0));
        }
        let to_bb = piece_moves.lsb();
        let to_square = Square(to_bb.bit_scan());
        piece_moves = piece_moves.pop_lsb();
        let ghost done = collect(pred, f, next);
        let ghost t = to_square.0 as int;
        proof {
            lemma_bit_meets(t, theirs.0);
            assert(board.state@[t].wf());
            assert(holds(board.occupancy@[0].0, t) == (board.state@[t].0 <= WK));
            assert(holds(board.occupancy@[1].0, t) == (BP <= board.state@[t].0 <= BK));
        }
        let is_capture = (to_bb.0 & theirs.0) != 0;
        let flags = if is_capture {
            MoveFlags { bits: CAPTURE }
        } else {
            MoveFlags { bits: QUIET }
        };
        moves[index] = Move::new(from_square, to_square, flags);
        index += 1;
        proof {
            assert(moves@ =~= overwrite(base, start, done + f(t)));
            next = t + 1;
        }
    }
    proof {
        lemma_walk_done(pred, f, piece_moves.0, next, base, start, moves@, index as int);
    }
    index
}

/// Writes the castling moves open to the king `piece` into `moves` from `index` on and
/// returns the index after the last move written; writes nothing for another piece.
fn scan_castles(
    board: &Board,
    tables: &AttackTables,
    piece: Piece,
    moves: &mut [Move],
    index: usize,
) -> (r: usize)
    requires
        board.wf(),
        tables.wf(),
        index + board@.castles(piece).len() <= old(moves)@.len(),
    ensures
        r == index + board@.castles(piece).len(),
        final(moves)@ == overwrite(old(moves)@, index as int, board@.castles(piece)),
{
    let mut index = index;
    let ghost start = index as int;
    let ghost base = moves@;
    let ghost p = board@;
    proof {
        lemma_overwrite_nothing(base, start);
    }
    if piece.0 != WK && piece.0 != BK {
        return index;
    }
    let white = piece.0 == WK;
    let color = piece.color();
    let short_right = CastlingRights {
        bits: if white {
            WHITE_SHORT_CASTLE
        } else {
            BLACK_SHORT_CASTLE
        },
    };
    let long_right = CastlingRights {
        bits: if white {
            WHITE_LONG_CASTLE
        } else {
            BLACK_LONG_CASTLE
        },
    };
    let rook = if white {
        Piece(WR)
    } else {
        Piece(BR)
    };
    let e = Square(if white { E1 } else { E8 });
    let f = Square(if white { F1 } else { F8 });
    let g = Square(if white { G1 } else { G8 });
    let h = Square(if white { H1 } else { H8 });
    let d = Square(if white { D1 } else { D8 });
    let c = Square(if white { C1 } else { C8 });
    let b = Square(if white { B1 } else { B8 });
    let a = Square(if white { A1 } else { A8 });
    let can_short_castle = board.castling_rights.contains(short_right);
    let can_long_castle = board.castling_rights.contains(long_right);
    let ghost short = p.short_castle(color);
    let ghost long = p.long_castle(color);

    let between_short = [f, g];
    if can_short_castle && board.are_squares_empty(between_short.as_slice()) {
        let is_rook_exist = board.piece_at_square(h).0 == rook.0;
        let crossed = [e, f, g];
        let is_in_attack = board.are_squares_attacked(tables, crossed.as_slice(), color);
        proof {
            assert(between_short@[0] == f && between_short@[1] == g);
            assert(crossed@[0] == e && crossed@[1] == f && crossed@[2] == g);
            assert(is_in_attack == (p.attacked(e, color.other()) || p.attacked(f, color.other())
                || p.attacked(g, color.other())));
        }
        if !is_in_attack && is_rook_exist {
            moves[index] = Move::new(e, f, MoveFlags { bits: SHORT_CASTLE });
            index += 1;
        }
    } else {
        proof {
            assert(between_short@[0] == f && between_short@[1] == g);
        }
    }
    proof {
        assert(moves@ =~= overwrite(base, start, short));
        assert(index == start + short.len());
    }
    let between_long = [d, c, b];
    if can_long_castle && board.are_squares_empty(between_long.as_slice()) {
        let is_rook_exist = board.piece_at_square(a).0 == rook.0;
        let crossed = [e, d, c];
        let is_in_attack = board.are_squares_attacked(tables, crossed.as_slice(), color);
        proof {
            assert(between_long@[0] == d && between_long@[1] == c && between_long@[2] == b);
            assert(crossed@[0] == e && crossed@[1] == d && crossed@[2] == c);
            assert(is_in_attack == (p.attacked(e, color.other()) || p.attacked(d, color.other())
                || p.attacked(c, color.other())));
        }
        if !is_in_attack && is_rook_exist {
            moves[index] = Move::new(e, c, MoveFlags { bits: LONG_CASTLE });
            index += 1;
        }
    } else {
        proof {
            assert(between_long@[0] == d && between_long@[1] == c && between_long@[2] == b);
        }
    }
    proof {
        assert(moves@ =~= overwrite(base, start, short + long));
    }
    index
}

/// Writes the moves of all pieces of the kind `piece`, a knight, bishop, rook, queen or
/// king, into `moves` from `index` on and returns the index after the last move written.
/// Castling moves follow the other moves of a king.
pub fn scan_piece_moves(
    board: &Board,
    tables: &AttackTables,
    piece: Piece,
    moves: &mut [Move],
    index: usize,
) -> (r: usize)
    requires
        board.wf(),
        tables.wf(),
        piece.is_piece() && piece.0 != WP && piece.0 != BP,
        index + board@.piece_moves(piece).len() <= old(moves)@.len(),
    ensures
        r == index + board@.piece_moves(piece).len(),
        final(moves)@ == overwrite(old(moves)@, index as int, board@.piece_moves(piece)),
{
    let mut index = index;
    let ghost start = index as int;
    let ghost base = moves@;
    let ghost p = board@;
    let ghost pred = p.holds_kind(piece);
    let ghost f = p.moves_from(piece);
    let mut piece_bb = board.pieces[piece.to_usize()];
    proof {
        assert forall|t: int| 0 <= t < 64 implies holds(piece_bb.0, t) == (t >= 0 && pred(t)) by {
            assert(holds(board.pieces@[piece.0 as int].0, t) == (board.state@[t].0 == piece.0));
        }
        lemma_overwrite_nothing(base, start);
    }
    let ghost mut next: int = 0;
    while piece_bb.is_not_empty()
        invariant
            walk_inv(pred, f, piece_bb.0, next, base, start, moves@, index as int),
            pred == p.holds_kind(piece),
            f == p.moves_from(piece),
            p == board@,
            board.wf(),
            tables.wf(),
            piece.is_piece() && piece.0 != WP && piece.0 != BP,
        decreases piece_bb.0,
    {
        proof {
            lemma_walk_next(pred, f, piece_bb.0, next, base, start, moves@, index as int);
            lemma_lowest(piece_bb.0);
            lemma_bit_lowest(lowest(piece_bb.0));
        }
        let from_bb = piece_bb.lsb();
        let from_square = Square(from_bb.bit_scan());
        piece_bb = piece_bb.pop_lsb();
        let ghost done = collect(pred, f, next);
        let ghost t = from_square.0 as int;
        let ghost plain = collect(p.piece_target(piece, t), p.piece_move_at(piece, t), 64);
        let ghost before = moves@;
        let ghost at = index as int;
        proof {
            assert(f(t) == plain + p.castles(piece));
        }
        index = scan_moves_from(board, tables, piece, from_square, moves, index);
        index = scan_castles(board, tables, piece, moves, index);
        proof {
            lemma_overwrite_twice(before, at, plain, p.castles(piece));
            lemma_overwrite_twice(base, start, done, f(t));
            next = t + 1;
        }
    }
    proof {
        lemma_walk_done(pred, f, piece_bb.0, next, base, start, moves@, index as int);
    }
    index
}

} // verus!
