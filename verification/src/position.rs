//! The mathematical picture of a game state: what stands on each square, and the rest of the
//! state that making and unmaking moves reads and writes.
use crate::bitboard::BitBoard;
use crate::bits::{
    bit, count_bits, holds, lemma_bit_lowest, lemma_count_bit, lemma_count_zero, lemma_holds_bit,
    lemma_is_set_where, lemma_lowest, lemma_set_below, lemma_zero_holds_nothing, lowest, set_where,
};
use crate::castling::{
    includes, lemma_without, without, CastlingRights, ALL, BLACK_CASTLE, BLACK_LONG_CASTLE,
    BLACK_SHORT_CASTLE, NONE, WHITE_CASTLE, WHITE_LONG_CASTLE, WHITE_SHORT_CASTLE,
};
use crate::chess_move::{
    is_promotion, promoted, takes_on_target, Move, CAPTURE, DOUBLE_PUSH, EN_PASSANT, LONG_CASTLE,
    QUIET, SHORT_CASTLE,
};
use crate::movegen::non_sliding::{king_reaches, knight_reaches};
use crate::movegen::sliding::{bishop_attacks, rook_attacks};
use crate::piece::{Color, Piece, BB, BK, BN, BP, BQ, BR, EMPTY, WB, WHITE, WK, WN, WP, WQ, WR};
use crate::square::{Square, A1, A8, C1, C8, D1, D8, E1, E8, F1, F8, G1, G8, H1, H8};
use vstd::prelude::*;

verus! {

/// A game state as plain values.
pub ghost struct Position {
    /// The piece on each of the 64 squares.
    pub mailbox: Seq<Piece>,
    pub side: Color,
    pub en_passant: BitBoard,
    pub castling: CastlingRights,
    /// Pieces taken by the moves made so far and not yet unmade, oldest first.
    pub captured: Seq<Piece>,
    /// The en-passant targets that the moves made so far replaced, oldest first.
    pub en_passant_stack: Seq<BitBoard>,
    /// The castling rights that the moves made so far replaced, oldest first.
    pub castling_stack: Seq<CastlingRights>,
    pub half_move_clock: usize,
    pub full_move_number: usize,
}

/// The square a pawn of the given colour has just left behind when it stands on `to`.
pub open spec fn behind(white: bool, to: int) -> int {
    if white {
        to - 8
    } else {
        to + 8
    }
}

/// The rights left after `piece` moved away from `from`: a king loses both rights of its
/// colour, a rook leaving its corner the right of that corner.
pub open spec fn rights_after_leaving(rights: u8, piece: Piece, from: int) -> u8 {
    if piece.0 == WK {
        without(rights, WHITE_CASTLE)
    } else if piece.0 == BK {
        without(rights, BLACK_CASTLE)
    } else if piece.0 == WR && from == A1 {
        without(rights, WHITE_LONG_CASTLE)
    } else if piece.0 == WR && from == H1 {
        without(rights, WHITE_SHORT_CASTLE)
    } else if piece.0 == BR && from == A8 {
        without(rights, BLACK_LONG_CASTLE)
    } else if piece.0 == BR && from == H8 {
        without(rights, BLACK_SHORT_CASTLE)
    } else {
        rights
    }
}

/// The rights left after `victim` was taken on `on`: a rook taken in its corner takes the
/// right of that corner with it.
pub open spec fn rights_after_loss(rights: u8, victim: Piece, on: int) -> u8 {
    if victim.0 == WR && on == A1 {
        without(rights, WHITE_LONG_CASTLE)
    } else if victim.0 == WR && on == H1 {
        without(rights, WHITE_SHORT_CASTLE)
    } else if victim.0 == BR && on == A8 {
        without(rights, BLACK_LONG_CASTLE)
    } else if victim.0 == BR && on == H8 {
        without(rights, BLACK_SHORT_CASTLE)
    } else {
        rights
    }
}

/// The piece of kind `kind` (a white piece's number) in the colour `c`.
pub open spec fn piece_of(c: Color, kind: u8) -> Piece {
    Piece(
        if c.0 == WHITE {
            kind
        } else {
            (kind + 6) as u8
        },
    )
}

/// Whether a pawn of colour `c` standing on `from` attacks `to`: `to` is diagonally in
/// front of it.
pub open spec fn pawn_reaches(c: Color, from: int, to: int) -> bool {
    let df = to % 8 - from % 8;
    let dr = to / 8 - from / 8;
    0 <= to < 64 && (df == 1 || df == -1) && dr == if c.0 == WHITE {
        1int
    } else {
        -1int
    }
}

impl Position {
    /// Whether a square holds a piece.
    pub open spec fn holds_piece(self) -> spec_fn(int) -> bool {
        |s: int| self.mailbox[s].is_piece()
    }

    /// Whether a square holds a piece of colour `c`.
    pub open spec fn holds_side(self, c: Color) -> spec_fn(int) -> bool {
        |s: int| self.mailbox[s].is_of(c)
    }

    /// Whether a square holds the piece `p`.
    pub open spec fn holds_kind(self, p: Piece) -> spec_fn(int) -> bool {
        |s: int| self.mailbox[s] == p
    }

    /// The set of the squares that hold a piece.
    pub open spec fn occupied(self) -> u64 {
        set_where(self.holds_piece())
    }

    /// The set of the squares that hold a piece of colour `c`.
    pub open spec fn occupied_by(self, c: Color) -> u64 {
        set_where(self.holds_side(c))
    }

    /// The set of the squares that hold the piece `p`.
    pub open spec fn squares_of(self, p: Piece) -> u64 {
        set_where(self.holds_kind(p))
    }

    /// Whether a piece of colour `by` attacks the square `sq`: a rook or queen along a
    /// rank or file, a bishop or queen along a diagonal, a knight a jump away, a king next
    /// to it, or a pawn diagonally behind it.
    pub open spec fn attacked(self, sq: Square, by: Color) -> bool {
        let occ = self.occupied();
        ||| exists|t: int|
            0 <= t < 64 && holds(rook_attacks(sq, occ), t) && (self.mailbox[t] == piece_of(by, WR)
                || self.mailbox[t] == piece_of(by, WQ))
        ||| exists|t: int|
            0 <= t < 64 && holds(bishop_attacks(sq, occ), t) && (self.mailbox[t] == piece_of(
                by,
                WB,
            ) || self.mailbox[t] == piece_of(by, WQ))
        ||| exists|t: int|
            0 <= t < 64 && knight_reaches(sq.0 as int, t) && self.mailbox[t] == piece_of(by, WN)
        ||| exists|t: int|
            0 <= t < 64 && king_reaches(sq.0 as int, t) && self.mailbox[t] == piece_of(by, WK)
        ||| exists|t: int|
            0 <= t < 64 && pawn_reaches(by, t, sq.0 as int) && self.mailbox[t] == piece_of(by, WP)
    }

    /// The lowest square that holds the king of colour `c`; 64 if there is none.
    pub open spec fn king_square(self, c: Color) -> int {
        lowest(self.squares_of(piece_of(c, WK)))
    }

    /// Whether the king of colour `c` is attacked by the other side.
    pub open spec fn in_check(self, c: Color) -> bool {
        self.attacked(Square(self.king_square(c) as u8), c.other())
    }

    /// The shape every game state has: 64 squares that each hold a piece or the empty mark,
    /// a side to move, a subset of the four rights, and at most one en-passant square.
    pub open spec fn wf(self) -> bool {
        &&& self.mailbox.len() == 64
        &&& forall|s: int| 0 <= s < 64 ==> (#[trigger] self.mailbox[s]).wf()
        &&& self.side.wf()
        &&& self.castling.wf()
        &&& count_bits(self.en_passant.0) <= 1
    }

    /// The opening position with nothing played yet.
    pub open spec fn opening() -> Position {
        Position {
            mailbox: Seq::new(
                64,
                |s: int|
                    Piece(
                        if s == 0 || s == 7 {
                            WR
                        } else if s == 1 || s == 6 {
                            WN
                        } else if s == 2 || s == 5 {
                            WB
                        } else if s == 3 {
                            WQ
                        } else if s == 4 {
                            WK
                        } else if 8 <= s < 16 {
                            WP
                        } else if 48 <= s < 56 {
                            BP
                        } else if s == 56 || s == 63 {
                            BR
                        } else if s == 57 || s == 62 {
                            BN
                        } else if s == 58 || s == 61 {
                            BB
                        } else if s == 59 {
                            BQ
                        } else if s == 60 {
                            BK
                        } else {
                            EMPTY
                        },
                    ),
            ),
            side: Color(WHITE),
            en_passant: BitBoard(0),
            castling: CastlingRights { bits: ALL },
            captured: Seq::empty(),
            en_passant_stack: Seq::empty(),
            castling_stack: Seq::empty(),
            half_move_clock: 0,
            full_move_number: 1,
        }
    }

    /// The board without pieces, white to move, no rights, both counters zero.
    pub open spec fn vacant() -> Position {
        Position {
            mailbox: Seq::new(64, |s: int| Piece(EMPTY)),
            side: Color(WHITE),
            en_passant: BitBoard(0),
            castling: CastlingRights { bits: NONE },
            captured: Seq::empty(),
            en_passant_stack: Seq::empty(),
            castling_stack: Seq::empty(),
            half_move_clock: 0,
            full_move_number: 0,
        }
    }

    /// Whether no piece stands on square `s`.
    pub open spec fn empty_at(self, s: int) -> bool {
        self.mailbox[s].0 == EMPTY
    }

    /// Whether the en-passant target, if there is one, is the empty square behind a pawn of
    /// the side that has just moved, on the rank where a double step passes.
    pub open spec fn en_passant_fits(self) -> bool {
        self.en_passant.0 != 0 ==> {
            let k = lowest(self.en_passant.0);
            &&& self.empty_at(k)
            &&& if self.side.0 == WHITE {
                k / 8 == 5 && self.mailbox[k - 8].0 == BP
            } else {
                k / 8 == 2 && self.mailbox[k + 8].0 == WP
            }
        }
    }

    /// Whether a side that still has a castling right has its king on the king's home
    /// square, if it has a king at all.
    pub open spec fn castling_fits(self) -> bool {
        &&& (includes(self.castling.bits, WHITE_SHORT_CASTLE) || includes(
            self.castling.bits,
            WHITE_LONG_CASTLE,
        )) ==> forall|s: int| 0 <= s < 64 && (#[trigger] self.mailbox[s]).0 == WK ==> s == E1
        &&& (includes(self.castling.bits, BLACK_SHORT_CASTLE) || includes(
            self.castling.bits,
            BLACK_LONG_CASTLE,
        )) ==> forall|s: int| 0 <= s < 64 && (#[trigger] self.mailbox[s]).0 == BK ==> s == E8
    }

    /// A position whose en-passant target and castling rights fit the pieces on the board.
    /// The opening position is one, and so is every position reached from one by moves
    /// that the generator gives.
    pub open spec fn sound(self) -> bool {
        self.wf() && self.en_passant_fits() && self.castling_fits()
    }

    /// Whether `m` is a move of the side to move that takes no piece of its own side.
    pub open spec fn plays(self, m: Move) -> bool {
        &&& self.admits(m)
        &&& self.mailbox[m.from_ix()].is_of(self.side)
        &&& takes_on_target(m.flag()) ==> self.mailbox[m.to_ix()].is_of(self.side.other())
    }

    /// Whether `m` can be made here: a piece stands on its from-square, and the squares its
    /// flag speaks of hold what the flag says.
    pub open spec fn admits(self, m: Move) -> bool {
        let from = m.from_ix();
        let to = m.to_ix();
        let flag = m.flag();
        let piece = self.mailbox[from];
        let white = piece.0 <= WK;
        let back = behind(white, to);
        &&& piece.is_piece()
        &&& if flag == QUIET {
            self.empty_at(to)
        } else if flag == DOUBLE_PUSH {
            &&& piece.0 == WP || piece.0 == BP
            &&& from == behind(white, back)
            &&& from / 8 == if white {
                1int
            } else {
                6int
            }
            &&& self.empty_at(to) && self.empty_at(back)
        } else if flag == CAPTURE {
            self.mailbox[to].is_piece() && to != from
        } else if flag == EN_PASSANT {
            &&& self.empty_at(to)
            &&& 0 <= back < 64
            &&& self.mailbox[back].0 == if white {
                BP
            } else {
                WP
            }
        } else if flag == SHORT_CASTLE {
            if white {
                &&& from == E1 && to == F1
                &&& piece.0 == WK && self.mailbox[H1 as int].0 == WR
                &&& self.empty_at(F1 as int) && self.empty_at(G1 as int)
            } else {
                &&& from == E8 && to == F8
                &&& piece.0 == BK && self.mailbox[H8 as int].0 == BR
                &&& self.empty_at(F8 as int) && self.empty_at(G8 as int)
            }
        } else if flag == LONG_CASTLE {
            if white {
                &&& from == E1 && to == C1
                &&& piece.0 == WK && self.mailbox[A1 as int].0 == WR
                &&& self.empty_at(D1 as int) && self.empty_at(C1 as int)
            } else {
                &&& from == E8 && to == C8
                &&& piece.0 == BK && self.mailbox[A8 as int].0 == BR
                &&& self.empty_at(D8 as int) && self.empty_at(C8 as int)
            }
        } else if is_promotion(flag) {
            &&& piece.0 == WP || piece.0 == BP
            &&& if takes_on_target(flag) {
                self.mailbox[to].is_piece() && to != from
            } else {
                self.empty_at(to)
            }
        } else {
            false
        }
    }

    /// The squares after `m`.
    pub open spec fn mailbox_after(self, m: Move) -> Seq<Piece> {
        let from = m.from_ix();
        let to = m.to_ix();
        let flag = m.flag();
        let piece = self.mailbox[from];
        let white = piece.0 <= WK;
        let vacant = Piece(EMPTY);
        if flag == EN_PASSANT {
            self.mailbox.update(to, piece).update(from, vacant).update(behind(white, to), vacant)
        } else if flag == SHORT_CASTLE {
            if white {
                self.mailbox.update(G1 as int, Piece(WK)).update(E1 as int, vacant).update(
                    F1 as int,
                    Piece(WR),
                ).update(H1 as int, vacant)
            } else {
                self.mailbox.update(G8 as int, Piece(BK)).update(E8 as int, vacant).update(
                    F8 as int,
                    Piece(BR),
                ).update(H8 as int, vacant)
            }
        } else if flag == LONG_CASTLE {
            if white {
                self.mailbox.update(C1 as int, Piece(WK)).update(E1 as int, vacant).update(
                    D1 as int,
                    Piece(WR),
                ).update(A1 as int, vacant)
            } else {
                self.mailbox.update(C8 as int, Piece(BK)).update(E8 as int, vacant).update(
                    D8 as int,
                    Piece(BR),
                ).update(A8 as int, vacant)
            }
        } else if is_promotion(flag) {
            self.mailbox.update(from, vacant).update(to, promoted(flag, white))
        } else {
            self.mailbox.update(to, piece).update(from, vacant)
        }
    }

    /// The castling rights after `m`.
    pub open spec fn rights_after(self, m: Move) -> CastlingRights {
        let left = rights_after_leaving(
            self.castling.bits,
            self.mailbox[m.from_ix()],
            m.from_ix(),
        );
        CastlingRights {
            bits: if takes_on_target(m.flag()) {
                rights_after_loss(left, self.mailbox[m.to_ix()], m.to_ix())
            } else {
                left
            },
        }
    }

    /// The state after `m` is made.
    pub open spec fn make(self, m: Move) -> Position {
        let white = self.mailbox[m.from_ix()].0 <= WK;
        Position {
            mailbox: self.mailbox_after(m),
            side: self.side.other(),
            en_passant: if m.flag() == DOUBLE_PUSH {
                BitBoard(bit(behind(white, m.to_ix())))
            } else {
                BitBoard(0)
            },
            castling: self.rights_after(m),
            captured: if takes_on_target(m.flag()) {
                self.captured.push(self.mailbox[m.to_ix()])
            } else {
                self.captured
            },
            en_passant_stack: self.en_passant_stack.push(self.en_passant),
            castling_stack: self.castling_stack.push(self.castling),
            half_move_clock: self.half_move_clock,
            full_move_number: self.full_move_number,
        }
    }

    /// Whether this state is what making `m` in the state `before` gives.
    pub open spec fn results_from(self, before: Position, m: Move) -> bool {
        before.wf() && before.admits(m) && self == before.make(m)
    }

    /// Whether `m` can be taken back here: some state admits `m` and making it there gives
    /// this state.
    pub open spec fn can_unmake(self, m: Move) -> bool {
        exists|before: Position| self.results_from(before, m)
    }

    /// The squares after `m` is taken back.
    pub open spec fn mailbox_before(self, m: Move) -> Seq<Piece> {
        let from = m.from_ix();
        let to = m.to_ix();
        let flag = m.flag();
        let piece = self.mailbox[to];
        let white = piece.0 <= WK;
        let vacant = Piece(EMPTY);
        if flag == CAPTURE {
            self.mailbox.update(from, piece).update(to, self.captured.last())
        } else if flag == EN_PASSANT {
            self.mailbox.update(from, piece).update(to, vacant).update(
                behind(white, to),
                Piece(
                    if white {
                        BP
                    } else {
                        WP
                    },
                ),
            )
        } else if flag == SHORT_CASTLE {
            if white {
                self.mailbox.update(E1 as int, Piece(WK)).update(G1 as int, vacant).update(
                    H1 as int,
                    Piece(WR),
                ).update(F1 as int, vacant)
            } else {
                self.mailbox.update(E8 as int, Piece(BK)).update(G8 as int, vacant).update(
                    H8 as int,
                    Piece(BR),
                ).update(F8 as int, vacant)
            }
        } else if flag == LONG_CASTLE {
            if white {
                self.mailbox.update(E1 as int, Piece(WK)).update(C1 as int, vacant).update(
                    A1 as int,
                    Piece(WR),
                ).update(D1 as int, vacant)
            } else {
                self.mailbox.update(E8 as int, Piece(BK)).update(C8 as int, vacant).update(
                    A8 as int,
                    Piece(BR),
                ).update(D8 as int, vacant)
            }
        } else if is_promotion(flag) {
            self.mailbox.update(
                to,
                if takes_on_target(flag) {
                    self.captured.last()
                } else {
                    vacant
                },
            ).update(
                from,
                Piece(
                    if white {
                        WP
                    } else {
                        BP
                    },
                ),
            )
        } else {
            self.mailbox.update(from, piece).update(to, vacant)
        }
    }

    /// The state after `m`, the last move made, is taken back.
    pub open spec fn unmake(self, m: Move) -> Position {
        Position {
            mailbox: self.mailbox_before(m),
            side: self.side.other(),
            en_passant: self.en_passant_stack.last(),
            castling: self.castling_stack.last(),
            captured: if takes_on_target(m.flag()) {
                self.captured.drop_last()
            } else {
                self.captured
            },
            en_passant_stack: self.en_passant_stack.drop_last(),
            castling_stack: self.castling_stack.drop_last(),
            half_move_clock: self.half_move_clock,
            full_move_number: self.full_move_number,
        }
    }
}

/// A word that holds exactly the squares where the mailbox holds `piece` is the set of
/// that piece.
pub proof fn lemma_squares_of(p: Position, piece: Piece, x: u64)
    requires
        forall|s: int| 0 <= s < 64 ==> holds(x, s) == (p.mailbox[s] == piece),
    ensures
        x == p.squares_of(piece),
{
    lemma_is_set_where(x, p.holds_kind(piece));
}

/// Which squares the sets of a position hold.
pub proof fn lemma_position_sets(p: Position, s: int)
    requires
        0 <= s < 64,
    ensures
        holds(p.occupied(), s) == p.mailbox[s].is_piece(),
        forall|c: Color| holds(#[trigger] p.occupied_by(c), s) == p.mailbox[s].is_of(c),
        forall|k: Piece| holds(#[trigger] p.squares_of(k), s) == (p.mailbox[s] == k),
{
    lemma_set_below(p.holds_piece(), 64, s);
    assert forall|c: Color| holds(#[trigger] p.occupied_by(c), s) == p.mailbox[s].is_of(c) by {
        lemma_set_below(p.holds_side(c), 64, s);
    }
    assert forall|k: Piece| holds(#[trigger] p.squares_of(k), s) == (p.mailbox[s] == k) by {
        lemma_set_below(p.holds_kind(k), 64, s);
    }
}

/// Making a move and taking it back restores the state, field for field.
pub proof fn lemma_make_unmake(p: Position, m: Move)
    requires
        p.wf(),
        p.admits(m),
    ensures
        p.make(m).unmake(m) == p,
{
    let q = p.make(m);
    let r = q.unmake(m);
    assert(r.mailbox =~= p.mailbox);
    assert(r.captured =~= p.captured);
    assert(r.en_passant_stack =~= p.en_passant_stack);
    assert(r.castling_stack =~= p.castling_stack);
}

/// Making a move keeps the shape of the state.
pub proof fn lemma_make_wf(p: Position, m: Move)
    requires
        p.wf(),
        p.admits(m),
    ensures
        p.make(m).wf(),
{
    let q = p.make(m);
    let left = rights_after_leaving(p.castling.bits, p.mailbox[m.from_ix()], m.from_ix());
    lemma_without(p.castling.bits, WHITE_CASTLE, WHITE_SHORT_CASTLE);
    lemma_without(p.castling.bits, BLACK_CASTLE, WHITE_SHORT_CASTLE);
    lemma_without(p.castling.bits, WHITE_LONG_CASTLE, WHITE_SHORT_CASTLE);
    lemma_without(p.castling.bits, WHITE_SHORT_CASTLE, WHITE_SHORT_CASTLE);
    lemma_without(p.castling.bits, BLACK_LONG_CASTLE, WHITE_SHORT_CASTLE);
    lemma_without(p.castling.bits, BLACK_SHORT_CASTLE, WHITE_SHORT_CASTLE);
    lemma_without(left, WHITE_LONG_CASTLE, WHITE_SHORT_CASTLE);
    lemma_without(left, WHITE_SHORT_CASTLE, WHITE_SHORT_CASTLE);
    lemma_without(left, BLACK_LONG_CASTLE, WHITE_SHORT_CASTLE);
    lemma_without(left, BLACK_SHORT_CASTLE, WHITE_SHORT_CASTLE);
    lemma_count_zero(0);
    if m.flag() == DOUBLE_PUSH {
        lemma_count_bit(behind(p.mailbox[m.from_ix()].0 <= WK, m.to_ix()), 64);
    }
    assert forall|s: int| 0 <= s < 64 implies (#[trigger] q.mailbox[s]).wf() by {
        assert(p.mailbox[s].wf());
    }
}

/// Removing rights never adds one.
proof fn lemma_rights_shrink(p: Position, m: Move, right: u8)
    requires
        right == WHITE_SHORT_CASTLE || right == WHITE_LONG_CASTLE || right == BLACK_SHORT_CASTLE
            || right == BLACK_LONG_CASTLE,
        includes(p.rights_after(m).bits, right),
    ensures
        includes(p.castling.bits, right),
        (right == WHITE_SHORT_CASTLE || right == WHITE_LONG_CASTLE) ==> p.mailbox[m.from_ix()].0
            != WK,
        (right == BLACK_SHORT_CASTLE || right == BLACK_LONG_CASTLE) ==> p.mailbox[m.from_ix()].0
            != BK,
{
    let left = rights_after_leaving(p.castling.bits, p.mailbox[m.from_ix()], m.from_ix());
    lemma_without(p.castling.bits, WHITE_CASTLE, right);
    lemma_without(p.castling.bits, BLACK_CASTLE, right);
    lemma_without(p.castling.bits, WHITE_LONG_CASTLE, right);
    lemma_without(p.castling.bits, WHITE_SHORT_CASTLE, right);
    lemma_without(p.castling.bits, BLACK_LONG_CASTLE, right);
    lemma_without(p.castling.bits, BLACK_SHORT_CASTLE, right);
    lemma_without(left, WHITE_LONG_CASTLE, right);
    lemma_without(left, WHITE_SHORT_CASTLE, right);
    lemma_without(left, BLACK_LONG_CASTLE, right);
    lemma_without(left, BLACK_SHORT_CASTLE, right);
    lemma_without(WHITE_CASTLE, 0, right);
    lemma_without(BLACK_CASTLE, 0, right);
    assert(includes(WHITE_CASTLE, WHITE_SHORT_CASTLE) && includes(WHITE_CASTLE, WHITE_LONG_CASTLE)
        && includes(BLACK_CASTLE, BLACK_SHORT_CASTLE) && includes(BLACK_CASTLE, BLACK_LONG_CASTLE))
        by (bit_vector);
}

/// A move of the side to move leads from a sound position to a sound position.
pub proof fn lemma_make_sound(p: Position, m: Move)
    requires
        p.sound(),
        p.plays(m),
    ensures
        p.make(m).sound(),
{
    let q = p.make(m);
    lemma_make_wf(p, m);
    let from = m.from_ix();
    let to = m.to_ix();
    let piece = p.mailbox[from];
    let white = piece.0 <= WK;
    if m.flag() == DOUBLE_PUSH {
        let k = behind(white, to);
        lemma_bit_lowest(k);
        lemma_holds_bit(k, k);
        lemma_zero_holds_nothing(bit(k));
        assert(q.en_passant_fits());
    }
    if includes(q.castling.bits, WHITE_SHORT_CASTLE) || includes(
        q.castling.bits,
        WHITE_LONG_CASTLE,
    ) {
        if includes(q.castling.bits, WHITE_SHORT_CASTLE) {
            lemma_rights_shrink(p, m, WHITE_SHORT_CASTLE);
        } else {
            lemma_rights_shrink(p, m, WHITE_LONG_CASTLE);
        }
        assert forall|s: int| 0 <= s < 64 && (#[trigger] q.mailbox[s]).0 == WK implies s == E1 by {
            assert(p.mailbox[s].0 == WK);
        }
    }
    if includes(q.castling.bits, BLACK_SHORT_CASTLE) || includes(
        q.castling.bits,
        BLACK_LONG_CASTLE,
    ) {
        if includes(q.castling.bits, BLACK_SHORT_CASTLE) {
            lemma_rights_shrink(p, m, BLACK_SHORT_CASTLE);
        } else {
            lemma_rights_shrink(p, m, BLACK_LONG_CASTLE);
        }
        assert forall|s: int| 0 <= s < 64 && (#[trigger] q.mailbox[s]).0 == BK implies s == E8 by {
            assert(p.mailbox[s].0 == BK);
        }
    }
}

/// A move of the side to move leaves that side's king on the board.
pub proof fn lemma_king_stays(p: Position, m: Move)
    requires
        p.wf(),
        p.plays(m),
        p.squares_of(piece_of(p.side, WK)) != 0,
    ensures
        p.make(m).squares_of(piece_of(p.side, WK)) != 0,
        p.make(m).king_square(p.side) < 64,
{
    let q = p.make(m);
    let king = piece_of(p.side, WK);
    let x = p.squares_of(king);
    lemma_zero_holds_nothing(x);
    let s = choose|s: int| 0 <= s < 64 && holds(x, s);
    lemma_position_sets(p, s);
    assert(p.mailbox[s] == king);
    let from = m.from_ix();
    let to = m.to_ix();
    let flag = m.flag();
    let now: int = if s != from {
        s
    } else if flag == SHORT_CASTLE {
        if p.side.0 == WHITE {
            G1 as int
        } else {
            G8 as int
        }
    } else if flag == LONG_CASTLE {
        if p.side.0 == WHITE {
            C1 as int
        } else {
            C8 as int
        }
    } else {
        to
    };
    assert(q.mailbox[now] == king);
    lemma_position_sets(q, now);
    lemma_zero_holds_nothing(q.squares_of(king));
    lemma_lowest(q.squares_of(king));
}

} // verus!
