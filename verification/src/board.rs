//! The board: a piece per square, a set of squares per piece kind and per colour, and the
//! state that moves change and restore.
use crate::bitboard::BitBoard;
use crate::bits::{
    bit, count_bits, holds, lemma_at_most_one, lemma_bit_meets, lemma_clear_bit, lemma_count_bit,
    lemma_count_zero, lemma_holds_connectives, lemma_holds_shift, lemma_is_set_where, lemma_meet,
    lemma_same_bits, lemma_set_bit, lemma_toggle_pair, lemma_zero_holds_nothing,
};
use crate::castling::{
    includes, lemma_without, without, CastlingRights, ALL, BLACK_CASTLE, BLACK_LONG_CASTLE,
    BLACK_SHORT_CASTLE, NONE, WHITE_CASTLE, WHITE_LONG_CASTLE, WHITE_SHORT_CASTLE,
};
use crate::chess_move::{
    lemma_first_match_member, parse_move, Move, MoveFlags, CAPTURE, DOUBLE_PUSH, EN_PASSANT,
    LONG_CASTLE, QUIET, SHORT_CASTLE,
};
use crate::fen::{board_to_fen, fen_text, fen_to_board, parse_fen};
use crate::masks::{
    BLACK_BISHOP_INIT, BLACK_KING_INIT, BLACK_KNIGHT_INIT, BLACK_OCCUPANY_INIT, BLACK_PAWN_INIT,
    BLACK_QUEEN_INIT, BLACK_ROOK_INIT, WHITE_BISHOP_INIT, WHITE_KING_INIT, WHITE_KNIGHT_INIT,
    WHITE_OCCUPANY_INIT, WHITE_PAWN_INIT, WHITE_QUEEN_INIT, WHITE_ROOK_INIT,
};
use crate::movegen::AttackTables;
use crate::movegen::legality::lemma_generated_plays;
use crate::movegen::movescan::{scan_pawn_moves, scan_piece_moves};
use crate::movegen::non_sliding::{
    get_king_attacks, get_knight_attacks, king_reaches, knight_reaches,
};
use crate::movegen::pseudo::{lemma_overwrite_twice, overwrite};
use crate::movegen::sliding::{bishop_attacks, get_bishop_attacks, get_rook_attacks, rook_attacks};
use crate::piece::{
    Color, Piece, BB, BK, BLACK, BN, BP, BQ, BR, EMPTY, WB, WHITE, WK, WN, WP, WQ, WR,
};
use crate::position::{
    lemma_make_sound, lemma_make_unmake, lemma_squares_of, pawn_reaches, piece_of, Position,
};
use crate::square::{parse_square, Square, A1, A8, C1, C8, D1, D8, E1, E8, F1, F8, G1, G8, H1, H8};
use crate::utils::{cell_texts, grid_text, grid_to_string};
use vstd::prelude::*;

verus! {

/// A chess position with the history needed to take moves back.
#[derive(Debug, PartialEq, Eq)]
pub struct Board {
    pub state: [Piece; 64],
    pub pieces: [BitBoard; 12],
    pub occupancy: [BitBoard; 2],
    pub color_to_move: Color,
    pub en_passant: BitBoard,
    pub castling_rights: CastlingRights,
    pub captured_pieces_stack: Vec<Piece>,
    pub en_passant_stack: Vec<BitBoard>,
    pub castling_rights_stack: Vec<CastlingRights>,
    pub half_move_clock: usize,
    pub full_move_number: usize,
}

impl View for Board {
    type V = Position;

    open spec fn view(&self) -> Position {
        Position {
            mailbox: self.state@,
            side: self.color_to_move,
            en_passant: self.en_passant,
            castling: self.castling_rights,
            captured: self.captured_pieces_stack@,
            en_passant_stack: self.en_passant_stack@,
            castling_stack: self.castling_rights_stack@,
            half_move_clock: self.half_move_clock,
            full_move_number: self.full_move_number,
        }
    }
}

impl Default for Board {
    /// The opening position.
    fn default() -> (r: Board)
        ensures
            r.wf(),
            r@ == Position::opening(),
    {
        Board::new()
    }
}

impl Board {
    /// The three redundant pictures of the board agree: square `s` is in the set of piece
    /// `p` exactly when the mailbox holds `p` there, and in the set of a colour exactly
    /// when the mailbox holds a piece of that colour there.
    pub open spec fn sets_agree(&self) -> bool {
        &&& forall|s: int| 0 <= s < 64 ==> (#[trigger] self.state@[s]).wf()
        &&& forall|p: int, s: int|
            0 <= p < 12 && 0 <= s < 64 ==> #[trigger] holds(self.pieces@[p].0, s) == (
            self.state@[s].0 == p)
        &&& forall|s: int|
            0 <= s < 64 ==> #[trigger] holds(self.occupancy@[0].0, s) == (self.state@[s].0 <= WK)
        &&& forall|s: int|
            0 <= s < 64 ==> #[trigger] holds(self.occupancy@[1].0, s) == (BP <= self.state@[s].0
                <= BK)
    }

    /// The invariant of every board: the pictures agree, the side and the rights are
    /// proper, and the en-passant target holds at most one square.
    pub open spec fn wf(&self) -> bool {
        &&& self.sets_agree()
        &&& self.color_to_move.wf()
        &&& self.castling_rights.wf()
        &&& count_bits(self.en_passant.0) <= 1
    }

    /// Everything but the placement of the pieces is the same in both boards.
    pub open spec fn same_game_state(&self, other: &Board) -> bool {
        &&& self.color_to_move == other.color_to_move
        &&& self.en_passant == other.en_passant
        &&& self.castling_rights == other.castling_rights
        &&& self.captured_pieces_stack@ == other.captured_pieces_stack@
        &&& self.en_passant_stack@ == other.en_passant_stack@
        &&& self.castling_rights_stack@ == other.castling_rights_stack@
        &&& self.half_move_clock == other.half_move_clock
        &&& self.full_move_number == other.full_move_number
    }

    /// The opening position, white to move, all four castling rights.
    pub fn new() -> (r: Board)
        ensures
            r.wf(),
            r@ == Position::opening(),
    {
        let r = Board {
            state: [
                Piece(WR), Piece(WN), Piece(WB), Piece(WQ), Piece(WK), Piece(WB), Piece(WN), Piece(WR),
                Piece(WP), Piece(WP), Piece(WP), Piece(WP), Piece(WP), Piece(WP), Piece(WP), Piece(WP),
                Piece(EMPTY), Piece(EMPTY), Piece(EMPTY), Piece(EMPTY), Piece(EMPTY), Piece(EMPTY), Piece(EMPTY), Piece(EMPTY),
                Piece(EMPTY), Piece(EMPTY), Piece(EMPTY), Piece(EMPTY), Piece(EMPTY), Piece(EMPTY), Piece(EMPTY), Piece(EMPTY),
                Piece(EMPTY), Piece(EMPTY), Piece(EMPTY), Piece(EMPTY), Piece(EMPTY), Piece(EMPTY), Piece(EMPTY), Piece(EMPTY),
                Piece(EMPTY), Piece(EMPTY), Piece(EMPTY), Piece(EMPTY), Piece(EMPTY), Piece(EMPTY), Piece(EMPTY), Piece(EMPTY),
                Piece(BP), Piece(BP), Piece(BP), Piece(BP), Piece(BP), Piece(BP), Piece(BP), Piece(BP),
                Piece(BR), Piece(BN), Piece(BB), Piece(BQ), Piece(BK), Piece(BB), Piece(BN), Piece(BR),
            ],
            pieces: [
                BitBoard(WHITE_PAWN_INIT),
                BitBoard(WHITE_KNIGHT_INIT),
                BitBoard(WHITE_BISHOP_INIT),
                BitBoard(WHITE_ROOK_INIT),
                BitBoard(WHITE_QUEEN_INIT),
                BitBoard(WHITE_KING_INIT),
                BitBoard(BLACK_PAWN_INIT),
                BitBoard(BLACK_KNIGHT_INIT),
                BitBoard(BLACK_BISHOP_INIT),
                BitBoard(BLACK_ROOK_INIT),
                BitBoard(BLACK_QUEEN_INIT),
                BitBoard(BLACK_KING_INIT),
            ],
            occupancy: [BitBoard(WHITE_OCCUPANY_INIT), BitBoard(BLACK_OCCUPANY_INIT)],
            color_to_move: Color(WHITE),
            en_passant: BitBoard(0),
            castling_rights: CastlingRights { bits: ALL },
            captured_pieces_stack: Vec::with_capacity(16),
            en_passant_stack: Vec::with_capacity(16),
            castling_rights_stack: Vec::with_capacity(16),
            half_move_clock: 0,
            full_move_number: 1,
        };
        proof {
            lemma_count_zero(0);
            assert(r@.mailbox =~= Position::opening().mailbox);
            assert forall|s: int| 0 <= s < 64 implies holds(r.occupancy@[0].0, s) == (r.state@[s].0
                <= WK) && holds(r.occupancy@[1].0, s) == (BP <= r.state@[s].0 <= BK)
                && r.state@[s].wf() by {
                lemma_opening_sets(s);
                assert(r.state@[s] == Position::opening().mailbox[s]);
            }
            assert forall|p: int, s: int| 0 <= p < 12 && 0 <= s < 64 implies #[trigger] holds(
                r.pieces@[p].0,
                s,
            ) == (r.state@[s].0 == p) by {
                lemma_opening_sets(s);
                assert(r.state@[s] == Position::opening().mailbox[s]);
                if p == 0 {
                    assert(r.pieces@[0].0 == WHITE_PAWN_INIT);
                } else if p == 1 {
                    assert(r.pieces@[1].0 == WHITE_KNIGHT_INIT);
                } else if p == 2 {
                    assert(r.pieces@[2].0 == WHITE_BISHOP_INIT);
                } else if p == 3 {
                    assert(r.pieces@[3].0 == WHITE_ROOK_INIT);
                } else if p == 4 {
                    assert(r.pieces@[4].0 == WHITE_QUEEN_INIT);
                } else if p == 5 {
                    assert(r.pieces@[5].0 == WHITE_KING_INIT);
                } else if p == 6 {
                    assert(r.pieces@[6].0 == BLACK_PAWN_INIT);
                } else if p == 7 {
                    assert(r.pieces@[7].0 == BLACK_KNIGHT_INIT);
                } else if p == 8 {
                    assert(r.pieces@[8].0 == BLACK_BISHOP_INIT);
                } else if p == 9 {
                    assert(r.pieces@[9].0 == BLACK_ROOK_INIT);
                } else if p == 10 {
                    assert(r.pieces@[10].0 == BLACK_QUEEN_INIT);
                } else if p == 11 {
                    assert(r.pieces@[11].0 == BLACK_KING_INIT);
                }
            }
            assert(r@.captured =~= Position::opening().captured);
            assert(r@.en_passant_stack =~= Position::opening().en_passant_stack);
            assert(r@.castling_stack =~= Position::opening().castling_stack);
        }
        r
    }

    /// A board without pieces, white to move, no castling rights.
    pub fn new_empty() -> (r: Board)
        ensures
            r.wf(),
            r@ == Position::vacant(),
    {
        let r = Board {
            state: [Piece(EMPTY);64],
            pieces: [BitBoard(0);12],
            occupancy: [BitBoard(0);2],
            color_to_move: Color(WHITE),
            en_passant: BitBoard(0),
            castling_rights: CastlingRights { bits: NONE },
            captured_pieces_stack: Vec::with_capacity(16),
            en_passant_stack: Vec::with_capacity(16),
            castling_rights_stack: Vec::with_capacity(16),
            half_move_clock: 0,
            full_move_number: 0,
        };
        proof {
            lemma_count_zero(0);
            assert forall|s: int| 0 <= s < 64 implies !holds(0, s) by {
                lemma_holds_connectives(0, 0, s);
            }
            assert(r@.mailbox =~= Position::vacant().mailbox);
            assert(r@.captured =~= Position::vacant().captured);
            assert(r@.en_passant_stack =~= Position::vacant().en_passant_stack);
            assert(r@.castling_stack =~= Position::vacant().castling_stack);
        }
        r
    }

    /// Writes the pseudo-legal moves of the side to move into `moves` from the start and
    /// returns how many there are. A buffer of `MAX_MOVES` slots holds them whatever the
    /// position.
    pub fn get_moves(&self, tables: &AttackTables, moves: &mut [Move]) -> (r: usize)
        requires
            self.wf(),
            tables.wf(),
            self@.pseudo_legal(self@.side).len() <= old(moves)@.len(),
        ensures
            r == self@.pseudo_legal(self@.side).len(),
            final(moves)@ == overwrite(old(moves)@, 0, self@.pseudo_legal(self@.side)),
    {
        self.get_moves_for_color(tables, moves, self.color_to_move)
    }

    fn get_moves_for_color(&self, tables: &AttackTables, moves: &mut [Move], color: Color) -> (r:
        usize)
        requires
            self.wf(),
            tables.wf(),
            color == self.color_to_move,
            self@.pseudo_legal(color).len() <= old(moves)@.len(),
        ensures
            r == self@.pseudo_legal(color).len(),
            final(moves)@ == overwrite(old(moves)@, 0, self@.pseudo_legal(color)),
    {
        let ghost base = moves@;
        let ghost p = self@;
        let ghost a = p.pawn_moves(color);
        let ghost n = p.piece_moves(piece_of(color, WN));
        let ghost b = p.piece_moves(piece_of(color, WB));
        let ghost r = p.piece_moves(piece_of(color, WR));
        let ghost q = p.piece_moves(piece_of(color, WQ));
        let ghost k = p.piece_moves(piece_of(color, WK));
        let mut index: usize = 0;
        index = scan_pawn_moves(self, color, moves, index);
        if color.0 == WHITE {
            index = scan_piece_moves(self, tables, Piece(WN), moves, index);
            index = scan_piece_moves(self, tables, Piece(WB), moves, index);
            index = scan_piece_moves(self, tables, Piece(WR), moves, index);
            index = scan_piece_moves(self, tables, Piece(WQ), moves, index);
            index = scan_piece_moves(self, tables, Piece(WK), moves, index);
        } else {
            index = scan_piece_moves(self, tables, Piece(BN), moves, index);
            index = scan_piece_moves(self, tables, Piece(BB), moves, index);
            index = scan_piece_moves(self, tables, Piece(BR), moves, index);
            index = scan_piece_moves(self, tables, Piece(BQ), moves, index);
            index = scan_piece_moves(self, tables, Piece(BK), moves, index);
        }
        proof {
            lemma_overwrite_twice(base, 0, a, n);
            lemma_overwrite_twice(base, 0, a + n, b);
            lemma_overwrite_twice(base, 0, a + n + b, r);
            lemma_overwrite_twice(base, 0, a + n + b + r, q);
            lemma_overwrite_twice(base, 0, a + n + b + r + q, k);
        }
        index
    }

    /// Whether the en-passant target and the castling rights fit the pieces on the board, as
    /// they do in every position that play from a sound position reaches.
    pub fn is_sound(&self) -> (r: bool)
        requires
            self.wf(),
        ensures
            r == self@.sound(),
    {
        if self.en_passant.is_not_empty() {
            proof {
                lemma_at_most_one(self.en_passant.0);
            }
            let k = self.en_passant.bit_scan();
            if self.state[k as usize].0 != EMPTY {
                return false;
            }
            if self.color_to_move.0 == WHITE {
                if k / 8 != 5 || self.state[(k - 8) as usize].0 != BP {
                    return false;
                }
            } else {
                if k / 8 != 2 || self.state[(k + 8) as usize].0 != WP {
                    return false;
                }
            }
        }
        let white_rights = self.castling_rights.contains(
            CastlingRights { bits: WHITE_SHORT_CASTLE },
        ) || self.castling_rights.contains(CastlingRights { bits: WHITE_LONG_CASTLE });
        let black_rights = self.castling_rights.contains(
            CastlingRights { bits: BLACK_SHORT_CASTLE },
        ) || self.castling_rights.contains(CastlingRights { bits: BLACK_LONG_CASTLE });
        let white_kings_away = self.pieces[WK as usize].0 & !BitBoard::new(Square(E1)).0;
        let black_kings_away = self.pieces[BK as usize].0 & !BitBoard::new(Square(E8)).0;
        proof {
            lemma_clear_bit(self.pieces@[WK as int].0, E1 as int);
            lemma_clear_bit(self.pieces@[BK as int].0, E8 as int);
            lemma_zero_holds_nothing(white_kings_away);
            lemma_zero_holds_nothing(black_kings_away);
            if white_kings_away == 0 {
                assert forall|s: int| 0 <= s < 64 && (#[trigger] self@.mailbox[s]).0
                    == WK implies s == E1 by {
                    assert(holds(self.pieces@[WK as int].0, s));
                    assert(!holds(white_kings_away, s));
                }
            } else {
                let s = choose|s: int| 0 <= s < 64 && holds(white_kings_away, s);
                assert(holds(self.pieces@[WK as int].0, s) == (self.state@[s].0 == WK));
                assert(self@.mailbox[s].0 == WK && s != E1);
            }
            if black_kings_away == 0 {
                assert forall|s: int| 0 <= s < 64 && (#[trigger] self@.mailbox[s]).0
                    == BK implies s == E8 by {
                    assert(holds(self.pieces@[BK as int].0, s));
                    assert(!holds(black_kings_away, s));
                }
            } else {
                let s = choose|s: int| 0 <= s < 64 && holds(black_kings_away, s);
                assert(holds(self.pieces@[BK as int].0, s) == (self.state@[s].0 == BK));
                assert(self@.mailbox[s].0 == BK && s != E8);
            }
        }
        if white_rights && white_kings_away != 0 {
            return false;
        }
        if black_rights && black_kings_away != 0 {
            return false;
        }
        true
    }

    /// Makes the move `m`: moves the pieces as its flag says, saves the castling rights and
    /// the en-passant target for `undo_move`, takes away the rights that a king or rook
    /// move or the capture of a rook in its corner forfeits, and hands the move to the
    /// other side.
    pub fn make_move(&mut self, m: &Move)
        requires
            old(self).wf(),
            old(self)@.admits(*m),
        ensures
            final(self).wf(),
            final(self)@ == old(self)@.make(*m),
            final(self)@.results_from(old(self)@, *m),
            final(self)@.can_unmake(*m),
    {
        let from = m.from();
        let to = m.to();
        let flags = m.flags();
        let piece = self.piece_at_square(from);
        let is_white = piece.color().0 == WHITE;
        let ghost start = self@;

        self.castling_rights_stack.push(self.castling_rights);
        self.en_passant_stack.push(self.en_passant);
        self.en_passant = BitBoard(0);
        proof {
            lemma_count_zero(0);
        }
        let mut victim = Piece(EMPTY);

        if flags.bits == QUIET {
            self.move_piece(from, to, piece);
        } else if flags.bits == DOUBLE_PUSH {
            self.move_piece(from, to, piece);
            let skipped = Square(
                if is_white {
                    to.0 - 8
                } else {
                    to.0 + 8
                },
            );
            self.en_passant = BitBoard::new(skipped);
            proof {
                lemma_count_bit(skipped.0 as int, 64);
            }
        } else if flags.bits == CAPTURE {
            let captured_piece = self.piece_at_square(to);
            self.captured_pieces_stack.push(captured_piece);
            self.remove_piece_from_square(captured_piece, to);
            self.move_piece(from, to, piece);
            victim = captured_piece;
        } else if flags.bits == EN_PASSANT {
            self.move_piece(from, to, piece);
            if is_white {
                self.remove_piece_from_square(Piece(BP), Square(to.0 - 8));
            } else {
                self.remove_piece_from_square(Piece(WP), Square(to.0 + 8));
            }
        } else if flags.bits == SHORT_CASTLE {
            if is_white {
                self.move_piece(Square(E1), Square(G1), Piece(WK));
                self.move_piece(Square(H1), Square(F1), Piece(WR));
            } else {
                self.move_piece(Square(E8), Square(G8), Piece(BK));
                self.move_piece(Square(H8), Square(F8), Piece(BR));
            }
        } else if flags.bits == LONG_CASTLE {
            if is_white {
                self.move_piece(Square(E1), Square(C1), Piece(WK));
                self.move_piece(Square(A1), Square(D1), Piece(WR));
            } else {
                self.move_piece(Square(E8), Square(C8), Piece(BK));
                self.move_piece(Square(A8), Square(D8), Piece(BR));
            }
        } else {
            let promotion = m.promotion(is_white);
            if flags.contains(MoveFlags { bits: CAPTURE }) {
                let captured_piece = self.piece_at_square(to);
                self.captured_pieces_stack.push(captured_piece);
                self.remove_piece_from_square(captured_piece, to);
                victim = captured_piece;
            }
            self.remove_piece_from_square(piece, from);
            self.add_piece_to_square(promotion, to);
        }

        let mut lost: u8 = NONE;
        if piece.0 == WK {
            lost = WHITE_CASTLE;
        } else if piece.0 == BK {
            lost = BLACK_CASTLE;
        } else if piece.0 == WR {
            if from.0 == A1 {
                lost = WHITE_LONG_CASTLE;
            } else if from.0 == H1 {
                lost = WHITE_SHORT_CASTLE;
            }
        } else if piece.0 == BR {
            if from.0 == A8 {
                lost = BLACK_LONG_CASTLE;
            } else if from.0 == H8 {
                lost = BLACK_SHORT_CASTLE;
            }
        }
        let mut taken: u8 = NONE;
        if victim.0 == WR {
            if to.0 == A1 {
                taken = WHITE_LONG_CASTLE;
            } else if to.0 == H1 {
                taken = WHITE_SHORT_CASTLE;
            }
        } else if victim.0 == BR {
            if to.0 == A8 {
                taken = BLACK_LONG_CASTLE;
            } else if to.0 == H8 {
                taken = BLACK_SHORT_CASTLE;
            }
        }
        proof {
            lemma_without(self.castling_rights.bits, lost, WHITE_SHORT_CASTLE);
            lemma_without(without(self.castling_rights.bits, lost), taken, WHITE_SHORT_CASTLE);
        }
        self.castling_rights.remove(CastlingRights { bits: lost });
        self.castling_rights.remove(CastlingRights { bits: taken });

        self.color_to_move = self.color_to_move.enemy();
        proof {
            let goal = start.make(*m);
            assert(self@.mailbox =~= goal.mailbox);
            assert(self@.captured =~= goal.captured);
            assert(self@.en_passant_stack =~= goal.en_passant_stack);
            assert(self@.castling_stack =~= goal.castling_stack);
            assert(self@.castling == goal.castling);
            assert(self@.en_passant == goal.en_passant);
            assert(self@.results_from(start, *m));
        }
    }

    /// Takes back `m`, the move made last, and restores the board as it was before it.
    pub fn undo_move(&mut self, m: &Move)
        requires
            old(self).wf(),
            old(self)@.can_unmake(*m),
        ensures
            final(self).wf(),
            final(self)@ == old(self)@.unmake(*m),
            forall|before: Position| #[trigger]
                old(self)@.results_from(before, *m) ==> final(self)@ == before,
    {
        let ghost now = self@;
        let ghost before = choose|before: Position| now.results_from(before, *m);
        proof {
            lemma_make_unmake(before, *m);
            assert forall|other: Position| #[trigger] now.results_from(other, *m) implies other
                == before by {
                lemma_make_unmake(other, *m);
            }
        }
        let from = m.from();
        let to = m.to();
        let flags = m.flags();
        let piece = self.piece_at_square(to);
        let is_white = piece.color().0 == WHITE;

        if flags.bits == QUIET {
            self.move_piece(to, from, piece);
        } else if flags.bits == DOUBLE_PUSH {
            self.move_piece(to, from, piece);
        } else if flags.bits == CAPTURE {
            self.move_piece(to, from, piece);
            let captured_piece = self.captured_pieces_stack.pop().unwrap();
            self.add_piece_to_square(captured_piece, to);
        } else if flags.bits == EN_PASSANT {
            self.move_piece(to, from, piece);
            if is_white {
                self.add_piece_to_square(Piece(BP), Square(to.0 - 8));
            } else {
                self.add_piece_to_square(Piece(WP), Square(to.0 + 8));
            }
        } else if flags.bits == SHORT_CASTLE {
            if is_white {
                self.move_piece(Square(G1), Square(E1), Piece(WK));
                self.move_piece(Square(F1), Square(H1), Piece(WR));
            } else {
                self.move_piece(Square(G8), Square(E8), Piece(BK));
                self.move_piece(Square(F8), Square(H8), Piece(BR));
            }
        } else if flags.bits == LONG_CASTLE {
            if is_white {
                self.move_piece(Square(C1), Square(E1), Piece(WK));
                self.move_piece(Square(D1), Square(A1), Piece(WR));
            } else {
                self.move_piece(Square(C8), Square(E8), Piece(BK));
                self.move_piece(Square(D8), Square(A8), Piece(BR));
            }
        } else {
            let promotion = piece;
            self.remove_piece_from_square(promotion, to);
            self.add_piece_to_square(
                if is_white {
                    Piece(WP)
                } else {
                    Piece(BP)
                },
                from,
            );
            if flags.contains(MoveFlags { bits: CAPTURE }) {
                let captured_piece = self.captured_pieces_stack.pop().unwrap();
                self.add_piece_to_square(captured_piece, to);
            }
        }

        self.castling_rights = self.castling_rights_stack.pop().unwrap();
        self.en_passant = self.en_passant_stack.pop().unwrap();
        self.color_to_move = self.color_to_move.enemy();
        proof {
            let goal = now.unmake(*m);
            assert(self@.mailbox =~= goal.mailbox);
            assert(self@.captured =~= goal.captured);
            assert(self@.en_passant_stack =~= goal.en_passant_stack);
            assert(self@.castling_stack =~= goal.castling_stack);
        }
    }

    /// Whether one of the squares listed is attacked by the opponent of `color`.
    pub fn are_squares_attacked(
        &self,
        tables: &AttackTables,
        squares: &[Square],
        color: Color,
    ) -> (r: bool)
        requires
            self.wf(),
            tables.wf(),
            color.wf(),
            forall|k: int| 0 <= k < squares@.len() ==> squares@[k].wf(),
        ensures
            r == exists|k: int|
                0 <= k < squares@.len() && self@.attacked(#[trigger] squares@[k], color.other()),
    {
        let mut n: usize = 0;
        while n < squares.len()
            invariant
                self.wf(),
                tables.wf(),
                color.wf(),
                n <= squares@.len(),
                forall|k: int| 0 <= k < squares@.len() ==> squares@[k].wf(),
                forall|k: int| 0 <= k < n ==> !self@.attacked(#[trigger] squares@[k], color.other()),
            decreases squares@.len() - n,
        {
            if self.is_sqaure_attacked(tables, squares[n], color) {
                return true;
            }
            n += 1;
        }
        false
    }

    /// Whether `square` is attacked by the opponent of `color`, tested from the square
    /// outwards: a rook placed there would reach an enemy rook or queen, and so on for
    /// each kind of piece.
    pub fn is_sqaure_attacked(&self, tables: &AttackTables, square: Square, color: Color) -> (r:
        bool)
        requires
            self.wf(),
            tables.wf(),
            square.wf(),
            color.wf(),
        ensures
            r == self@.attacked(square, color.other()),
    {
        let enemy = color.enemy();
        let white = enemy.0 == WHITE;
        let enemy_rook = if white {
            Piece(WR).to_usize()
        } else {
            Piece(BR).to_usize()
        };
        let enemy_bishop = if white {
            Piece(WB).to_usize()
        } else {
            Piece(BB).to_usize()
        };
        let enemy_queen = if white {
            Piece(WQ).to_usize()
        } else {
            Piece(BQ).to_usize()
        };
        let enemy_knight = if white {
            Piece(WN).to_usize()
        } else {
            Piece(BN).to_usize()
        };
        let enemy_king = if white {
            Piece(WK).to_usize()
        } else {
            Piece(BK).to_usize()
        };
        let enemy_pawn = if white {
            Piece(WP).to_usize()
        } else {
            Piece(BP).to_usize()
        };
        let all_occupancy = self.all_occupancy();
        proof {
            self.lemma_occupied();
        }
        let ghost sq = square.0 as int;
        let ghost p = self@;

        let rook_like = BitBoard(self.pieces[enemy_rook].0 | self.pieces[enemy_queen].0);
        let rook_reach = get_rook_attacks(&tables.sliders, square, all_occupancy);
        proof {
            lemma_meet(rook_reach.0, rook_like.0);
            assert forall|t: int| 0 <= t < 64 implies holds(rook_like.0, t) == (p.mailbox[t]
                == piece_of(enemy, WR) || p.mailbox[t] == piece_of(enemy, WQ)) by {
                lemma_holds_connectives(
                    self.pieces@[enemy_rook as int].0,
                    self.pieces@[enemy_queen as int].0,
                    t,
                );
                assert(holds(self.pieces@[enemy_rook as int].0, t) == (self.state@[t].0
                    == enemy_rook));
                assert(holds(self.pieces@[enemy_queen as int].0, t) == (self.state@[t].0
                    == enemy_queen));
            }
        }
        if (rook_reach.0 & rook_like.0) != 0 {
            proof {
                let t = choose|t: int|
                    0 <= t < 64 && holds(rook_reach.0, t) && holds(rook_like.0, t);
                assert(0 <= t < 64 && holds(rook_attacks(square, p.occupied()), t) && (p.mailbox[t]
                    == piece_of(enemy, WR) || p.mailbox[t] == piece_of(enemy, WQ)));
            }
            return true;
        }
        let bishop_like = BitBoard(self.pieces[enemy_bishop].0 | self.pieces[enemy_queen].0);
        let bishop_reach = get_bishop_attacks(&tables.sliders, square, all_occupancy);
        proof {
            lemma_meet(bishop_reach.0, bishop_like.0);
            assert forall|t: int| 0 <= t < 64 implies holds(bishop_like.0, t) == (p.mailbox[t]
                == piece_of(enemy, WB) || p.mailbox[t] == piece_of(enemy, WQ)) by {
                lemma_holds_connectives(
                    self.pieces@[enemy_bishop as int].0,
                    self.pieces@[enemy_queen as int].0,
                    t,
                );
                assert(holds(self.pieces@[enemy_bishop as int].0, t) == (self.state@[t].0
                    == enemy_bishop));
                assert(holds(self.pieces@[enemy_queen as int].0, t) == (self.state@[t].0
                    == enemy_queen));
            }
        }
        if (bishop_reach.0 & bishop_like.0) != 0 {
            proof {
                let t = choose|t: int|
                    0 <= t < 64 && holds(bishop_reach.0, t) && holds(bishop_like.0, t);
                assert(0 <= t < 64 && holds(bishop_attacks(square, p.occupied()), t) && (
                p.mailbox[t] == piece_of(enemy, WB) || p.mailbox[t] == piece_of(enemy, WQ)));
            }
            return true;
        }
        let knight_reach = get_knight_attacks(&tables.leapers, square);
        proof {
            lemma_meet(knight_reach.0, self.pieces@[enemy_knight as int].0);
            assert forall|t: int| 0 <= t < 64 implies holds(self.pieces@[enemy_knight as int].0, t)
                == (p.mailbox[t] == piece_of(enemy, WN)) by {
                assert(holds(self.pieces@[enemy_knight as int].0, t) == (self.state@[t].0
                    == enemy_knight));
            }
        }
        if (knight_reach.0 & self.pieces[enemy_knight].0) != 0 {
            proof {
                let t = choose|t: int|
                    0 <= t < 64 && holds(knight_reach.0, t) && holds(
                        self.pieces@[enemy_knight as int].0,
                        t,
                    );
                assert(knight_reach.contains(t));
                assert(0 <= t < 64 && knight_reaches(sq, t) && p.mailbox[t] == piece_of(enemy, WN));
            }
            return true;
        }
        let king_reach = get_king_attacks(&tables.leapers, square);
        proof {
            lemma_meet(king_reach.0, self.pieces@[enemy_king as int].0);
            assert forall|t: int| 0 <= t < 64 implies holds(self.pieces@[enemy_king as int].0, t)
                == (p.mailbox[t] == piece_of(enemy, WK)) by {
                assert(holds(self.pieces@[enemy_king as int].0, t) == (self.state@[t].0
                    == enemy_king));
            }
        }
        if (king_reach.0 & self.pieces[enemy_king].0) != 0 {
            proof {
                let t = choose|t: int|
                    0 <= t < 64 && holds(king_reach.0, t) && holds(
                        self.pieces@[enemy_king as int].0,
                        t,
                    );
                assert(king_reach.contains(t));
                assert(0 <= t < 64 && king_reaches(sq, t) && p.mailbox[t] == piece_of(enemy, WK));
            }
            return true;
        }
        let potential_attacking_pawns = BitBoard(king_reach.0 & self.pieces[enemy_pawn].0);
        let here = BitBoard::new(square);
        let pot = potential_attacking_pawns.0;
        let attacking_pawns = if white {
            BitBoard(here.0 & ((pot << 7u8) | (pot << 9u8)))
        } else {
            BitBoard(here.0 & ((pot >> 7u8) | (pot >> 9u8)))
        };
        proof {
            assert forall|t: int| 0 <= t < 64 implies holds(pot, t) == (king_reaches(sq, t)
                && p.mailbox[t] == piece_of(enemy, WP)) by {
                lemma_holds_connectives(king_reach.0, self.pieces@[enemy_pawn as int].0, t);
                assert(king_reach.contains(t) == king_reaches(sq, t));
                assert(holds(self.pieces@[enemy_pawn as int].0, t) == (self.state@[t].0
                    == enemy_pawn));
            }
            lemma_bit_meets(sq, (pot << 7u64) | (pot << 9u64));
            lemma_bit_meets(sq, (pot >> 7u64) | (pot >> 9u64));
            lemma_holds_connectives(pot << 7u64, pot << 9u64, sq);
            lemma_holds_connectives(pot >> 7u64, pot >> 9u64, sq);
            lemma_holds_shift(pot, 7, sq);
            lemma_holds_shift(pot, 9, sq);
            if attacking_pawns.0 != 0 {
                let t: int = if white {
                    if sq >= 7 && holds(pot, sq - 7) {
                        sq - 7
                    } else {
                        sq - 9
                    }
                } else {
                    if sq + 7 < 64 && holds(pot, sq + 7) {
                        sq + 7
                    } else {
                        sq + 9
                    }
                };
                assert(holds(pot, t));
                assert(0 <= t < 64 && pawn_reaches(enemy, t, sq) && p.mailbox[t] == piece_of(
                    enemy,
                    WP,
                ));
            } else {
                assert forall|t: int|
                    0 <= t < 64 && pawn_reaches(enemy, t, sq) implies p.mailbox[t] != piece_of(
                    enemy,
                    WP,
                ) by {
                    assert(king_reaches(sq, t));
                    assert(t == sq - 7 || t == sq - 9 || t == sq + 7 || t == sq + 9);
                    assert(!holds(pot, t));
                }
            }
        }
        if attacking_pawns.is_not_empty() {
            return true;
        }
        false
    }

    /// Whether the king of `color`, the side that has just moved, is attacked.
    pub fn is_king_in_check(&self, tables: &AttackTables, color: Color) -> (r: bool)
        requires
            self.wf(),
            tables.wf(),
            color.wf(),
            color.other() == self.color_to_move,
            self@.king_square(color) < 64,
        ensures
            r == self@.in_check(color),
    {
        proof {
            self.lemma_piece_sets();
        }
        let king_square = if color.0 == WHITE {
            Square(self.pieces[Piece(WK).to_usize()].bit_scan())
        } else {
            Square(self.pieces[Piece(BK).to_usize()].bit_scan())
        };
        self.is_sqaure_attacked(tables, king_square, color)
    }

    /// The set of all pieces is the set of the squares where the mailbox holds a piece.
    pub proof fn lemma_occupied(&self)
        requires
            self.wf(),
        ensures
            self.occupancy@[0].0 | self.occupancy@[1].0 == self@.occupied(),
            self.occupancy@[0].0 == self@.occupied_by(Color(WHITE)),
            self.occupancy@[1].0 == self@.occupied_by(Color(BLACK)),
    {
        let p = self@;
        assert forall|s: int| 0 <= s < 64 implies holds(
            self.occupancy@[0].0 | self.occupancy@[1].0,
            s,
        ) == p.mailbox[s].is_piece() by {
            lemma_holds_connectives(self.occupancy@[0].0, self.occupancy@[1].0, s);
            assert(holds(self.occupancy@[0].0, s) == (self.state@[s].0 <= WK));
            assert(holds(self.occupancy@[1].0, s) == (BP <= self.state@[s].0 <= BK));
        }
        lemma_is_set_where(self.occupancy@[0].0 | self.occupancy@[1].0, p.holds_piece());
        assert forall|s: int| 0 <= s < 64 implies holds(self.occupancy@[0].0, s)
            == p.mailbox[s].is_of(Color(WHITE)) by {
            assert(holds(self.occupancy@[0].0, s) == (self.state@[s].0 <= WK));
        }
        lemma_is_set_where(self.occupancy@[0].0, p.holds_side(Color(WHITE)));
        assert forall|s: int| 0 <= s < 64 implies holds(self.occupancy@[1].0, s)
            == p.mailbox[s].is_of(Color(BLACK)) by {
            assert(holds(self.occupancy@[1].0, s) == (BP <= self.state@[s].0 <= BK));
            assert(self.state@[s].wf());
        }
        lemma_is_set_where(self.occupancy@[1].0, p.holds_side(Color(BLACK)));
    }

    /// The set of each piece kind is the set of the squares where the mailbox holds it.
    pub proof fn lemma_piece_sets(&self)
        requires
            self.wf(),
        ensures
            forall|k: int| 0 <= k < 12 ==> (#[trigger] self.pieces@[k]).0 == self@.squares_of(
                Piece(k as u8),
            ),
    {
        let p = self@;
        assert forall|k: int| 0 <= k < 12 implies (#[trigger] self.pieces@[k]).0 == p.squares_of(
            Piece(k as u8),
        ) by {
            assert forall|s: int| 0 <= s < 64 implies holds(self.pieces@[k].0, s) == (p.mailbox[s]
                == Piece(k as u8)) by {
                assert(holds(self.pieces@[k].0, s) == (self.state@[s].0 == k));
            }
            lemma_squares_of(p, Piece(k as u8), self.pieces@[k].0);
        }
    }

    /// The squares that hold a piece of either colour.
    pub fn all_occupancy(&self) -> (r: BitBoard)
        ensures
            r.0 == self.occupancy@[0].0 | self.occupancy@[1].0,
            self.wf() ==> forall|s: int|
                0 <= s < 64 ==> #[trigger] r.contains(s) == self@.mailbox[s].is_piece(),
    {
        let r = BitBoard(self.occupancy[0].0 | self.occupancy[1].0);
        proof {
            if self.wf() {
                assert forall|s: int| 0 <= s < 64 implies #[trigger] r.contains(s)
                    == self@.mailbox[s].is_piece() by {
                    lemma_holds_connectives(self.occupancy@[0].0, self.occupancy@[1].0, s);
                    assert(holds(self.occupancy@[0].0, s) == (self.state@[s].0 <= WK));
                    assert(holds(self.occupancy@[1].0, s) == (BP <= self.state@[s].0 <= BK));
                }
            }
        }
        r
    }

    /// Whether none of the squares listed holds a piece.
    pub fn are_squares_empty(&self, squares: &[Square]) -> (r: bool)
        requires
            self.wf(),
            forall|k: int| 0 <= k < squares@.len() ==> squares@[k].wf(),
        ensures
            r == forall|k: int| 0 <= k < squares@.len() ==> self@.empty_at(squares@[k].0 as int),
    {
        let occ = self.all_occupancy();
        let set = BitBoard::from_squares(squares);
        let both = BitBoard(occ.0 & set.0);
        proof {
            lemma_zero_holds_nothing(both.0);
            assert forall|s: int| 0 <= s < 64 implies holds(both.0, s) == (holds(occ.0, s)
                && holds(set.0, s)) by {
                lemma_holds_connectives(occ.0, set.0, s);
            }
            if both.0 == 0 {
                assert forall|k: int| 0 <= k < squares@.len() implies self@.empty_at(
                    squares@[k].0 as int,
                ) by {
                    let s = squares@[k].0 as int;
                    assert(set.contains(s));
                    assert(!holds(both.0, s));
                    assert(occ.contains(s) == self@.mailbox[s].is_piece());
                    assert(self.state@[s].wf());
                }
            } else {
                let s = choose|s: int| 0 <= s < 64 && holds(both.0, s);
                assert(set.contains(s));
                let k = choose|k: int| 0 <= k < squares@.len() && squares@[k].0 == s;
                assert(occ.contains(s) == self@.mailbox[s].is_piece());
                assert(!self@.empty_at(squares@[k].0 as int));
            }
        }
        both.is_empty()
    }

    /// Whether the side to move still has the right to castle short.
    pub fn can_castle_short(&self) -> (r: bool)
        requires
            self.color_to_move.wf(),
        ensures
            r == includes(
                self.castling_rights.bits,
                if self.color_to_move.0 == WHITE {
                    WHITE_SHORT_CASTLE
                } else {
                    BLACK_SHORT_CASTLE
                },
            ),
    {
        self.can_castle_short_for_color(self.color_to_move)
    }

    /// Whether the side to move still has the right to castle long.
    pub fn can_castle_long(&self) -> (r: bool)
        requires
            self.color_to_move.wf(),
        ensures
            r == includes(
                self.castling_rights.bits,
                if self.color_to_move.0 == WHITE {
                    WHITE_LONG_CASTLE
                } else {
                    BLACK_LONG_CASTLE
                },
            ),
    {
        self.can_castle_long_for_color(self.color_to_move)
    }

    fn can_castle_short_for_color(&self, color: Color) -> (r: bool)
        requires
            color.wf(),
            color == self.color_to_move,
        ensures
            r == includes(
                self.castling_rights.bits,
                if color.0 == WHITE {
                    WHITE_SHORT_CASTLE
                } else {
                    BLACK_SHORT_CASTLE
                },
            ),
    {
        if color.0 == WHITE {
            self.castling_rights.contains(CastlingRights { bits: WHITE_SHORT_CASTLE })
        } else {
            self.castling_rights.contains(CastlingRights { bits: BLACK_SHORT_CASTLE })
        }
    }

    fn can_castle_long_for_color(&self, color: Color) -> (r: bool)
        requires
            color.wf(),
            color == self.color_to_move,
        ensures
            r == includes(
                self.castling_rights.bits,
                if color.0 == WHITE {
                    WHITE_LONG_CASTLE
                } else {
                    BLACK_LONG_CASTLE
                },
            ),
    {
        if color.0 == WHITE {
            self.castling_rights.contains(CastlingRights { bits: WHITE_LONG_CASTLE })
        } else {
            self.castling_rights.contains(CastlingRights { bits: BLACK_LONG_CASTLE })
        }
    }

    /// The board that the FEN text `fen` describes.
    pub fn from(fen: &str) -> (r: Result<Board, &'static str>)
        ensures
            match r {
                Ok(board) => board.wf() && parse_fen(fen@) == Ok::<Position, Seq<char>>(board@),
                Err(message) => parse_fen(fen@) == Err::<Position, Seq<char>>(message@),
            },
    {
        fen_to_board(fen)
    }

    /// The board after the moves named in `moves` are made one after the other from the
    /// opening position.
    pub fn from_moves(tables: &AttackTables, moves: &[&str]) -> (r: Result<Board, &'static str>)
        requires
            tables.wf(),
        ensures
            match r {
                Ok(board) => board.wf() && replay(names(moves@), moves@.len() as int) == Ok::<
                    Position,
                    Seq<char>,
                >(board@),
                Err(message) => replay(names(moves@), moves@.len() as int) == Err::<
                    Position,
                    Seq<char>,
                >(message@),
            },
    {
        let mut board = Board::new();
        let mut n: usize = 0;
        let ghost list = names(moves@);
        proof {
            lemma_opening_sound();
        }
        while n < moves.len()
            invariant
                n <= moves@.len(),
                list == names(moves@),
                tables.wf(),
                board.wf(),
                board@.sound(),
                replay(list, n as int) == Ok::<Position, Seq<char>>(board@),
            decreases moves@.len() - n,
        {
            let ghost p = board@;
            proof {
                assert(list[n as int] == moves@[n as int]@);
            }
            match Move::from_string(moves[n], &board, tables) {
                Ok(m) => {
                    proof {
                        let all = p.pseudo_legal(p.side);
                        let from = parse_square(list[n as int].subrange(0, 2)).unwrap().0 as int;
                        let to = parse_square(list[n as int].subrange(2, 4)).unwrap().0 as int;
                        lemma_first_match_member(all, from, to, all.len() as int);
                        lemma_generated_plays(p, m);
                        lemma_make_sound(p, m);
                    }
                    board.make_move(&m);
                },
                Err(message) => {
                    proof {
                        lemma_replay_fails(list, n + 1, moves@.len() as int);
                    }
                    return Err(message);
                },
            }
            n += 1;
        }
        Ok(board)
    }

    /// The board drawn as a grid with a figure for each piece.
    pub fn as_string(&self) -> (r: String)
        ensures
            r@ == grid_text(Seq::new(64, |s: int| piece_figure(self@.mailbox[s])), None),
    {
        let mut cells: Vec<&'static str> = Vec::with_capacity(64);
        let mut index: u8 = 0;
        while index < 64
            invariant
                index <= 64,
                cells@.len() == index,
                forall|s: int|
                    0 <= s < index ==> (#[trigger] cells@[s])@ == piece_figure(self@.mailbox[s]),
            decreases 64 - index,
        {
            let piece = self.piece_at_square(Square(index));
            cells.push(
                if piece.0 == WP {
                    "♙ "
                } else if piece.0 == WN {
                    "♘ "
                } else if piece.0 == WB {
                    "♗ "
                } else if piece.0 == WR {
                    "♖ "
                } else if piece.0 == WQ {
                    "♕ "
                } else if piece.0 == WK {
                    "♔ "
                } else if piece.0 == BP {
                    "♟ "
                } else if piece.0 == BN {
                    "♞ "
                } else if piece.0 == BB {
                    "♝ "
                } else if piece.0 == BR {
                    "♜ "
                } else if piece.0 == BQ {
                    "♛ "
                } else if piece.0 == BK {
                    "♚ "
                } else {
                    ". "
                },
            );
            index += 1;
        }
        proof {
            assert(cell_texts(cells@) =~= Seq::new(64, |s: int| piece_figure(self@.mailbox[s])));
        }
        grid_to_string(&cells, None)
    }

    /// The board as FEN text.
    pub fn to_fen(&self) -> (r: String)
        requires
            self.wf(),
        ensures
            r@ == fen_text(self@),
    {
        board_to_fen(self)
    }

    /// The piece on `sq`, or the empty mark.
    pub fn piece_at_square(&self, sq: Square) -> (r: Piece)
        requires
            sq.wf(),
        ensures
            r == self@.mailbox[sq.0 as int],
    {
        self.state[sq.to_usize()]
    }

    /// Puts `piece` on `square` in all three pictures.
    pub fn add_piece_to_square(&mut self, piece: Piece, square: Square)
        requires
            piece.is_piece(),
            square.wf(),
        ensures
            final(self).state@ == old(self).state@.update(square.0 as int, piece),
            final(self).pieces@ == old(self).pieces@.update(
                piece.0 as int,
                BitBoard(old(self).pieces@[piece.0 as int].0 | bit(square.0 as int)),
            ),
            final(self).occupancy@ == old(self).occupancy@.update(
                piece.side().0 as int,
                BitBoard(old(self).occupancy@[piece.side().0 as int].0 | bit(square.0 as int)),
            ),
            final(self).same_game_state(old(self)),
            old(self).wf() && old(self).state@[square.0 as int].0 == EMPTY ==> final(self).wf(),
    {
        let color = piece.color();
        let one = BitBoard::new(square);
        proof {
            lemma_set_bit(self.pieces@[piece.0 as int].0, square.0 as int);
            lemma_set_bit(self.occupancy@[color.0 as int].0, square.0 as int);
        }
        self.pieces[piece.to_usize()] = BitBoard(self.pieces[piece.to_usize()].0 | one.0);
        self.occupancy[color.to_usize()] = BitBoard(self.occupancy[color.to_usize()].0 | one.0);
        self.state[square.to_usize()] = piece;
    }

    /// Takes `piece` off `square` in all three pictures.
    pub fn remove_piece_from_square(&mut self, piece: Piece, square: Square)
        requires
            piece.is_piece(),
            square.wf(),
        ensures
            final(self).state@ == old(self).state@.update(square.0 as int, Piece(EMPTY)),
            final(self).pieces@ == old(self).pieces@.update(
                piece.0 as int,
                BitBoard(old(self).pieces@[piece.0 as int].0 & !bit(square.0 as int)),
            ),
            final(self).occupancy@ == old(self).occupancy@.update(
                piece.side().0 as int,
                BitBoard(old(self).occupancy@[piece.side().0 as int].0 & !bit(square.0 as int)),
            ),
            final(self).same_game_state(old(self)),
            old(self).wf() && old(self).state@[square.0 as int] == piece ==> final(self).wf(),
    {
        let color = piece.color();
        let one = BitBoard::new(square);
        proof {
            lemma_clear_bit(self.pieces@[piece.0 as int].0, square.0 as int);
            lemma_clear_bit(self.occupancy@[color.0 as int].0, square.0 as int);
        }
        self.pieces[piece.to_usize()] = BitBoard(self.pieces[piece.to_usize()].0 & !one.0);
        self.occupancy[color.to_usize()] = BitBoard(self.occupancy[color.to_usize()].0 & !one.0);
        self.state[square.to_usize()] = Piece(EMPTY);
    }

    /// Moves `piece` from `from` to `to` in all three pictures.
    pub fn move_piece(&mut self, from: Square, to: Square, piece: Piece)
        requires
            piece.is_piece(),
            from.wf(),
            to.wf(),
        ensures
            final(self).state@ == old(self).state@.update(to.0 as int, piece).update(
                from.0 as int,
                Piece(EMPTY),
            ),
            final(self).pieces@ == old(self).pieces@.update(
                piece.0 as int,
                BitBoard(
                    old(self).pieces@[piece.0 as int].0 ^ (bit(from.0 as int) | bit(to.0 as int)),
                ),
            ),
            final(self).occupancy@ == old(self).occupancy@.update(
                piece.side().0 as int,
                BitBoard(
                    old(self).occupancy@[piece.side().0 as int].0 ^ (bit(from.0 as int) | bit(
                        to.0 as int,
                    )),
                ),
            ),
            final(self).same_game_state(old(self)),
            old(self).wf() && old(self).state@[from.0 as int] == piece && old(self).state@[to.0 as int].0
                == EMPTY ==> final(self).wf(),
    {
        let color = piece.color();
        let both = BitBoard(BitBoard::new(from).0 | BitBoard::new(to).0);
        proof {
            lemma_toggle_pair(self.pieces@[piece.0 as int].0, from.0 as int, to.0 as int);
            lemma_toggle_pair(self.occupancy@[color.0 as int].0, from.0 as int, to.0 as int);
        }
        self.pieces[piece.to_usize()] = BitBoard(self.pieces[piece.to_usize()].0 ^ both.0);
        self.occupancy[color.to_usize()] = BitBoard(self.occupancy[color.to_usize()].0 ^ both.0);
        self.state[to.to_usize()] = piece;
        self.state[from.to_usize()] = Piece(EMPTY);
    }
}

/// Making a move on a board and taking it back gives the board as it was, field for field:
/// the mailbox, the twelve piece sets, the two colour sets, the side to move, the castling
/// rights, the en-passant target, the counters and the three stacks.
pub proof fn lemma_undo_restores(before: Board, made: Board, undone: Board, m: Move)
    requires
        before.wf(),
        before@.admits(m),
        made@ == before@.make(m),
        undone.wf(),
        undone@ == made@.unmake(m),
    ensures
        undone.state == before.state,
        undone.pieces == before.pieces,
        undone.occupancy == before.occupancy,
        undone.color_to_move == before.color_to_move,
        undone.castling_rights == before.castling_rights,
        undone.en_passant == before.en_passant,
        undone.half_move_clock == before.half_move_clock,
        undone.full_move_number == before.full_move_number,
        undone.captured_pieces_stack@ == before.captured_pieces_stack@,
        undone.en_passant_stack@ == before.en_passant_stack@,
        undone.castling_rights_stack@ == before.castling_rights_stack@,
{
    lemma_make_unmake(before@, m);
    lemma_view_determines_sets(undone, before);
}

/// On a well-formed board the mailbox holds the piece `p` on a square exactly when the set
/// of `p` holds the square and none of the other eleven sets does.
pub proof fn lemma_one_set_per_square(b: Board, s: int, p: int)
    requires
        b.wf(),
        0 <= s < 64,
        0 <= p < 12,
    ensures
        (b.state@[s].0 == p) <==> (holds(b.pieces@[p].0, s) && forall|q: int|
            0 <= q < 12 && q != p ==> !holds(#[trigger] b.pieces@[q].0, s)),
{
    assert(holds(b.pieces@[p].0, s) == (b.state@[s].0 == p));
    if b.state@[s].0 == p {
        assert forall|q: int| 0 <= q < 12 && q != p implies !holds(#[trigger] b.pieces@[q].0, s) by {
            assert(holds(b.pieces@[q].0, s) == (b.state@[s].0 == q));
        }
    }
}

/// On a well-formed board the sets of the two colours are disjoint, and together they are
/// the union of the twelve piece sets.
pub proof fn lemma_occupancy_partition(b: Board)
    requires
        b.wf(),
    ensures
        b.occupancy@[0].0 & b.occupancy@[1].0 == 0,
        b.occupancy@[0].0 == b.pieces@[0].0 | b.pieces@[1].0 | b.pieces@[2].0 | b.pieces@[3].0
            | b.pieces@[4].0 | b.pieces@[5].0,
        b.occupancy@[1].0 == b.pieces@[6].0 | b.pieces@[7].0 | b.pieces@[8].0 | b.pieces@[9].0
            | b.pieces@[10].0 | b.pieces@[11].0,
        b.occupancy@[0].0 | b.occupancy@[1].0 == b.pieces@[0].0 | b.pieces@[1].0 | b.pieces@[2].0
            | b.pieces@[3].0 | b.pieces@[4].0 | b.pieces@[5].0 | b.pieces@[6].0 | b.pieces@[7].0
            | b.pieces@[8].0 | b.pieces@[9].0 | b.pieces@[10].0 | b.pieces@[11].0,
{
    let w = b.occupancy@[0].0;
    let k = b.occupancy@[1].0;
    let p0 = b.pieces@[0].0;
    let p1 = b.pieces@[1].0;
    let p2 = b.pieces@[2].0;
    let p3 = b.pieces@[3].0;
    let p4 = b.pieces@[4].0;
    let p5 = b.pieces@[5].0;
    let p6 = b.pieces@[6].0;
    let p7 = b.pieces@[7].0;
    let p8 = b.pieces@[8].0;
    let p9 = b.pieces@[9].0;
    let p10 = b.pieces@[10].0;
    let p11 = b.pieces@[11].0;
    let white = p0 | p1 | p2 | p3 | p4 | p5;
    let black = p6 | p7 | p8 | p9 | p10 | p11;
    assert forall|s: int| 0 <= s < 64 implies holds(w & k, s) == holds(0, s) && holds(w, s)
        == holds(white, s) && holds(k, s) == holds(black, s) by {
        lemma_holds_connectives(w, k, s);
        lemma_holds_connectives(0, 0, s);
        lemma_holds_connectives(p0, p1, s);
        lemma_holds_connectives(p0 | p1, p2, s);
        lemma_holds_connectives(p0 | p1 | p2, p3, s);
        lemma_holds_connectives(p0 | p1 | p2 | p3, p4, s);
        lemma_holds_connectives(p0 | p1 | p2 | p3 | p4, p5, s);
        lemma_holds_connectives(p6, p7, s);
        lemma_holds_connectives(p6 | p7, p8, s);
        lemma_holds_connectives(p6 | p7 | p8, p9, s);
        lemma_holds_connectives(p6 | p7 | p8 | p9, p10, s);
        lemma_holds_connectives(p6 | p7 | p8 | p9 | p10, p11, s);
        assert(b.state@[s].wf());
        assert(holds(w, s) == (b.state@[s].0 <= WK));
        assert(holds(k, s) == (BP <= b.state@[s].0 <= BK));
        assert(holds(p0, s) == (b.state@[s].0 == 0));
        assert(holds(p1, s) == (b.state@[s].0 == 1));
        assert(holds(p2, s) == (b.state@[s].0 == 2));
        assert(holds(p3, s) == (b.state@[s].0 == 3));
        assert(holds(p4, s) == (b.state@[s].0 == 4));
        assert(holds(p5, s) == (b.state@[s].0 == 5));
        assert(holds(p6, s) == (b.state@[s].0 == 6));
        assert(holds(p7, s) == (b.state@[s].0 == 7));
        assert(holds(p8, s) == (b.state@[s].0 == 8));
        assert(holds(p9, s) == (b.state@[s].0 == 9));
        assert(holds(p10, s) == (b.state@[s].0 == 10));
        assert(holds(p11, s) == (b.state@[s].0 == 11));
    }
    lemma_same_bits(w & k, 0);
    lemma_same_bits(w, white);
    lemma_same_bits(k, black);
    assert((p0 | p1 | p2 | p3 | p4 | p5) | (p6 | p7 | p8 | p9 | p10 | p11) == p0 | p1 | p2 | p3 | p4
        | p5 | p6 | p7 | p8 | p9 | p10 | p11) by (bit_vector);
}

/// The figure that draws a piece, with a dot for the empty square.
pub open spec fn piece_figure(p: Piece) -> Seq<char> {
    if p.0 == WP {
        "♙ "@
    } else if p.0 == WN {
        "♘ "@
    } else if p.0 == WB {
        "♗ "@
    } else if p.0 == WR {
        "♖ "@
    } else if p.0 == WQ {
        "♕ "@
    } else if p.0 == WK {
        "♔ "@
    } else if p.0 == BP {
        "♟ "@
    } else if p.0 == BN {
        "♞ "@
    } else if p.0 == BB {
        "♝ "@
    } else if p.0 == BR {
        "♜ "@
    } else if p.0 == BQ {
        "♛ "@
    } else if p.0 == BK {
        "♚ "@
    } else {
        ". "@
    }
}

/// The texts of a list of strings.
pub open spec fn names(list: Seq<&str>) -> Seq<Seq<char>> {
    Seq::new(list.len(), |i: int| list[i]@)
}

/// The position after the first `n` of the moves named are made from the opening position,
/// or the message for the first of them that names no move.
pub open spec fn replay(list: Seq<Seq<char>>, n: int) -> Result<Position, Seq<char>>
    decreases n,
{
    if n <= 0 {
        Ok(Position::opening())
    } else {
        match replay(list, n - 1) {
            Err(e) => Err(e),
            Ok(p) => match parse_move(list[n - 1], p) {
                Err(e) => Err(e),
                Ok(m) => Ok(p.make(m)),
            },
        }
    }
}

/// Once a move named no move, the replay has failed with its message.
proof fn lemma_replay_fails(list: Seq<Seq<char>>, a: int, b: int)
    requires
        0 <= a <= b,
        replay(list, a) is Err,
    ensures
        replay(list, b) == replay(list, a),
    decreases b - a,
{
    if a < b {
        lemma_replay_fails(list, a, b - 1);
    }
}

/// The opening position is sound.
pub proof fn lemma_opening_sound()
    ensures
        Position::opening().sound(),
{
    lemma_count_zero(0);
}

/// A well-formed board is determined by its view: two such boards with the same view have the
/// same mailbox, the same twelve piece sets and the same two colour sets.
pub proof fn lemma_view_determines_sets(a: Board, b: Board)
    requires
        a.wf(),
        b.wf(),
        a@ == b@,
    ensures
        a.state == b.state,
        a.pieces == b.pieces,
        a.occupancy == b.occupancy,
{
    assert(a.state@ == b.state@);
    assert forall|p: int| 0 <= p < 12 implies a.pieces@[p] == b.pieces@[p] by {
        assert forall|s: int| 0 <= s < 64 implies holds(a.pieces@[p].0, s) == holds(
            b.pieces@[p].0,
            s,
        ) by {
            assert(holds(a.pieces@[p].0, s) == (a.state@[s].0 == p));
            assert(holds(b.pieces@[p].0, s) == (b.state@[s].0 == p));
        }
        lemma_same_bits(a.pieces@[p].0, b.pieces@[p].0);
    }
    assert forall|c: int| 0 <= c < 2 implies a.occupancy@[c] == b.occupancy@[c] by {
        assert forall|s: int| 0 <= s < 64 implies holds(a.occupancy@[c].0, s) == holds(
            b.occupancy@[c].0,
            s,
        ) by {
            assert(holds(a.occupancy@[0].0, s) == (a.state@[s].0 <= WK));
            assert(holds(b.occupancy@[0].0, s) == (b.state@[s].0 <= WK));
            assert(holds(a.occupancy@[1].0, s) == (BP <= a.state@[s].0 <= BK));
            assert(holds(b.occupancy@[1].0, s) == (BP <= b.state@[s].0 <= BK));
        }
        lemma_same_bits(a.occupancy@[c].0, b.occupancy@[c].0);
    }
    assert(a.state =~= b.state);
    assert(a.pieces =~= b.pieces);
    assert(a.occupancy =~= b.occupancy);
}

/// Which squares each set of the opening position holds.
proof fn lemma_opening_sets(s: int)
    requires
        0 <= s < 64,
    ensures
        holds(WHITE_PAWN_INIT, s) == (8 <= s < 16),
        holds(WHITE_KNIGHT_INIT, s) == (s == 1 || s == 6),
        holds(WHITE_BISHOP_INIT, s) == (s == 2 || s == 5),
        holds(WHITE_ROOK_INIT, s) == (s == 0 || s == 7),
        holds(WHITE_QUEEN_INIT, s) == (s == 3),
        holds(WHITE_KING_INIT, s) == (s == 4),
        holds(BLACK_PAWN_INIT, s) == (48 <= s < 56),
        holds(BLACK_KNIGHT_INIT, s) == (s == 57 || s == 62),
        holds(BLACK_BISHOP_INIT, s) == (s == 58 || s == 61),
        holds(BLACK_ROOK_INIT, s) == (s == 56 || s == 63),
        holds(BLACK_QUEEN_INIT, s) == (s == 59),
        holds(BLACK_KING_INIT, s) == (s == 60),
        holds(WHITE_OCCUPANY_INIT, s) == (s < 16),
        holds(BLACK_OCCUPANY_INIT, s) == (48 <= s),
{
    let k = s as u64;
    assert(k < 64 ==> (((0xFF00u64 >> k) & 1 == 1) == (8 <= k && k < 16)) && (((0x42u64 >> k) & 1
        == 1) == (k == 1 || k == 6)) && (((0x24u64 >> k) & 1 == 1) == (k == 2 || k == 5)) && (((
    0x81u64 >> k) & 1 == 1) == (k == 0 || k == 7)) && (((0x08u64 >> k) & 1 == 1) == (k == 3)) && (((
    0x10u64 >> k) & 1 == 1) == (k == 4)) && (((0x00FF_0000_0000_0000u64 >> k) & 1 == 1) == (48 <= k
        && k < 56)) && (((0x4200_0000_0000_0000u64 >> k) & 1 == 1) == (k == 57 || k == 62)) && (((
    0x2400_0000_0000_0000u64 >> k) & 1 == 1) == (k == 58 || k == 61)) && (((
    0x8100_0000_0000_0000u64 >> k) & 1 == 1) == (k == 56 || k == 63)) && (((
    0x0800_0000_0000_0000u64 >> k) & 1 == 1) == (k == 59)) && (((0x1000_0000_0000_0000u64 >> k) & 1
        == 1) == (k == 60)) && (((0xFFFFu64 >> k) & 1 == 1) == (k < 16)) && (((
    0xFFFF_0000_0000_0000u64 >> k) & 1 == 1) == (48 <= k))) by (bit_vector);
}

} // verus!
