//! Moves packed into sixteen bits: from-square, to-square and a four-bit flag.
use crate::board::Board;
use crate::movegen::AttackTables;
use crate::movegen::pseudo::{lemma_moves_fit, MAX_MOVES};
use crate::piece::{Piece, BB, BN, BQ, BR, WB, WN, WQ, WR};
use crate::position::Position;
use crate::square::{parse_square, square_name, Square};
use vstd::prelude::*;
use vstd::string::*;

verus! {

pub const QUIET: u8 = 0b0000;

pub const DOUBLE_PUSH: u8 = 0b0001;

pub const SHORT_CASTLE: u8 = 0b0010;

pub const LONG_CASTLE: u8 = 0b0011;

pub const CAPTURE: u8 = 0b0100;

pub const EN_PASSANT: u8 = 0b0101;

/// Reserved; no move carries it.
pub const UNDEFINED1: u8 = 0b0110;

/// Reserved; no move carries it.
pub const UNDEFINED2: u8 = 0b0111;

pub const PROMOTE_TO_KNIGHT: u8 = 0b1000;

pub const PROMOTE_TO_BISHOP: u8 = 0b1001;

pub const PROMOTE_TO_ROOK: u8 = 0b1010;

pub const PROMOTE_TO_QUEEN: u8 = 0b1011;

pub const PROMOTE_CAPTURE_TO_KNIGHT: u8 = 0b1100;

pub const PROMOTE_CAPTURE_TO_BISHOP: u8 = 0b1101;

pub const PROMOTE_CAPTURE_TO_ROOK: u8 = 0b1110;

pub const PROMOTE_CAPTURE_TO_QUEEN: u8 = 0b1111;

/// The kind of a move, a number in `0..16`.
#[derive(Debug, Clone, Copy, PartialEq, Eq, Structural)]
pub struct MoveFlags {
    pub bits: u8,
}

/// Whether a flag marks a promotion: its bit 3 is set.
pub open spec fn is_promotion(flag: int) -> bool {
    8 <= flag < 16
}

/// Whether a flag marks a move that takes the piece on its to-square.
pub open spec fn takes_on_target(flag: int) -> bool {
    flag == CAPTURE || 12 <= flag < 16
}

/// The piece a promotion flag asks for, by the colour of the pawn.
pub open spec fn promoted(flag: int, white: bool) -> Piece {
    if flag == PROMOTE_TO_KNIGHT || flag == PROMOTE_CAPTURE_TO_KNIGHT {
        Piece(if white { WN } else { BN })
    } else if flag == PROMOTE_TO_BISHOP || flag == PROMOTE_CAPTURE_TO_BISHOP {
        Piece(if white { WB } else { BB })
    } else if flag == PROMOTE_TO_ROOK || flag == PROMOTE_CAPTURE_TO_ROOK {
        Piece(if white { WR } else { BR })
    } else {
        Piece(if white { WQ } else { BQ })
    }
}

/// The first of the first `n` moves of `moves` that goes from `from` to `to`.
pub open spec fn first_match(moves: Seq<Move>, from: int, to: int, n: int) -> Option<Move>
    decreases n,
{
    if n <= 0 {
        None
    } else {
        match first_match(moves, from, to, n - 1) {
            Some(m) => Some(m),
            None => if moves[n - 1].from_ix() == from && moves[n - 1].to_ix() == to {
                Some(moves[n - 1])
            } else {
                None
            },
        }
    }
}

/// A move found by `first_match` is one of the moves searched.
pub proof fn lemma_first_match_member(moves: Seq<Move>, from: int, to: int, n: int)
    requires
        0 <= n <= moves.len(),
        first_match(moves, from, to, n) is Some,
    ensures
        moves.contains(first_match(moves, from, to, n).unwrap()),
        first_match(moves, from, to, n).unwrap().from_ix() == from,
        first_match(moves, from, to, n).unwrap().to_ix() == to,
    decreases n,
{
    if n > 0 {
        if first_match(moves, from, to, n - 1) is Some {
            lemma_first_match_member(moves, from, to, n - 1);
        } else {
            assert(moves[n - 1] == first_match(moves, from, to, n).unwrap());
        }
    }
}

/// A move found among the first moves is the one found among more.
pub proof fn lemma_first_match_stays(moves: Seq<Move>, from: int, to: int, a: int, b: int)
    requires
        0 <= a <= b,
        first_match(moves, from, to, a) is Some,
    ensures
        first_match(moves, from, to, b) == first_match(moves, from, to, a),
    decreases b - a,
{
    if a < b {
        lemma_first_match_stays(moves, from, to, a, b - 1);
    }
}

/// The move that a text in coordinate notation names in the position `p`: the first
/// pseudo-legal move of the side to move between the two squares that the first four
/// characters name. Otherwise the message that says what is wrong.
pub open spec fn parse_move(text: Seq<char>, p: Position) -> Result<Move, Seq<char>> {
    if text.len() < 4 {
        Err("Invalid move: move string is too short"@)
    } else if parse_square(text.subrange(0, 2)) is None || parse_square(text.subrange(2, 4))
        is None {
        Err("Invalid move: unknown square"@)
    } else {
        let moves = p.pseudo_legal(p.side);
        match first_match(
            moves,
            parse_square(text.subrange(0, 2)).unwrap().0 as int,
            parse_square(text.subrange(2, 4)).unwrap().0 as int,
            moves.len() as int,
        ) {
            Some(m) => Ok(m),
            None => Err("Invalid move: move not found in position"@),
        }
    }
}

impl MoveFlags {
    /// A flag has four bits.
    pub open spec fn wf(self) -> bool {
        self.bits < 16
    }

    /// The flag as an integer.
    pub fn bits(&self) -> (r: u8)
        ensures
            r == self.bits,
    {
        self.bits
    }

    /// Whether every bit of `other` is set in the flag.
    pub fn contains(&self, other: MoveFlags) -> (r: bool)
        ensures
            r == (self.bits & other.bits == other.bits),
            self.wf() && other.bits == PROMOTE_TO_KNIGHT ==> r == is_promotion(self.bits as int),
            is_promotion(self.bits as int) && other.bits == CAPTURE ==> r == (self.bits >= 12),
    {
        proof {
            let b = self.bits;
            assert(b < 16 ==> ((b & 8 == 8) == (b >= 8)) && (b >= 8 ==> ((b & 4 == 4) == (b >= 12))))
                by (bit_vector);
        }
        self.bits & other.bits == other.bits
    }
}

/// A move: bits 0 to 5 hold the from-square, bits 6 to 11 the to-square, bits 12 to 15 the flag.
#[derive(Debug, Clone, Copy, PartialEq, Eq, Structural)]
pub struct Move(pub u16);

impl Move {
    /// Index of the square the move starts from.
    pub open spec fn from_ix(self) -> int {
        self.0 as int % 64
    }

    /// Index of the square the move ends on.
    pub open spec fn to_ix(self) -> int {
        (self.0 as int / 64) % 64
    }

    /// The flag of the move.
    pub open spec fn flag(self) -> int {
        self.0 as int / 4096
    }

    /// The move with the given parts.
    pub open spec fn build(from: int, to: int, flag: int) -> Move {
        Move((flag * 4096 + to * 64 + from) as u16)
    }

    /// Packs a move.
    pub fn new(from: Square, to: Square, flags: MoveFlags) -> (r: Move)
        requires
            from.wf(),
            to.wf(),
            flags.wf(),
        ensures
            r == Move::build(from.0 as int, to.0 as int, flags.bits as int),
            r.from_ix() == from.0,
            r.to_ix() == to.0,
            r.flag() == flags.bits,
    {
        let f = flags.bits as u16;
        let t = to.to_u16();
        let s = from.to_u16();
        proof {
            assert(f < 16 && t < 64 && s < 64 ==> ((f << 12) | (t << 6) | s) == f * 4096 + t * 64
                + s) by (bit_vector);
        }
        Move((f << 12) | (t << 6) | s)
    }

    /// The move that `string` names on `board`: its first four characters name two squares,
    /// and the move is the first pseudo-legal move between them.
    pub fn from_string(string: &str, board: &Board, tables: &AttackTables) -> (r: Result<
        Move,
        &'static str,
    >)
        requires
            board.wf(),
            tables.wf(),
        ensures
            match r {
                Ok(m) => parse_move(string@, board@) == Ok::<Move, Seq<char>>(m),
                Err(message) => parse_move(string@, board@) == Err::<Move, Seq<char>>(message@),
            },
    {
        if string.unicode_len() < 4 {
            return Err("Invalid move: move string is too short");
        }
        let from = match Square::from_string(string.substring_char(0, 2)) {
            Some(sq) => sq,
            None => {
                return Err("Invalid move: unknown square");
            },
        };
        let to = match Square::from_string(string.substring_char(2, 4)) {
            Some(sq) => sq,
            None => {
                return Err("Invalid move: unknown square");
            },
        };
        let mut moves = vec![Move(0); MAX_MOVES];
        proof {
            lemma_moves_fit(board@, board@.side);
        }
        let ghost all = board@.pseudo_legal(board@.side);
        let moves_count = board.get_moves(tables, moves.as_mut_slice());
        let mut i: usize = 0;
        while i < moves_count
            invariant
                i <= moves_count,
                moves_count == all.len(),
                moves_count <= moves@.len(),
                forall|k: int| 0 <= k < moves_count ==> moves@[k] == all[k],
                first_match(all, from.0 as int, to.0 as int, i as int) is None,
                all == board@.pseudo_legal(board@.side),
                string@.len() >= 4,
                parse_square(string@.subrange(0, 2)) == Some(from),
                parse_square(string@.subrange(2, 4)) == Some(to),
            decreases moves_count - i,
        {
            let m = moves[i];
            if m.from().0 == from.0 && m.to().0 == to.0 {
                proof {
                    lemma_first_match_stays(
                        all,
                        from.0 as int,
                        to.0 as int,
                        i + 1,
                        moves_count as int,
                    );
                }
                return Ok(m);
            }
            i += 1;
        }
        Err("Invalid move: move not found in position")
    }

    /// The square the move starts from.
    pub fn from(&self) -> (r: Square)
        ensures
            r.0 == self.from_ix(),
            r.wf(),
    {
        proof {
            let x = self.0;
            assert(x & 63 == x % 64) by (bit_vector);
        }
        Square((self.0 & 63) as u8)
    }

    /// The square the move ends on.
    pub fn to(&self) -> (r: Square)
        ensures
            r.0 == self.to_ix(),
            r.wf(),
    {
        proof {
            let x = self.0;
            assert((x >> 6) & 63 == (x / 64) % 64) by (bit_vector);
        }
        Square(((self.0 >> 6) & 63) as u8)
    }

    /// The flag of the move.
    pub fn flags(&self) -> (r: MoveFlags)
        ensures
            r.bits == self.flag(),
            r.wf(),
    {
        proof {
            let x = self.0;
            assert((x >> 12) & 15 == x / 4096 && x / 4096 < 16) by (bit_vector);
        }
        MoveFlags { bits: ((self.0 >> 12) & 15) as u8 }
    }

    /// The piece a promotion move puts on the board.
    pub fn promotion(&self, is_white: bool) -> (r: Piece)
        requires
            is_promotion(self.flag()),
        ensures
            r == promoted(self.flag(), is_white),
            r.is_piece(),
    {
        let flag = self.flags().bits;
        if flag == PROMOTE_TO_KNIGHT || flag == PROMOTE_CAPTURE_TO_KNIGHT {
            if is_white {
                Piece(WN)
            } else {
                Piece(BN)
            }
        } else if flag == PROMOTE_TO_BISHOP || flag == PROMOTE_CAPTURE_TO_BISHOP {
            if is_white {
                Piece(WB)
            } else {
                Piece(BB)
            }
        } else if flag == PROMOTE_TO_ROOK || flag == PROMOTE_CAPTURE_TO_ROOK {
            if is_white {
                Piece(WR)
            } else {
                Piece(BR)
            }
        } else {
            if is_white {
                Piece(WQ)
            } else {
                Piece(BQ)
            }
        }
    }

    /// The move in coordinate notation: the names of its two squares.
    pub fn as_string(&self) -> (r: String)
        ensures
            r@ == square_name(Square(self.from_ix() as u8)) + square_name(
                Square(self.to_ix() as u8),
            ),
    {
        let from = self.from();
        let to = self.to();
        let mut s = String::from_str(from.as_string());
        s.append(to.as_string());
        s
    }
}

} // verus!
