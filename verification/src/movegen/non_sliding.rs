//! Attack sets of the king and the knight from each square.
use crate::bitboard::BitBoard;
use crate::bits::{bit, holds, lemma_holds_bit, lemma_holds_connectives, lemma_holds_shift};
use crate::masks::{lemma_mask_squares, FILE_A, FILE_B, FILE_G, FILE_H, RANK_1, RANK_8};
use crate::square::Square;
use vstd::prelude::*;

verus! {

/// Whether a king on `from` attacks `to`: the two squares are neighbours.
pub open spec fn king_reaches(from: int, to: int) -> bool {
    let df = to % 8 - from % 8;
    let dr = to / 8 - from / 8;
    0 <= to < 64 && -1 <= df <= 1 && -1 <= dr <= 1 && to != from
}

/// Whether a knight on `from` attacks `to`: two files and one rank apart, or one and two.
pub open spec fn knight_reaches(from: int, to: int) -> bool {
    let df = to % 8 - from % 8;
    let dr = to / 8 - from / 8;
    0 <= to < 64 && ((df == 1 || df == -1) && (dr == 2 || dr == -2) || (df == 2 || df == -2) && (dr
        == 1 || dr == -1))
}

/// The king's and the knight's attack sets from every square.
pub struct LeaperTables {
    pub king: Vec<BitBoard>,
    pub knight: Vec<BitBoard>,
}

impl LeaperTables {
    /// Each table has an entry per square, and entry `sq` holds exactly the squares the
    /// piece attacks from `sq`.
    pub open spec fn wf(&self) -> bool {
        &&& self.king@.len() == 64
        &&& self.knight@.len() == 64
        &&& forall|sq: int, t: int|
            0 <= sq < 64 && 0 <= t < 64 ==> #[trigger] holds(self.king@[sq].0, t) == king_reaches(
                sq,
                t,
            )
        &&& forall|sq: int, t: int|
            0 <= sq < 64 && 0 <= t < 64 ==> #[trigger] holds(self.knight@[sq].0, t)
                == knight_reaches(sq, t)
    }
}

/// Builds both tables.
pub fn init_non_sliding_attacks() -> (r: LeaperTables)
    ensures
        r.wf(),
{
    LeaperTables { king: generate_king_attacks(), knight: generate_knight_attacks() }
}

/// The squares a king on `sq` attacks.
pub fn get_king_attacks(tables: &LeaperTables, sq: Square) -> (r: BitBoard)
    requires
        tables.wf(),
        sq.wf(),
    ensures
        r == tables.king@[sq.0 as int],
        forall|t: int| 0 <= t < 64 ==> #[trigger] r.contains(t) == king_reaches(sq.0 as int, t),
{
    tables.king[sq.to_usize()]
}

/// The squares a knight on `sq` attacks.
pub fn get_knight_attacks(tables: &LeaperTables, sq: Square) -> (r: BitBoard)
    requires
        tables.wf(),
        sq.wf(),
    ensures
        r == tables.knight@[sq.0 as int],
        forall|t: int| 0 <= t < 64 ==> #[trigger] r.contains(t) == knight_reaches(sq.0 as int, t),
{
    tables.knight[sq.to_usize()]
}

/// The king's attack set from `sq` as shifts of the single square, with the steps that
/// would wrap round the board masked away.
pub open spec fn king_pattern(sq: int) -> u64 {
    let b = bit(sq);
    ((b & !FILE_A) >> 1) | ((b & !FILE_A) >> 9) | ((b & !FILE_A) << 7) | ((b & !FILE_H) << 1) | ((b
        & !FILE_H) << 9) | ((b & !FILE_H) >> 7) | ((b & !RANK_1) >> 8) | ((b & !RANK_8) << 8)
}

/// The knight's attack set from `sq` as shifts of the single square, with the jumps that
/// would wrap round the board masked away.
pub open spec fn knight_pattern(sq: int) -> u64 {
    let b = bit(sq);
    ((b & !FILE_G & !FILE_H) >> 6) | ((b & !FILE_G & !FILE_H) << 10) | ((b & !FILE_A & !FILE_B)
        >> 10) | ((b & !FILE_A & !FILE_B) << 6) | ((b & !FILE_A) >> 17) | ((b & !FILE_A) << 15) | ((b
        & !FILE_H) >> 15) | ((b & !FILE_H) << 17)
}

/// Whether `t` is in the set that holds `sq`, unless `sq` is in `barred`, moved up by `up`
/// (down for a negative `up`).
proof fn lemma_shifted_square(sq: int, barred: u64, up: int, t: int)
    requires
        0 <= sq < 64,
        0 <= t < 64,
        -64 < up < 64,
    ensures
        up >= 0 ==> holds((bit(sq) & !barred) << (up as u64), t) == (t == sq + up && !holds(
            barred,
            sq,
        )),
        up < 0 ==> holds((bit(sq) & !barred) >> ((-up) as u64), t) == (t == sq + up && !holds(
            barred,
            sq,
        )),
{
    let x = bit(sq) & !barred;
    if up >= 0 {
        lemma_holds_shift(x, up, t);
        if t >= up {
            lemma_holds_connectives(bit(sq), !barred, t - up);
            lemma_holds_connectives(barred, 0, t - up);
            lemma_holds_bit(sq, t - up);
        }
    } else {
        lemma_holds_shift(x, -up, t);
        if t - up < 64 {
            lemma_holds_connectives(bit(sq), !barred, t - up);
            lemma_holds_connectives(barred, 0, t - up);
            lemma_holds_bit(sq, t - up);
        }
    }
}

/// The king's pattern holds exactly the neighbours of `sq`.
proof fn lemma_king_pattern(sq: int, t: int)
    requires
        0 <= sq < 64,
        0 <= t < 64,
    ensures
        holds(king_pattern(sq), t) == king_reaches(sq, t),
{
    let b = bit(sq);
    let a1 = (b & !FILE_A) >> 1;
    let a2 = (b & !FILE_A) >> 9;
    let a3 = (b & !FILE_A) << 7;
    let a4 = (b & !FILE_H) << 1;
    let a5 = (b & !FILE_H) << 9;
    let a6 = (b & !FILE_H) >> 7;
    let a7 = (b & !RANK_1) >> 8;
    let a8 = (b & !RANK_8) << 8;
    lemma_mask_squares(sq);
    lemma_shifted_square(sq, FILE_A, -1, t);
    lemma_shifted_square(sq, FILE_A, -9, t);
    lemma_shifted_square(sq, FILE_A, 7, t);
    lemma_shifted_square(sq, FILE_H, 1, t);
    lemma_shifted_square(sq, FILE_H, 9, t);
    lemma_shifted_square(sq, FILE_H, -7, t);
    lemma_shifted_square(sq, RANK_1, -8, t);
    lemma_shifted_square(sq, RANK_8, 8, t);
    lemma_holds_connectives(a1, a2, t);
    lemma_holds_connectives(a1 | a2, a3, t);
    lemma_holds_connectives(a1 | a2 | a3, a4, t);
    lemma_holds_connectives(a1 | a2 | a3 | a4, a5, t);
    lemma_holds_connectives(a1 | a2 | a3 | a4 | a5, a6, t);
    lemma_holds_connectives(a1 | a2 | a3 | a4 | a5 | a6, a7, t);
    lemma_holds_connectives(a1 | a2 | a3 | a4 | a5 | a6 | a7, a8, t);
}

/// The knight's pattern holds exactly the squares a knight's jump away from `sq`.
proof fn lemma_knight_pattern(sq: int, t: int)
    requires
        0 <= sq < 64,
        0 <= t < 64,
    ensures
        holds(knight_pattern(sq), t) == knight_reaches(sq, t),
{
    let b = bit(sq);
    let gh = FILE_G | FILE_H;
    let ab = FILE_A | FILE_B;
    assert(b & !FILE_G & !FILE_H == b & !(FILE_G | FILE_H) && b & !FILE_A & !FILE_B == b & !(FILE_A
        | FILE_B)) by (bit_vector);
    let a1 = (b & !FILE_G & !FILE_H) >> 6;
    let a2 = (b & !FILE_G & !FILE_H) << 10;
    let a3 = (b & !FILE_A & !FILE_B) >> 10;
    let a4 = (b & !FILE_A & !FILE_B) << 6;
    let a5 = (b & !FILE_A) >> 17;
    let a6 = (b & !FILE_A) << 15;
    let a7 = (b & !FILE_H) >> 15;
    let a8 = (b & !FILE_H) << 17;
    lemma_mask_squares(sq);
    lemma_shifted_square(sq, gh, -6, t);
    lemma_shifted_square(sq, gh, 10, t);
    lemma_shifted_square(sq, ab, -10, t);
    lemma_shifted_square(sq, ab, 6, t);
    lemma_shifted_square(sq, FILE_A, -17, t);
    lemma_shifted_square(sq, FILE_A, 15, t);
    lemma_shifted_square(sq, FILE_H, -15, t);
    lemma_shifted_square(sq, FILE_H, 17, t);
    lemma_holds_connectives(a1, a2, t);
    lemma_holds_connectives(a1 | a2, a3, t);
    lemma_holds_connectives(a1 | a2 | a3, a4, t);
    lemma_holds_connectives(a1 | a2 | a3 | a4, a5, t);
    lemma_holds_connectives(a1 | a2 | a3 | a4 | a5, a6, t);
    lemma_holds_connectives(a1 | a2 | a3 | a4 | a5 | a6, a7, t);
    lemma_holds_connectives(a1 | a2 | a3 | a4 | a5 | a6 | a7, a8, t);
}

/// The king's attack set from every square.
fn generate_king_attacks() -> (r: Vec<BitBoard>)
    ensures
        r@.len() == 64,
        forall|sq: int, t: int|
            0 <= sq < 64 && 0 <= t < 64 ==> #[trigger] holds(r@[sq].0, t) == king_reaches(sq, t),
{
    let mut table: Vec<BitBoard> = Vec::with_capacity(64);
    let mut index: u8 = 0;
    while index < 64
        invariant
            index <= 64,
            table@.len() == index,
            forall|sq: int, t: int|
                0 <= sq < index && 0 <= t < 64 ==> #[trigger] holds(table@[sq].0, t)
                    == king_reaches(sq, t),
        decreases 64 - index,
    {
        let bb = BitBoard::new(Square(index));
        let b = bb.0;
        let attacks = ((b & !FILE_A) >> 1) | ((b & !FILE_A) >> 9) | ((b & !FILE_A) << 7) | ((b
            & !FILE_H) << 1) | ((b & !FILE_H) << 9) | ((b & !FILE_H) >> 7) | ((b & !RANK_1) >> 8)
            | ((b & !RANK_8) << 8);
        proof {
            assert forall|t: int| 0 <= t < 64 implies holds(attacks, t) == king_reaches(
                index as int,
                t,
            ) by {
                lemma_king_pattern(index as int, t);
            }
        }
        table.push(BitBoard(attacks));
        index += 1;
    }
    table
}

/// The knight's attack set from every square.
fn generate_knight_attacks() -> (r: Vec<BitBoard>)
    ensures
        r@.len() == 64,
        forall|sq: int, t: int|
            0 <= sq < 64 && 0 <= t < 64 ==> #[trigger] holds(r@[sq].0, t) == knight_reaches(sq, t),
{
    let mut table: Vec<BitBoard> = Vec::with_capacity(64);
    let mut index: u8 = 0;
    while index < 64
        invariant
            index <= 64,
            table@.len() == index,
            forall|sq: int, t: int|
                0 <= sq < index && 0 <= t < 64 ==> #[trigger] holds(table@[sq].0, t)
                    == knight_reaches(sq, t),
        decreases 64 - index,
    {
        let bb = BitBoard::new(Square(index));
        let b = bb.0;
        let attacks = ((b & !FILE_G & !FILE_H) >> 6) | ((b & !FILE_G & !FILE_H) << 10) | ((b
            & !FILE_A & !FILE_B) >> 10) | ((b & !FILE_A & !FILE_B) << 6) | ((b & !FILE_A) >> 17) | ((b
            & !FILE_A) << 15) | ((b & !FILE_H) >> 15) | ((b & !FILE_H) << 17);
        proof {
            assert forall|t: int| 0 <= t < 64 implies holds(attacks, t) == knight_reaches(
                index as int,
                t,
            ) by {
                lemma_knight_pattern(index as int, t);
            }
        }
        table.push(BitBoard(attacks));
        index += 1;
    }
    table
}

} // verus!
