//! Forsyth-Edwards notation: reading a board from text and writing it back.
use crate::bitboard::BitBoard;
use crate::bits::{bit, lemma_count_bit, lowest};
use crate::board::Board;
use crate::castling::{
    includes, lemma_with, CastlingRights, BLACK_LONG_CASTLE, BLACK_SHORT_CASTLE, NONE,
    WHITE_LONG_CASTLE, WHITE_SHORT_CASTLE,
};
use crate::piece::{
    Color, Piece, BB, BK, BLACK, BN, BP, BQ, BR, EMPTY, WB, WHITE, WK, WN, WP, WQ, WR,
};
use crate::position::Position;
use crate::square::{parse_square, square_name, Square};
use vstd::prelude::*;
use vstd::string::*;

verus! {

/// The fields of the first `n` characters of `text`: the runs between single spaces.
pub open spec fn fields_of(text: Seq<char>, n: int) -> Seq<Seq<char>>
    decreases n,
{
    if n <= 0 {
        seq![Seq::empty()]
    } else {
        let before = fields_of(text, n - 1);
        if text[n - 1] == ' ' {
            before.push(Seq::empty())
        } else {
            before.update(before.len() - 1, before.last().push(text[n - 1]))
        }
    }
}

/// The piece that a letter of the placement field stands for.
pub open spec fn piece_of_letter(c: char) -> Option<Piece> {
    if c == 'P' {
        Some(Piece(WP))
    } else if c == 'N' {
        Some(Piece(WN))
    } else if c == 'B' {
        Some(Piece(WB))
    } else if c == 'R' {
        Some(Piece(WR))
    } else if c == 'Q' {
        Some(Piece(WQ))
    } else if c == 'K' {
        Some(Piece(WK))
    } else if c == 'p' {
        Some(Piece(BP))
    } else if c == 'n' {
        Some(Piece(BN))
    } else if c == 'b' {
        Some(Piece(BB))
    } else if c == 'r' {
        Some(Piece(BR))
    } else if c == 'q' {
        Some(Piece(BQ))
    } else if c == 'k' {
        Some(Piece(BK))
    } else {
        None
    }
}

/// The letter of the placement field for a piece.
pub open spec fn letter_of_piece(p: Piece) -> char {
    if p.0 == WP {
        'P'
    } else if p.0 == WN {
        'N'
    } else if p.0 == WB {
        'B'
    } else if p.0 == WR {
        'R'
    } else if p.0 == WQ {
        'Q'
    } else if p.0 == WK {
        'K'
    } else if p.0 == BP {
        'p'
    } else if p.0 == BN {
        'n'
    } else if p.0 == BB {
        'b'
    } else if p.0 == BR {
        'r'
    } else if p.0 == BQ {
        'q'
    } else {
        'k'
    }
}

/// Where reading a placement field stands: the squares filled so far, and the rank and
/// file of the square that comes next.
pub struct Reading {
    pub mailbox: Seq<Piece>,
    pub rank: int,
    pub file: int,
}

/// Reading one more character of a placement field: a digit from 1 to 8 skips that many
/// squares of the rank, a letter fills the next square, and a slash ends a rank that is
/// full and is not the first. `None` if the character does not fit.
pub open spec fn read_char(r: Reading, c: char) -> Option<Reading> {
    if c == '/' {
        if r.file == 8 && r.rank > 0 {
            Some(Reading { mailbox: r.mailbox, rank: r.rank - 1, file: 0 })
        } else {
            None
        }
    } else if '1' <= c <= '8' {
        if r.file + (c as int - 48) <= 8 {
            Some(Reading { mailbox: r.mailbox, rank: r.rank, file: r.file + (c as int - 48) })
        } else {
            None
        }
    } else if piece_of_letter(c) is Some && r.file < 8 {
        Some(
            Reading {
                mailbox: r.mailbox.update(r.rank * 8 + r.file, piece_of_letter(c).unwrap()),
                rank: r.rank,
                file: r.file + 1,
            },
        )
    } else {
        None
    }
}

/// Reading the first `n` characters of a placement field, from the a-file of the eighth
/// rank on an empty board. `None` once a character did not fit.
pub open spec fn read_placement(text: Seq<char>, n: int) -> Option<Reading>
    decreases n,
{
    if n <= 0 {
        Some(Reading { mailbox: Seq::new(64, |s: int| Piece(EMPTY)), rank: 7, file: 0 })
    } else {
        match read_placement(text, n - 1) {
            None => None,
            Some(r) => read_char(r, text[n - 1]),
        }
    }
}

/// The squares that a placement field describes, if it describes all eight ranks in full.
pub open spec fn placement(text: Seq<char>) -> Option<Seq<Piece>> {
    match read_placement(text, text.len() as int) {
        Some(r) => if r.rank == 0 && r.file == 8 {
            Some(r.mailbox)
        } else {
            None
        },
        None => None,
    }
}

/// The side that the colour field names: white if it starts with `w`, black otherwise.
pub open spec fn side_of(text: Seq<char>) -> Color {
    if text.len() > 0 && text[0] == 'w' {
        Color(WHITE)
    } else {
        Color(BLACK)
    }
}

/// The right that a letter of the castling field stands for; no right for any other
/// character.
pub open spec fn right_of_letter(c: char) -> u8 {
    if c == 'K' {
        WHITE_SHORT_CASTLE
    } else if c == 'Q' {
        WHITE_LONG_CASTLE
    } else if c == 'k' {
        BLACK_SHORT_CASTLE
    } else if c == 'q' {
        BLACK_LONG_CASTLE
    } else {
        NONE
    }
}

/// The rights that the first `n` characters of the castling field name.
pub open spec fn rights_of(text: Seq<char>, n: int) -> u8
    decreases n,
{
    if n <= 0 {
        NONE
    } else {
        rights_of(text, n - 1) | right_of_letter(text[n - 1])
    }
}

/// The en-passant target that the field names: none for `-`, the square named otherwise;
/// `None` if the field names no square.
pub open spec fn target_of(text: Seq<char>) -> Option<BitBoard> {
    if text == seq!['-'] {
        Some(BitBoard(0))
    } else {
        match parse_square(text) {
            Some(sq) => Some(BitBoard(bit(sq.0 as int))),
            None => None,
        }
    }
}

/// The number that the first `n` characters of `text` write in decimal; `None` for no
/// characters and for a character that is no digit.
pub open spec fn decimal_value(text: Seq<char>, n: int) -> Option<nat>
    decreases n,
{
    if n <= 0 {
        None
    } else if !('0' <= text[n - 1] <= '9') {
        None
    } else if n == 1 {
        Some((text[0] as int - 48) as nat)
    } else {
        match decimal_value(text, n - 1) {
            Some(v) => Some((10 * v + (text[n - 1] as int - 48)) as nat),
            None => None,
        }
    }
}

/// The number a counter field holds, if it is a decimal number that fits the machine word.
pub open spec fn counter_of(text: Seq<char>) -> Option<usize> {
    match decimal_value(text, text.len() as int) {
        Some(v) => if v <= usize::MAX {
            Some(v as usize)
        } else {
            None
        },
        None => None,
    }
}

/// What a FEN text describes: the position, or the message for the first field that is
/// wrong.
pub open spec fn parse_fen(text: Seq<char>) -> Result<Position, Seq<char>> {
    let f = fields_of(text, text.len() as int);
    if f.len() < 6 {
        Err("invalid FEN: too few fields"@)
    } else if placement(f[0]) is None {
        Err("invalid FEN: pieces"@)
    } else if target_of(f[3]) is None {
        Err("invalid FEN: en passant"@)
    } else if counter_of(f[4]) is None || counter_of(f[5]) is None {
        Err("invalid FEN: clock/number"@)
    } else {
        Ok(
            Position {
                mailbox: placement(f[0]).unwrap(),
                side: side_of(f[1]),
                en_passant: target_of(f[3]).unwrap(),
                castling: CastlingRights { bits: rights_of(f[2], f[2].len() as int) },
                captured: Seq::empty(),
                en_passant_stack: Seq::empty(),
                castling_stack: Seq::empty(),
                half_move_clock: counter_of(f[4]).unwrap(),
                full_move_number: counter_of(f[5]).unwrap(),
            },
        )
    }
}

/// The characters of a string.
fn chars_of(text: &str) -> (r: Vec<char>)
    ensures
        r@ == text@,
{
    let n = text.unicode_len();
    let mut out: Vec<char> = Vec::with_capacity(n);
    let mut i: usize = 0;
    while i < n
        invariant
            n == text@.len(),
            i <= n,
            out@ == text@.take(i as int),
        decreases n - i,
    {
        out.push(text.get_char(i));
        proof {
            assert(out@ =~= text@.take(i + 1));
        }
        i += 1;
    }
    proof {
        assert(text@.take(n as int) =~= text@);
    }
    out
}

/// The views of a list of texts.
pub open spec fn texts(list: Seq<Vec<char>>) -> Seq<Seq<char>> {
    Seq::new(list.len(), |i: int| list[i]@)
}

/// Cuts a text at its spaces.
fn split_fields(text: &Vec<char>) -> (r: Vec<Vec<char>>)
    ensures
        texts(r@) == fields_of(text@, text@.len() as int),
{
    let mut fields: Vec<Vec<char>> = Vec::new();
    let mut current: Vec<char> = Vec::new();
    let mut i: usize = 0;
    proof {
        assert(texts(fields@).push(current@) =~= fields_of(text@, 0));
    }
    while i < text.len()
        invariant
            i <= text@.len(),
            texts(fields@).push(current@) == fields_of(text@, i as int),
        decreases text@.len() - i,
    {
        let c = text[i];
        let ghost before = texts(fields@);
        let ghost run = current@;
        if c == ' ' {
            fields.push(current);
            current = Vec::new();
            proof {
                assert(texts(fields@) =~= before.push(run));
            }
        } else {
            current.push(c);
            proof {
                assert(before.push(current@) =~= before.push(run).update(
                    before.push(run).len() - 1,
                    before.push(run).last().push(c),
                ));
            }
        }
        i += 1;
    }
    let ghost before = texts(fields@);
    let ghost run = current@;
    fields.push(current);
    proof {
        assert(texts(fields@) =~= before.push(run));
    }
    fields
}

/// Reads a board from FEN text: six fields separated by single spaces, which give the
/// placement of the pieces, the side to move, the castling rights, the en-passant target
/// and the two move counters.
pub fn fen_to_board(fen: &str) -> (r: Result<Board, &'static str>)
    ensures
        match r {
            Ok(board) => board.wf() && parse_fen(fen@) == Ok::<Position, Seq<char>>(board@),
            Err(message) => parse_fen(fen@) == Err::<Position, Seq<char>>(message@),
        },
{
    let text = chars_of(fen);
    let slices = split_fields(&text);
    let ghost f = fields_of(fen@, fen@.len() as int);
    if slices.len() < 6 {
        return Err("invalid FEN: too few fields");
    }
    proof {
        assert(forall|i: int| 0 <= i < 6 ==> (#[trigger] texts(slices@)[i]) == slices@[i]@);
    }
    let mut board = Board::new_empty();
    match add_pieces_from_fen(&mut board, &slices[0]) {
        Err(message) => {
            return Err(message);
        },
        Ok(()) => {},
    }
    add_color_to_move_from_fen(&mut board, &slices[1]);
    add_castling_rights_from_fen(&mut board, &slices[2]);
    match add_en_passant_from_fen(&mut board, &slices[3]) {
        Err(message) => {
            return Err(message);
        },
        Ok(()) => {},
    }
    match add_half_move_clock_from_fen(&mut board, &slices[4]) {
        Err(message) => {
            return Err(message);
        },
        Ok(()) => {},
    }
    match add_full_move_number_from_fen(&mut board, &slices[5]) {
        Err(message) => {
            return Err(message);
        },
        Ok(()) => {},
    }
    proof {
        let want = parse_fen(fen@)->Ok_0;
        assert(board@.captured =~= want.captured);
        assert(board@.en_passant_stack =~= want.en_passant_stack);
        assert(board@.castling_stack =~= want.castling_stack);
    }
    Ok(board)
}

/// Puts the pieces of the placement field on an empty board.
fn add_pieces_from_fen(board: &mut Board, fen_str: &Vec<char>) -> (r: Result<(), &'static str>)
    requires
        old(board).wf(),
        forall|s: int| 0 <= s < 64 ==> old(board).state@[s].0 == EMPTY,
    ensures
        final(board).wf(),
        final(board).same_game_state(old(board)),
        match r {
            Ok(_) => placement(fen_str@) == Some(final(board).state@),
            Err(message) => placement(fen_str@) is None && message@ == "invalid FEN: pieces"@,
        },
{
    let mut rank: u8 = 7;
    let mut file: u8 = 0;
    let mut i: usize = 0;
    let ghost text = fen_str@;
    proof {
        assert(board.state@ =~= Seq::new(64, |s: int| Piece(EMPTY)));
    }
    while i < fen_str.len()
        invariant
            text == fen_str@,
            i <= text.len(),
            board.wf(),
            board.same_game_state(old(board)),
            rank <= 7,
            file <= 8,
            read_placement(text, i as int) == Some(
                Reading { mailbox: board.state@, rank: rank as int, file: file as int },
            ),
            forall|s: int|
                0 <= s < 64 && (s / 8 < rank || (s / 8 == rank && s % 8 >= file)) ==> board.state@[s].0
                    == EMPTY,
        decreases text.len() - i,
    {
        let c = fen_str[i];
        let ghost here = read_placement(text, i as int).unwrap();
        proof {
            assert(read_placement(text, i + 1) == read_char(here, c));
        }
        if c == '/' {
            if file != 8 || rank == 0 {
                proof {
                    lemma_reading_fails(text, i + 1, text.len() as int);
                }
                return Err("invalid FEN: pieces");
            }
            rank -= 1;
            file = 0;
        } else if '1' <= c && c <= '8' {
            let skip = c as u8 - 48;
            if file + skip > 8 {
                proof {
                    lemma_reading_fails(text, i + 1, text.len() as int);
                }
                return Err("invalid FEN: pieces");
            }
            file += skip;
        } else {
            let piece = if c == 'P' {
                Piece(WP)
            } else if c == 'N' {
                Piece(WN)
            } else if c == 'B' {
                Piece(WB)
            } else if c == 'R' {
                Piece(WR)
            } else if c == 'Q' {
                Piece(WQ)
            } else if c == 'K' {
                Piece(WK)
            } else if c == 'p' {
                Piece(BP)
            } else if c == 'n' {
                Piece(BN)
            } else if c == 'b' {
                Piece(BB)
            } else if c == 'r' {
                Piece(BR)
            } else if c == 'q' {
                Piece(BQ)
            } else if c == 'k' {
                Piece(BK)
            } else {
                proof {
                    lemma_reading_fails(text, i + 1, text.len() as int);
                }
                return Err("invalid FEN: pieces");
            };
            if file >= 8 {
                proof {
                    lemma_reading_fails(text, i + 1, text.len() as int);
                }
                return Err("invalid FEN: pieces");
            }
            board.add_piece_to_square(piece, Square(rank * 8 + file));
            file += 1;
        }
        i += 1;
    }
    if rank != 0 || file != 8 {
        return Err("invalid FEN: pieces");
    }
    Ok(())
}

/// Once reading has failed it stays failed.
proof fn lemma_reading_fails(text: Seq<char>, a: int, b: int)
    requires
        0 <= a <= b,
        read_placement(text, a) is None,
    ensures
        read_placement(text, b) is None,
    decreases b - a,
{
    if a < b {
        lemma_reading_fails(text, a, b - 1);
    }
}

/// Sets the side to move from the colour field.
fn add_color_to_move_from_fen(board: &mut Board, fen_str: &Vec<char>)
    requires
        old(board).wf(),
    ensures
        final(board).wf(),
        final(board).color_to_move == side_of(fen_str@),
        final(board).state == old(board).state,
        final(board).pieces == old(board).pieces,
        final(board).occupancy == old(board).occupancy,
        final(board).en_passant == old(board).en_passant,
        final(board).castling_rights == old(board).castling_rights,
        final(board).captured_pieces_stack == old(board).captured_pieces_stack,
        final(board).en_passant_stack == old(board).en_passant_stack,
        final(board).castling_rights_stack == old(board).castling_rights_stack,
        final(board).half_move_clock == old(board).half_move_clock,
        final(board).full_move_number == old(board).full_move_number,
{
    board.color_to_move = if fen_str.len() > 0 && fen_str[0] == 'w' {
        Color(WHITE)
    } else {
        Color(BLACK)
    };
}

/// Adds the rights that the castling field names.
fn add_castling_rights_from_fen(board: &mut Board, fen_str: &Vec<char>)
    requires
        old(board).wf(),
        old(board).castling_rights.bits == NONE,
    ensures
        final(board).wf(),
        final(board).castling_rights.bits == rights_of(fen_str@, fen_str@.len() as int),
        final(board).state == old(board).state,
        final(board).pieces == old(board).pieces,
        final(board).occupancy == old(board).occupancy,
        final(board).en_passant == old(board).en_passant,
        final(board).color_to_move == old(board).color_to_move,
        final(board).captured_pieces_stack == old(board).captured_pieces_stack,
        final(board).en_passant_stack == old(board).en_passant_stack,
        final(board).castling_rights_stack == old(board).castling_rights_stack,
        final(board).half_move_clock == old(board).half_move_clock,
        final(board).full_move_number == old(board).full_move_number,
{
    let mut rights: u8 = NONE;
    let mut i: usize = 0;
    while i < fen_str.len()
        invariant
            i <= fen_str@.len(),
            rights == rights_of(fen_str@, i as int),
            rights < 16,
        decreases fen_str@.len() - i,
    {
        let c = fen_str[i];
        let right = if c == 'K' {
            WHITE_SHORT_CASTLE
        } else if c == 'Q' {
            WHITE_LONG_CASTLE
        } else if c == 'k' {
            BLACK_SHORT_CASTLE
        } else if c == 'q' {
            BLACK_LONG_CASTLE
        } else {
            NONE
        };
        proof {
            lemma_with(rights, right, WHITE_SHORT_CASTLE);
        }
        rights = rights | right;
        i += 1;
    }
    board.castling_rights = CastlingRights { bits: rights };
}

/// Sets the en-passant target from its field.
fn add_en_passant_from_fen(board: &mut Board, fen_str: &Vec<char>) -> (r: Result<
    (),
    &'static str,
>)
    requires
        old(board).wf(),
        old(board).en_passant.0 == 0,
    ensures
        final(board).wf(),
        final(board).state == old(board).state,
        final(board).pieces == old(board).pieces,
        final(board).occupancy == old(board).occupancy,
        final(board).castling_rights == old(board).castling_rights,
        final(board).color_to_move == old(board).color_to_move,
        final(board).captured_pieces_stack == old(board).captured_pieces_stack,
        final(board).en_passant_stack == old(board).en_passant_stack,
        final(board).castling_rights_stack == old(board).castling_rights_stack,
        final(board).half_move_clock == old(board).half_move_clock,
        final(board).full_move_number == old(board).full_move_number,
        match r {
            Ok(_) => target_of(fen_str@) == Some(final(board).en_passant),
            Err(message) => target_of(fen_str@) is None && message@ == "invalid FEN: en passant"@,
        },
{
    if fen_str.len() == 1 && fen_str[0] == '-' {
        proof {
            assert(fen_str@ =~= seq!['-']);
        }
        return Ok(());
    }
    proof {
        if fen_str@ == seq!['-'] {
            assert(seq!['-'].len() == 1 && seq!['-'][0] == '-');
        }
    }
    if fen_str.len() != 2 {
        return Err("invalid FEN: en passant");
    }
    let f = fen_str[0];
    let k = fen_str[1];
    if 'a' <= f && f <= 'h' && '1' <= k && k <= '8' {
        let square = Square((k as u8 - 49) * 8 + (f as u8 - 97));
        board.en_passant = BitBoard::new(square);
        proof {
            lemma_count_bit(square.0 as int, 64);
        }
        Ok(())
    } else {
        Err("invalid FEN: en passant")
    }
}

/// Reads a decimal number.
fn parse_counter(fen_str: &Vec<char>) -> (r: Option<usize>)
    ensures
        r == counter_of(fen_str@),
{
    if fen_str.len() == 0 {
        return None;
    }
    let ghost text = fen_str@;
    let mut value: usize = 0;
    let mut i: usize = 0;
    while i < fen_str.len()
        invariant
            text == fen_str@,
            i <= text.len(),
            text.len() > 0,
            i > 0 ==> decimal_value(text, i as int) == Some(value as nat),
            i == 0 ==> value == 0,
        decreases text.len() - i,
    {
        let c = fen_str[i];
        if !('0' <= c && c <= '9') {
            proof {
                lemma_decimal_fails(text, i + 1, text.len() as int);
            }
            return None;
        }
        let digit = (c as u8 - 48) as usize;
        let next = match value.checked_mul(10) {
            Some(v) => v.checked_add(digit),
            None => None,
        };
        match next {
            Some(v) => {
                value = v;
            },
            None => {
                proof {
                    lemma_decimal_grows(text, i + 1, text.len() as int);
                }
                return None;
            },
        }
        i += 1;
    }
    Some(value)
}

/// A text with a character that is no digit writes no number.
proof fn lemma_decimal_fails(text: Seq<char>, a: int, b: int)
    requires
        0 <= a <= b,
        decimal_value(text, a) is None,
        a > 0,
    ensures
        decimal_value(text, b) is None,
    decreases b - a,
{
    if a < b {
        lemma_decimal_fails(text, a, b - 1);
    }
}

/// More digits write no smaller number.
proof fn lemma_decimal_grows(text: Seq<char>, a: int, b: int)
    requires
        0 < a <= b,
        decimal_value(text, a) is Some,
    ensures
        decimal_value(text, b) is Some ==> decimal_value(text, b).unwrap() >= decimal_value(
            text,
            a,
        ).unwrap(),
    decreases b - a,
{
    if a < b {
        lemma_decimal_grows(text, a, b - 1);
    }
}

/// Sets the half-move clock from its field.
fn add_half_move_clock_from_fen(board: &mut Board, fen_str: &Vec<char>) -> (r: Result<
    (),
    &'static str,
>)
    requires
        old(board).wf(),
    ensures
        final(board).wf(),
        final(board).state == old(board).state,
        final(board).pieces == old(board).pieces,
        final(board).occupancy == old(board).occupancy,
        final(board).castling_rights == old(board).castling_rights,
        final(board).color_to_move == old(board).color_to_move,
        final(board).en_passant == old(board).en_passant,
        final(board).captured_pieces_stack == old(board).captured_pieces_stack,
        final(board).en_passant_stack == old(board).en_passant_stack,
        final(board).castling_rights_stack == old(board).castling_rights_stack,
        final(board).full_move_number == old(board).full_move_number,
        match r {
            Ok(_) => counter_of(fen_str@) == Some(final(board).half_move_clock),
            Err(message) => counter_of(fen_str@) is None && message@
                == "invalid FEN: clock/number"@,
        },
{
    match parse_counter(fen_str) {
        Some(value) => {
            board.half_move_clock = value;
            Ok(())
        },
        None => Err("invalid FEN: clock/number"),
    }
}

/// Sets the full-move number from its field.
fn add_full_move_number_from_fen(board: &mut Board, fen_str: &Vec<char>) -> (r: Result<
    (),
    &'static str,
>)
    requires
        old(board).wf(),
    ensures
        final(board).wf(),
        final(board).state == old(board).state,
        final(board).pieces == old(board).pieces,
        final(board).occupancy == old(board).occupancy,
        final(board).castling_rights == old(board).castling_rights,
        final(board).color_to_move == old(board).color_to_move,
        final(board).en_passant == old(board).en_passant,
        final(board).captured_pieces_stack == old(board).captured_pieces_stack,
        final(board).en_passant_stack == old(board).en_passant_stack,
        final(board).castling_rights_stack == old(board).castling_rights_stack,
        final(board).half_move_clock == old(board).half_move_clock,
        match r {
            Ok(_) => counter_of(fen_str@) == Some(final(board).full_move_number),
            Err(message) => counter_of(fen_str@) is None && message@
                == "invalid FEN: clock/number"@,
        },
{
    match parse_counter(fen_str) {
        Some(value) => {
            board.full_move_number = value;
            Ok(())
        },
        None => Err("invalid FEN: clock/number"),
    }
}

/// The characters that occur in FEN text.
pub open spec fn is_fen_char(c: char) -> bool {
    ('a' <= c <= 'h') || ('0' <= c <= '9') || c == 'P' || c == 'N' || c == 'B' || c == 'R' || c
        == 'Q' || c == 'K' || c == 'p' || c == 'n' || c == 'q' || c == 'k' || c == 'r' || c == '/'
        || c == ' ' || c == 'w' || c == '-'
}

/// Appends one character of FEN text to a string.
fn push_char(text: &mut String, c: char)
    requires
        is_fen_char(c),
    ensures
        final(text)@ == old(text)@.push(c),
{
    let one: &'static str = match c {
        'P' => {
            proof {
                reveal_strlit("P");
            }
            "P"
        },
        'N' => {
            proof {
                reveal_strlit("N");
            }
            "N"
        },
        'B' => {
            proof {
                reveal_strlit("B");
            }
            "B"
        },
        'R' => {
            proof {
                reveal_strlit("R");
            }
            "R"
        },
        'Q' => {
            proof {
                reveal_strlit("Q");
            }
            "Q"
        },
        'K' => {
            proof {
                reveal_strlit("K");
            }
            "K"
        },
        'p' => {
            proof {
                reveal_strlit("p");
            }
            "p"
        },
        'n' => {
            proof {
                reveal_strlit("n");
            }
            "n"
        },
        'b' => {
            proof {
                reveal_strlit("b");
            }
            "b"
        },
        'r' => {
            proof {
                reveal_strlit("r");
            }
            "r"
        },
        'q' => {
            proof {
                reveal_strlit("q");
            }
            "q"
        },
        'k' => {
            proof {
                reveal_strlit("k");
            }
            "k"
        },
        '1' => {
            proof {
                reveal_strlit("1");
            }
            "1"
        },
        '2' => {
            proof {
                reveal_strlit("2");
            }
            "2"
        },
        '3' => {
            proof {
                reveal_strlit("3");
            }
            "3"
        },
        '4' => {
            proof {
                reveal_strlit("4");
            }
            "4"
        },
        '5' => {
            proof {
                reveal_strlit("5");
            }
            "5"
        },
        '6' => {
            proof {
                reveal_strlit("6");
            }
            "6"
        },
        '7' => {
            proof {
                reveal_strlit("7");
            }
            "7"
        },
        '8' => {
            proof {
                reveal_strlit("8");
            }
            "8"
        },
        '/' => {
            proof {
                reveal_strlit("/");
            }
            "/"
        },
        ' ' => {
            proof {
                reveal_strlit(" ");
            }
            " "
        },
        'w' => {
            proof {
                reveal_strlit("w");
            }
            "w"
        },
        '-' => {
            proof {
                reveal_strlit("-");
            }
            "-"
        },
        'a' => {
            proof {
                reveal_strlit("a");
            }
            "a"
        },
        'c' => {
            proof {
                reveal_strlit("c");
            }
            "c"
        },
        'd' => {
            proof {
                reveal_strlit("d");
            }
            "d"
        },
        'e' => {
            proof {
                reveal_strlit("e");
            }
            "e"
        },
        'f' => {
            proof {
                reveal_strlit("f");
            }
            "f"
        },
        'g' => {
            proof {
                reveal_strlit("g");
            }
            "g"
        },
        'h' => {
            proof {
                reveal_strlit("h");
            }
            "h"
        },
        '0' => {
            proof {
                reveal_strlit("0");
            }
            "0"
        },
        '9' => {
            proof {
                reveal_strlit("9");
            }
            "9"
        },
        _ => {
            proof {
                reveal_strlit("k");
            }
            "k"
        },
    };
    proof {
        assert(one@ =~= seq![c]);
        assert(text@ + one@ =~= text@.push(c));
    }
    text.append(one);
}

/// The digit that writes a number below ten.
pub open spec fn digit_of(d: int) -> char {
    (48 + d) as char
}

/// `text` with the count of a run of empty squares appended, if there is a run.
pub open spec fn with_run(text: Seq<char>, run: int) -> Seq<char> {
    if run != 0 {
        text.push(digit_of(run))
    } else {
        text
    }
}

/// Where writing a placement field stands: the text so far, and the length of the run of
/// empty squares not yet written.
pub struct Writing {
    pub text: Seq<char>,
    pub run: int,
}

/// The square visited at step `k` of writing a placement: ranks from the eighth down, files
/// from a to h.
pub open spec fn visited(k: int) -> int {
    (7 - k / 8) * 8 + k % 8
}

/// Writing the first `n` squares of a placement field: a letter for each piece, a digit for
/// each run of empty squares within a rank, and a slash after each rank but the last.
pub open spec fn write_placement(mailbox: Seq<Piece>, n: int) -> Writing
    decreases n,
{
    if n <= 0 {
        Writing { text: Seq::empty(), run: 0 }
    } else {
        let before = write_placement(mailbox, n - 1);
        let k = n - 1;
        let piece = mailbox[visited(k)];
        let here = if piece.0 == EMPTY {
            Writing { text: before.text, run: before.run + 1 }
        } else {
            Writing {
                text: with_run(before.text, before.run).push(letter_of_piece(piece)),
                run: 0,
            }
        };
        if k % 8 == 7 {
            Writing {
                text: if k != 63 {
                    with_run(here.text, here.run).push('/')
                } else {
                    with_run(here.text, here.run)
                },
                run: 0,
            }
        } else {
            here
        }
    }
}

/// The placement field of a board.
pub open spec fn placement_text(mailbox: Seq<Piece>) -> Seq<char> {
    write_placement(mailbox, 64).text
}

/// The colour field of a side.
pub open spec fn side_text(c: Color) -> Seq<char> {
    if c.0 == WHITE {
        seq!['w']
    } else {
        seq!['b']
    }
}

/// `text` with the letter `c` appended if `bits` holds the right `right`.
pub open spec fn with_right(text: Seq<char>, bits: u8, right: u8, c: char) -> Seq<char> {
    if includes(bits, right) {
        text.push(c)
    } else {
        text
    }
}

/// The castling field of a set of rights.
pub open spec fn rights_text(bits: u8) -> Seq<char> {
    if bits == NONE {
        seq!['-']
    } else {
        with_right(
            with_right(
                with_right(
                    with_right(Seq::empty(), bits, WHITE_SHORT_CASTLE, 'K'),
                    bits,
                    WHITE_LONG_CASTLE,
                    'Q',
                ),
                bits,
                BLACK_SHORT_CASTLE,
                'k',
            ),
            bits,
            BLACK_LONG_CASTLE,
            'q',
        )
    }
}

/// The en-passant field of a target.
pub open spec fn target_text(target: BitBoard) -> Seq<char> {
    if target.0 == 0 {
        seq!['-']
    } else {
        square_name(Square(lowest(target.0) as u8))
    }
}

/// A number written in decimal.
pub open spec fn decimal_text(n: nat) -> Seq<char>
    decreases n,
{
    if n < 10 {
        seq![digit_of(n as int)]
    } else {
        decimal_text(n / 10).push(digit_of((n % 10) as int))
    }
}

/// The FEN text of a position.
pub open spec fn fen_text(p: Position) -> Seq<char> {
    placement_text(p.mailbox) + seq![' '] + side_text(p.side) + seq![' '] + rights_text(
        p.castling.bits,
    ) + seq![' '] + target_text(p.en_passant) + seq![' '] + decimal_text(
        p.half_move_clock as nat,
    ) + seq![' '] + decimal_text(p.full_move_number as nat)
}

/// Writes a board as FEN text.
pub fn board_to_fen(board: &Board) -> (r: String)
    requires
        board.wf(),
    ensures
        r@ == fen_text(board@),
{
    let mut text = pieces_to_fen(board);
    push_char(&mut text, ' ');
    text.append(color_to_move_to_fen(board).as_str());
    push_char(&mut text, ' ');
    text.append(castling_rights_to_fen(board).as_str());
    push_char(&mut text, ' ');
    text.append(en_passant_to_fen(board).as_str());
    push_char(&mut text, ' ');
    text.append(half_move_clock_to_fen(board).as_str());
    push_char(&mut text, ' ');
    text.append(full_move_number_to_fen(board).as_str());
    proof {
        let p = board@;
        assert(text@ =~= fen_text(p));
    }
    text
}

/// The placement field of a board.
fn pieces_to_fen(board: &Board) -> (r: String)
    requires
        board.wf(),
    ensures
        r@ == placement_text(board@.mailbox),
{
    let mut string = String::new();
    let mut empty_squares: u8 = 0;
    let mut k: u8 = 0;
    let ghost mailbox = board@.mailbox;
    while k < 64
        invariant
            k <= 64,
            board.wf(),
            mailbox == board@.mailbox,
            empty_squares <= k % 8,
            write_placement(mailbox, k as int) == (Writing {
                text: string@,
                run: empty_squares as int,
            }),
        decreases 64 - k,
    {
        let rank = 7 - k / 8;
        let file = k % 8;
        let square = Square(rank * 8 + file);
        let piece = board.piece_at_square(square);
        proof {
            assert(board.state@[square.0 as int].wf());
        }
        if piece.0 == EMPTY {
            empty_squares += 1;
        } else {
            if empty_squares != 0 {
                push_char(&mut string, (48 + empty_squares) as char);
                empty_squares = 0;
            }
            push_char(
                &mut string,
                if piece.0 == WP {
                    'P'
                } else if piece.0 == WN {
                    'N'
                } else if piece.0 == WB {
                    'B'
                } else if piece.0 == WR {
                    'R'
                } else if piece.0 == WQ {
                    'Q'
                } else if piece.0 == WK {
                    'K'
                } else if piece.0 == BP {
                    'p'
                } else if piece.0 == BN {
                    'n'
                } else if piece.0 == BB {
                    'b'
                } else if piece.0 == BR {
                    'r'
                } else if piece.0 == BQ {
                    'q'
                } else {
                    'k'
                },
            );
        }
        if file == 7 {
            if empty_squares != 0 {
                push_char(&mut string, (48 + empty_squares) as char);
                empty_squares = 0;
            }
            if k != 63 {
                push_char(&mut string, '/');
            }
        }
        k += 1;
    }
    string
}

/// The colour field of a board.
fn color_to_move_to_fen(board: &Board) -> (r: String)
    requires
        board.wf(),
    ensures
        r@ == side_text(board@.side),
{
    let mut string = String::new();
    if board.color_to_move.0 == WHITE {
        push_char(&mut string, 'w');
    } else {
        push_char(&mut string, 'b');
    }
    proof {
        assert(string@ =~= side_text(board@.side));
    }
    string
}

/// The castling field of a board.
fn castling_rights_to_fen(board: &Board) -> (r: String)
    requires
        board.wf(),
    ensures
        r@ == rights_text(board@.castling.bits),
{
    let mut string = String::new();
    if board.castling_rights.bits == NONE {
        push_char(&mut string, '-');
        proof {
            assert(string@ =~= seq!['-']);
        }
        return string;
    }
    if board.castling_rights.contains(CastlingRights { bits: WHITE_SHORT_CASTLE }) {
        push_char(&mut string, 'K');
    }
    if board.castling_rights.contains(CastlingRights { bits: WHITE_LONG_CASTLE }) {
        push_char(&mut string, 'Q');
    }
    if board.castling_rights.contains(CastlingRights { bits: BLACK_SHORT_CASTLE }) {
        push_char(&mut string, 'k');
    }
    if board.castling_rights.contains(CastlingRights { bits: BLACK_LONG_CASTLE }) {
        push_char(&mut string, 'q');
    }
    string
}

/// The en-passant field of a board.
fn en_passant_to_fen(board: &Board) -> (r: String)
    requires
        board.wf(),
    ensures
        r@ == target_text(board@.en_passant),
{
    if board.en_passant.0 == 0 {
        let mut string = String::new();
        push_char(&mut string, '-');
        proof {
            assert(string@ =~= seq!['-']);
        }
        return string;
    }
    String::from_str(Square(board.en_passant.bit_scan()).as_string())
}

/// Appends a number in decimal.
fn push_decimal(text: &mut String, n: usize)
    ensures
        final(text)@ == old(text)@ + decimal_text(n as nat),
    decreases n,
{
    if n >= 10 {
        push_decimal(text, n / 10);
    }
    let digit = (48 + (n % 10) as u8) as char;
    push_char(text, digit);
    proof {
        assert(final(text)@ =~= old(text)@ + decimal_text(n as nat));
    }
}

/// The half-move clock field of a board.
fn half_move_clock_to_fen(board: &Board) -> (r: String)
    ensures
        r@ == decimal_text(board@.half_move_clock as nat),
{
    let mut string = String::new();
    push_decimal(&mut string, board.half_move_clock);
    proof {
        assert(Seq::<char>::empty() + decimal_text(board@.half_move_clock as nat) =~= decimal_text(
            board@.half_move_clock as nat,
        ));
    }
    string
}

/// The full-move number field of a board.
fn full_move_number_to_fen(board: &Board) -> (r: String)
    ensures
        r@ == decimal_text(board@.full_move_number as nat),
{
    let mut string = String::new();
    push_decimal(&mut string, board.full_move_number);
    proof {
        assert(Seq::<char>::empty() + decimal_text(board@.full_move_number as nat) =~= decimal_text(
            board@.full_move_number as nat,
        ));
    }
    string
}

} // verus!

