//! Reading back what was written: the FEN text of a position describes that position.
use crate::bitboard::BitBoard;
use crate::bits::{bit, count_bits, lemma_at_most_one, lowest};
use crate::castling::{
    includes, BLACK_LONG_CASTLE, BLACK_SHORT_CASTLE, NONE, WHITE_LONG_CASTLE, WHITE_SHORT_CASTLE,
};
use crate::fen::{
    counter_of, decimal_text, decimal_value, digit_of, fen_text, fields_of, letter_of_piece,
    parse_fen, piece_of_letter, placement, placement_text, read_char, read_placement,
    right_of_letter,
    rights_of, rights_text, side_of, side_text, target_of, target_text, visited, with_right,
    with_run, write_placement, Reading, Writing,
};
use crate::piece::{Piece, EMPTY};
use crate::position::Position;
use crate::square::{lemma_square_name_round_trip, parse_square, square_name, Square};
use vstd::prelude::*;

verus! {

/// Whether a text holds no space.
pub open spec fn spaceless(text: Seq<char>) -> bool {
    forall|i: int| 0 <= i < text.len() ==> text[i] != ' '
}

/// The fields of a prefix depend on the prefix alone.
proof fn lemma_fields_prefix(x: Seq<char>, y: Seq<char>, n: int)
    requires
        0 <= n <= x.len(),
        n <= y.len(),
        forall|i: int| 0 <= i < n ==> x[i] == y[i],
    ensures
        fields_of(x, n) == fields_of(y, n),
    decreases n,
{
    if n > 0 {
        lemma_fields_prefix(x, y, n - 1);
    }
}

/// A text followed by a space and a spaceless text has the fields of the first text and,
/// as one more field, the second text.
proof fn lemma_fields_append(a: Seq<char>, b: Seq<char>, j: int)
    requires
        spaceless(b),
        0 <= j <= b.len(),
    ensures
        fields_of(a + seq![' '] + b, a.len() + 1 + j) == fields_of(a, a.len() as int).push(
            b.take(j),
        ),
    decreases j,
{
    let full = a + seq![' '] + b;
    let before = fields_of(a, a.len() as int);
    if j == 0 {
        lemma_fields_prefix(full, a, a.len() as int);
        assert(full[a.len() as int] == ' ');
        assert(b.take(0) =~= Seq::<char>::empty());
    } else {
        lemma_fields_append(a, b, j - 1);
        assert(full[a.len() + j] == b[j - 1]);
        let sofar = before.push(b.take(j - 1));
        assert(sofar.update(sofar.len() - 1, sofar.last().push(b[j - 1])) =~= before.push(
            b.take(j),
        )) by {
            assert(b.take(j - 1).push(b[j - 1]) =~= b.take(j));
        }
    }
}

/// A spaceless text is its own single field.
proof fn lemma_fields_single(a: Seq<char>, n: int)
    requires
        spaceless(a),
        0 <= n <= a.len(),
    ensures
        fields_of(a, n) == seq![a.take(n)],
    decreases n,
{
    if n == 0 {
        assert(a.take(0) =~= Seq::<char>::empty());
    } else {
        lemma_fields_single(a, n - 1);
        let sofar = seq![a.take(n - 1)];
        assert(sofar.update(sofar.len() - 1, sofar.last().push(a[n - 1])) =~= seq![a.take(n)]) by {
            assert(a.take(n - 1).push(a[n - 1]) =~= a.take(n));
        }
    }
}

/// A number is read back from its decimal text.
pub proof fn lemma_decimal_round_trip(n: nat)
    ensures
        decimal_text(n).len() >= 1,
        decimal_value(decimal_text(n), decimal_text(n).len() as int) == Some(n),
        spaceless(decimal_text(n)),
    decreases n,
{
    let text = decimal_text(n);
    if n >= 10 {
        let shorter = decimal_text(n / 10);
        lemma_decimal_round_trip(n / 10);
        lemma_decimal_prefix(text, shorter, shorter.len() as int);
        assert(text[shorter.len() as int] == digit_of((n % 10) as int));
    }
}

/// The number that a prefix writes depends on the prefix alone.
proof fn lemma_decimal_prefix(x: Seq<char>, y: Seq<char>, n: int)
    requires
        0 <= n <= x.len(),
        n <= y.len(),
        forall|i: int| 0 <= i < n ==> x[i] == y[i],
    ensures
        decimal_value(x, n) == decimal_value(y, n),
    decreases n,
{
    if n > 1 {
        lemma_decimal_prefix(x, y, n - 1);
    }
}

/// The rights that a prefix names depend on the prefix alone.
proof fn lemma_rights_prefix(x: Seq<char>, y: Seq<char>, n: int)
    requires
        0 <= n <= x.len(),
        n <= y.len(),
        forall|i: int| 0 <= i < n ==> x[i] == y[i],
    ensures
        rights_of(x, n) == rights_of(y, n),
    decreases n,
{
    if n > 0 {
        lemma_rights_prefix(x, y, n - 1);
    }
}

/// Appending the letter of a right, if the right is held, adds that right to what the text
/// names.
proof fn lemma_with_right(text: Seq<char>, bits: u8, right: u8, c: char)
    requires
        right_of_letter(c) == right,
        c != ' ',
        spaceless(text),
    ensures
        rights_of(with_right(text, bits, right, c), with_right(text, bits, right, c).len() as int)
            == rights_of(text, text.len() as int) | if includes(bits, right) {
            right
        } else {
            0
        },
        spaceless(with_right(text, bits, right, c)),
{
    let longer = with_right(text, bits, right, c);
    let before = rights_of(text, text.len() as int);
    if includes(bits, right) {
        lemma_rights_prefix(longer, text, text.len() as int);
    } else {
        assert(before | 0 == before) by (bit_vector);
    }
}

/// A set of rights is read back from its castling field.
pub proof fn lemma_rights_round_trip(bits: u8)
    requires
        bits < 16,
    ensures
        rights_of(rights_text(bits), rights_text(bits).len() as int) == bits,
        spaceless(rights_text(bits)),
{
    if bits == NONE {
        let text = seq!['-'];
        assert(rights_of(text, 1) == rights_of(text, 0) | right_of_letter(text[0]));
        assert(0u8 | 0u8 == 0u8) by (bit_vector);
    } else {
        let t0 = Seq::<char>::empty();
        let t1 = with_right(t0, bits, WHITE_SHORT_CASTLE, 'K');
        let t2 = with_right(t1, bits, WHITE_LONG_CASTLE, 'Q');
        let t3 = with_right(t2, bits, BLACK_SHORT_CASTLE, 'k');
        lemma_with_right(t0, bits, WHITE_SHORT_CASTLE, 'K');
        lemma_with_right(t1, bits, WHITE_LONG_CASTLE, 'Q');
        lemma_with_right(t2, bits, BLACK_SHORT_CASTLE, 'k');
        lemma_with_right(t3, bits, BLACK_LONG_CASTLE, 'q');
        assert(bits < 16 ==> (((0u8 | if bits & 1 == 1 {
            1u8
        } else {
            0u8
        }) | if bits & 2 == 2 {
            2u8
        } else {
            0u8
        }) | if bits & 4 == 4 {
            4u8
        } else {
            0u8
        }) | if bits & 8 == 8 {
            8u8
        } else {
            0u8
        } == bits) by (bit_vector);
    }
}

/// An en-passant target is read back from its field.
pub proof fn lemma_target_round_trip(target: BitBoard)
    requires
        count_bits(target.0) <= 1,
    ensures
        target_of(target_text(target)) == Some(target),
        spaceless(target_text(target)),
{
    if target.0 != 0 {
        lemma_at_most_one(target.0);
        let sq = Square(lowest(target.0) as u8);
        lemma_square_name_round_trip(sq);
        assert(square_name(sq).len() == 2);
        assert(seq!['-'].len() == 1);
    } else {
        assert(seq!['-'][0] == '-');
    }
}

/// The place of a square in the order in which a placement field visits the squares.
pub open spec fn turn(s: int) -> int {
    (7 - s / 8) * 8 + s % 8
}

/// The board with the pieces of `mailbox` on the first `k` squares visited and no others.
pub open spec fn filled(mailbox: Seq<Piece>, k: int) -> Seq<Piece> {
    Seq::new(
        64,
        |s: int|
            if turn(s) < k {
                mailbox[s]
            } else {
                Piece(EMPTY)
            },
    )
}

/// What was read from a prefix depends on the prefix alone.
proof fn lemma_read_prefix(x: Seq<char>, y: Seq<char>, n: int)
    requires
        0 <= n <= x.len(),
        n <= y.len(),
        forall|i: int| 0 <= i < n ==> x[i] == y[i],
    ensures
        read_placement(x, n) == read_placement(y, n),
    decreases n,
{
    if n > 0 {
        lemma_read_prefix(x, y, n - 1);
    }
}

/// Reading a text with one more character is reading the text and then the character.
proof fn lemma_read_push(text: Seq<char>, c: char)
    ensures
        read_placement(text.push(c), (text.len() + 1) as int) == match read_placement(
            text,
            text.len() as int,
        ) {
            None => None,
            Some(r) => read_char(r, c),
        },
{
    lemma_read_prefix(text.push(c), text, text.len() as int);
}

/// Reading a text with the count of a run of empty squares appended moves on by the run.
proof fn lemma_read_run(text: Seq<char>, run: int, r: Reading)
    requires
        0 <= run <= 8,
        r.file + run <= 8,
        read_placement(text, text.len() as int) == Some(r),
        spaceless(text),
    ensures
        read_placement(with_run(text, run), with_run(text, run).len() as int) == Some(
            Reading { mailbox: r.mailbox, rank: r.rank, file: r.file + run },
        ),
        spaceless(with_run(text, run)),
{
    if run != 0 {
        lemma_read_push(text, digit_of(run));
    }
}

/// Reading what was written for the first `k` squares gives those squares back, and stands
/// where writing stands less the run of empty squares not yet written.
proof fn lemma_write_read(mailbox: Seq<Piece>, k: int)
    requires
        mailbox.len() == 64,
        forall|s: int| 0 <= s < 64 ==> (#[trigger] mailbox[s]).wf(),
        0 <= k <= 64,
    ensures
        0 <= write_placement(mailbox, k).run <= k % 8,
        spaceless(write_placement(mailbox, k).text),
        read_placement(
            write_placement(mailbox, k).text,
            write_placement(mailbox, k).text.len() as int,
        ) == Some(
            Reading {
                mailbox: filled(mailbox, k),
                rank: if k == 64 {
                    0
                } else {
                    7 - k / 8
                },
                file: if k == 64 {
                    8
                } else {
                    k % 8 - write_placement(mailbox, k).run
                },
            },
        ),
    decreases k,
{
    if k == 0 {
        assert(filled(mailbox, 0) =~= Seq::new(64, |s: int| Piece(EMPTY)));
    } else {
        let j = k - 1;
        lemma_write_read(mailbox, j);
        let before = write_placement(mailbox, j);
        let s = visited(j);
        let piece = mailbox[s];
        assert(piece.wf());
        let rank = 7 - j / 8;
        let col = j % 8;
        let start = Reading { mailbox: filled(mailbox, j), rank, file: col - before.run };
        assert(read_placement(before.text, before.text.len() as int) == Some(start));
        let here = if piece.0 == EMPTY {
            Writing { text: before.text, run: before.run + 1 }
        } else {
            Writing {
                text: with_run(before.text, before.run).push(letter_of_piece(piece)),
                run: 0,
            }
        };
        // where reading stands after `here.text`
        let mid = Reading { mailbox: filled(mailbox, k), rank, file: col + 1 - here.run };
        if piece.0 == EMPTY {
            assert(filled(mailbox, k) =~= filled(mailbox, j));
        } else {
            lemma_read_run(before.text, before.run, start);
            lemma_read_push(with_run(before.text, before.run), letter_of_piece(piece));
            assert(piece_of_letter(letter_of_piece(piece)) == Some(piece));
            assert(rank * 8 + col == s);
            assert(filled(mailbox, k) =~= filled(mailbox, j).update(s, piece));
        }
        assert(read_placement(here.text, here.text.len() as int) == Some(mid));
        assert(spaceless(here.text));
        if col == 7 {
            lemma_read_run(here.text, here.run, mid);
            if j != 63 {
                lemma_read_push(with_run(here.text, here.run), '/');
            }
        }
    }
}

/// The squares of a board are read back from its placement field.
pub proof fn lemma_placement_round_trip(mailbox: Seq<Piece>)
    requires
        mailbox.len() == 64,
        forall|s: int| 0 <= s < 64 ==> (#[trigger] mailbox[s]).wf(),
    ensures
        placement(placement_text(mailbox)) == Some(mailbox),
        spaceless(placement_text(mailbox)),
{
    lemma_write_read(mailbox, 64);
    assert(filled(mailbox, 64) =~= mailbox);
}

/// The FEN text of a position with no moves to take back describes that position.
pub proof fn lemma_fen_round_trip(p: Position)
    requires
        p.wf(),
        p.captured.len() == 0,
        p.en_passant_stack.len() == 0,
        p.castling_stack.len() == 0,
    ensures
        parse_fen(fen_text(p)) == Ok::<Position, Seq<char>>(p),
{
    let f0 = placement_text(p.mailbox);
    let f1 = side_text(p.side);
    let f2 = rights_text(p.castling.bits);
    let f3 = target_text(p.en_passant);
    let f4 = decimal_text(p.half_move_clock as nat);
    let f5 = decimal_text(p.full_move_number as nat);
    lemma_placement_round_trip(p.mailbox);
    lemma_rights_round_trip(p.castling.bits);
    lemma_target_round_trip(p.en_passant);
    lemma_decimal_round_trip(p.half_move_clock as nat);
    lemma_decimal_round_trip(p.full_move_number as nat);
    let t0 = f0;
    let t1 = t0 + seq![' '] + f1;
    let t2 = t1 + seq![' '] + f2;
    let t3 = t2 + seq![' '] + f3;
    let t4 = t3 + seq![' '] + f4;
    let t5 = t4 + seq![' '] + f5;
    assert(t5 == fen_text(p));
    lemma_fields_single(t0, t0.len() as int);
    assert(t0.take(t0.len() as int) =~= t0);
    lemma_fields_append(t0, f1, f1.len() as int);
    assert(f1.take(f1.len() as int) =~= f1);
    lemma_fields_append(t1, f2, f2.len() as int);
    assert(f2.take(f2.len() as int) =~= f2);
    lemma_fields_append(t2, f3, f3.len() as int);
    assert(f3.take(f3.len() as int) =~= f3);
    lemma_fields_append(t3, f4, f4.len() as int);
    assert(f4.take(f4.len() as int) =~= f4);
    lemma_fields_append(t4, f5, f5.len() as int);
    assert(f5.take(f5.len() as int) =~= f5);
    let fields = fields_of(t5, t5.len() as int);
    assert(fields =~= seq![f0, f1, f2, f3, f4, f5]);
    let q = parse_fen(t5)->Ok_0;
    assert(q.captured =~= p.captured);
    assert(q.en_passant_stack =~= p.en_passant_stack);
    assert(q.castling_stack =~= p.castling_stack);
}

} // verus!
