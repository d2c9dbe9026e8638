use rust_chess_engine::bitboard::BitBoard;
use rust_chess_engine::board::Board;
use rust_chess_engine::square;
use rust_chess_engine::utils::grid_to_string;

#[test]
fn test_grid_to_string() {
    let mut cells = vec![". "; 64];
    cells[square::A1 as usize] = "a ";
    cells[square::H1 as usize] = "h ";
    cells[square::E4 as usize] = "x ";
    cells[square::A8 as usize] = "A ";
    let expected = "\n============================\n\n\
                    \x20  8 | A . . . . . . . \n\
                    \x20  7 | . . . . . . . . \n\
                    \x20  6 | . . . . . . . . \n\
                    \x20  5 | . . . . . . . . \n\
                    \x20  4 | . . . . x . . . \n\
                    \x20  3 | . . . . . . . . \n\
                    \x20  2 | . . . . . . . . \n\
                    \x20  1 | a . . . . . . h \n\
                    \x20      - - - - - - - -\n\
                    \x20      A B C D E F G H\n\n============================\n";
    assert_eq!(expected, grid_to_string(&cells, None));
    let with_word = grid_to_string(&cells, Some(0x0123_4567_89ab_cdef));
    assert!(with_word.starts_with(
        "\n============================\n\nBitBoard: 0x0123456789abcdef\n\n   8 | A "
    ));
    assert!(with_word.ends_with(&expected[31..]));
}

#[test]
fn test_bitboard_as_string() {
    let bb = BitBoard((1u64 << square::B2) | (1u64 << square::H8));
    let expected = "\n============================\n\nBitBoard: 0x8000000000000200\n\n\
                    \x20  8 | . . . . . . . # \n\
                    \x20  7 | . . . . . . . . \n\
                    \x20  6 | . . . . . . . . \n\
                    \x20  5 | . . . . . . . . \n\
                    \x20  4 | . . . . . . . . \n\
                    \x20  3 | . . . . . . . . \n\
                    \x20  2 | . # . . . . . . \n\
                    \x20  1 | . . . . . . . . \n\
                    \x20      - - - - - - - -\n\
                    \x20      A B C D E F G H\n\n============================\n";
    assert_eq!(expected, bb.as_string());
}

#[test]
fn test_board_as_string() {
    let expected = "\n============================\n\n\
                    \x20  8 | ♜ ♞ ♝ ♛ ♚ ♝ ♞ ♜ \n\
                    \x20  7 | ♟ ♟ ♟ ♟ ♟ ♟ ♟ ♟ \n\
                    \x20  6 | . . . . . . . . \n\
                    \x20  5 | . . . . . . . . \n\
                    \x20  4 | . . . . . . . . \n\
                    \x20  3 | . . . . . . . . \n\
                    \x20  2 | ♙ ♙ ♙ ♙ ♙ ♙ ♙ ♙ \n\
                    \x20  1 | ♖ ♘ ♗ ♕ ♔ ♗ ♘ ♖ \n\
                    \x20      - - - - - - - -\n\
                    \x20      A B C D E F G H\n\n============================\n";
    assert_eq!(expected, Board::new().as_string());
}
