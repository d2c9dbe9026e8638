//! Drawing a board as text: a grid of eight rows of eight cells between a header and a
//! footer.
use crate::square::Square;
use vstd::prelude::*;
use vstd::string::*;

verus! {

/// The digit that writes the four-bit number `n` in hexadecimal.
pub open spec fn hex_digit(n: int) -> Seq<char> {
    if n == 0 {
        "0"@
    } else if n == 1 {
        "1"@
    } else if n == 2 {
        "2"@
    } else if n == 3 {
        "3"@
    } else if n == 4 {
        "4"@
    } else if n == 5 {
        "5"@
    } else if n == 6 {
        "6"@
    } else if n == 7 {
        "7"@
    } else if n == 8 {
        "8"@
    } else if n == 9 {
        "9"@
    } else if n == 10 {
        "a"@
    } else if n == 11 {
        "b"@
    } else if n == 12 {
        "c"@
    } else if n == 13 {
        "d"@
    } else if n == 14 {
        "e"@
    } else {
        "f"@
    }
}

/// The first `n` of the sixteen hexadecimal digits of a word, highest first.
pub open spec fn hex_digits(raw: u64, n: int) -> Seq<char>
    decreases n,
{
    if n <= 0 {
        Seq::empty()
    } else {
        hex_digits(raw, n - 1) + hex_digit(((raw >> ((64 - 4 * n) as u64)) & 15) as int)
    }
}

/// The digit that names the rank with index `row`.
pub open spec fn row_head(row: int) -> Seq<char> {
    if row == 0 {
        "1"@
    } else if row == 1 {
        "2"@
    } else if row == 2 {
        "3"@
    } else if row == 3 {
        "4"@
    } else if row == 4 {
        "5"@
    } else if row == 5 {
        "6"@
    } else if row == 6 {
        "7"@
    } else {
        "8"@
    }
}

/// The first `n` cells of the rank with index `row`.
pub open spec fn row_cells(cells: Seq<Seq<char>>, row: int, n: int) -> Seq<char>
    decreases n,
{
    if n <= 0 {
        Seq::empty()
    } else {
        row_cells(cells, row, n - 1) + cells[row * 8 + n - 1]
    }
}

/// The first `n` rows of the grid, the eighth rank first.
pub open spec fn grid_rows(cells: Seq<Seq<char>>, n: int) -> Seq<char>
    decreases n,
{
    if n <= 0 {
        Seq::empty()
    } else {
        grid_rows(cells, n - 1) + "   "@ + row_head(8 - n) + " | "@ + row_cells(cells, 8 - n, 8)
            + "\n"@
    }
}

/// The header of the grid: a rule and, for a word, the word in hexadecimal.
pub open spec fn grid_head(raw: Option<u64>) -> Seq<char> {
    match raw {
        Some(word) => "\n============================\n\n"@ + "BitBoard: 0x"@ + hex_digits(word, 16)
            + "\n\n"@,
        None => "\n============================\n\n"@,
    }
}

/// The drawing of a grid whose cell for square `s` is `cells[s]`.
pub open spec fn grid_text(cells: Seq<Seq<char>>, raw: Option<u64>) -> Seq<char> {
    grid_head(raw) + grid_rows(cells, 8) + "       - - - - - - - -\n"@
        + "       A B C D E F G H\n\n============================\n"@
}

/// The texts of a list of cells.
pub open spec fn cell_texts(cells: Seq<&'static str>) -> Seq<Seq<char>> {
    Seq::new(cells.len(), |i: int| cells[i]@)
}

/// Appends the sixteen hexadecimal digits of a word.
fn push_hex(text: &mut String, raw: u64)
    ensures
        final(text)@ == old(text)@ + hex_digits(raw, 16),
{
    let mut n: u8 = 0;
    proof {
        assert(text@ + hex_digits(raw, 0) =~= text@);
    }
    while n < 16
        invariant
            n <= 16,
            text@ == old(text)@ + hex_digits(raw, n as int),
        decreases 16 - n,
    {
        let up: u64 = (60 - 4 * n) as u64;
        let nibble = (raw >> up) & 15;
        proof {
            assert(((raw >> up) & 15) < 16) by (bit_vector);
        }
        let digit: &'static str = if nibble == 0 {
            "0"
        } else if nibble == 1 {
            "1"
        } else if nibble == 2 {
            "2"
        } else if nibble == 3 {
            "3"
        } else if nibble == 4 {
            "4"
        } else if nibble == 5 {
            "5"
        } else if nibble == 6 {
            "6"
        } else if nibble == 7 {
            "7"
        } else if nibble == 8 {
            "8"
        } else if nibble == 9 {
            "9"
        } else if nibble == 10 {
            "a"
        } else if nibble == 11 {
            "b"
        } else if nibble == 12 {
            "c"
        } else if nibble == 13 {
            "d"
        } else if nibble == 14 {
            "e"
        } else {
            "f"
        };
        let ghost before = text@;
        text.append(digit);
        proof {
            assert(old(text)@ + hex_digits(raw, n as int) + digit@ =~= old(text)@ + hex_digits(
                raw,
                n + 1,
            ));
        }
        n += 1;
    }
}

/// Draws a grid: a header, with the word `raw` in hexadecimal if there is one, the eight
/// ranks from the eighth down with `cells[s]` for square `s`, and the names of the files.
pub fn grid_to_string(cells: &Vec<&'static str>, raw: Option<u64>) -> (r: String)
    requires
        cells@.len() == 64,
    ensures
        r@ == grid_text(cell_texts(cells@), raw),
{
    let ghost grid = cell_texts(cells@);
    let mut string: String = String::from_str("\n============================\n\n");
    match raw {
        Some(word) => {
            string.append("BitBoard: 0x");
            push_hex(&mut string, word);
            string.append("\n\n");
        },
        None => {},
    }
    proof {
        assert(string@ =~= grid_head(raw) + grid_rows(grid, 0));
    }
    let mut drawn: u8 = 0;
    while drawn < 8
        invariant
            drawn <= 8,
            cells@.len() == 64,
            grid == cell_texts(cells@),
            string@ == grid_head(raw) + grid_rows(grid, drawn as int),
        decreases 8 - drawn,
    {
        let row: u8 = 7 - drawn;
        let ghost start = string@;
        string.append("   ");
        string.append(
            if row == 0 {
                "1"
            } else if row == 1 {
                "2"
            } else if row == 2 {
                "3"
            } else if row == 3 {
                "4"
            } else if row == 4 {
                "5"
            } else if row == 5 {
                "6"
            } else if row == 6 {
                "7"
            } else {
                "8"
            },
        );
        string.append(" | ");
        let ghost lead = string@;
        let mut col: u8 = 0;
        proof {
            assert(lead + row_cells(grid, row as int, 0) =~= lead);
        }
        while col < 8
            invariant
                col <= 8,
                row <= 7,
                cells@.len() == 64,
                grid == cell_texts(cells@),
                string@ == lead + row_cells(grid, row as int, col as int),
            decreases 8 - col,
        {
            match Square::from(col as i8, row as i8) {
                Some(sq) => {
                    string.append(cells[sq.to_usize()]);
                    proof {
                        assert(grid[row * 8 + col] == cells@[row * 8 + col]@);
                        assert(lead + row_cells(grid, row as int, col as int) + cells@[row * 8
                            + col]@ =~= lead + row_cells(grid, row as int, col + 1));
                    }
                },
                None => {},
            }
            col += 1;
        }
        string.append("\n");
        proof {
            assert(string@ =~= grid_head(raw) + grid_rows(grid, drawn + 1)) by {
                assert(lead == start + "   "@ + row_head(row as int) + " | "@);
            }
        }
        drawn += 1;
    }
    string.append("       - - - - - - - -\n");
    string.append("       A B C D E F G H\n\n============================\n");
    string
}

} // verus!
