//! Squares of the board, numbered `rank * 8 + file` with a1 = 0 and h8 = 63.
use vstd::prelude::*;
use vstd::string::*;

verus! {

/// A square index; the squares of the board are `0..64`.
#[derive(Debug, PartialEq, Eq, Clone, Copy, Structural)]
pub struct Square(pub u8);

/// One of the eight compass directions a piece can step in.
#[derive(Debug, PartialEq, Eq, Clone, Copy, Structural)]
pub enum Direction {
    North,
    NorthEast,
    East,
    SouthEast,
    South,
    SouthWest,
    West,
    NorthWest,
}

impl Direction {
    /// File change of one step.
    pub open spec fn df(self) -> int {
        match self {
            Direction::NorthEast | Direction::East | Direction::SouthEast => 1,
            Direction::SouthWest | Direction::West | Direction::NorthWest => -1,
            _ => 0,
        }
    }

    /// Rank change of one step.
    pub open spec fn dr(self) -> int {
        match self {
            Direction::NorthWest | Direction::North | Direction::NorthEast => 1,
            Direction::SouthWest | Direction::South | Direction::SouthEast => -1,
            _ => 0,
        }
    }
}

/// The letter of file `f` (`0` is the a-file).
pub open spec fn file_letter(f: int) -> char {
    (97 + f) as char
}

/// The digit of rank `r` (`0` is the first rank).
pub open spec fn rank_digit(r: int) -> char {
    (49 + r) as char
}

/// The two-character algebraic name of a square on the board.
pub open spec fn square_name(sq: Square) -> Seq<char> {
    seq![file_letter(sq.file_ix()), rank_digit(sq.rank_ix())]
}

/// The square that a two-character algebraic name denotes, if it denotes one.
pub open spec fn parse_square(s: Seq<char>) -> Option<Square> {
    if s.len() == 2 && 97 <= s[0] as int <= 104 && 49 <= s[1] as int <= 56 {
        Some(Square(((s[1] as int - 49) * 8 + (s[0] as int - 97)) as u8))
    } else {
        None
    }
}

impl Square {
    /// The square lies on the board.
    pub open spec fn wf(self) -> bool {
        self.0 < 64
    }

    /// File of the square, `0..8`.
    pub open spec fn file_ix(self) -> int {
        self.0 as int % 8
    }

    /// Rank of the square, `0..8`.
    pub open spec fn rank_ix(self) -> int {
        self.0 as int / 8
    }

    /// The square `df` files and `dr` ranks away, if that is still on the board.
    pub open spec fn offset(self, df: int, dr: int) -> Option<Square> {
        if 0 <= self.file_ix() + df < 8 && 0 <= self.rank_ix() + dr < 8 {
            Some(Square((self.0 + dr * 8 + df) as u8))
        } else {
            None
        }
    }

    /// The neighbour one step in direction `d`, if there is one.
    pub open spec fn step(self, d: Direction) -> Option<Square> {
        self.offset(d.df(), d.dr())
    }

    /// The square at `file`, `rank`, if both lie in `0..8`.
    pub fn from(file: i8, rank: i8) -> (r: Option<Square>)
        ensures
            r == if 0 <= file <= 7 && 0 <= rank <= 7 {
                Some(Square((rank * 8 + file) as u8))
            } else {
                None
            },
            r is Some ==> r->0.wf() && r->0.file_ix() == file && r->0.rank_ix() == rank,
    {
        if 0 <= rank && rank <= 7 && 0 <= file && file <= 7 {
            Some(Square((rank * 8 + file) as u8))
        } else {
            None
        }
    }

    /// The square a name such as `e4` denotes; `None` for any other text.
    pub fn from_string(s: &str) -> (r: Option<Square>)
        ensures
            r == parse_square(s@),
            r is Some ==> r->0.wf() && square_name(r->0) == s@,
    {
        if s.unicode_len() != 2 {
            return None;
        }
        let f = s.get_char(0);
        let k = s.get_char(1);
        if 'a' <= f && f <= 'h' && '1' <= k && k <= '8' {
            let sq = Square((k as u8 - 49) * 8 + (f as u8 - 97));
            assert(square_name(sq) =~= s@);
            Some(sq)
        } else {
            None
        }
    }

    /// The file of the square, 0 for the a-file.
    pub fn file(&self) -> (r: u8)
        ensures
            r == self.file_ix(),
    {
        self.0 % 8
    }

    /// The rank of the square, 0 for the first rank.
    pub fn rank(&self) -> (r: u8)
        ensures
            r == self.rank_ix(),
    {
        self.0 / 8
    }

    /// The index of the square.
    pub fn to_u8(self) -> (r: u8)
        ensures
            r == self.0,
    {
        self.0
    }

    /// The index of the square as a signed byte.
    pub fn to_i8(self) -> (r: i8)
        ensures
            r == self.0 as i8,
            self.0 <= 127 ==> r == self.0,
    {
        #[verifier::truncate]
        (self.0 as i8)
    }

    /// The index of the square, widened.
    pub fn to_u16(self) -> (r: u16)
        ensures
            r == self.0,
    {
        self.0 as u16
    }

    /// The index of the square, as an index.
    pub fn to_usize(self) -> (r: usize)
        ensures
            r == self.0,
    {
        self.0 as usize
    }

    /// The neighbour one step to the north, or `None` at the edge of the board.
    pub fn north(&self) -> (r: Option<Square>)
        requires
            self.wf(),
        ensures
            r == self.offset(0, 1),
    {
        if self.0 / 8 < 7 {
            Some(Square(self.0 + 8))
        } else {
            None
        }
    }

    /// The neighbour one step to the north-east, or `None` at the edge of the board.
    pub fn north_east(&self) -> (r: Option<Square>)
        requires
            self.wf(),
        ensures
            r == self.offset(1, 1),
    {
        if self.0 / 8 < 7 && self.0 % 8 < 7 {
            Some(Square(self.0 + 9))
        } else {
            None
        }
    }

    /// The neighbour one step to the east, or `None` at the edge of the board.
    pub fn east(&self) -> (r: Option<Square>)
        requires
            self.wf(),
        ensures
            r == self.offset(1, 0),
    {
        if self.0 % 8 < 7 {
            Some(Square(self.0 + 1))
        } else {
            None
        }
    }

    /// The neighbour one step to the south-east, or `None` at the edge of the board.
    pub fn south_east(&self) -> (r: Option<Square>)
        requires
            self.wf(),
        ensures
            r == self.offset(1, -1),
    {
        if self.0 / 8 > 0 && self.0 % 8 < 7 {
            Some(Square(self.0 - 7))
        } else {
            None
        }
    }

    /// The neighbour one step to the south, or `None` at the edge of the board.
    pub fn south(&self) -> (r: Option<Square>)
        requires
            self.wf(),
        ensures
            r == self.offset(0, -1),
    {
        if self.0 / 8 > 0 {
            Some(Square(self.0 - 8))
        } else {
            None
        }
    }

    /// The neighbour one step to the south-west, or `None` at the edge of the board.
    pub fn south_west(&self) -> (r: Option<Square>)
        requires
            self.wf(),
        ensures
            r == self.offset(-1, -1),
    {
        if self.0 / 8 > 0 && self.0 % 8 > 0 {
            Some(Square(self.0 - 9))
        } else {
            None
        }
    }

    /// The neighbour one step to the west, or `None` at the edge of the board.
    pub fn west(&self) -> (r: Option<Square>)
        requires
            self.wf(),
        ensures
            r == self.offset(-1, 0),
    {
        if self.0 % 8 > 0 {
            Some(Square(self.0 - 1))
        } else {
            None
        }
    }

    /// The neighbour one step to the north-west, or `None` at the edge of the board.
    pub fn north_west(&self) -> (r: Option<Square>)
        requires
            self.wf(),
        ensures
            r == self.offset(-1, 1),
    {
        if self.0 / 8 < 7 && self.0 % 8 > 0 {
            Some(Square(self.0 + 7))
        } else {
            None
        }
    }

    /// The algebraic name of a square on the board; any other index reads `Inavlid`.
    pub fn as_string(&self) -> (r: &'static str)
        ensures
            self.wf() ==> r@ == square_name(*self),
            !self.wf() ==> r@ == "Inavlid"@,
    {
        let r = match self.0 {
            0 => {
                proof {
                    reveal_strlit("a1");
                }
                "a1"
            },
            1 => {
                proof {
                    reveal_strlit("b1");
                }
                "b1"
            },
            2 => {
                proof {
                    reveal_strlit("c1");
                }
                "c1"
            },
            3 => {
                proof {
                    reveal_strlit("d1");
                }
                "d1"
            },
            4 => {
                proof {
                    reveal_strlit("e1");
                }
                "e1"
            },
            5 => {
                proof {
                    reveal_strlit("f1");
                }
                "f1"
            },
            6 => {
                proof {
                    reveal_strlit("g1");
                }
                "g1"
            },
            7 => {
                proof {
                    reveal_strlit("h1");
                }
                "h1"
            },
            8 => {
                proof {
                    reveal_strlit("a2");
                }
                "a2"
            },
            9 => {
                proof {
                    reveal_strlit("b2");
                }
                "b2"
            },
            10 => {
                proof {
                    reveal_strlit("c2");
                }
                "c2"
            },
            11 => {
                proof {
                    reveal_strlit("d2");
                }
                "d2"
            },
            12 => {
                proof {
                    reveal_strlit("e2");
                }
                "e2"
            },
            13 => {
                proof {
                    reveal_strlit("f2");
                }
                "f2"
            },
            14 => {
                proof {
                    reveal_strlit("g2");
                }
                "g2"
            },
            15 => {
                proof {
                    reveal_strlit("h2");
                }
                "h2"
            },
            16 => {
                proof {
                    reveal_strlit("a3");
                }
                "a3"
            },
            17 => {
                proof {
                    reveal_strlit("b3");
                }
                "b3"
            },
            18 => {
                proof {
                    reveal_strlit("c3");
                }
                "c3"
            },
            19 => {
                proof {
                    reveal_strlit("d3");
                }
                "d3"
            },
            20 => {
                proof {
                    reveal_strlit("e3");
                }
                "e3"
            },
            21 => {
                proof {
                    reveal_strlit("f3");
                }
                "f3"
            },
            22 => {
                proof {
                    reveal_strlit("g3");
                }
                "g3"
            },
            23 => {
                proof {
                    reveal_strlit("h3");
                }
                "h3"
            },
            24 => {
                proof {
                    reveal_strlit("a4");
                }
                "a4"
            },
            25 => {
                proof {
                    reveal_strlit("b4");
                }
                "b4"
            },
            26 => {
                proof {
                    reveal_strlit("c4");
                }
                "c4"
            },
            27 => {
                proof {
                    reveal_strlit("d4");
                }
                "d4"
            },
            28 => {
                proof {
                    reveal_strlit("e4");
                }
                "e4"
            },
            29 => {
                proof {
                    reveal_strlit("f4");
                }
                "f4"
            },
            30 => {
                proof {
                    reveal_strlit("g4");
                }
                "g4"
            },
            31 => {
                proof {
                    reveal_strlit("h4");
                }
                "h4"
            },
            32 => {
                proof {
                    reveal_strlit("a5");
                }
                "a5"
            },
            33 => {
                proof {
                    reveal_strlit("b5");
                }
                "b5"
            },
            34 => {
                proof {
                    reveal_strlit("c5");
                }
                "c5"
            },
            35 => {
                proof {
                    reveal_strlit("d5");
                }
                "d5"
            },
            36 => {
                proof {
                    reveal_strlit("e5");
                }
                "e5"
            },
            37 => {
                proof {
                    reveal_strlit("f5");
                }
                "f5"
            },
            38 => {
                proof {
                    reveal_strlit("g5");
                }
                "g5"
            },
            39 => {
                proof {
                    reveal_strlit("h5");
                }
                "h5"
            },
            40 => {
                proof {
                    reveal_strlit("a6");
                }
                "a6"
            },
            41 => {
                proof {
                    reveal_strlit("b6");
                }
                "b6"
            },
            42 => {
                proof {
                    reveal_strlit("c6");
                }
                "c6"
            },
            43 => {
                proof {
                    reveal_strlit("d6");
                }
                "d6"
            },
            44 => {
                proof {
                    reveal_strlit("e6");
                }
                "e6"
            },
            45 => {
                proof {
                    reveal_strlit("f6");
                }
                "f6"
            },
            46 => {
                proof {
                    reveal_strlit("g6");
                }
                "g6"
            },
            47 => {
                proof {
                    reveal_strlit("h6");
                }
                "h6"
            },
            48 => {
                proof {
                    reveal_strlit("a7");
                }
                "a7"
            },
            49 => {
                proof {
                    reveal_strlit("b7");
                }
                "b7"
            },
            50 => {
                proof {
                    reveal_strlit("c7");
                }
                "c7"
            },
            51 => {
                proof {
                    reveal_strlit("d7");
                }
                "d7"
            },
            52 => {
                proof {
                    reveal_strlit("e7");
                }
                "e7"
            },
            53 => {
                proof {
                    reveal_strlit("f7");
                }
                "f7"
            },
            54 => {
                proof {
                    reveal_strlit("g7");
                }
                "g7"
            },
            55 => {
                proof {
                    reveal_strlit("h7");
                }
                "h7"
            },
            56 => {
                proof {
                    reveal_strlit("a8");
                }
                "a8"
            },
            57 => {
                proof {
                    reveal_strlit("b8");
                }
                "b8"
            },
            58 => {
                proof {
                    reveal_strlit("c8");
                }
                "c8"
            },
            59 => {
                proof {
                    reveal_strlit("d8");
                }
                "d8"
            },
            60 => {
                proof {
                    reveal_strlit("e8");
                }
                "e8"
            },
            61 => {
                proof {
                    reveal_strlit("f8");
                }
                "f8"
            },
            62 => {
                proof {
                    reveal_strlit("g8");
                }
                "g8"
            },
            63 => {
                proof {
                    reveal_strlit("h8");
                }
                "h8"
            },
            _ => "Inavlid",
        };
        assert(self.wf() ==> r@ =~= square_name(*self));
        r
    }
}

/// Parsing the name of a square gives the square back.
pub proof fn lemma_square_name_round_trip(sq: Square)
    requires
        sq.wf(),
    ensures
        parse_square(square_name(sq)) == Some(sq),
{
}

pub const A1: u8 = 0;

pub const A2: u8 = 8;

pub const A3: u8 = 16;

pub const A4: u8 = 24;

pub const A5: u8 = 32;

pub const A6: u8 = 40;

pub const A7: u8 = 48;

pub const A8: u8 = 56;

pub const B1: u8 = 1;

pub const B2: u8 = 9;

pub const B3: u8 = 17;

pub const B4: u8 = 25;

pub const B5: u8 = 33;

pub const B6: u8 = 41;

pub const B7: u8 = 49;

pub const B8: u8 = 57;

pub const C1: u8 = 2;

pub const C2: u8 = 10;

pub const C3: u8 = 18;

pub const C4: u8 = 26;

pub const C5: u8 = 34;

pub const C6: u8 = 42;

pub const C7: u8 = 50;

pub const C8: u8 = 58;

pub const D1: u8 = 3;

pub const D2: u8 = 11;

pub const D3: u8 = 19;

pub const D4: u8 = 27;

pub const D5: u8 = 35;

pub const D6: u8 = 43;

pub const D7: u8 = 51;

pub const D8: u8 = 59;

pub const E1: u8 = 4;

pub const E2: u8 = 12;

pub const E3: u8 = 20;

pub const E4: u8 = 28;

pub const E5: u8 = 36;

pub const E6: u8 = 44;

pub const E7: u8 = 52;

pub const E8: u8 = 60;

pub const F1: u8 = 5;

pub const F2: u8 = 13;

pub const F3: u8 = 21;

pub const F4: u8 = 29;

pub const F5: u8 = 37;

pub const F6: u8 = 45;

pub const F7: u8 = 53;

pub const F8: u8 = 61;

pub const G1: u8 = 6;

pub const G2: u8 = 14;

pub const G3: u8 = 22;

pub const G4: u8 = 30;

pub const G5: u8 = 38;

pub const G6: u8 = 46;

pub const G7: u8 = 54;

pub const G8: u8 = 62;

pub const H1: u8 = 7;

pub const H2: u8 = 15;

pub const H3: u8 = 23;

pub const H4: u8 = 31;

pub const H5: u8 = 39;

pub const H6: u8 = 47;

pub const H7: u8 = 55;

pub const H8: u8 = 63;

} // verus!
