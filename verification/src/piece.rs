//! Colours and piece kinds, encoded as small integers that index the board's tables.
use vstd::prelude::*;

verus! {

pub const WHITE: u8 = 0;

pub const BLACK: u8 = 1;

pub const WP: u8 = 0;

pub const WN: u8 = 1;

pub const WB: u8 = 2;

pub const WR: u8 = 3;

pub const WQ: u8 = 4;

pub const WK: u8 = 5;

pub const BP: u8 = 6;

pub const BN: u8 = 7;

pub const BB: u8 = 8;

pub const BR: u8 = 9;

pub const BQ: u8 = 10;

pub const BK: u8 = 11;

/// The mark of a square that holds no piece.
pub const EMPTY: u8 = 255;

/// A side: `WHITE` is 0 and `BLACK` is 1.
#[derive(Debug, Clone, Copy, PartialEq, Eq, Structural)]
pub struct Color(pub u8);

impl Color {
    /// One of the two sides.
    pub open spec fn wf(self) -> bool {
        self.0 == WHITE || self.0 == BLACK
    }

    /// The other side; anything that is not white counts as black.
    pub open spec fn other(self) -> Color {
        if self.0 == WHITE {
            Color(BLACK)
        } else {
            Color(WHITE)
        }
    }

    /// The number of the side.
    pub fn to_u8(self) -> (r: u8)
        ensures
            r == self.0,
    {
        self.0
    }

    /// The number of the side, as an index.
    pub fn to_usize(self) -> (r: usize)
        ensures
            r == self.0,
    {
        self.0 as usize
    }

    /// The opponent of this side.
    pub fn enemy(self) -> (r: Color)
        ensures
            r == self.other(),
            r.wf(),
    {
        if self.0 == 0 {
            Color(BLACK)
        } else {
            Color(WHITE)
        }
    }

    /// The English name of the side.
    pub fn as_string(&self) -> (r: &'static str)
        ensures
            self.0 == WHITE ==> r@ == "White"@,
            self.0 == BLACK ==> r@ == "Black"@,
            !self.wf() ==> r@ == "Invalid Color"@,
    {
        match self.0 {
            0 => "White",
            1 => "Black",
            _ => "Invalid Color",
        }
    }
}

/// A piece kind with its colour, or the mark of an empty square.
#[derive(Debug, Clone, Copy, PartialEq, Eq, Structural)]
pub struct Piece(pub u8);

/// The English name of each piece.
pub open spec fn piece_name(p: Piece) -> Seq<char> {
    if p.0 == WP {
        "White Pawn"@
    } else if p.0 == WN {
        "White Knight"@
    } else if p.0 == WB {
        "White Bishop"@
    } else if p.0 == WR {
        "White Rook"@
    } else if p.0 == WQ {
        "White Queen"@
    } else if p.0 == WK {
        "White King"@
    } else if p.0 == BP {
        "Black Pawn"@
    } else if p.0 == BN {
        "Black Knight"@
    } else if p.0 == BB {
        "Black Bishop"@
    } else if p.0 == BR {
        "Black Rook"@
    } else if p.0 == BQ {
        "Black Queen"@
    } else if p.0 == BK {
        "Black King"@
    } else {
        "Empty Sqaure"@
    }
}

impl Piece {
    /// One of the twelve pieces, not the empty mark.
    pub open spec fn is_piece(self) -> bool {
        self.0 < 12
    }

    /// One of the twelve pieces or the empty mark.
    pub open spec fn wf(self) -> bool {
        self.0 < 12 || self.0 == EMPTY
    }

    /// The side of a piece; whatever is not a white piece counts as black.
    pub open spec fn side(self) -> Color {
        if self.0 <= WK {
            Color(WHITE)
        } else {
            Color(BLACK)
        }
    }

    /// Whether this is one of the six pieces of `c`.
    pub open spec fn is_of(self, c: Color) -> bool {
        self.is_piece() && self.side() == c
    }

    /// The number of the piece.
    pub fn to_u8(self) -> (r: u8)
        ensures
            r == self.0,
    {
        self.0
    }

    /// The number of the piece, as an index.
    pub fn to_usize(self) -> (r: usize)
        ensures
            r == self.0,
    {
        self.0 as usize
    }

    /// The side the piece belongs to.
    pub fn color(self) -> (r: Color)
        ensures
            r == self.side(),
            r.wf(),
    {
        if self.0 <= 5 {
            Color(WHITE)
        } else {
            Color(BLACK)
        }
    }

    /// The English name of the piece.
    pub fn as_string(&self) -> (r: &'static str)
        ensures
            r@ == piece_name(*self),
    {
        match self.0 {
            0 => "White Pawn",
            1 => "White Knight",
            2 => "White Bishop",
            3 => "White Rook",
            4 => "White Queen",
            5 => "White King",
            6 => "Black Pawn",
            7 => "Black Knight",
            8 => "Black Bishop",
            9 => "Black Rook",
            10 => "Black Queen",
            11 => "Black King",
            _ => "Empty Sqaure",
        }
    }
}

} // verus!
