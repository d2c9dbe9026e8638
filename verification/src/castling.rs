//! The four castling rights as a set of flags.
use vstd::prelude::*;

verus! {

pub const NONE: u8 = 0b0000;

pub const WHITE_SHORT_CASTLE: u8 = 0b0001;

pub const WHITE_LONG_CASTLE: u8 = 0b0010;

pub const BLACK_SHORT_CASTLE: u8 = 0b0100;

pub const BLACK_LONG_CASTLE: u8 = 0b1000;

pub const WHITE_CASTLE: u8 = 0b0011;

pub const BLACK_CASTLE: u8 = 0b1100;

pub const ALL: u8 = 0b1111;

/// A subset of the four castling rights.
#[derive(Debug, Clone, Copy, PartialEq, Eq, Structural)]
pub struct CastlingRights {
    pub bits: u8,
}

/// Whether every right of `rights` is among `bits`.
pub open spec fn includes(bits: u8, rights: u8) -> bool {
    bits & rights == rights
}

/// `bits` without the rights of `rights`.
pub open spec fn without(bits: u8, rights: u8) -> u8 {
    bits & !rights
}

/// What removing rights leaves: the rights that were there and are not removed.
pub proof fn lemma_without(bits: u8, removed: u8, right: u8)
    requires
        right == WHITE_SHORT_CASTLE || right == WHITE_LONG_CASTLE || right == BLACK_SHORT_CASTLE
            || right == BLACK_LONG_CASTLE,
    ensures
        includes(without(bits, removed), right) == (includes(bits, right) && !includes(
            removed,
            right,
        )),
        bits < 16 ==> without(bits, removed) < 16,
        without(bits, 0) == bits,
        includes(bits, WHITE_CASTLE) == (includes(bits, WHITE_SHORT_CASTLE) && includes(
            bits,
            WHITE_LONG_CASTLE,
        )),
        includes(bits, BLACK_CASTLE) == (includes(bits, BLACK_SHORT_CASTLE) && includes(
            bits,
            BLACK_LONG_CASTLE,
        )),
{
    assert((right == 1 || right == 2 || right == 4 || right == 8) ==> (((bits & !removed) & right
        == right) == ((bits & right == right) && !(removed & right == right))) && (bits < 16
        ==> (bits & !removed) < 16) && (bits & !0u8) == bits && ((bits & 3 == 3) == ((bits & 1 == 1)
        && (bits & 2 == 2))) && ((bits & 12 == 12) == ((bits & 4 == 4) && (bits & 8 == 8))))
        by (bit_vector);
}

/// What adding rights gives: the rights that were there and those added.
pub proof fn lemma_with(bits: u8, added: u8, right: u8)
    requires
        right == WHITE_SHORT_CASTLE || right == WHITE_LONG_CASTLE || right == BLACK_SHORT_CASTLE
            || right == BLACK_LONG_CASTLE,
    ensures
        includes(bits | added, right) == (includes(bits, right) || includes(added, right)),
        bits < 16 && added < 16 ==> (bits | added) < 16,
        bits | 0 == bits,
        !includes(0, right),
{
    assert((right == 1 || right == 2 || right == 4 || right == 8) ==> (((bits | added) & right
        == right) == ((bits & right == right) || (added & right == right))) && (bits < 16 && added
        < 16 ==> (bits | added) < 16) && (bits | 0u8) == bits && !(0u8 & right == right))
        by (bit_vector);
}

impl CastlingRights {
    /// Only the four rights occur.
    pub open spec fn wf(self) -> bool {
        self.bits < 16
    }

    /// Whether the set holds every right of `other`.
    pub open spec fn has_all(self, other: CastlingRights) -> bool {
        includes(self.bits, other.bits)
    }

    /// The flags as an integer.
    pub fn bits(&self) -> (r: u8)
        ensures
            r == self.bits,
    {
        self.bits
    }

    /// Whether the set holds every right of `other`.
    pub fn contains(&self, other: CastlingRights) -> (r: bool)
        ensures
            r == self.has_all(other),
    {
        self.bits & other.bits == other.bits
    }

    /// Adds the rights of `other`.
    pub fn insert(&mut self, other: CastlingRights)
        ensures
            final(self).bits == old(self).bits | other.bits,
    {
        self.bits = self.bits | other.bits;
    }

    /// Takes away the rights of `other`.
    pub fn remove(&mut self, other: CastlingRights)
        ensures
            final(self).bits == without(old(self).bits, other.bits),
    {
        self.bits = self.bits & !other.bits;
    }
}

} // verus!
