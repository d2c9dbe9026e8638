//! A set of squares packed into 64 bits: bit `i` is set when square `i` is a member.
use crate::bits::{
    bit, count_below, count_bits, drop_lowest, holds, lemma_count_bound, lemma_holds_bit,
    lemma_holds_connectives, lemma_lowest, lowest, only_lowest,
};
use crate::masks::{EDGES, FILE_A, FILE_H, RANK_1, RANK_8};
use crate::square::Square;
use crate::utils::{cell_texts, grid_text, grid_to_string};
use vstd::prelude::*;
use vstd::std_specs::bits::*;

verus! {

/// A set of squares; bit `i` stands for square `i`.
#[derive(Debug, PartialEq, Eq, Clone, Copy, Structural)]
pub struct BitBoard(pub u64);

impl View for BitBoard {
    type V = Set<int>;

    /// The squares that are members.
    open spec fn view(&self) -> Set<int> {
        Set::new(|i: int| holds(self.0, i))
    }
}

impl BitBoard {
    /// Whether square `sq` is a member.
    pub open spec fn contains(self, sq: int) -> bool {
        holds(self.0, sq)
    }

    /// The set holding `square` alone.
    pub fn new(square: Square) -> (r: BitBoard)
        requires
            square.wf(),
        ensures
            r.0 == bit(square.0 as int),
            forall|i: int| 0 <= i < 64 ==> r.contains(i) == (i == square.0),
    {
        proof {
            assert forall|i: int| 0 <= i < 64 implies holds(bit(square.0 as int), i) == (i
                == square.0) by {
                lemma_holds_bit(square.0 as int, i);
            }
        }
        BitBoard(1u64 << square.to_usize())
    }

    /// The set of the squares listed.
    pub fn from_squares(squares: &[Square]) -> (r: BitBoard)
        requires
            forall|k: int| 0 <= k < squares@.len() ==> squares@[k].wf(),
        ensures
            forall|i: int|
                0 <= i < 64 ==> r.contains(i) == exists|k: int|
                    0 <= k < squares@.len() && squares@[k].0 == i,
    {
        let mut bb = BitBoard(0);
        let mut n: usize = 0;
        proof {
            assert forall|i: int| 0 <= i < 64 implies !bb.contains(i) by {
                lemma_holds_connectives(0, 0, i);
            }
        }
        while n < squares.len()
            invariant
                n <= squares@.len(),
                forall|k: int| 0 <= k < squares@.len() ==> squares@[k].wf(),
                forall|i: int|
                    0 <= i < 64 ==> bb.contains(i) == exists|k: int|
                        0 <= k < n && squares@[k].0 == i,
            decreases squares@.len() - n,
        {
            let one = BitBoard::new(squares[n]);
            let ghost before = bb;
            bb = BitBoard(bb.0 | one.0);
            proof {
                assert forall|i: int| 0 <= i < 64 implies bb.contains(i) == exists|k: int|
                    0 <= k < n + 1 && squares@[k].0 == i by {
                    lemma_holds_connectives(before.0, one.0, i);
                    if before.contains(i) {
                        let k = choose|k: int| 0 <= k < n && squares@[k].0 == i;
                        assert(0 <= k < n + 1 && squares@[k].0 == i);
                    }
                    if one.contains(i) {
                        assert(0 <= n < n + 1 && squares@[n as int].0 == i);
                    }
                }
            }
            n += 1;
        }
        bb
    }

    /// Whether the set holds no square.
    pub fn is_empty(&self) -> (r: bool)
        ensures
            r == (self.0 == 0),
    {
        self.0 == 0u64
    }

    /// Whether the set holds a square.
    pub fn is_not_empty(&self) -> (r: bool)
        ensures
            r == (self.0 != 0),
    {
        self.0 != 0u64
    }

    /// Whether `square` is a member.
    pub fn is_set(&self, square: Square) -> (r: bool)
        requires
            square.wf(),
        ensures
            r == self.contains(square.0 as int),
    {
        proof {
            let x = self.0 >> (square.0 as u64);
            assert(((x & 1) != 0) == ((x & 1) == 1)) by (bit_vector);
        }
        (self.0 >> square.to_usize()) & 1 != 0
    }

    /// The set without the squares on the rim of the board.
    pub fn pop_edges(self) -> (r: BitBoard)
        ensures
            r.0 == self.0 & !EDGES,
    {
        BitBoard(self.0 & !EDGES)
    }

    /// The set without the squares of the first and the eighth rank.
    pub fn pop_north_south_edges(self) -> (r: BitBoard)
        ensures
            r.0 == self.0 & !(RANK_1 | RANK_8),
    {
        BitBoard(self.0 & !(RANK_1 | RANK_8))
    }

    /// The set without the squares of the a-file and the h-file.
    pub fn pop_east_west_edges(self) -> (r: BitBoard)
        ensures
            r.0 == self.0 & !(FILE_A | FILE_H),
    {
        BitBoard(self.0 & !(FILE_A | FILE_H))
    }

    /// The set without its lowest square; the empty set stays empty.
    pub fn pop_lsb(&self) -> (r: BitBoard)
        ensures
            r.0 == drop_lowest(self.0),
            self.0 == 0 ==> r.0 == 0,
            self.0 != 0 ==> r@ == self@.remove(lowest(self.0)),
    {
        proof {
            if self.0 != 0 {
                lemma_lowest(self.0);
                assert(BitBoard(drop_lowest(self.0))@ =~= self@.remove(lowest(self.0)));
            } else {
                assert(0u64 & 0u64.wrapping_sub(1) == 0) by {
                    let m = 0u64.wrapping_sub(1);
                    assert(0u64 & m == 0) by (bit_vector);
                }
            }
        }
        BitBoard(self.0 & self.0.wrapping_sub(1))
    }

    /// The set holding the lowest square alone; empty for the empty set.
    pub fn lsb(&self) -> (r: BitBoard)
        ensures
            r.0 == only_lowest(self.0),
            self.0 == 0 ==> r.0 == 0,
            self.0 != 0 ==> r.0 == bit(lowest(self.0)) && self.contains(lowest(self.0)),
    {
        proof {
            if self.0 != 0 {
                lemma_lowest(self.0);
            } else {
                let m = (!0u64).wrapping_add(1);
                assert(0u64 & m == 0) by (bit_vector);
            }
        }
        BitBoard(self.0 & (!self.0).wrapping_add(1))
    }

    /// The index of the lowest square; 64 for the empty set.
    pub fn bit_scan(&self) -> (r: u8)
        ensures
            r == lowest(self.0),
            r <= 64,
            r == 64 <==> self.0 == 0,
            self.0 != 0 ==> self.contains(r as int) && forall|i: int|
                0 <= i < r ==> !self.contains(i),
    {
        proof {
            axiom_u64_trailing_zeros(self.0);
            if self.0 != 0 {
                lemma_lowest(self.0);
            }
        }
        self.0.trailing_zeros() as u8
    }

    /// The number of squares in the set.
    pub fn pop_count(&self) -> (r: u8)
        ensures
            r == count_bits(self.0),
            r == self@.len(),
            r <= 64,
    {
        proof {
            lemma_count_bound(self.0, 64);
            lemma_count_is_size(*self);
        }
        self.0.count_ones() as u8
    }

    /// The set as a word.
    pub fn to_u64(self) -> (r: u64)
        ensures
            r == self.0,
    {
        self.0
    }

    /// The set as a machine word, cut to its width.
    pub fn to_usize(self) -> (r: usize)
        ensures
            r == self.0 as usize,
    {
        self.0 as usize
    }

    /// The cell that draws square `s`: a hash for a member, a dot for any other square.
    pub open spec fn cell(self, s: int) -> Seq<char> {
        if self.contains(s) {
            "# "@
        } else {
            ". "@
        }
    }

    /// The set drawn as a grid under its word in hexadecimal.
    pub fn as_string(&self) -> (r: String)
        ensures
            r@ == grid_text(Seq::new(64, |s: int| self.cell(s)), Some(self.0)),
    {
        let mut cells: Vec<&'static str> = Vec::with_capacity(64);
        let mut index: u8 = 0;
        while index < 64
            invariant
                index <= 64,
                cells@.len() == index,
                forall|s: int| 0 <= s < index ==> (#[trigger] cells@[s])@ == self.cell(s),
            decreases 64 - index,
        {
            cells.push(
                if self.is_set(Square(index)) {
                    "# "
                } else {
                    ". "
                },
            );
            index += 1;
        }
        proof {
            assert(cell_texts(cells@) =~= Seq::new(64, |s: int| self.cell(s)));
        }
        grid_to_string(&cells, Some(self.0))
    }
}

/// The connectives of words are the operations of sets: union, intersection, symmetric
/// difference and complement within the board.
pub proof fn lemma_view_algebra(a: BitBoard, b: BitBoard)
    ensures
        BitBoard(a.0 | b.0)@ == a@.union(b@),
        BitBoard(a.0 & b.0)@ == a@.intersect(b@),
        BitBoard(a.0 ^ b.0)@ == a@.difference(b@).union(b@.difference(a@)),
        BitBoard(!a.0)@ == Set::new(|i: int| 0 <= i < 64).difference(a@),
        BitBoard(0)@ == Set::<int>::empty(),
{
    assert forall|i: int|
        BitBoard(a.0 | b.0)@.contains(i) == (a@.contains(i) || b@.contains(i)) && BitBoard(
            a.0 & b.0,
        )@.contains(i) == (a@.contains(i) && b@.contains(i)) && BitBoard(a.0 ^ b.0)@.contains(i)
            == (a@.contains(i) != b@.contains(i)) && BitBoard(!a.0)@.contains(i) == (0 <= i < 64
            && !a@.contains(i)) && !BitBoard(0)@.contains(i) by {
        if 0 <= i < 64 {
            lemma_holds_connectives(a.0, b.0, i);
        }
    }
    assert(BitBoard(a.0 | b.0)@ =~= a@.union(b@));
    assert(BitBoard(a.0 & b.0)@ =~= a@.intersect(b@));
    assert(BitBoard(a.0 ^ b.0)@ =~= a@.difference(b@).union(b@.difference(a@)));
    assert(BitBoard(!a.0)@ =~= Set::new(|i: int| 0 <= i < 64).difference(a@));
    assert forall|i: int| !(#[trigger] BitBoard(0)@.contains(i)) by {
        if 0 <= i < 64 {
            lemma_holds_connectives(0, 0, i);
        }
    }
    assert(BitBoard(0)@ =~= Set::<int>::empty());
}

/// The members of a set among the squares below `n`.
pub open spec fn members_below(a: BitBoard, n: int) -> Set<int> {
    Set::new(|i: int| 0 <= i < n && holds(a.0, i))
}

/// The squares below `n` that a set holds are finitely many, as many as bits are set.
pub proof fn lemma_members_below(a: BitBoard, n: int)
    requires
        0 <= n <= 64,
    ensures
        members_below(a, n).finite(),
        members_below(a, n).len() == count_below(a.0, n),
    decreases n,
{
    if n == 0 {
        assert(members_below(a, 0) =~= Set::<int>::empty());
    } else {
        lemma_members_below(a, n - 1);
        if holds(a.0, n - 1) {
            assert(members_below(a, n) =~= members_below(a, n - 1).insert(n - 1));
        } else {
            assert(members_below(a, n) =~= members_below(a, n - 1));
        }
    }
}

/// The population count of a set is the number of its members.
pub proof fn lemma_count_is_size(a: BitBoard)
    ensures
        a@.finite(),
        a@.len() == count_bits(a.0),
{
    lemma_members_below(a, 64);
    assert(a@ =~= members_below(a, 64));
}

impl core::ops::Shl<usize> for BitBoard {
    type Output = BitBoard;

    /// Every square moved up by `rhs` indices; squares pushed past h8 are lost.
    fn shl(self, rhs: usize) -> (r: BitBoard) {
        BitBoard(self.0 << rhs)
    }
}

impl vstd::std_specs::ops::ShlSpecImpl<usize> for BitBoard {
    open spec fn obeys_shl_spec() -> bool {
        true
    }

    open spec fn shl_req(self, rhs: usize) -> bool {
        rhs < 64
    }

    open spec fn shl_spec(self, rhs: usize) -> BitBoard {
        BitBoard(self.0 << rhs)
    }
}

impl core::ops::Shr<usize> for BitBoard {
    type Output = BitBoard;

    /// Every square moved down by `rhs` indices; squares pushed past a1 are lost.
    fn shr(self, rhs: usize) -> (r: BitBoard) {
        BitBoard(self.0 >> rhs)
    }
}

impl vstd::std_specs::ops::ShrSpecImpl<usize> for BitBoard {
    open spec fn obeys_shr_spec() -> bool {
        true
    }

    open spec fn shr_req(self, rhs: usize) -> bool {
        rhs < 64
    }

    open spec fn shr_spec(self, rhs: usize) -> BitBoard {
        BitBoard(self.0 >> rhs)
    }
}

impl core::ops::Shl<u8> for BitBoard {
    type Output = BitBoard;

    /// Every square moved up by `rhs` indices; squares pushed past h8 are lost.
    fn shl(self, rhs: u8) -> (r: BitBoard) {
        BitBoard(self.0 << rhs)
    }
}

impl vstd::std_specs::ops::ShlSpecImpl<u8> for BitBoard {
    open spec fn obeys_shl_spec() -> bool {
        true
    }

    open spec fn shl_req(self, rhs: u8) -> bool {
        rhs < 64
    }

    open spec fn shl_spec(self, rhs: u8) -> BitBoard {
        BitBoard(self.0 << rhs)
    }
}

impl core::ops::Shr<u8> for BitBoard {
    type Output = BitBoard;

    /// Every square moved down by `rhs` indices; squares pushed past a1 are lost.
    fn shr(self, rhs: u8) -> (r: BitBoard) {
        BitBoard(self.0 >> rhs)
    }
}

impl vstd::std_specs::ops::ShrSpecImpl<u8> for BitBoard {
    open spec fn obeys_shr_spec() -> bool {
        true
    }

    open spec fn shr_req(self, rhs: u8) -> bool {
        rhs < 64
    }

    open spec fn shr_spec(self, rhs: u8) -> BitBoard {
        BitBoard(self.0 >> rhs)
    }
}

impl core::ops::Not for BitBoard {
    type Output = BitBoard;

    /// The complement.
    fn not(self) -> (r: BitBoard) {
        BitBoard(!self.0)
    }
}

impl vstd::std_specs::ops::NotSpecImpl for BitBoard {
    open spec fn obeys_not_spec() -> bool {
        true
    }

    open spec fn not_req(self) -> bool {
        true
    }

    open spec fn not_spec(self) -> BitBoard {
        BitBoard(!self.0)
    }
}

impl core::ops::BitAnd for BitBoard {
    type Output = BitBoard;

    /// The intersection.
    fn bitand(self, rhs: BitBoard) -> (r: BitBoard) {
        BitBoard(self.0 & rhs.0)
    }
}

impl vstd::std_specs::ops::BitAndSpecImpl for BitBoard {
    open spec fn obeys_bitand_spec() -> bool {
        true
    }

    open spec fn bitand_req(self, rhs: BitBoard) -> bool {
        true
    }

    open spec fn bitand_spec(self, rhs: BitBoard) -> BitBoard {
        BitBoard(self.0 & rhs.0)
    }
}

impl core::ops::BitOr for BitBoard {
    type Output = BitBoard;

    /// The union.
    fn bitor(self, rhs: BitBoard) -> (r: BitBoard) {
        BitBoard(self.0 | rhs.0)
    }
}

impl vstd::std_specs::ops::BitOrSpecImpl for BitBoard {
    open spec fn obeys_bitor_spec() -> bool {
        true
    }

    open spec fn bitor_req(self, rhs: BitBoard) -> bool {
        true
    }

    open spec fn bitor_spec(self, rhs: BitBoard) -> BitBoard {
        BitBoard(self.0 | rhs.0)
    }
}

impl core::ops::BitXor for BitBoard {
    type Output = BitBoard;

    /// The symmetric difference.
    fn bitxor(self, rhs: BitBoard) -> (r: BitBoard) {
        BitBoard(self.0 ^ rhs.0)
    }
}

impl vstd::std_specs::ops::BitXorSpecImpl for BitBoard {
    open spec fn obeys_bitxor_spec() -> bool {
        true
    }

    open spec fn bitxor_req(self, rhs: BitBoard) -> bool {
        true
    }

    open spec fn bitxor_spec(self, rhs: BitBoard) -> BitBoard {
        BitBoard(self.0 ^ rhs.0)
    }
}

impl core::ops::Sub for BitBoard {
    type Output = BitBoard;

    /// The difference of the two words, wrapping at 64 bits.
    fn sub(self, rhs: BitBoard) -> (r: BitBoard) {
        BitBoard(self.0.wrapping_sub(rhs.0))
    }
}

impl vstd::std_specs::ops::SubSpecImpl for BitBoard {
    open spec fn obeys_sub_spec() -> bool {
        true
    }

    open spec fn sub_req(self, rhs: BitBoard) -> bool {
        true
    }

    open spec fn sub_spec(self, rhs: BitBoard) -> BitBoard {
        BitBoard(self.0.wrapping_sub(rhs.0))
    }
}

impl core::ops::Add for BitBoard {
    type Output = BitBoard;

    /// The sum of the two words, wrapping at 64 bits.
    fn add(self, rhs: BitBoard) -> (r: BitBoard) {
        BitBoard(self.0.wrapping_add(rhs.0))
    }
}

impl vstd::std_specs::ops::AddSpecImpl for BitBoard {
    open spec fn obeys_add_spec() -> bool {
        true
    }

    open spec fn add_req(self, rhs: BitBoard) -> bool {
        true
    }

    open spec fn add_spec(self, rhs: BitBoard) -> BitBoard {
        BitBoard(self.0.wrapping_add(rhs.0))
    }
}

impl core::ops::Mul for BitBoard {
    type Output = BitBoard;

    /// The product of the two words, wrapping at 64 bits.
    fn mul(self, rhs: BitBoard) -> (r: BitBoard) {
        BitBoard(self.0.wrapping_mul(rhs.0))
    }
}

impl vstd::std_specs::ops::MulSpecImpl for BitBoard {
    open spec fn obeys_mul_spec() -> bool {
        true
    }

    open spec fn mul_req(self, rhs: BitBoard) -> bool {
        true
    }

    open spec fn mul_spec(self, rhs: BitBoard) -> BitBoard {
        BitBoard(self.0.wrapping_mul(rhs.0))
    }
}

impl core::ops::Neg for BitBoard {
    type Output = BitBoard;

    /// The two's complement of the word.
    fn neg(self) -> (r: BitBoard) {
        BitBoard((!self.0).wrapping_add(1))
    }
}

impl vstd::std_specs::ops::NegSpecImpl for BitBoard {
    open spec fn obeys_neg_spec() -> bool {
        true
    }

    open spec fn neg_req(self) -> bool {
        true
    }

    open spec fn neg_spec(self) -> BitBoard {
        BitBoard((!self.0).wrapping_add(1))
    }
}

impl core::ops::BitAndAssign for BitBoard {
    fn bitand_assign(&mut self, rhs: BitBoard)
        ensures
            final(self).0 == old(self).0 & rhs.0,
    {
        self.0 = self.0 & rhs.0;
    }
}

impl core::ops::BitOrAssign for BitBoard {
    fn bitor_assign(&mut self, rhs: BitBoard)
        ensures
            final(self).0 == old(self).0 | rhs.0,
    {
        self.0 = self.0 | rhs.0;
    }
}

impl core::ops::BitXorAssign for BitBoard {
    fn bitxor_assign(&mut self, rhs: BitBoard)
        ensures
            final(self).0 == old(self).0 ^ rhs.0,
    {
        self.0 = self.0 ^ rhs.0;
    }
}

} // verus!
