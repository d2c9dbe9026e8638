//! Attack sets of the rook, the bishop and the queen: the ray walk that defines them, and
//! the magic-indexed tables that answer queries.
use crate::bitboard::BitBoard;
use crate::bits::{
    bit, count_bits, drop_lowest, holds, lemma_bit_meets, lemma_count_bit, lemma_count_drop_lowest,
    lemma_count_meet, lemma_count_union, lemma_count_zero, lemma_holds_bit, lemma_holds_connectives,
    lemma_lowest, lemma_union, lemma_zero_holds_nothing, lowest, two_to,
};
use crate::bits::lemma_shift_is_power;
use crate::masks::{lemma_mask_squares, EDGES, FILE_A, FILE_H, RANK_1, RANK_8};
use crate::movegen::constants::{BISHOP_MAGIC_NUMBERS, ROOK_MAGICS_NUMBERS};
use crate::square::{Direction, Square};
use vstd::prelude::*;

verus! {

/// How many steps in direction `d` a walk from `sq` can take at most.
pub open spec fn room(sq: Square, d: Direction) -> int {
    match d {
        Direction::North | Direction::NorthEast | Direction::NorthWest => 7 - sq.rank_ix(),
        Direction::South | Direction::SouthEast | Direction::SouthWest => sq.rank_ix(),
        Direction::East => 7 - sq.file_ix(),
        Direction::West => sq.file_ix(),
    }
}

/// The squares a slider on `sq` attacks in direction `d` when the squares of `occ` are
/// occupied: each square of the ray up to and including the first occupied one.
pub open spec fn ray_attacks(sq: Square, occ: u64, d: Direction) -> u64
    decreases room(sq, d),
{
    match sq.step(d) {
        None => 0,
        Some(n) => if holds(occ, n.0 as int) {
            bit(n.0 as int)
        } else {
            bit(n.0 as int) | ray_attacks(n, occ, d)
        },
    }
}

/// The squares a rook on `sq` attacks.
pub open spec fn rook_attacks(sq: Square, occ: u64) -> u64 {
    0 | ray_attacks(sq, occ, Direction::North) | ray_attacks(sq, occ, Direction::East)
        | ray_attacks(sq, occ, Direction::South) | ray_attacks(sq, occ, Direction::West)
}

/// The squares a bishop on `sq` attacks.
pub open spec fn bishop_attacks(sq: Square, occ: u64) -> u64 {
    0 | ray_attacks(sq, occ, Direction::NorthEast) | ray_attacks(sq, occ, Direction::SouthEast)
        | ray_attacks(sq, occ, Direction::SouthWest) | ray_attacks(sq, occ, Direction::NorthWest)
}

/// The squares a rook or a bishop on `sq` attacks.
pub open spec fn slider_attacks(sq: Square, occ: u64, is_bishop: bool) -> u64 {
    if is_bishop {
        bishop_attacks(sq, occ)
    } else {
        rook_attacks(sq, occ)
    }
}

/// The squares whose occupation can change what a slider on `sq` attacks: its rays on the
/// empty board without the last square of each.
pub open spec fn relevant_mask(sq: Square, is_bishop: bool) -> u64 {
    if is_bishop {
        bishop_attacks(sq, 0) & !EDGES
    } else {
        ((ray_attacks(sq, 0, Direction::North) | ray_attacks(sq, 0, Direction::South)) & !(RANK_1
            | RANK_8)) | ((ray_attacks(sq, 0, Direction::East) | ray_attacks(
            sq,
            0,
            Direction::West,
        )) & !(FILE_A | FILE_H))
    }
}

/// The subset of `mask` numbered `index`: bit `k` of `index` decides whether the `k`-th
/// lowest square of `mask` is in it.
pub open spec fn scatter(mask: u64, index: nat) -> u64
    decreases mask,
    via scatter_decreases
{
    if mask == 0 {
        0
    } else {
        (if index % 2 == 1 {
            bit(lowest(mask))
        } else {
            0
        }) | scatter(drop_lowest(mask), index / 2)
    }
}

#[via_fn]
proof fn scatter_decreases(mask: u64, index: nat) {
    if mask != 0 {
        lemma_lowest(mask);
    }
}

/// The number of the subset of `mask` that `occ` occupies: the inverse of `scatter`.
pub open spec fn gather(mask: u64, occ: u64) -> nat
    decreases mask,
    via gather_decreases
{
    if mask == 0 {
        0
    } else {
        (if holds(occ, lowest(mask)) {
            1nat
        } else {
            0nat
        }) + 2 * gather(drop_lowest(mask), occ)
    }
}

#[via_fn]
proof fn gather_decreases(mask: u64, occ: u64) {
    if mask != 0 {
        lemma_lowest(mask);
    }
}

/// Every occupation of the squares of `mask` has a number below two to the size of `mask`,
/// and `scatter` gives it back from that number.
pub proof fn lemma_scatter_gather(mask: u64, occ: u64)
    ensures
        scatter(mask, gather(mask, occ)) == occ & mask,
        gather(mask, occ) < two_to(count_bits(mask)),
    decreases mask,
{
    if mask == 0 {
        assert(occ & 0 == 0) by (bit_vector);
        lemma_count_zero(0);
    } else {
        lemma_lowest(mask);
        lemma_count_drop_lowest(mask);
        let rest = drop_lowest(mask);
        lemma_scatter_gather(rest, occ);
        let l = lowest(mask) as u64;
        assert(l < 64 && (mask >> l) & 1 == 1 ==> occ & mask == (if (occ >> l) & 1 == 1 {
            1u64 << l
        } else {
            0u64
        }) | (occ & (mask & !(1u64 << l)))) by (bit_vector);
        let g = gather(rest, occ);
        let b = if holds(occ, lowest(mask)) {
            1nat
        } else {
            0nat
        };
        assert(gather(mask, occ) == b + 2 * g);
        assert((b + 2 * g) % 2 == b && (b + 2 * g) / 2 == g);
    }
}

/// The numbered subsets of `mask` lie within `mask`.
pub proof fn lemma_scatter_within(mask: u64, index: nat)
    ensures
        scatter(mask, index) & mask == scatter(mask, index),
    decreases mask,
{
    if mask == 0 {
        assert(0u64 & 0u64 == 0u64) by (bit_vector);
    } else {
        lemma_lowest(mask);
        let rest = drop_lowest(mask);
        lemma_scatter_within(rest, index / 2);
        let l = lowest(mask) as u64;
        let s = scatter(rest, index / 2);
        assert(l < 64 && (mask >> l) & 1 == 1 && s & (mask & !(1u64 << l)) == s ==> ((1u64 << l)
            | s) & mask == (1u64 << l) | s && (0u64 | s) & mask == 0u64 | s) by (bit_vector);
    }
}

/// The table slot of an occupation pattern under a multiplier: the top `shift` bits of
/// their wrapping product.
pub open spec fn hash_of(pattern: u64, magic: u64, shift: u8) -> u64 {
    pattern.wrapping_mul(magic) >> ((64 - shift) as u64)
}

/// The table slot of a full occupancy: that of its relevant part.
pub open spec fn magic_index(occ: u64, mask: u64, magic: u64, shift: u8) -> u64 {
    hash_of(occ & mask, magic, shift)
}

/// Whether `magic` is a perfect hash for a slider on `sq`: occupancies that share a table
/// slot give the same attack set.
pub open spec fn magic_fits(sq: Square, is_bishop: bool, magic: u64) -> bool {
    let mask = relevant_mask(sq, is_bishop);
    let shift = count_bits(mask) as u8;
    forall|a: u64, b: u64| #[trigger]
        magic_index(a, mask, magic, shift) == #[trigger] magic_index(b, mask, magic, shift)
            ==> slider_attacks(sq, a, is_bishop) == slider_attacks(sq, b, is_bishop)
}

/// The magic-indexed attack table of one slider on one square.
pub struct MagicAttackTable {
    pub relevant_occupancy_mask: BitBoard,
    pub shift: u8,
    pub magic: BitBoard,
    pub attacks: Vec<BitBoard>,
}

impl MagicAttackTable {
    /// The slot that answers for the occupancy `occ`.
    pub open spec fn index_of(&self, occ: u64) -> u64 {
        magic_index(occ, self.relevant_occupancy_mask.0, self.magic.0, self.shift)
    }

    /// Whether this is the table of the given slider on `sq`: for every occupancy the slot
    /// it hashes to holds what the ray walk finds.
    pub open spec fn answers(&self, sq: Square, is_bishop: bool) -> bool {
        &&& self.relevant_occupancy_mask.0 == relevant_mask(sq, is_bishop)
        &&& self.shift == count_bits(self.relevant_occupancy_mask.0)
        &&& 1 <= self.shift <= 28
        &&& self.attacks@.len() == two_to(self.shift as nat)
        &&& forall|occ: u64| #[trigger]
            self.index_of(occ) < self.attacks@.len() && self.attacks@[self.index_of(occ) as int].0
                == slider_attacks(sq, occ, is_bishop)
    }

    /// The multiplier of a table that answers for its square is a perfect hash for it.
    pub proof fn lemma_answers_fits(&self, sq: Square, is_bishop: bool)
        requires
            self.answers(sq, is_bishop),
        ensures
            magic_fits(sq, is_bishop, self.magic.0),
    {
        let mask = relevant_mask(sq, is_bishop);
        let shift = count_bits(mask) as u8;
        assert forall|a: u64, b: u64| #[trigger]
            magic_index(a, mask, self.magic.0, shift) == #[trigger] magic_index(
                b,
                mask,
                self.magic.0,
                shift,
            ) implies slider_attacks(sq, a, is_bishop) == slider_attacks(sq, b, is_bishop) by {
            assert(self.index_of(a) == self.index_of(b));
            assert(self.attacks@[self.index_of(a) as int].0 == slider_attacks(sq, a, is_bishop));
            assert(self.attacks@[self.index_of(b) as int].0 == slider_attacks(sq, b, is_bishop));
        }
    }

    /// A table without entries.
    pub fn new() -> (r: MagicAttackTable)
        ensures
            r.relevant_occupancy_mask.0 == 0,
            r.shift == 0,
            r.magic.0 == 0,
            r.attacks@.len() == 0,
    {
        MagicAttackTable {
            relevant_occupancy_mask: BitBoard(0),
            shift: 0,
            magic: BitBoard(0),
            attacks: Vec::new(),
        }
    }

    /// The slot that answers for the occupancy `occ`.
    pub fn generate_hash(&self, occ: BitBoard) -> (r: usize)
        requires
            1 <= self.shift <= 32,
        ensures
            r == self.index_of(occ.0),
    {
        let product = (occ.0 & self.relevant_occupancy_mask.0).wrapping_mul(self.magic.0);
        let up: u64 = (64 - self.shift) as u64;
        proof {
            assert(32 <= up < 64 ==> (product >> up) <= 0xffff_ffffu64) by (bit_vector);
        }
        BitBoard(product >> up).to_usize()
    }
}

/// The slots of a table with `shift` index bits are those below two to the `shift`.
proof fn lemma_hash_bound(pattern: u64, magic: u64, shift: u8)
    requires
        1 <= shift <= 28,
    ensures
        hash_of(pattern, magic, shift) < two_to(shift as nat),
        two_to(shift as nat) == 1u64 << (shift as u64),
        two_to(shift as nat) <= 0x1000_0000,
{
    let product = pattern.wrapping_mul(magic);
    let s = shift as u64;
    let up = (64 - shift) as u64;
    assert(1 <= s <= 28 && up == 64 - s ==> (product >> up) < (1u64 << s) && (1u64 << s)
        <= 0x1000_0000u64) by (bit_vector);
    lemma_shift_is_power(shift as nat);
}

/// The rooks', and the bishops', attack table for every square.
pub struct SliderTables {
    pub rook: Vec<MagicAttackTable>,
    pub bishop: Vec<MagicAttackTable>,
}

impl SliderTables {
    /// There is a table per square and slider, and each answers for its square.
    pub open spec fn wf(&self) -> bool {
        &&& self.rook@.len() == 64
        &&& self.bishop@.len() == 64
        &&& forall|i: int| 0 <= i < 64 ==> (#[trigger] self.rook@[i]).answers(Square(i as u8), false)
        &&& forall|i: int|
            0 <= i < 64 ==> (#[trigger] self.bishop@[i]).answers(Square(i as u8), true)
    }
}

/// The squares a rook on `sq` attacks when the squares of `occ` are occupied, the first
/// occupied square of each ray included whatever stands there.
pub fn get_rook_attacks(tables: &SliderTables, sq: Square, occ: BitBoard) -> (r: BitBoard)
    requires
        tables.wf(),
        sq.wf(),
    ensures
        r.0 == rook_attacks(sq, occ.0),
{
    let table = &tables.rook[sq.to_usize()];
    assert(table.answers(Square(sq.0 as int as u8), false));
    assert(table.index_of(occ.0) < table.attacks@.len());
    let hash = table.generate_hash(occ);
    table.attacks[hash]
}

/// The squares a bishop on `sq` attacks when the squares of `occ` are occupied, the first
/// occupied square of each ray included whatever stands there.
pub fn get_bishop_attacks(tables: &SliderTables, sq: Square, occ: BitBoard) -> (r: BitBoard)
    requires
        tables.wf(),
        sq.wf(),
    ensures
        r.0 == bishop_attacks(sq, occ.0),
{
    let table = &tables.bishop[sq.to_usize()];
    assert(table.answers(Square(sq.0 as int as u8), true));
    assert(table.index_of(occ.0) < table.attacks@.len());
    let hash = table.generate_hash(occ);
    table.attacks[hash]
}

/// The squares a queen on `sq` attacks: those of a rook and those of a bishop.
pub fn get_queen_attacks(tables: &SliderTables, sq: Square, occ: BitBoard) -> (r: BitBoard)
    requires
        tables.wf(),
        sq.wf(),
    ensures
        r.0 == rook_attacks(sq, occ.0) | bishop_attacks(sq, occ.0),
{
    BitBoard(get_rook_attacks(tables, sq, occ).0 | get_bishop_attacks(tables, sq, occ).0)
}

/// Builds the attack tables of both sliders for every square with the multipliers that
/// ship with the library; `None` if one of them is no perfect hash for its square.
pub fn init_magic() -> (r: Option<SliderTables>)
    ensures
        match r {
            Some(t) => t.wf() && forall|i: int|
                0 <= i < 64 ==> #[trigger] magic_fits(Square(i as u8), false, ROOK_MAGICS_NUMBERS[i])
                    && magic_fits(Square(i as u8), true, BISHOP_MAGIC_NUMBERS[i]),
            None => exists|i: int|
                0 <= i < 64 && (!magic_fits(Square(i as u8), false, ROOK_MAGICS_NUMBERS[i])
                    || !magic_fits(Square(i as u8), true, BISHOP_MAGIC_NUMBERS[i])),
        },
{
    let mut rook: Vec<MagicAttackTable> = Vec::with_capacity(64);
    let mut bishop: Vec<MagicAttackTable> = Vec::with_capacity(64);
    let mut index: u8 = 0;
    while index < 64
        invariant
            index <= 64,
            rook@.len() == index,
            bishop@.len() == index,
            forall|i: int| 0 <= i < index ==> (#[trigger] rook@[i]).answers(Square(i as u8), false),
            forall|i: int|
                0 <= i < index ==> (#[trigger] bishop@[i]).answers(Square(i as u8), true),
            forall|i: int|
                0 <= i < index ==> #[trigger] magic_fits(
                    Square(i as u8),
                    false,
                    ROOK_MAGICS_NUMBERS[i],
                ) && magic_fits(Square(i as u8), true, BISHOP_MAGIC_NUMBERS[i]),
        decreases 64 - index,
    {
        match init_attacks_table_for_square(Square(index), false) {
            Some(table) => rook.push(table),
            None => {
                assert(!magic_fits(
                    Square(index as int as u8),
                    false,
                    ROOK_MAGICS_NUMBERS[index as int],
                ));
                return None;
            },
        }
        match init_attacks_table_for_square(Square(index), true) {
            Some(table) => bishop.push(table),
            None => {
                assert(!magic_fits(
                    Square(index as int as u8),
                    true,
                    BISHOP_MAGIC_NUMBERS[index as int],
                ));
                return None;
            },
        }
        index += 1;
    }
    Some(SliderTables { rook, bishop })
}

/// The multiplier that ships for a slider on `sq`.
pub open spec fn shipped_magic(sq: Square, is_bishop: bool) -> u64 {
    if is_bishop {
        BISHOP_MAGIC_NUMBERS[sq.0 as int]
    } else {
        ROOK_MAGICS_NUMBERS[sq.0 as int]
    }
}

/// Builds the attack table of a slider on `sq` with the multiplier that ships for it.
pub fn init_attacks_table_for_square(sq: Square, is_bishop: bool) -> (r: Option<MagicAttackTable>)
    requires
        sq.wf(),
    ensures
        match r {
            Some(t) => t.answers(sq, is_bishop) && t.magic.0 == shipped_magic(sq, is_bishop)
                && magic_fits(sq, is_bishop, shipped_magic(sq, is_bishop)),
            None => !magic_fits(sq, is_bishop, shipped_magic(sq, is_bishop)),
        },
{
    let magic = if is_bishop {
        BitBoard(BISHOP_MAGIC_NUMBERS[sq.to_usize()])
    } else {
        BitBoard(ROOK_MAGICS_NUMBERS[sq.to_usize()])
    };
    build_attacks_table(sq, is_bishop, magic)
}

/// Builds the attack table of a slider on `sq` with the multiplier `magic`: every subset of
/// the relevant squares is hashed and its attack set stored in its slot. `None` when two
/// subsets with different attack sets share a slot.
pub fn build_attacks_table(sq: Square, is_bishop: bool, magic: BitBoard) -> (r: Option<
    MagicAttackTable,
>)
    requires
        sq.wf(),
    ensures
        match r {
            Some(t) => {
                &&& t.answers(sq, is_bishop)
                &&& t.magic == magic
                &&& magic_fits(sq, is_bishop, magic.0)
                &&& forall|slot: int|
                    0 <= slot < t.attacks@.len() && (#[trigger] t.attacks@[slot]).0 != 0
                        ==> exists|occ: u64| t.index_of(occ) == slot
            },
            None => !magic_fits(sq, is_bishop, magic.0),
        },
{
    let mask = generate_relevant_occupancy_mask_at_square(sq, is_bishop);
    proof {
        lemma_mask_size(sq, is_bishop);
    }
    let shift = mask.pop_count();
    let (patterns, attacks) = enumerate_occupancies(sq, is_bishop, mask, shift);
    match try_magic(&patterns, &attacks, magic, shift) {
        Some(table) => {
            let built = MagicAttackTable {
                relevant_occupancy_mask: mask,
                shift,
                magic,
                attacks: table,
            };
            proof {
                assert forall|occ: u64| #[trigger]
                    built.index_of(occ) < built.attacks@.len() && built.attacks@[built.index_of(
                        occ,
                    ) as int].0 == slider_attacks(sq, occ, is_bishop) by {
                    lemma_scatter_gather(mask.0, occ);
                    lemma_attacks_relevant(sq, occ, is_bishop);
                    lemma_hash_bound(occ & mask.0, magic.0, shift);
                    let i = gather(mask.0, occ) as int;
                    assert(patterns@[i].0 == occ & mask.0);
                    assert(table@[hash_of(patterns@[i].0, magic.0, shift) as int] == attacks@[i]);
                }
                built.lemma_answers_fits(sq, is_bishop);
                assert forall|slot: int|
                    0 <= slot < built.attacks@.len() && (#[trigger] built.attacks@[slot]).0
                        != 0 implies exists|occ: u64| built.index_of(occ) == slot by {
                    let i = choose|i: int|
                        0 <= i < patterns@.len() && hash_of(patterns@[i].0, magic.0, shift)
                            == slot;
                    lemma_scatter_within(mask.0, i as nat);
                    assert(built.index_of(patterns@[i].0) == slot);
                }
            }
            Some(built)
        },
        None => {
            proof {
                let (i, j) = choose|i: int, j: int|
                    0 <= i < patterns@.len() && 0 <= j < patterns@.len() && hash_of(
                        patterns@[i].0,
                        magic.0,
                        shift,
                    ) == hash_of(patterns@[j].0, magic.0, shift) && attacks@[i] != attacks@[j];
                lemma_scatter_within(mask.0, i as nat);
                lemma_scatter_within(mask.0, j as nat);
                let a = patterns@[i].0;
                let b = patterns@[j].0;
                assert(magic_index(a, mask.0, magic.0, shift) == magic_index(
                    b,
                    mask.0,
                    magic.0,
                    shift,
                ));
                assert(attacks@[i].0 == slider_attacks(sq, a, is_bishop));
                assert(attacks@[j].0 == slider_attacks(sq, b, is_bishop));
                assert(slider_attacks(sq, a, is_bishop) != slider_attacks(sq, b, is_bishop));
                assert(count_bits(relevant_mask(sq, is_bishop)) as u8 == shift);
                assert(!magic_fits(sq, is_bishop, magic.0));
            }
            None
        },
    }
}

/// Every subset of the relevant squares `mask` of a slider on `sq`, in the order of their
/// numbers, each with the squares the slider attacks when just that subset is occupied.
pub fn enumerate_occupancies(sq: Square, is_bishop: bool, mask: BitBoard, shift: u8) -> (r: (
    Vec<BitBoard>,
    Vec<BitBoard>,
))
    requires
        sq.wf(),
        1 <= shift <= 28,
    ensures
        r.0@.len() == two_to(shift as nat),
        r.1@.len() == two_to(shift as nat),
        forall|i: int|
            0 <= i < r.0@.len() ==> (#[trigger] r.0@[i]).0 == scatter(mask.0, i as nat),
        forall|i: int|
            0 <= i < r.1@.len() ==> (#[trigger] r.1@[i]).0 == slider_attacks(
                sq,
                scatter(mask.0, i as nat),
                is_bishop,
            ),
        forall|i: int| 0 <= i < r.1@.len() ==> (#[trigger] r.1@[i]).0 != 0,
{
    proof {
        lemma_hash_bound(0, 0, shift);
    }
    let count = (1u64 << shift) as usize;
    let mut relevant_occupancies: Vec<BitBoard> = Vec::with_capacity(count);
    let mut attacks: Vec<BitBoard> = Vec::with_capacity(count);
    let mut index: usize = 0;
    while index < count
        invariant
            sq.wf(),
            index <= count,
            count == two_to(shift as nat),
            relevant_occupancies@.len() == index,
            attacks@.len() == index,
            forall|i: int|
                0 <= i < index ==> (#[trigger] relevant_occupancies@[i]).0 == scatter(
                    mask.0,
                    i as nat,
                ),
            forall|i: int|
                0 <= i < index ==> (#[trigger] attacks@[i]).0 == slider_attacks(
                    sq,
                    scatter(mask.0, i as nat),
                    is_bishop,
                ),
            forall|i: int| 0 <= i < index ==> (#[trigger] attacks@[i]).0 != 0,
        decreases count - index,
    {
        let occupancy = generate_occupancy(mask, index);
        let attack = if is_bishop {
            generate_bishop_attacks(sq, occupancy)
        } else {
            generate_rook_attacks(sq, occupancy)
        };
        proof {
            lemma_attacks_something(sq, occupancy.0, is_bishop);
        }
        relevant_occupancies.push(occupancy);
        attacks.push(attack);
        index += 1;
    }
    (relevant_occupancies, attacks)
}

/// Tries `magic` as a hash for the given patterns: fills a table of two to the `shift`
/// slots with the attack set of each pattern at the slot the pattern hashes to. `None` as
/// soon as a slot is asked to hold two different attack sets.
pub fn try_magic(
    patterns: &Vec<BitBoard>,
    attacks: &Vec<BitBoard>,
    magic: BitBoard,
    shift: u8,
) -> (r: Option<Vec<BitBoard>>)
    requires
        patterns@.len() == attacks@.len(),
        1 <= shift <= 28,
        forall|i: int| 0 <= i < attacks@.len() ==> (#[trigger] attacks@[i]).0 != 0,
    ensures
        match r {
            Some(table) => {
                &&& table@.len() == two_to(shift as nat)
                &&& forall|i: int|
                    0 <= i < patterns@.len() ==> table@[#[trigger] hash_of(
                        patterns@[i].0,
                        magic.0,
                        shift,
                    ) as int] == attacks@[i]
                &&& forall|slot: int|
                    0 <= slot < table@.len() && (#[trigger] table@[slot]).0 != 0 ==> exists|i: int|
                        0 <= i < patterns@.len() && hash_of(patterns@[i].0, magic.0, shift)
                            == slot
            },
            None => exists|i: int, j: int|
                0 <= i < patterns@.len() && 0 <= j < patterns@.len() && hash_of(
                    patterns@[i].0,
                    magic.0,
                    shift,
                ) == hash_of(patterns@[j].0, magic.0, shift) && attacks@[i] != attacks@[j],
        },
{
    proof {
        lemma_hash_bound(0, 0, shift);
    }
    let count = (1u64 << shift) as usize;
    let mut table: Vec<BitBoard> = vec![BitBoard(0); count];
    let mut index: usize = 0;
    while index < patterns.len()
        invariant
            1 <= shift <= 28,
            index <= patterns@.len(),
            patterns@.len() == attacks@.len(),
            forall|i: int| 0 <= i < attacks@.len() ==> (#[trigger] attacks@[i]).0 != 0,
            table@.len() == two_to(shift as nat),
            forall|i: int|
                0 <= i < index ==> table@[#[trigger] hash_of(patterns@[i].0, magic.0, shift) as int]
                    == attacks@[i],
            forall|slot: int|
                0 <= slot < table@.len() && (#[trigger] table@[slot]).0 != 0 ==> exists|i: int|
                    0 <= i < index && hash_of(patterns@[i].0, magic.0, shift) == slot,
        decreases patterns@.len() - index,
    {
        proof {
            lemma_hash_bound(patterns@[index as int].0, magic.0, shift);
        }
        let hash = (patterns[index].0.wrapping_mul(magic.0) >> ((64 - shift) as u64)) as usize;
        let slot = table[hash];
        let attack = attacks[index];
        if slot.0 != 0 && slot.0 != attack.0 {
            proof {
                let j = choose|j: int|
                    0 <= j < index && hash_of(patterns@[j].0, magic.0, shift) == hash;
                assert(table@[hash_of(patterns@[j].0, magic.0, shift) as int] == attacks@[j]);
                assert(attacks@[index as int] != attacks@[j]);
                assert(hash_of(patterns@[index as int].0, magic.0, shift) == hash_of(
                    patterns@[j].0,
                    magic.0,
                    shift,
                ));
            }
            return None;
        }
        let ghost before = table@;
        table[hash] = attack;
        proof {
            assert forall|i: int| 0 <= i < index + 1 implies table@[#[trigger] hash_of(
                patterns@[i].0,
                magic.0,
                shift,
            ) as int] == attacks@[i] by {
                lemma_hash_bound(patterns@[i].0, magic.0, shift);
                if i < index && hash_of(patterns@[i].0, magic.0, shift) == hash {
                    assert(before[hash as int] == attacks@[i]);
                    assert(before[hash as int].0 != 0);
                }
            }
            assert forall|s: int| 0 <= s < table@.len() && (#[trigger] table@[s]).0
                != 0 implies exists|i: int|
                0 <= i < index + 1 && hash_of(patterns@[i].0, magic.0, shift) == s by {
                if s == hash {
                    assert(hash_of(patterns@[index as int].0, magic.0, shift) == s);
                } else {
                    assert(before[s].0 != 0);
                    let i = choose|i: int|
                        0 <= i < index && hash_of(patterns@[i].0, magic.0, shift) == s;
                    assert(0 <= i < index + 1 && hash_of(patterns@[i].0, magic.0, shift) == s);
                }
            }
        }
        index += 1;
    }
    Some(table)
}

/// Whether the square `t` lies on the ray that leaves `sq` in direction `d`.
pub open spec fn on_ray(sq: Square, d: Direction, t: int) -> bool {
    let a = t % 8 - sq.file_ix();
    let b = t / 8 - sq.rank_ix();
    0 <= t < 64 && match d {
        Direction::North => a == 0 && b > 0,
        Direction::South => a == 0 && b < 0,
        Direction::East => b == 0 && a > 0,
        Direction::West => b == 0 && a < 0,
        Direction::NorthEast => a == b && a > 0,
        Direction::SouthEast => a == -b && a > 0,
        Direction::SouthWest => a == b && a < 0,
        Direction::NorthWest => a == -b && a < 0,
    }
}

/// Whether a rook moves in direction `d`.
pub open spec fn is_straight(d: Direction) -> bool {
    d == Direction::North || d == Direction::East || d == Direction::South || d == Direction::West
}

/// A step changes file and rank by the direction's amounts and uses up one unit of room.
pub proof fn lemma_step(sq: Square, d: Direction)
    requires
        sq.wf(),
    ensures
        0 <= room(sq, d) <= 7,
        match sq.step(d) {
            Some(n) => n.wf() && n.file_ix() == sq.file_ix() + d.df() && n.rank_ix()
                == sq.rank_ix() + d.dr() && room(n, d) == room(sq, d) - 1 && n.0 == sq.0 + 8
                * d.dr() + d.df(),
            None => !(0 <= sq.file_ix() + d.df() < 8 && 0 <= sq.rank_ix() + d.dr() < 8),
        },
{
}

/// A square is given by its file and rank.
proof fn lemma_coords(a: int, b: int)
    requires
        0 <= a < 64,
        0 <= b < 64,
    ensures
        (a == b) == (a % 8 == b % 8 && a / 8 == b / 8),
{
}

/// On the empty board a ray runs to the edge: it holds exactly the squares that lie on it.
pub proof fn lemma_open_ray(sq: Square, d: Direction, t: int)
    requires
        sq.wf(),
        0 <= t < 64,
    ensures
        holds(ray_attacks(sq, 0, d), t) == on_ray(sq, d, t),
    decreases room(sq, d),
{
    lemma_holds_connectives(0, 0, t);
    lemma_step(sq, d);
    match sq.step(d) {
        None => {},
        Some(n) => {
            lemma_holds_connectives(0, 0, n.0 as int);
            lemma_open_ray(n, d, t);
            lemma_holds_connectives(bit(n.0 as int), ray_attacks(n, 0, d), t);
            lemma_holds_bit(n.0 as int, t);
            lemma_coords(t, n.0 as int);
            let a = t % 8 - sq.file_ix();
            let b = t / 8 - sq.rank_ix();
            let a1 = t % 8 - n.file_ix();
            let b1 = t / 8 - n.rank_ix();
            assert(a1 == a - d.df() && b1 == b - d.dr());
            assert(holds(ray_attacks(sq, 0, d), t) == (t == n.0 || on_ray(n, d, t)));
            assert((t == n.0) == (a == d.df() && b == d.dr()));
        },
    }
}

/// Whether the square `u` lies on the ray from `sq` in direction `d` before the square `t`.
pub open spec fn passes(sq: Square, d: Direction, u: int, t: int) -> bool {
    on_ray(sq, d, u) && on_ray(Square(u as u8), d, t)
}

/// The squares of a ray, one step apart.
proof fn lemma_ray_steps(sq: Square, d: Direction, t: int)
    requires
        sq.wf(),
        0 <= t < 64,
    ensures
        match sq.step(d) {
            Some(n) => on_ray(sq, d, t) == (t == n.0 || on_ray(n, d, t)),
            None => !on_ray(sq, d, t),
        },
{
    lemma_step(sq, d);
    match sq.step(d) {
        None => {},
        Some(n) => {
            lemma_coords(t, n.0 as int);
            let a = t % 8 - sq.file_ix();
            let b = t / 8 - sq.rank_ix();
            let a1 = t % 8 - n.file_ix();
            let b1 = t / 8 - n.rank_ix();
            assert(a1 == a - d.df() && b1 == b - d.dr());
            assert((t == n.0) == (a == d.df() && b == d.dr()));
        },
    }
}

/// What a ray walk finds: a slider attacks a square in a direction exactly when the square
/// lies on the ray in that direction and no square of the ray before it is occupied. What
/// stands on the square itself does not matter.
pub proof fn lemma_ray_meaning(sq: Square, occ: u64, d: Direction, t: int)
    requires
        sq.wf(),
        0 <= t < 64,
    ensures
        holds(ray_attacks(sq, occ, d), t) == (on_ray(sq, d, t) && forall|u: int|
            0 <= u < 64 && #[trigger] passes(sq, d, u, t) ==> !holds(occ, u)),
    decreases room(sq, d),
{
    lemma_step(sq, d);
    lemma_ray_steps(sq, d, t);
    lemma_holds_connectives(0, 0, t);
    match sq.step(d) {
        None => {},
        Some(n) => {
            let first = n.0 as int;
            lemma_holds_bit(first, t);
            lemma_ray_steps(sq, d, first);
            lemma_ray_steps(n, d, first);
            assert forall|u: int| 0 <= u < 64 implies passes(sq, d, u, t) == ((u == first
                && on_ray(n, d, t)) || passes(n, d, u, t)) by {
                lemma_ray_steps(sq, d, u);
                if u == first {
                    assert(Square(u as u8) == n);
                    lemma_ray_steps(n, d, u);
                } else if on_ray(n, d, u) && on_ray(Square(u as u8), d, t) {
                    lemma_ray_passes_on(n, d, u, t);
                }
            }
            if holds(occ, first) {
                if t != first && on_ray(sq, d, t) {
                    assert(passes(sq, d, first, t));
                }
                if t == first {
                    lemma_ray_steps(n, d, t);
                    assert forall|u: int| 0 <= u < 64 && #[trigger] passes(
                        sq,
                        d,
                        u,
                        t,
                    ) implies !holds(occ, u) by {
                        lemma_ray_not_back(n, d, u);
                    }
                }
            } else {
                lemma_ray_meaning(n, occ, d, t);
                lemma_holds_connectives(bit(first), ray_attacks(n, occ, d), t);
                if t == first {
                    assert forall|u: int| 0 <= u < 64 && #[trigger] passes(
                        sq,
                        d,
                        u,
                        t,
                    ) implies !holds(occ, u) by {
                        lemma_ray_not_back(n, d, u);
                    }
                } else if on_ray(n, d, t) {
                    if forall|u: int| 0 <= u < 64 && #[trigger] passes(n, d, u, t) ==> !holds(occ, u) {
                        assert forall|u: int| 0 <= u < 64 && #[trigger] passes(
                            sq,
                            d,
                            u,
                            t,
                        ) implies !holds(occ, u) by {
                            if u != first {
                                assert(passes(n, d, u, t));
                            }
                        }
                    } else {
                        let u = choose|u: int|
                            0 <= u < 64 && #[trigger] passes(n, d, u, t) && holds(occ, u);
                        assert(passes(sq, d, u, t));
                    }
                }
            }
        },
    }
}

/// A square that lies beyond a square of a ray lies on the ray.
proof fn lemma_ray_passes_on(sq: Square, d: Direction, u: int, t: int)
    requires
        sq.wf(),
        0 <= u < 64,
        0 <= t < 64,
        on_ray(sq, d, u),
        on_ray(Square(u as u8), d, t),
    ensures
        on_ray(sq, d, t),
{
}

/// No square of a ray lies before the square the ray starts from.
proof fn lemma_ray_not_back(sq: Square, d: Direction, u: int)
    requires
        sq.wf(),
        0 <= u < 64,
    ensures
        !(on_ray(sq, d, u) && on_ray(Square(u as u8), d, sq.0 as int)),
{
}

/// A ray holds no more squares than the walk has room for, and its first square if it has
/// any room at all.
pub proof fn lemma_ray_size(sq: Square, occ: u64, d: Direction)
    requires
        sq.wf(),
    ensures
        count_bits(ray_attacks(sq, occ, d)) <= room(sq, d) <= 7,
        sq.step(d) is Some ==> holds(ray_attacks(sq, occ, d), sq.step(d).unwrap().0 as int),
    decreases room(sq, d),
{
    lemma_step(sq, d);
    match sq.step(d) {
        None => {
            lemma_count_zero(0);
        },
        Some(n) => {
            lemma_count_bit(n.0 as int, 64);
            lemma_holds_bit(n.0 as int, n.0 as int);
            if !holds(occ, n.0 as int) {
                lemma_ray_size(n, occ, d);
                lemma_count_union(bit(n.0 as int), ray_attacks(n, occ, d), 64);
                lemma_holds_connectives(bit(n.0 as int), ray_attacks(n, occ, d), n.0 as int);
            }
        },
    }
}

/// The relevant squares of a slider number between one and 28.
pub proof fn lemma_mask_size(sq: Square, is_bishop: bool)
    requires
        sq.wf(),
    ensures
        1 <= count_bits(relevant_mask(sq, is_bishop)) <= 28,
{
    let north = ray_attacks(sq, 0, Direction::North);
    let south = ray_attacks(sq, 0, Direction::South);
    let east = ray_attacks(sq, 0, Direction::East);
    let west = ray_attacks(sq, 0, Direction::West);
    let ne = ray_attacks(sq, 0, Direction::NorthEast);
    let se = ray_attacks(sq, 0, Direction::SouthEast);
    let sw = ray_attacks(sq, 0, Direction::SouthWest);
    let nw = ray_attacks(sq, 0, Direction::NorthWest);
    lemma_ray_size(sq, 0, Direction::North);
    lemma_ray_size(sq, 0, Direction::South);
    lemma_ray_size(sq, 0, Direction::East);
    lemma_ray_size(sq, 0, Direction::West);
    lemma_ray_size(sq, 0, Direction::NorthEast);
    lemma_ray_size(sq, 0, Direction::SouthEast);
    lemma_ray_size(sq, 0, Direction::SouthWest);
    lemma_ray_size(sq, 0, Direction::NorthWest);
    let mask = relevant_mask(sq, is_bishop);
    let f = sq.file_ix();
    let r = sq.rank_ix();
    // one relevant square: the diagonal or vertical neighbour towards the middle
    let t: int = if is_bishop {
        (if r < 4 {
            sq.0 + 8
        } else {
            sq.0 - 8
        }) + (if f < 4 {
            1int
        } else {
            -1int
        })
    } else {
        if r < 4 {
            sq.0 + 8
        } else {
            sq.0 - 8
        }
    };
    lemma_mask_squares(t);
    if is_bishop {
        lemma_count_union(0, ne, 64);
        lemma_count_union(0 | ne, se, 64);
        lemma_count_union(0 | ne | se, sw, 64);
        lemma_count_union(0 | ne | se | sw, nw, 64);
        lemma_count_zero(0);
        lemma_count_meet(bishop_attacks(sq, 0), !EDGES, 64);
        lemma_open_ray(sq, Direction::NorthEast, t);
        lemma_open_ray(sq, Direction::SouthEast, t);
        lemma_open_ray(sq, Direction::SouthWest, t);
        lemma_open_ray(sq, Direction::NorthWest, t);
        lemma_holds_connectives(0, ne, t);
        lemma_holds_connectives(0 | ne, se, t);
        lemma_holds_connectives(0 | ne | se, sw, t);
        lemma_holds_connectives(0 | ne | se | sw, nw, t);
        lemma_holds_connectives(bishop_attacks(sq, 0), !EDGES, t);
        lemma_holds_connectives(EDGES, 0, t);
        assert(holds(mask, t));
    } else {
        lemma_count_union(north, south, 64);
        lemma_count_union(east, west, 64);
        lemma_count_meet(north | south, !(RANK_1 | RANK_8), 64);
        lemma_count_meet(east | west, !(FILE_A | FILE_H), 64);
        lemma_count_union(
            (north | south) & !(RANK_1 | RANK_8),
            (east | west) & !(FILE_A | FILE_H),
            64,
        );
        lemma_open_ray(sq, Direction::North, t);
        lemma_open_ray(sq, Direction::South, t);
        lemma_holds_connectives(north, south, t);
        lemma_holds_connectives(north | south, !(RANK_1 | RANK_8), t);
        lemma_holds_connectives(RANK_1 | RANK_8, 0, t);
        lemma_holds_connectives(
            (north | south) & !(RANK_1 | RANK_8),
            (east | west) & !(FILE_A | FILE_H),
            t,
        );
        assert(holds(mask, t));
    }
    lemma_zero_holds_nothing(mask);
    lemma_count_zero(mask);
}

/// A slider attacks at least one square wherever it stands.
pub proof fn lemma_attacks_something(sq: Square, occ: u64, is_bishop: bool)
    requires
        sq.wf(),
    ensures
        slider_attacks(sq, occ, is_bishop) != 0,
{
    let f = sq.file_ix();
    let r = sq.rank_ix();
    let a = slider_attacks(sq, occ, is_bishop);
    if is_bishop {
        let ne = ray_attacks(sq, occ, Direction::NorthEast);
        let se = ray_attacks(sq, occ, Direction::SouthEast);
        let sw = ray_attacks(sq, occ, Direction::SouthWest);
        let nw = ray_attacks(sq, occ, Direction::NorthWest);
        let d = if r < 4 {
            if f < 4 {
                Direction::NorthEast
            } else {
                Direction::NorthWest
            }
        } else {
            if f < 4 {
                Direction::SouthEast
            } else {
                Direction::SouthWest
            }
        };
        lemma_ray_size(sq, occ, d);
        let t = sq.step(d).unwrap().0 as int;
        lemma_holds_connectives(0, ne, t);
        lemma_holds_connectives(0 | ne, se, t);
        lemma_holds_connectives(0 | ne | se, sw, t);
        lemma_holds_connectives(0 | ne | se | sw, nw, t);
        assert(holds(a, t));
    } else {
        let north = ray_attacks(sq, occ, Direction::North);
        let east = ray_attacks(sq, occ, Direction::East);
        let south = ray_attacks(sq, occ, Direction::South);
        let west = ray_attacks(sq, occ, Direction::West);
        let d = if r < 4 {
            Direction::North
        } else {
            Direction::South
        };
        lemma_ray_size(sq, occ, d);
        let t = sq.step(d).unwrap().0 as int;
        lemma_holds_connectives(0, north, t);
        lemma_holds_connectives(0 | north, east, t);
        lemma_holds_connectives(0 | north | east, south, t);
        lemma_holds_connectives(0 | north | east | south, west, t);
        assert(holds(a, t));
    }
    lemma_zero_holds_nothing(a);
}

/// The relevant squares of a slider on `sq` hold every square of its rays but the last of
/// each.
proof fn lemma_mask_holds_inner(sq: Square, is_bishop: bool, d: Direction, n: Square)
    requires
        sq.wf(),
        n.wf(),
        is_bishop != is_straight(d),
        on_ray(sq, d, n.0 as int),
        n.step(d) is Some,
    ensures
        holds(relevant_mask(sq, is_bishop), n.0 as int),
{
    let t = n.0 as int;
    lemma_mask_squares(t);
    lemma_step(n, d);
    lemma_open_ray(sq, Direction::North, t);
    lemma_open_ray(sq, Direction::South, t);
    lemma_open_ray(sq, Direction::East, t);
    lemma_open_ray(sq, Direction::West, t);
    lemma_open_ray(sq, Direction::NorthEast, t);
    lemma_open_ray(sq, Direction::SouthEast, t);
    lemma_open_ray(sq, Direction::SouthWest, t);
    lemma_open_ray(sq, Direction::NorthWest, t);
    let north = ray_attacks(sq, 0, Direction::North);
    let south = ray_attacks(sq, 0, Direction::South);
    let east = ray_attacks(sq, 0, Direction::East);
    let west = ray_attacks(sq, 0, Direction::West);
    let ne = ray_attacks(sq, 0, Direction::NorthEast);
    let se = ray_attacks(sq, 0, Direction::SouthEast);
    let sw = ray_attacks(sq, 0, Direction::SouthWest);
    let nw = ray_attacks(sq, 0, Direction::NorthWest);
    if is_bishop {
        lemma_holds_connectives(0, ne, t);
        lemma_holds_connectives(0 | ne, se, t);
        lemma_holds_connectives(0 | ne | se, sw, t);
        lemma_holds_connectives(0 | ne | se | sw, nw, t);
        lemma_holds_connectives(bishop_attacks(sq, 0), !EDGES, t);
        lemma_holds_connectives(EDGES, 0, t);
    } else {
        lemma_holds_connectives(north, south, t);
        lemma_holds_connectives(east, west, t);
        lemma_holds_connectives(north | south, !(RANK_1 | RANK_8), t);
        lemma_holds_connectives(east | west, !(FILE_A | FILE_H), t);
        lemma_holds_connectives(RANK_1 | RANK_8, 0, t);
        lemma_holds_connectives(FILE_A | FILE_H, 0, t);
        lemma_holds_connectives(
            (north | south) & !(RANK_1 | RANK_8),
            (east | west) & !(FILE_A | FILE_H),
            t,
        );
    }
}

/// Along a ray of a slider on `sq`, only the occupation of its relevant squares matters.
proof fn lemma_ray_relevant(sq: Square, is_bishop: bool, d: Direction, cur: Square, occ: u64)
    requires
        sq.wf(),
        cur.wf(),
        is_bishop != is_straight(d),
        cur == sq || on_ray(sq, d, cur.0 as int),
    ensures
        ray_attacks(cur, occ, d) == ray_attacks(cur, occ & relevant_mask(sq, is_bishop), d),
    decreases room(cur, d),
{
    let mask = relevant_mask(sq, is_bishop);
    lemma_step(cur, d);
    match cur.step(d) {
        None => {},
        Some(n) => {
            let t = n.0 as int;
            assert(on_ray(sq, d, t));
            lemma_holds_connectives(occ, mask, t);
            lemma_step(n, d);
            if n.step(d) is Some {
                lemma_mask_holds_inner(sq, is_bishop, d, n);
                lemma_ray_relevant(sq, is_bishop, d, n, occ);
                assert(holds(occ & mask, t) == holds(occ, t));
            } else {
                lemma_union(bit(t), 0, 0, 0);
                assert(ray_attacks(n, occ, d) == 0);
                assert(ray_attacks(n, occ & mask, d) == 0);
            }
        },
    }
}

/// What a slider attacks depends on the occupation of its relevant squares alone.
pub proof fn lemma_attacks_relevant(sq: Square, occ: u64, is_bishop: bool)
    requires
        sq.wf(),
    ensures
        slider_attacks(sq, occ, is_bishop) == slider_attacks(
            sq,
            occ & relevant_mask(sq, is_bishop),
            is_bishop,
        ),
{
    if is_bishop {
        lemma_ray_relevant(sq, true, Direction::NorthEast, sq, occ);
        lemma_ray_relevant(sq, true, Direction::SouthEast, sq, occ);
        lemma_ray_relevant(sq, true, Direction::SouthWest, sq, occ);
        lemma_ray_relevant(sq, true, Direction::NorthWest, sq, occ);
    } else {
        lemma_ray_relevant(sq, false, Direction::North, sq, occ);
        lemma_ray_relevant(sq, false, Direction::East, sq, occ);
        lemma_ray_relevant(sq, false, Direction::South, sq, occ);
        lemma_ray_relevant(sq, false, Direction::West, sq, occ);
    }
}

/// Walks from `sq` in one direction and collects the squares passed, stopping after the
/// first occupied one.
pub fn generate_slider_attacks_in_direction(sq: Square, occ: BitBoard, direction: Direction) -> (r:
    BitBoard)
    requires
        sq.wf(),
    ensures
        r.0 == ray_attacks(sq, occ.0, direction),
{
    let mut result: u64 = 0;
    let mut new_sq = sq;
    let mut walking = true;
    proof {
        lemma_union(ray_attacks(sq, occ.0, direction), 0, 0, occ.0);
        lemma_union(0, 0, 0, occ.0);
    }
    while walking
        invariant
            new_sq.wf(),
            walking ==> result & occ.0 == 0,
            walking ==> ray_attacks(sq, occ.0, direction) == result | ray_attacks(
                new_sq,
                occ.0,
                direction,
            ),
            !walking ==> ray_attacks(sq, occ.0, direction) == result,
        decreases
                if walking {
                    room(new_sq, direction) + 1
                } else {
                    0
                },
    {
        let next = match direction {
            Direction::North => new_sq.north(),
            Direction::NorthEast => new_sq.north_east(),
            Direction::East => new_sq.east(),
            Direction::SouthEast => new_sq.south_east(),
            Direction::South => new_sq.south(),
            Direction::SouthWest => new_sq.south_west(),
            Direction::West => new_sq.west(),
            Direction::NorthWest => new_sq.north_west(),
        };
        assert(next == new_sq.step(direction));
        match next {
            Some(current_square) => {
                let one = BitBoard::new(current_square);
                let ghost before = result;
                let ghost rest = ray_attacks(current_square, occ.0, direction);
                result = result | one.0;
                proof {
                    lemma_union(before, one.0, rest, occ.0);
                    lemma_bit_meets(current_square.0 as int, occ.0);
                    lemma_union(before, one.0, 0, occ.0);
                }
                if result & occ.0 != 0 {
                    walking = false;
                } else {
                    new_sq = current_square;
                }
            },
            None => {
                proof {
                    lemma_union(result, 0, 0, occ.0);
                }
                walking = false;
            },
        }
    }
    BitBoard(result)
}

/// The squares a bishop on `sq` attacks, found by walking its four rays.
pub fn generate_bishop_attacks(sq: Square, occ: BitBoard) -> (r: BitBoard)
    requires
        sq.wf(),
    ensures
        r.0 == bishop_attacks(sq, occ.0),
{
    let a = generate_slider_attacks_in_direction(sq, occ, Direction::NorthEast);
    let b = generate_slider_attacks_in_direction(sq, occ, Direction::SouthEast);
    let c = generate_slider_attacks_in_direction(sq, occ, Direction::SouthWest);
    let d = generate_slider_attacks_in_direction(sq, occ, Direction::NorthWest);
    BitBoard(0 | a.0 | b.0 | c.0 | d.0)
}

/// The squares a rook on `sq` attacks, found by walking its four rays.
pub fn generate_rook_attacks(sq: Square, occ: BitBoard) -> (r: BitBoard)
    requires
        sq.wf(),
    ensures
        r.0 == rook_attacks(sq, occ.0),
{
    let a = generate_slider_attacks_in_direction(sq, occ, Direction::North);
    let b = generate_slider_attacks_in_direction(sq, occ, Direction::East);
    let c = generate_slider_attacks_in_direction(sq, occ, Direction::South);
    let d = generate_slider_attacks_in_direction(sq, occ, Direction::West);
    BitBoard(0 | a.0 | b.0 | c.0 | d.0)
}

/// The squares whose occupation matters to a slider on `sq`.
pub fn generate_relevant_occupancy_mask_at_square(sq: Square, is_bishop: bool) -> (r: BitBoard)
    requires
        sq.wf(),
    ensures
        r.0 == relevant_mask(sq, is_bishop),
{
    if is_bishop {
        generate_bishop_attacks(sq, BitBoard(0)).pop_edges()
    } else {
        let north = generate_slider_attacks_in_direction(sq, BitBoard(0), Direction::North);
        let south = generate_slider_attacks_in_direction(sq, BitBoard(0), Direction::South);
        let vertical = BitBoard(north.0 | south.0).pop_north_south_edges();
        let east = generate_slider_attacks_in_direction(sq, BitBoard(0), Direction::East);
        let west = generate_slider_attacks_in_direction(sq, BitBoard(0), Direction::West);
        let horizontal = BitBoard(east.0 | west.0).pop_east_west_edges();
        BitBoard(vertical.0 | horizontal.0)
    }
}

/// The subset of `mask` numbered `index`.
pub fn generate_occupancy(mask: BitBoard, index: usize) -> (r: BitBoard)
    ensures
        r.0 == scatter(mask.0, index as nat),
{
    let mut result: u64 = 0;
    let mut mask = mask;
    let mut index = index;
    let ghost whole = scatter(mask.0, index as nat);
    proof {
        lemma_union(whole, 0, 0, 0);
    }
    while mask.is_not_empty()
        invariant
            whole == result | scatter(mask.0, index as nat),
        decreases mask.0,
    {
        let lsb_index = mask.bit_scan();
        let ghost before = result;
        let ghost old_mask = mask.0;
        let ghost old_index = index;
        proof {
            lemma_lowest(mask.0);
        }
        mask = mask.pop_lsb();
        let low = (index as u64) & 1;
        proof {
            let i = index as u64;
            let k = lsb_index as u64;
            assert(k < 64 ==> ((i & 1) << k) == (if i % 2 == 1 {
                1u64 << k
            } else {
                0u64
            })) by (bit_vector);
            assert(index as u64 % 2 == index % 2) by {
                lemma_low_bit_of_usize(index);
            }
            assert(index >> 1 == index / 2) by (bit_vector);
        }
        let piece = low << lsb_index;
        result = result | piece;
        index = index >> 1;
        proof {
            lemma_union(before, piece, scatter(mask.0, index as nat), 0);
        }
    }
    proof {
        lemma_union(result, 0, 0, 0);
    }
    BitBoard(result)
}

/// Widening an index to 64 bits keeps its parity.
proof fn lemma_low_bit_of_usize(index: usize)
    ensures
        (index as u64) % 2 == index % 2,
{
}

} // verus!
