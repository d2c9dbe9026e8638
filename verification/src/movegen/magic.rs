//! The search for multipliers that hash the occupancies of a slider's relevant squares
//! without harmful collisions.
use crate::bitboard::BitBoard;
use crate::bits::{count_bits, two_to};
use crate::movegen::sliding::{
    enumerate_occupancies, gather, generate_relevant_occupancy_mask_at_square, hash_of,
    lemma_attacks_relevant, lemma_mask_size, lemma_scatter_gather, magic_fits, magic_index,
    relevant_mask, scatter, slider_attacks, try_magic,
};
use crate::square::Square;
use vstd::prelude::*;

verus! {

/// A random number from `low` up to but not including `high`, from `fastrand::u64`, which
/// gives a number in the range it is handed and panics only for an empty range.
#[verifier::external_body]
fn random_u64(low: u64, high: u64) -> (r: u64)
    requires
        low < high,
    ensures
        low <= r < high,
{
    fastrand::u64(low..high)
}

/// Whether `magic` hashes the given patterns so that patterns in one slot have the same
/// attack set.
pub open spec fn hashes_apart(
    patterns: Seq<BitBoard>,
    attacks: Seq<BitBoard>,
    magic: u64,
    shift: u8,
) -> bool {
    forall|i: int, j: int|
        0 <= i < patterns.len() && 0 <= j < patterns.len() && #[trigger] hash_of(
            patterns[i].0,
            magic,
            shift,
        ) == #[trigger] hash_of(patterns[j].0, magic, shift) ==> attacks[i] == attacks[j]
}

/// Whether every multiplier that a draw can give hashes the given patterns apart, so that
/// the first draw already succeeds. A draw is the intersection of three numbers below
/// `u64::MAX` and so is below `u64::MAX` itself.
pub open spec fn any_draw_fits(patterns: Seq<BitBoard>, attacks: Seq<BitBoard>, shift: u8) -> bool {
    forall|magic: u64| magic < u64::MAX ==> #[trigger] hashes_apart(patterns, attacks, magic, shift)
}

/// Draws up to `attempts` sparse random multipliers, each the intersection of three random
/// numbers from 1 up to but not including `u64::MAX`, and returns the first that hashes the
/// given patterns without a harmful collision, if one of them does. Which multipliers are
/// drawn is left to chance; a multiplier is sure to be found where there is an attempt to
/// make and no draw can fail, as with no patterns or with one attack set for all of them.
pub fn find_magic_for_square(
    relevant_occupancies: &Vec<BitBoard>,
    attacks: &Vec<BitBoard>,
    shift: u8,
    attempts: usize,
) -> (r: Option<BitBoard>)
    requires
        relevant_occupancies@.len() == attacks@.len(),
        1 <= shift <= 28,
        forall|i: int| 0 <= i < attacks@.len() ==> (#[trigger] attacks@[i]).0 != 0,
    ensures
        r is Some ==> hashes_apart(relevant_occupancies@, attacks@, r.unwrap().0, shift),
        r is Some ==> r.unwrap().0 < u64::MAX,
        attempts == 0 ==> r is None,
        attempts > 0 && any_draw_fits(relevant_occupancies@, attacks@, shift) ==> r is Some,
{
    let mut tried: usize = 0;
    while tried < attempts
        invariant
            relevant_occupancies@.len() == attacks@.len(),
            1 <= shift <= 28,
            forall|i: int| 0 <= i < attacks@.len() ==> (#[trigger] attacks@[i]).0 != 0,
            any_draw_fits(relevant_occupancies@, attacks@, shift) ==> tried == 0,
        decreases attempts - tried,
    {
        let first = random_u64(1, u64::MAX);
        let second = random_u64(1, u64::MAX);
        let third = random_u64(1, u64::MAX);
        let magic = BitBoard(first & second & third);
        proof {
            assert(first & second & third <= first) by (bit_vector);
        }
        match try_magic(relevant_occupancies, attacks, magic, shift) {
            Some(table) => {
                proof {
                    assert forall|i: int, j: int|
                        0 <= i < relevant_occupancies@.len() && 0 <= j
                            < relevant_occupancies@.len() && #[trigger] hash_of(
                            relevant_occupancies@[i].0,
                            magic.0,
                            shift,
                        ) == #[trigger] hash_of(
                            relevant_occupancies@[j].0,
                            magic.0,
                            shift,
                        ) implies attacks@[i] == attacks@[j] by {
                        assert(table@[hash_of(relevant_occupancies@[i].0, magic.0, shift) as int]
                            == attacks@[i]);
                        assert(table@[hash_of(relevant_occupancies@[j].0, magic.0, shift) as int]
                            == attacks@[j]);
                    }
                }
                return Some(magic);
            },
            None => {
                proof {
                    // two patterns with different attack sets share a slot under this draw
                    assert(!hashes_apart(relevant_occupancies@, attacks@, magic.0, shift));
                    assert(!any_draw_fits(relevant_occupancies@, attacks@, shift));
                }
            },
        }
        tried += 1;
    }
    None
}

/// A multiplier that hashes every subset of the relevant squares apart is a perfect hash
/// for the slider on its square.
proof fn lemma_apart_fits(
    sq: Square,
    is_bishop: bool,
    patterns: Seq<BitBoard>,
    attacks: Seq<BitBoard>,
    magic: u64,
    shift: u8,
)
    requires
        sq.wf(),
        shift == count_bits(relevant_mask(sq, is_bishop)),
        1 <= shift <= 28,
        patterns.len() == two_to(shift as nat),
        attacks.len() == patterns.len(),
        forall|i: int|
            0 <= i < patterns.len() ==> (#[trigger] patterns[i]).0 == scatter(
                relevant_mask(sq, is_bishop),
                i as nat,
            ),
        forall|i: int|
            0 <= i < attacks.len() ==> (#[trigger] attacks[i]).0 == slider_attacks(
                sq,
                scatter(relevant_mask(sq, is_bishop), i as nat),
                is_bishop,
            ),
        hashes_apart(patterns, attacks, magic, shift),
    ensures
        magic_fits(sq, is_bishop, magic),
{
    let mask = relevant_mask(sq, is_bishop);
    assert forall|a: u64, b: u64| #[trigger]
        magic_index(a, mask, magic, shift) == #[trigger] magic_index(
            b,
            mask,
            magic,
            shift,
        ) implies slider_attacks(sq, a, is_bishop) == slider_attacks(sq, b, is_bishop) by {
        lemma_scatter_gather(mask, a);
        lemma_scatter_gather(mask, b);
        lemma_attacks_relevant(sq, a, is_bishop);
        lemma_attacks_relevant(sq, b, is_bishop);
        let i = gather(mask, a) as int;
        let j = gather(mask, b) as int;
        assert(patterns[i].0 == a & mask);
        assert(patterns[j].0 == b & mask);
        assert(hash_of(patterns[i].0, magic, shift) == hash_of(patterns[j].0, magic, shift));
        assert(attacks[i] == attacks[j]);
    }
}

/// Searches a perfect-hash multiplier for the bishop on `sq` among up to `attempts` random
/// candidates.
pub fn find_magic_for_bishop_at_sqaure(sq: Square, attempts: usize) -> (r: Option<BitBoard>)
    requires
        sq.wf(),
    ensures
        r is Some ==> magic_fits(sq, true, r.unwrap().0),
        attempts == 0 ==> r is None,
{
    let mask = generate_relevant_occupancy_mask_at_square(sq, true);
    proof {
        lemma_mask_size(sq, true);
    }
    let shift = mask.pop_count();
    let (relevant_occupancies, attacks) = enumerate_occupancies(sq, true, mask, shift);
    let found = find_magic_for_square(&relevant_occupancies, &attacks, shift, attempts);
    proof {
        if found is Some {
            lemma_apart_fits(
                sq,
                true,
                relevant_occupancies@,
                attacks@,
                found.unwrap().0,
                shift,
            );
        }
    }
    found
}

/// Searches a perfect-hash multiplier for the rook on `sq` among up to `attempts` random
/// candidates.
pub fn find_magic_for_rook_at_sqaure(sq: Square, attempts: usize) -> (r: Option<BitBoard>)
    requires
        sq.wf(),
    ensures
        r is Some ==> magic_fits(sq, false, r.unwrap().0),
        attempts == 0 ==> r is None,
{
    let mask = generate_relevant_occupancy_mask_at_square(sq, false);
    proof {
        lemma_mask_size(sq, false);
    }
    let shift = mask.pop_count();
    let (relevant_occupancies, attacks) = enumerate_occupancies(sq, false, mask, shift);
    let found = find_magic_for_square(&relevant_occupancies, &attacks, shift, attempts);
    proof {
        if found is Some {
            lemma_apart_fits(
                sq,
                false,
                relevant_occupancies@,
                attacks@,
                found.unwrap().0,
                shift,
            );
        }
    }
    found
}

/// Searches a multiplier for the rook on every square, each among up to `attempts` random
/// candidates; entry `i` is what was found for square `i`.
pub fn find_rook_magics(attempts: usize) -> (r: Vec<Option<BitBoard>>)
    ensures
        r@.len() == 64,
        forall|i: int|
            0 <= i < 64 && (#[trigger] r@[i]) is Some ==> magic_fits(
                Square(i as u8),
                false,
                r@[i].unwrap().0,
            ),
{
    let mut found: Vec<Option<BitBoard>> = Vec::with_capacity(64);
    let mut index: u8 = 0;
    while index < 64
        invariant
            index <= 64,
            found@.len() == index,
            forall|i: int|
                0 <= i < index && (#[trigger] found@[i]) is Some ==> magic_fits(
                    Square(i as u8),
                    false,
                    found@[i].unwrap().0,
                ),
        decreases 64 - index,
    {
        found.push(find_magic_for_rook_at_sqaure(Square(index), attempts));
        index += 1;
    }
    found
}

/// Searches a multiplier for the bishop on every square, each among up to `attempts`
/// random candidates; entry `i` is what was found for square `i`.
pub fn find_bishop_magics(attempts: usize) -> (r: Vec<Option<BitBoard>>)
    ensures
        r@.len() == 64,
        forall|i: int|
            0 <= i < 64 && (#[trigger] r@[i]) is Some ==> magic_fits(
                Square(i as u8),
                true,
                r@[i].unwrap().0,
            ),
{
    let mut found: Vec<Option<BitBoard>> = Vec::with_capacity(64);
    let mut index: u8 = 0;
    while index < 64
        invariant
            index <= 64,
            found@.len() == index,
            forall|i: int|
                0 <= i < index && (#[trigger] found@[i]) is Some ==> magic_fits(
                    Square(i as u8),
                    true,
                    found@[i].unwrap().0,
                ),
        decreases 64 - index,
    {
        found.push(find_magic_for_bishop_at_sqaure(Square(index), attempts));
        index += 1;
    }
    found
}

} // verus!
