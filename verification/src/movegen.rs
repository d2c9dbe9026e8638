//! Attack tables and the generation of pseudo-legal moves.
use crate::movegen::constants::{BISHOP_MAGIC_NUMBERS, ROOK_MAGICS_NUMBERS};
use crate::movegen::non_sliding::{init_non_sliding_attacks, LeaperTables};
use crate::movegen::sliding::{init_magic, magic_fits, SliderTables};
use crate::square::Square;
use vstd::prelude::*;

pub mod constants;
pub mod legality;
pub mod magic;
pub mod movescan;
pub mod non_sliding;
pub mod pseudo;
pub mod sliding;

verus! {

/// The attack tables that move generation and attack tests read: built once, then only
/// read.
pub struct AttackTables {
    pub leapers: LeaperTables,
    pub sliders: SliderTables,
}

impl AttackTables {
    /// Every table answers for its piece and square.
    pub open spec fn wf(&self) -> bool {
        self.leapers.wf() && self.sliders.wf()
    }
}

/// Builds all attack tables; `None` if a shipped multiplier is no perfect hash for its
/// square.
pub fn init() -> (r: Option<AttackTables>)
    ensures
        match r {
            Some(tables) => tables.wf() && forall|i: int|
                0 <= i < 64 ==> #[trigger] magic_fits(Square(i as u8), false, ROOK_MAGICS_NUMBERS[i])
                    && magic_fits(Square(i as u8), true, BISHOP_MAGIC_NUMBERS[i]),
            None => exists|i: int|
                0 <= i < 64 && (!magic_fits(Square(i as u8), false, ROOK_MAGICS_NUMBERS[i])
                    || !magic_fits(Square(i as u8), true, BISHOP_MAGIC_NUMBERS[i])),
        },
{
    match init_magic() {
        Some(sliders) => Some(AttackTables { leapers: init_non_sliding_attacks(), sliders }),
        None => None,
    }
}

} // verus!
