//! Named sets of squares: files, ranks, the rim, and the pieces of the opening position.
use crate::bits::holds;
use vstd::prelude::*;

verus! {

pub const EMPTY: u64 = 0;

pub const FILE_A: u64 = 0x0101_0101_0101_0101;

pub const FILE_B: u64 = 0x0202_0202_0202_0202;

pub const FILE_C: u64 = 0x0404_0404_0404_0404;

pub const FILE_D: u64 = 0x0808_0808_0808_0808;

pub const FILE_E: u64 = 0x1010_1010_1010_1010;

pub const FILE_F: u64 = 0x2020_2020_2020_2020;

pub const FILE_G: u64 = 0x4040_4040_4040_4040;

pub const FILE_H: u64 = 0x8080_8080_8080_8080;

pub const RANK_1: u64 = 0x0000_0000_0000_00FF;

pub const RANK_2: u64 = 0x0000_0000_0000_FF00;

pub const RANK_3: u64 = 0x0000_0000_00FF_0000;

pub const RANK_4: u64 = 0x0000_0000_FF00_0000;

pub const RANK_5: u64 = 0x0000_00FF_0000_0000;

pub const RANK_6: u64 = 0x0000_FF00_0000_0000;

pub const RANK_7: u64 = 0x00FF_0000_0000_0000;

pub const RANK_8: u64 = 0xFF00_0000_0000_0000;

pub const EDGES: u64 = 0xFF81_8181_8181_81FF;

pub const WHITE_OCCUPANY_INIT: u64 = 0x0000_0000_0000_FFFF;

pub const WHITE_PAWN_INIT: u64 = 0x0000_0000_0000_FF00;

pub const WHITE_KNIGHT_INIT: u64 = 0x0000_0000_0000_0042;

pub const WHITE_BISHOP_INIT: u64 = 0x0000_0000_0000_0024;

pub const WHITE_ROOK_INIT: u64 = 0x0000_0000_0000_0081;

pub const WHITE_QUEEN_INIT: u64 = 0x0000_0000_0000_0008;

pub const WHITE_KING_INIT: u64 = 0x0000_0000_0000_0010;

pub const BLACK_OCCUPANY_INIT: u64 = 0xFFFF_0000_0000_0000;

pub const BLACK_PAWN_INIT: u64 = 0x00FF_0000_0000_0000;

pub const BLACK_KNIGHT_INIT: u64 = 0x4200_0000_0000_0000;

pub const BLACK_BISHOP_INIT: u64 = 0x2400_0000_0000_0000;

pub const BLACK_ROOK_INIT: u64 = 0x8100_0000_0000_0000;

pub const BLACK_QUEEN_INIT: u64 = 0x0800_0000_0000_0000;

pub const BLACK_KING_INIT: u64 = 0x1000_0000_0000_0000;

/// Which squares the named files, ranks and the rim hold.
pub proof fn lemma_mask_squares(s: int)
    requires
        0 <= s < 64,
    ensures
        holds(FILE_A, s) == (s % 8 == 0),
        holds(FILE_B, s) == (s % 8 == 1),
        holds(FILE_G, s) == (s % 8 == 6),
        holds(FILE_H, s) == (s % 8 == 7),
        holds(RANK_1, s) == (s / 8 == 0),
        holds(RANK_2, s) == (s / 8 == 1),
        holds(RANK_7, s) == (s / 8 == 6),
        holds(RANK_8, s) == (s / 8 == 7),
        holds(EDGES, s) == (s % 8 == 0 || s % 8 == 7 || s / 8 == 0 || s / 8 == 7),
        holds(RANK_1 | RANK_8, s) == (s / 8 == 0 || s / 8 == 7),
        holds(FILE_A | FILE_H, s) == (s % 8 == 0 || s % 8 == 7),
        holds(FILE_A | FILE_B, s) == (s % 8 == 0 || s % 8 == 1),
        holds(FILE_G | FILE_H, s) == (s % 8 == 6 || s % 8 == 7),
{
    let k = s as u64;
    assert(k < 64 ==> (((0x0101_0101_0101_0101u64 >> k) & 1 == 1) == (k % 8 == 0)) && (((
    0x0202_0202_0202_0202u64 >> k) & 1 == 1) == (k % 8 == 1)) && (((0x4040_4040_4040_4040u64 >> k)
        & 1 == 1) == (k % 8 == 6)) && (((0x8080_8080_8080_8080u64 >> k) & 1 == 1) == (k % 8 == 7))
        && (((0xFFu64 >> k) & 1 == 1) == (k / 8 == 0)) && (((0xFF00u64 >> k) & 1 == 1) == (k / 8
        == 1)) && (((0x00FF_0000_0000_0000u64 >> k) & 1 == 1) == (k / 8 == 6)) && (((
    0xFF00_0000_0000_0000u64 >> k) & 1 == 1) == (k / 8 == 7)) && (((0xFF81_8181_8181_81FFu64 >> k)
        & 1 == 1) == (k % 8 == 0 || k % 8 == 7 || k / 8 == 0 || k / 8 == 7)) && ((((0xFFu64
        | 0xFF00_0000_0000_0000u64) >> k) & 1 == 1) == (k / 8 == 0 || k / 8 == 7)) && ((((
    0x0101_0101_0101_0101u64 | 0x8080_8080_8080_8080u64) >> k) & 1 == 1) == (k % 8 == 0 || k % 8
        == 7)) && ((((0x0101_0101_0101_0101u64 | 0x0202_0202_0202_0202u64) >> k) & 1 == 1) == (k % 8
        == 0 || k % 8 == 1)) && ((((0x4040_4040_4040_4040u64 | 0x8080_8080_8080_8080u64) >> k) & 1
        == 1) == (k % 8 == 6 || k % 8 == 7))) by (bit_vector);
}

} // verus!
