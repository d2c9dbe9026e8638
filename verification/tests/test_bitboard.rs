use rust_chess_engine::bitboard::BitBoard;
use rust_chess_engine::masks;
use rust_chess_engine::square;
use rust_chess_engine::piece::{self, Color, Piece};
use rust_chess_engine::square::Square;

#[test]
fn test_lsb() {
    let bitboard = BitBoard::new(Square(square::D4));
    assert_eq!(BitBoard(1u64) << Square(square::D4).to_u8(), bitboard.lsb());
}

#[test]
fn test_pop_lsb() {
    let bitboard = BitBoard::new(Square(square::D4));
    assert_eq!(BitBoard(masks::EMPTY), bitboard.pop_lsb());
}

#[test]
fn test_pop_count() {
    let bitboard = BitBoard::new(Square(square::D4));
    assert_eq!(1, bitboard.pop_count());
}

#[test]
fn test_bit_scan() {
    let bitboard = BitBoard::new(Square(square::D4));
    assert_eq!(Square(square::D4).to_u8(), bitboard.bit_scan());
}

#[test]
fn test_bitboard_from_squares() {
    let bitboard = BitBoard::from_squares(&[Square(square::A1), Square(square::A2)]);
    assert_eq!(
        BitBoard::new(Square(square::A1)) | BitBoard::new(Square(square::A2)),
        bitboard
    );
}

#[test]
fn test_iteration_over_the_empty_set() {
    let empty = BitBoard(masks::EMPTY);
    assert!(empty.is_empty());
    assert!(!empty.is_not_empty());
    assert_eq!(empty, empty.lsb());
    assert_eq!(empty, empty.pop_lsb());
    assert_eq!(64, empty.bit_scan());
    assert_eq!(0, empty.pop_count());
    assert_eq!(empty, BitBoard::from_squares(&[]));
}

#[test]
fn test_pop_each_bit() {
    let mut bb = BitBoard(0x8000_0000_0001_0900);
    let mut seen = Vec::new();
    assert_eq!(4, bb.pop_count());
    while bb.is_not_empty() {
        assert_eq!(BitBoard(1u64 << bb.bit_scan()), bb.lsb());
        seen.push(bb.bit_scan());
        bb = bb.pop_lsb();
    }
    assert_eq!(vec![8, 11, 16, 63], seen);
    assert_eq!(64, BitBoard(u64::MAX).pop_count());
}

#[test]
fn test_membership_and_edges() {
    let bb = BitBoard::from_squares(&[Square(square::A1), Square(square::D4), Square(square::H8)]);
    assert!(bb.is_set(Square(square::D4)));
    assert!(bb.is_set(Square(square::H8)));
    assert!(!bb.is_set(Square(square::D5)));
    assert_eq!(BitBoard(1u64 << square::D4), bb.pop_edges());
    let cross = BitBoard(masks::FILE_D | masks::RANK_4);
    assert_eq!(BitBoard(cross.0 & !masks::RANK_1 & !masks::RANK_8), cross.pop_north_south_edges());
    assert_eq!(BitBoard(cross.0 & !masks::FILE_A & !masks::FILE_H), cross.pop_east_west_edges());
    assert_eq!(
        masks::EDGES,
        masks::FILE_A | masks::FILE_H | masks::RANK_1 | masks::RANK_8
    );
    assert_eq!(bb.0, bb.to_u64());
    assert_eq!(5, BitBoard(5).to_usize());
}

#[test]
fn test_operators() {
    let a = BitBoard(0b1100);
    let b = BitBoard(0b1010);
    assert_eq!(BitBoard(0b1000), a & b);
    assert_eq!(BitBoard(0b1110), a | b);
    assert_eq!(BitBoard(0b0110), a ^ b);
    assert_eq!(BitBoard(!0b1100u64), !a);
    assert_eq!(BitBoard(0b1100 << 8), a << 8u8);
    assert_eq!(BitBoard(0b11), a >> 2usize);
    assert_eq!(BitBoard(0), BitBoard(1u64 << 63) << 1u8);
    assert_eq!(BitBoard(2), a - b);
    assert_eq!(BitBoard(u64::MAX), BitBoard(0) - BitBoard(1));
    assert_eq!(BitBoard(0), BitBoard(u64::MAX) + BitBoard(1));
    assert_eq!(BitBoard(0x8000_0000_0000_0000), BitBoard(1u64 << 62) * BitBoard(2));
    assert_eq!(BitBoard(0), BitBoard(1u64 << 63) * BitBoard(2));
    assert_eq!(BitBoard(u64::MAX), -BitBoard(1));
    assert_eq!(a.lsb(), a & -a);
    let mut c = a;
    c |= b;
    assert_eq!(BitBoard(0b1110), c);
    c &= BitBoard(0b0110);
    assert_eq!(BitBoard(0b0110), c);
    c ^= BitBoard(0b0011);
    assert_eq!(BitBoard(0b0101), c);
}

#[test]
fn test_masks() {
    assert_eq!(masks::FILE_A << 1, masks::FILE_B);
    assert_eq!(masks::FILE_A << 7, masks::FILE_H);
    assert_eq!(masks::RANK_1 << 8, masks::RANK_2);
    assert_eq!(masks::RANK_1 << 56, masks::RANK_8);
    assert_eq!(
        masks::WHITE_OCCUPANY_INIT,
        masks::WHITE_PAWN_INIT
            | masks::WHITE_KNIGHT_INIT
            | masks::WHITE_BISHOP_INIT
            | masks::WHITE_ROOK_INIT
            | masks::WHITE_QUEEN_INIT
            | masks::WHITE_KING_INIT
    );
    assert_eq!(masks::BLACK_OCCUPANY_INIT, masks::WHITE_OCCUPANY_INIT.swap_bytes());
}

#[test]
fn test_pieces_and_colours() {
    assert_eq!(Color(piece::BLACK), Color(piece::WHITE).enemy());
    assert_eq!(Color(piece::WHITE), Color(piece::BLACK).enemy());
    assert_eq!("White", Color(piece::WHITE).as_string());
    assert_eq!("Black", Color(piece::BLACK).as_string());
    assert_eq!("Invalid Color", Color(2).as_string());
    assert_eq!(1, Color(piece::BLACK).to_u8());
    assert_eq!(1, Color(piece::BLACK).to_usize());
    for kind in 0..6u8 {
        assert_eq!(Color(piece::WHITE), Piece(kind).color());
        assert_eq!(Color(piece::BLACK), Piece(kind + 6).color());
        assert_eq!(kind, Piece(kind).to_u8());
        assert_eq!(kind as usize + 6, Piece(kind + 6).to_usize());
    }
    assert_eq!(Color(piece::BLACK), Piece(piece::EMPTY).color());
    assert_eq!("White Pawn", Piece(piece::WP).as_string());
    assert_eq!("White King", Piece(piece::WK).as_string());
    assert_eq!("Black Knight", Piece(piece::BN).as_string());
    assert_eq!("Black Queen", Piece(piece::BQ).as_string());
    assert_eq!("Empty Sqaure", Piece(piece::EMPTY).as_string());
}
