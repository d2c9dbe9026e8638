use rust_chess_engine::bitboard::BitBoard;
use rust_chess_engine::masks;
use rust_chess_engine::movegen::non_sliding::{
    get_king_attacks, get_knight_attacks, init_non_sliding_attacks,
};
use rust_chess_engine::movegen::sliding::{
    generate_slider_attacks_in_direction, get_bishop_attacks, get_queen_attacks,
    get_rook_attacks, init_magic,
};
use rust_chess_engine::square;
use rust_chess_engine::square::{Direction, Square};

#[test]
fn test_get_non_sliding_attacks() {
    let tables = init_non_sliding_attacks();

    let sq1 = Square(square::A4);
    let sq2 = Square(square::B4);

    assert_eq!(BitBoard(0x0000000302030000), get_king_attacks(&tables, sq1));
    assert_eq!(BitBoard(0x0000020400040200), get_knight_attacks(&tables, sq1));

    assert_eq!(BitBoard(0x0000000705070000), get_king_attacks(&tables, sq2));
    assert_eq!(BitBoard(0x0000050800080500), get_knight_attacks(&tables, sq2));
}

#[test]
fn test_get_sliding_attacks() {
    let tables = init_magic().unwrap();

    assert_eq!(
        BitBoard(0x00080808f4080808),
        get_rook_attacks(&tables, Square(square::D4), BitBoard(0x0008001404002200))
    );
    assert_eq!(
        BitBoard(0x0000001400142200),
        get_bishop_attacks(&tables, Square(square::D4), BitBoard(0x0008001404002200))
    );
    assert_eq!(
        BitBoard(0x0008081cf41c2a08),
        get_queen_attacks(&tables, Square(square::D4), BitBoard(0x0008001404002200))
    );

    assert_eq!(
        BitBoard(0x0000000101010201),
        get_rook_attacks(&tables, Square(square::A2), BitBoard(0x0008001504002200))
    );
    assert_eq!(
        BitBoard(0x0000000004020002),
        get_bishop_attacks(&tables, Square(square::A2), BitBoard(0x0008001504002200))
    );
    assert_eq!(
        BitBoard(0x0000000105030203),
        get_queen_attacks(&tables, Square(square::A2), BitBoard(0x0008001504002200))
    );
}

#[test]
fn test_generate_slider_attacks_in_direction() {
    let sq1 = Square(square::A1);
    let direction1 = Direction::North;
    let occ1 = BitBoard(1u64 << square::A7);

    let sq2 = Square(square::D4);
    let direction2 = Direction::NorthEast;
    let occ2 = BitBoard(1u64 << square::G7);

    assert_eq!(
        generate_slider_attacks_in_direction(sq1, occ1, direction1),
        BitBoard(masks::FILE_A - (1u64 << square::A1) - (1u64 << square::A8))
    );

    assert_eq!(
        generate_slider_attacks_in_direction(sq2, occ2, direction2),
        BitBoard((1u64 << square::E5) + (1u64 << square::F6) + (1u64 << square::G7))
    );
}

#[test]
fn test_leapers_at_the_rim() {
    let tables = init_non_sliding_attacks();
    assert_eq!(
        BitBoard((1u64 << square::A2) | (1u64 << square::B1) | (1u64 << square::B2)),
        get_king_attacks(&tables, Square(square::A1))
    );
    assert_eq!(
        BitBoard((1u64 << square::B3) | (1u64 << square::C2)),
        get_knight_attacks(&tables, Square(square::A1))
    );
    assert_eq!(
        BitBoard((1u64 << square::G8) | (1u64 << square::G7) | (1u64 << square::H7)),
        get_king_attacks(&tables, Square(square::H8))
    );
    assert_eq!(
        BitBoard((1u64 << square::F7) | (1u64 << square::G6)),
        get_knight_attacks(&tables, Square(square::H8))
    );
    assert_eq!(8, get_king_attacks(&tables, Square(square::E4)).pop_count());
    assert_eq!(8, get_knight_attacks(&tables, Square(square::E4)).pop_count());
}
