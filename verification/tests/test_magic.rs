use rust_chess_engine::bitboard::BitBoard;
use rust_chess_engine::masks;
use rust_chess_engine::movegen::constants::{BISHOP_MAGIC_NUMBERS, ROOK_MAGICS_NUMBERS};
use rust_chess_engine::movegen::magic::{
    find_bishop_magics, find_magic_for_bishop_at_sqaure, find_magic_for_rook_at_sqaure,
    find_magic_for_square, find_rook_magics,
};
use rust_chess_engine::movegen::sliding::{
    build_attacks_table, enumerate_occupancies, generate_bishop_attacks, generate_occupancy,
    generate_relevant_occupancy_mask_at_square, generate_rook_attacks, get_bishop_attacks,
    get_rook_attacks, init_attacks_table_for_square, init_magic, try_magic, MagicAttackTable,
};
use rust_chess_engine::square::{self, Square};

#[test]
fn test_relevant_masks() {
    let a1 = Square(square::A1);
    let d4 = Square(square::D4);
    assert_eq!(
        BitBoard(0x0001_0101_0101_017E),
        generate_relevant_occupancy_mask_at_square(a1, false)
    );
    assert_eq!(
        BitBoard(0x0040_2010_0804_0200),
        generate_relevant_occupancy_mask_at_square(a1, true)
    );
    assert_eq!(
        BitBoard(0x0008_0808_7608_0800),
        generate_relevant_occupancy_mask_at_square(d4, false)
    );
    assert_eq!(
        BitBoard(0x0040_2214_0014_2200),
        generate_relevant_occupancy_mask_at_square(d4, true)
    );
    // corner rooks need twelve index bits, corner bishops six
    assert_eq!(12, generate_relevant_occupancy_mask_at_square(a1, false).pop_count());
    assert_eq!(6, generate_relevant_occupancy_mask_at_square(a1, true).pop_count());
    assert_eq!(12, generate_relevant_occupancy_mask_at_square(Square(square::H8), false).pop_count());
    assert_eq!(5, generate_relevant_occupancy_mask_at_square(Square(square::B1), true).pop_count());
}

#[test]
fn test_generate_occupancy() {
    let mask = BitBoard(0b1011_0100);
    assert_eq!(BitBoard(0), generate_occupancy(mask, 0));
    assert_eq!(BitBoard(0b0000_0100), generate_occupancy(mask, 1));
    assert_eq!(BitBoard(0b0001_0000), generate_occupancy(mask, 2));
    assert_eq!(BitBoard(0b1000_0100), generate_occupancy(mask, 0b1001));
    assert_eq!(mask, generate_occupancy(mask, 0b1111));
    // bits of the index beyond the size of the mask are ignored
    assert_eq!(mask, generate_occupancy(mask, 0b11_1111));
    assert_eq!(BitBoard(0), generate_occupancy(BitBoard(0), 5));
}

#[test]
fn test_ray_walks_stop_at_the_first_blocker() {
    let d4 = Square(square::D4);
    let occ = BitBoard((1u64 << square::D6) | (1u64 << square::D7) | (1u64 << square::F4));
    assert_eq!(
        BitBoard(
            (1u64 << square::D5)
                | (1u64 << square::D6)
                | (1u64 << square::E4)
                | (1u64 << square::F4)
                | (1u64 << square::D3)
                | (1u64 << square::D2)
                | (1u64 << square::D1)
                | (1u64 << square::C4)
                | (1u64 << square::B4)
                | (1u64 << square::A4)
        ),
        generate_rook_attacks(d4, occ)
    );
    assert_eq!(BitBoard(0x8041_2214_0014_2241), generate_bishop_attacks(d4, BitBoard(0)));
    assert_eq!(
        BitBoard(masks::FILE_A ^ masks::RANK_1),
        generate_rook_attacks(Square(square::A1), BitBoard(0))
    );
}

#[test]
fn test_tables_agree_with_the_ray_walk() {
    let tables = init_magic().unwrap();
    let mut occ: u64 = 0x9E37_79B9_7F4A_7C15;
    for round in 0..200u64 {
        occ = occ.wrapping_mul(0xD129_0E3B_5F6A_7C4D).rotate_left(17) ^ round;
        let board = BitBoard(occ & occ.rotate_left(23));
        for index in 0..64u8 {
            let sq = Square(index);
            assert_eq!(generate_rook_attacks(sq, board), get_rook_attacks(&tables, sq, board));
            assert_eq!(generate_bishop_attacks(sq, board), get_bishop_attacks(&tables, sq, board));
        }
    }
}

#[test]
fn test_table_shape() {
    let table = init_attacks_table_for_square(Square(square::A1), false).unwrap();
    assert_eq!(12, table.shift);
    assert_eq!(4096, table.attacks.len());
    assert_eq!(BitBoard(ROOK_MAGICS_NUMBERS[0]), table.magic);
    assert_eq!(BitBoard(0x0001_0101_0101_017E), table.relevant_occupancy_mask);
    let occ = BitBoard(0xFFFF_0000_0000_FFFF);
    let expected = ((occ.0 & table.relevant_occupancy_mask.0).wrapping_mul(table.magic.0)) >> 52;
    assert_eq!(expected as usize, table.generate_hash(occ));
    assert_eq!(
        BitBoard((1u64 << square::A2) | (1u64 << square::B1)),
        table.attacks[table.generate_hash(occ)]
    );
    let table = init_attacks_table_for_square(Square(square::H8), true).unwrap();
    assert_eq!(6, table.shift);
    assert_eq!(64, table.attacks.len());
    assert_eq!(BitBoard(BISHOP_MAGIC_NUMBERS[63]), table.magic);
    let empty = MagicAttackTable::new();
    assert_eq!(0, empty.shift);
    assert!(empty.attacks.is_empty());
}

#[test]
fn test_a_bad_multiplier_is_refused() {
    let sq = Square(square::D4);
    assert!(build_attacks_table(sq, false, BitBoard(0)).is_none());
    assert!(build_attacks_table(sq, false, BitBoard(1)).is_none());
    assert!(build_attacks_table(sq, true, BitBoard(0)).is_none());
    assert!(build_attacks_table(sq, false, BitBoard(ROOK_MAGICS_NUMBERS[27])).is_some());
    assert!(build_attacks_table(sq, true, BitBoard(BISHOP_MAGIC_NUMBERS[27])).is_some());
}

#[test]
fn test_try_magic_fills_the_table() {
    let sq = Square(square::H8);
    let mask = generate_relevant_occupancy_mask_at_square(sq, true);
    let (patterns, attacks) = enumerate_occupancies(sq, true, mask, 6);
    assert_eq!(64, patterns.len());
    assert_eq!(BitBoard(0), patterns[0]);
    assert_eq!(mask, patterns[63]);
    assert_eq!(generate_bishop_attacks(sq, patterns[37]), attacks[37]);
    let magic = BitBoard(BISHOP_MAGIC_NUMBERS[63]);
    let table = try_magic(&patterns, &attacks, magic, 6).unwrap();
    assert_eq!(64, table.len());
    for i in 0..64 {
        let slot = (patterns[i].0.wrapping_mul(magic.0) >> 58) as usize;
        assert_eq!(attacks[i], table[slot]);
    }
    assert!(try_magic(&patterns, &attacks, BitBoard(0), 6).is_none());
}

#[test]
fn test_magic_search_finds_working_multipliers() {
    fastrand::seed(9000);
    let sq = Square(square::H8);
    let magic = find_magic_for_bishop_at_sqaure(sq, 1_000_000).unwrap();
    assert!(magic.0 > 1);
    assert!(build_attacks_table(sq, true, magic).is_some());
    let sq = Square(square::D4);
    let magic = find_magic_for_rook_at_sqaure(sq, 10_000_000).unwrap();
    assert!(magic.0 > 1);
    assert!(build_attacks_table(sq, false, magic).is_some());
    // without attempts nothing is found
    assert_eq!(None, find_magic_for_rook_at_sqaure(sq, 0));
    let mask = generate_relevant_occupancy_mask_at_square(Square(square::A1), true);
    let (patterns, attacks) = enumerate_occupancies(Square(square::A1), true, mask, 6);
    let magic = find_magic_for_square(&patterns, &attacks, 6, 1_000_000).unwrap();
    assert!(try_magic(&patterns, &attacks, magic, 6).is_some());
}

#[test]
fn test_magic_search_over_the_board() {
    fastrand::seed(9000);
    let found = find_bishop_magics(1_000_000);
    assert_eq!(64, found.len());
    for (index, entry) in found.iter().enumerate() {
        let magic = entry.expect("a bishop multiplier within a million candidates");
        assert!(build_attacks_table(Square(index as u8), true, magic).is_some());
    }
    let none = find_rook_magics(0);
    assert_eq!(64, none.len());
    assert!(none.iter().all(|entry| entry.is_none()));
}

#[test]
fn test_magic_search_cannot_fail_where_every_draw_fits() {
    // without patterns every multiplier fits, and so does the first draw
    let found = find_magic_for_square(&Vec::new(), &Vec::new(), 6, 1).unwrap();
    assert!(found.0 < u64::MAX);
    // with one attack set for all patterns no collision does harm
    let patterns = vec![BitBoard(1), BitBoard(2), BitBoard(3)];
    let attacks = vec![BitBoard(7), BitBoard(7), BitBoard(7)];
    let found = find_magic_for_square(&patterns, &attacks, 1, 1).unwrap();
    assert!(try_magic(&patterns, &attacks, found, 1).is_some());
    // without an attempt nothing is found even then
    assert_eq!(None, find_magic_for_square(&patterns, &attacks, 1, 0));
}
