use rust_chess_engine::square;
use rust_chess_engine::square::Square;

#[test]
fn square_test_square_from() {
    let file1 = 0;
    let file2 = -1;
    let rank1 = 5;

    assert_eq!(Square::from(file1, rank1), Some(Square(square::A6)));
    assert_eq!(Square::from(file2, rank1), None);
}

#[test]
fn test_square_test_square_from() {
    let file1 = 0;
    let file2 = -1;
    let rank1 = 5;

    assert_eq!(Some(Square(square::A6)), Square::from(file1, rank1));
    assert_eq!(None, Square::from(file2, rank1));
}

#[test]
fn test_square_from_string() {
    assert_eq!(Some(Square(square::D4)), Square::from_string("d4"));
    assert_eq!(Some(Square(square::E5)), Square::from_string("e5"));
}

#[test]
fn test_square_get_neighbors() {
    let d4 = Square(square::D4);
    assert_eq!(Some(Square(square::D5)), d4.north());
    assert_eq!(Some(Square(square::E5)), d4.north_east());
    assert_eq!(Some(Square(square::E4)), d4.east());
    assert_eq!(Some(Square(square::E3)), d4.south_east());
    assert_eq!(Some(Square(square::D3)), d4.south());
    assert_eq!(Some(Square(square::C3)), d4.south_west());
    assert_eq!(Some(Square(square::C4)), d4.west());
    assert_eq!(Some(Square(square::C5)), d4.north_west());

    assert_eq!(None, Square(square::A1).south());
    assert_eq!(None, Square(square::H5).east());
    assert_eq!(Some(Square(square::C8)), Square(square::C7).north());
    assert_eq!(None, Square(square::C8).north());
}

#[test]
fn test_square_parts() {
    let e4 = Square(square::E4);
    assert_eq!(28, e4.to_u8());
    assert_eq!(4, e4.file());
    assert_eq!(3, e4.rank());
    assert_eq!(28, e4.to_i8());
    assert_eq!(28, e4.to_u16());
    assert_eq!(28, e4.to_usize());
    assert_eq!("e4", e4.as_string());
    assert_eq!("a1", Square(0).as_string());
    assert_eq!("h8", Square(63).as_string());
    assert_eq!("Inavlid", Square(64).as_string());
    assert_eq!(-1, Square(255).to_i8());
}

#[test]
fn test_square_from_covers_the_board() {
    for rank in 0..8i8 {
        for file in 0..8i8 {
            let sq = Square::from(file, rank).unwrap();
            assert_eq!((rank * 8 + file) as u8, sq.0);
            assert_eq!(file as u8, sq.file());
            assert_eq!(rank as u8, sq.rank());
            assert_eq!(Some(sq), Square::from_string(sq.as_string()));
        }
    }
    assert_eq!(None, Square::from(8, 0));
    assert_eq!(None, Square::from(0, 8));
    assert_eq!(None, Square::from(0, -1));
}

#[test]
fn test_square_from_string_refuses_other_text() {
    assert_eq!(None, Square::from_string(""));
    assert_eq!(None, Square::from_string("e"));
    assert_eq!(None, Square::from_string("e44"));
    assert_eq!(None, Square::from_string("i4"));
    assert_eq!(None, Square::from_string("e9"));
    assert_eq!(None, Square::from_string("e0"));
    assert_eq!(None, Square::from_string("E4"));
    assert_eq!(None, Square::from_string("4e"));
}

#[test]
fn test_neighbours_at_the_corners() {
    let a1 = Square(square::A1);
    assert_eq!(None, a1.south());
    assert_eq!(None, a1.west());
    assert_eq!(None, a1.south_west());
    assert_eq!(None, a1.south_east());
    assert_eq!(None, a1.north_west());
    assert_eq!(Some(Square(square::B2)), a1.north_east());
    let h8 = Square(square::H8);
    assert_eq!(None, h8.north());
    assert_eq!(None, h8.east());
    assert_eq!(None, h8.north_east());
    assert_eq!(None, h8.north_west());
    assert_eq!(None, h8.south_east());
    assert_eq!(Some(Square(square::G7)), h8.south_west());
}
