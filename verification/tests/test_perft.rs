use rust_chess_engine::board::Board;
use rust_chess_engine::movegen;
use rust_chess_engine::perft;

#[test]
fn test_perft_default_depth_1() {
    let tables = movegen::init().unwrap();
    let fen = "rnbqkbnr/pppppppp/8/8/8/8/PPPPPPPP/RNBQKBNR w KQkq - 0 1";
    assert_eq!(
        20,
        perft::run(1, &mut Board::from(fen).unwrap(), &tables).unwrap()
    );
}

#[test]
fn test_perft_default_depth_2() {
    let tables = movegen::init().unwrap();
    let fen = "rnbqkbnr/pppppppp/8/8/8/8/PPPPPPPP/RNBQKBNR w KQkq - 0 1";
    assert_eq!(
        400,
        perft::run(2, &mut Board::from(fen).unwrap(), &tables).unwrap()
    );
}

#[test]
fn test_perft_default_depth_3() {
    let tables = movegen::init().unwrap();
    let fen = "rnbqkbnr/pppppppp/8/8/8/8/PPPPPPPP/RNBQKBNR w KQkq - 0 1";
    assert_eq!(
        8902,
        perft::run(3, &mut Board::from(fen).unwrap(), &tables).unwrap()
    );
}

#[test]
fn test_perft_default_depth_4() {
    let tables = movegen::init().unwrap();
    let fen = "rnbqkbnr/pppppppp/8/8/8/8/PPPPPPPP/RNBQKBNR w KQkq - 0 1";
    assert_eq!(
        197281,
        perft::run(4, &mut Board::from(fen).unwrap(), &tables).unwrap()
    );
}

#[test]
fn test_perft_default_depth_5() {
    let tables = movegen::init().unwrap();
    let fen = "rnbqkbnr/pppppppp/8/8/8/8/PPPPPPPP/RNBQKBNR w KQkq - 0 1";
    assert_eq!(
        4865609,
        perft::run(5, &mut Board::from(fen).unwrap(), &tables).unwrap()
    );
}

#[test]
fn test_perft_kiwi_depth_1() {
    let tables = movegen::init().unwrap();
    let fen = "r3k2r/p1ppqpb1/bn2pnp1/3PN3/1p2P3/2N2Q1p/PPPBBPPP/R3K2R w KQkq - 0 1";
    assert_eq!(
        48,
        perft::run(1, &mut Board::from(fen).unwrap(), &tables).unwrap()
    );
}

#[test]
fn test_perft_kiwi_depth_2() {
    let tables = movegen::init().unwrap();
    let fen = "r3k2r/p1ppqpb1/bn2pnp1/3PN3/1p2P3/2N2Q1p/PPPBBPPP/R3K2R w KQkq - 0 1";
    assert_eq!(
        2039,
        perft::run(2, &mut Board::from(fen).unwrap(), &tables).unwrap()
    );
}

#[test]
fn test_perft_kiwi_depth_3() {
    let tables = movegen::init().unwrap();
    let fen = "r3k2r/p1ppqpb1/bn2pnp1/3PN3/1p2P3/2N2Q1p/PPPBBPPP/R3K2R w KQkq - 0 1";
    assert_eq!(
        97862,
        perft::run(3, &mut Board::from(fen).unwrap(), &tables).unwrap()
    );
}

#[test]
fn test_perft_kiwi_depth_4() {
    let tables = movegen::init().unwrap();
    let fen = "r3k2r/p1ppqpb1/bn2pnp1/3PN3/1p2P3/2N2Q1p/PPPBBPPP/R3K2R w KQkq - 0 1";
    assert_eq!(
        4085603,
        perft::run(4, &mut Board::from(fen).unwrap(), &tables).unwrap()
    );
}

#[test]
fn test_perft_position_3_depth_1() {
    let tables = movegen::init().unwrap();
    let fen = "8/2p5/3p4/KP5r/1R3p1k/8/4P1P1/8 w - - 0 1";
    assert_eq!(
        14,
        perft::run(1, &mut Board::from(fen).unwrap(), &tables).unwrap()
    );
}

#[test]
fn test_perft_position_3_depth_2() {
    let tables = movegen::init().unwrap();
    let fen = "8/2p5/3p4/KP5r/1R3p1k/8/4P1P1/8 w - - 0 1";
    assert_eq!(
        191,
        perft::run(2, &mut Board::from(fen).unwrap(), &tables).unwrap()
    );
}

#[test]
fn test_perft_position_3_depth_3() {
    let tables = movegen::init().unwrap();
    let fen = "8/2p5/3p4/KP5r/1R3p1k/8/4P1P1/8 w - - 0 1";
    assert_eq!(
        2812,
        perft::run(3, &mut Board::from(fen).unwrap(), &tables).unwrap()
    );
}

#[test]
fn test_perft_position_3_depth_4() {
    let tables = movegen::init().unwrap();
    let fen = "8/2p5/3p4/KP5r/1R3p1k/8/4P1P1/8 w - - 0 1";
    assert_eq!(
        43238,
        perft::run(4, &mut Board::from(fen).unwrap(), &tables).unwrap()
    );
}

#[test]
fn test_perft_position_3_depth_5() {
    let tables = movegen::init().unwrap();
    let fen = "8/2p5/3p4/KP5r/1R3p1k/8/4P1P1/8 w - - 0 1";
    assert_eq!(
        674624,
        perft::run(5, &mut Board::from(fen).unwrap(), &tables).unwrap()
    );
}

#[test]
fn test_perft_position_3_depth_6() {
    let tables = movegen::init().unwrap();
    let fen = "8/2p5/3p4/KP5r/1R3p1k/8/4P1P1/8 w - - 0 1";
    assert_eq!(
        11030083,
        perft::run(6, &mut Board::from(fen).unwrap(), &tables).unwrap()
    );
}

#[test]
fn test_perft_position_4_depth_1() {
    let tables = movegen::init().unwrap();
    let fen = "r3k2r/Pppp1ppp/1b3nbN/nP6/BBP1P3/q4N2/Pp1P2PP/R2Q1RK1 w kq - 0 1";
    assert_eq!(
        6,
        perft::run(1, &mut Board::from(fen).unwrap(), &tables).unwrap()
    );
}

#[test]
fn test_perft_position_4_depth_2() {
    let tables = movegen::init().unwrap();
    let fen = "r3k2r/Pppp1ppp/1b3nbN/nP6/BBP1P3/q4N2/Pp1P2PP/R2Q1RK1 w kq - 0 1";
    assert_eq!(
        264,
        perft::run(2, &mut Board::from(fen).unwrap(), &tables).unwrap()
    );
}

#[test]
fn test_perft_position_4_depth_3() {
    let tables = movegen::init().unwrap();
    let fen = "r3k2r/Pppp1ppp/1b3nbN/nP6/BBP1P3/q4N2/Pp1P2PP/R2Q1RK1 w kq - 0 1";
    assert_eq!(
        9467,
        perft::run(3, &mut Board::from(fen).unwrap(), &tables).unwrap()
    );
}

#[test]
fn test_perft_position_4_depth_4() {
    let tables = movegen::init().unwrap();
    let fen = "r3k2r/Pppp1ppp/1b3nbN/nP6/BBP1P3/q4N2/Pp1P2PP/R2Q1RK1 w kq - 0 1";
    assert_eq!(
        422333,
        perft::run(4, &mut Board::from(fen).unwrap(), &tables).unwrap()
    );
}

#[test]
fn test_perft_position_4_depth_5() {
    let tables = movegen::init().unwrap();
    let fen = "r3k2r/Pppp1ppp/1b3nbN/nP6/BBP1P3/q4N2/Pp1P2PP/R2Q1RK1 w kq - 0 1";
    assert_eq!(
        15833292,
        perft::run(5, &mut Board::from(fen).unwrap(), &tables).unwrap()
    );
}

#[test]
fn test_perft_position_5_depth_1() {
    let tables = movegen::init().unwrap();
    let fen = "rnbq1k1r/pp1Pbppp/2p5/8/2B5/8/PPP1NnPP/RNBQK2R w KQ - 1 8";
    assert_eq!(
        44,
        perft::run(1, &mut Board::from(fen).unwrap(), &tables).unwrap()
    );
}

#[test]
fn test_perft_position_5_depth_2() {
    let tables = movegen::init().unwrap();
    let fen = "rnbq1k1r/pp1Pbppp/2p5/8/2B5/8/PPP1NnPP/RNBQK2R w KQ - 1 8";
    assert_eq!(
        1486,
        perft::run(2, &mut Board::from(fen).unwrap(), &tables).unwrap()
    );
}

#[test]
fn test_perft_position_5_depth_3() {
    let tables = movegen::init().unwrap();
    let fen = "rnbq1k1r/pp1Pbppp/2p5/8/2B5/8/PPP1NnPP/RNBQK2R w KQ - 1 8";
    assert_eq!(
        62379,
        perft::run(3, &mut Board::from(fen).unwrap(), &tables).unwrap()
    );
}

#[test]
fn test_perft_position_5_depth_4() {
    let tables = movegen::init().unwrap();
    let fen = "rnbq1k1r/pp1Pbppp/2p5/8/2B5/8/PPP1NnPP/RNBQK2R w KQ - 1 8";
    assert_eq!(
        2103487,
        perft::run(4, &mut Board::from(fen).unwrap(), &tables).unwrap()
    );
}

#[test]
fn test_perft_position_5_depth_5() {
    let tables = movegen::init().unwrap();
    let fen = "rnbq1k1r/pp1Pbppp/2p5/8/2B5/8/PPP1NnPP/RNBQK2R w KQ - 1 8";
    assert_eq!(
        89941194,
        perft::run(5, &mut Board::from(fen).unwrap(), &tables).unwrap()
    );
}

#[test]
fn test_perft_position_6_depth_1() {
    let tables = movegen::init().unwrap();
    let fen = "r4rk1/1pp1qppp/p1np1n2/2b1p1B1/2B1P1b1/P1NP1N2/1PP1QPPP/R4RK1 w - - 0 10";
    assert_eq!(
        46,
        perft::run(1, &mut Board::from(fen).unwrap(), &tables).unwrap()
    );
}

#[test]
fn test_perft_position_6_depth_2() {
    let tables = movegen::init().unwrap();
    let fen = "r4rk1/1pp1qppp/p1np1n2/2b1p1B1/2B1P1b1/P1NP1N2/1PP1QPPP/R4RK1 w - - 0 10";
    assert_eq!(
        2079,
        perft::run(2, &mut Board::from(fen).unwrap(), &tables).unwrap()
    );
}

#[test]
fn test_perft_position_6_depth_3() {
    let tables = movegen::init().unwrap();
    let fen = "r4rk1/1pp1qppp/p1np1n2/2b1p1B1/2B1P1b1/P1NP1N2/1PP1QPPP/R4RK1 w - - 0 10";
    assert_eq!(
        89890,
        perft::run(3, &mut Board::from(fen).unwrap(), &tables).unwrap()
    );
}

#[test]
fn test_perft_position_6_depth_4() {
    let tables = movegen::init().unwrap();
    let fen = "r4rk1/1pp1qppp/p1np1n2/2b1p1B1/2B1P1b1/P1NP1N2/1PP1QPPP/R4RK1 w - - 0 10";
    assert_eq!(
        3894594,
        perft::run(4, &mut Board::from(fen).unwrap(), &tables).unwrap()
    );
}

#[test]
fn test_perft_depth_0_counts_the_position() {
    let tables = movegen::init().unwrap();
    assert_eq!(1, perft::run(0, &mut Board::new(), &tables).unwrap());
}

#[test]
fn test_perft_leaves_the_board_unchanged() {
    let tables = movegen::init().unwrap();
    let fen = "r3k2r/p1ppqpb1/bn2pnp1/3PN3/1p2P3/2N2Q1p/PPPBBPPP/R3K2R w KQkq - 0 1";
    let mut board = Board::from(fen).unwrap();
    perft::run(3, &mut board, &tables).unwrap();
    assert_eq!(Board::from(fen).unwrap(), board);
}

#[test]
fn test_perft_divided_sums_to_perft() {
    let tables = movegen::init().unwrap();
    let fen = "r3k2r/p1ppqpb1/bn2pnp1/3PN3/1p2P3/2N2Q1p/PPPBBPPP/R3K2R w KQkq - 0 1";
    let mut board = Board::from(fen).unwrap();
    let divided = perft::run_divided(3, &mut board, &tables).unwrap();
    assert_eq!(48, divided.len());
    let mut total = 0;
    for (_, count) in &divided {
        total += count;
    }
    assert_eq!(97862, total);
    assert_eq!(Board::from(fen).unwrap(), board);
}

#[test]
fn test_perft_divided_opening() {
    let tables = movegen::init().unwrap();
    let divided = perft::run_divided(2, &mut Board::new(), &tables).unwrap();
    assert_eq!(20, divided.len());
    assert_eq!(("a2a3".to_string(), 20), divided[0]);
    for (_, count) in &divided {
        assert_eq!(20, *count);
    }
}

#[test]
fn test_perft_divided_lists_legal_moves_only() {
    let tables = movegen::init().unwrap();
    // the white king is in check by the rook: only moves that end the check are listed
    let mut board = Board::from("4r2k/8/8/8/8/8/8/4K3 w - - 0 1").unwrap();
    let divided = perft::run_divided(1, &mut board, &tables).unwrap();
    let names: Vec<String> = divided.iter().map(|entry| entry.0.clone()).collect();
    assert_eq!(vec!["e1d1", "e1f1", "e1d2", "e1f2"], names);
}

#[test]
fn test_perft_refuses_a_board_without_king() {
    let tables = movegen::init().unwrap();
    let mut board = Board::from("8/8/8/8/8/8/8/8 w - - 0 1").unwrap();
    assert!(perft::run(1, &mut board, &tables).is_err());
    assert!(perft::run_divided(1, &mut board, &tables).is_err());
    assert_eq!(Ok(1), perft::run(0, &mut board, &tables));
}

#[test]
fn test_perft_refuses_an_unsound_board() {
    let tables = movegen::init().unwrap();
    // castling right without the king on its home square
    let mut board = Board::from("4k3/8/8/8/8/8/8/R2K3R w K - 0 1").unwrap();
    assert!(!board.is_sound());
    assert!(perft::run(1, &mut board, &tables).is_err());
    // en-passant target without a pawn in front of it
    let mut board = Board::from("4k3/8/8/8/8/8/8/4K3 w - e6 0 1").unwrap();
    assert!(!board.is_sound());
    assert!(perft::run(1, &mut board, &tables).is_err());
    assert!(perft::run_divided(1, &mut board, &tables).is_err());
    // at depth zero the position counts whatever it is
    assert_eq!(Ok(1), perft::run(0, &mut board, &tables));
}
