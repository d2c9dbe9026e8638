use rust_chess_engine::board::Board;
use rust_chess_engine::fen::{board_to_fen, fen_to_board};

#[test]
fn test_fen_to_board() {
    let fen = "rnbqkbnr/pppppppp/8/8/8/8/PPPPPPPP/RNBQKBNR w KQkq - 0 1";

    assert_eq!(Ok(Board::new()), Board::from(fen));
}

#[test]
fn test_board_to_fen() {
    let fen = "rnbqkbnr/pppppppp/8/8/8/8/PPPPPPPP/RNBQKBNR w KQkq - 0 1";

    assert_eq!(fen, Board::new().to_fen());
}

#[test]
fn test_fen_default() {
    let fen = "rnbqkbnr/pppppppp/8/8/8/8/PPPPPPPP/RNBQKBNR w KQkq - 0 1";
    let board = Board::from(fen).unwrap();
    assert_eq!(fen, board.to_fen());
}

#[test]
fn test_fen_mid_game1() {
    let fen = "5rk1/2b1qp1p/1r2p1pB/1ppnn3/3pN3/1P1P2P1/2P1QPBP/R4RK1 b - - 7 22";
    let board = Board::from(fen).unwrap();
    assert_eq!(fen, board.to_fen());
}

#[test]
fn test_fen_mid_game2() {
    let fen = "2k4r/1p3pp1/p2p2n1/2P1p2q/P1P1P3/3PBPP1/2R3Qr/5RK1 b - - 2 22";
    let board = Board::from(fen).unwrap();
    assert_eq!(fen, board.to_fen());
}

#[test]
fn test_fen_mid_game3() {
    let fen = "r6k/p1B4p/Pp3rp1/3p4/2nP4/2PQ1PPq/7P/1R3RK1 b - - 0 32";
    let board = Board::from(fen).unwrap();
    assert_eq!(fen, board.to_fen());
}

#[test]
fn test_fen_en_passant1() {
    let fen = "r3kb2/p4pp1/2q1p3/1pP1n1N1/3B2nr/1QP1P3/PP1N3P/R2R2K1 w q b6 0 2";
    let board = Board::from(fen).unwrap();
    assert_eq!(fen, board.to_fen());
}

#[test]
fn test_fen_en_passant2() {
    let fen = "rn1qkbnr/pp3ppp/4p3/3pPb2/1PpP4/4BN2/P1P1BPPP/RN1QK2R b KQkq b3 0 2";
    let board = Board::from(fen).unwrap();
    assert_eq!(fen, board.to_fen());
}

#[test]
fn test_fen_en_passant3() {
    let fen = "rnbqkbnr/pp1p1ppp/8/2pPp3/8/8/PPP1PPPP/RNBQKBNR w KQkq e6 0 2";
    let board = Board::from(fen).unwrap();
    assert_eq!(fen, board.to_fen());
}

#[test]
fn test_fen_end_game1() {
    let fen = "8/8/6Q1/8/6k1/1P2q3/7p/7K b - - 14 75";
    let board = Board::from(fen).unwrap();
    assert_eq!(fen, board.to_fen());
}

#[test]
fn test_fen_end_game2() {
    let fen = "8/8/4nPk1/8/6pK/8/1R3P1P/2B3r1 b - - 1 54";
    let board = Board::from(fen).unwrap();
    assert_eq!(fen, board.to_fen());
}

#[test]
fn test_fen_end_game3() {
    let fen = "8/7q/5K2/2q5/6k1/8/8/8 b - - 5 60";
    let board = Board::from(fen).unwrap();
    assert_eq!(fen, board.to_fen());
}

#[test]
fn test_fen_boards_round_trip() {
    let corpus = [
        "rnbqkbnr/pppppppp/8/8/8/8/PPPPPPPP/RNBQKBNR w KQkq - 0 1",
        "5rk1/2b1qp1p/1r2p1pB/1ppnn3/3pN3/1P1P2P1/2P1QPBP/R4RK1 b - - 7 22",
        "2k4r/1p3pp1/p2p2n1/2P1p2q/P1P1P3/3PBPP1/2R3Qr/5RK1 b - - 2 22",
        "r6k/p1B4p/Pp3rp1/3p4/2nP4/2PQ1PPq/7P/1R3RK1 b - - 0 32",
        "r3kb2/p4pp1/2q1p3/1pP1n1N1/3B2nr/1QP1P3/PP1N3P/R2R2K1 w q b6 0 2",
        "rn1qkbnr/pp3ppp/4p3/3pPb2/1PpP4/4BN2/P1P1BPPP/RN1QK2R b KQkq b3 0 2",
        "rnbqkbnr/pp1p1ppp/8/2pPp3/8/8/PPP1PPPP/RNBQKBNR w KQkq e6 0 2",
        "8/8/6Q1/8/6k1/1P2q3/7p/7K b - - 14 75",
        "8/8/4nPk1/8/6pK/8/1R3P1P/2B3r1 b - - 1 54",
        "8/7q/5K2/2q5/6k1/8/8/8 b - - 5 60",
    ];
    for fen in corpus {
        let board = fen_to_board(fen).unwrap();
        let again = fen_to_board(&board_to_fen(&board)).unwrap();
        assert_eq!(board, again);
    }
}

#[test]
fn test_fen_too_few_fields() {
    assert_eq!(Err("invalid FEN: too few fields"), Board::from("8/8/8/8/8/8/8/8 w - - 0"));
    assert_eq!(Err("invalid FEN: too few fields"), Board::from(""));
}

#[test]
fn test_fen_bad_pieces() {
    assert_eq!(Err("invalid FEN: pieces"), Board::from("8/8/8/8/8/8/8/7x w - - 0 1"));
    assert_eq!(Err("invalid FEN: pieces"), Board::from("8/8/8/8/8/8/8/9 w - - 0 1"));
    assert_eq!(Err("invalid FEN: pieces"), Board::from("8/8/8/8/8/8/8 w - - 0 1"));
    assert_eq!(Err("invalid FEN: pieces"), Board::from("8/8/8/8/8/8/8/8/8 w - - 0 1"));
    assert_eq!(Err("invalid FEN: pieces"), Board::from("ppppppppp/8/8/8/8/8/8/8 w - - 0 1"));
    assert_eq!(Err("invalid FEN: pieces"), Board::from("7/8/8/8/8/8/8/8 w - - 0 1"));
}

#[test]
fn test_fen_bad_en_passant() {
    assert_eq!(Err("invalid FEN: en passant"), Board::from("8/8/8/8/8/8/8/8 w - e9 0 1"));
    assert_eq!(Err("invalid FEN: en passant"), Board::from("8/8/8/8/8/8/8/8 w - x 0 1"));
}

#[test]
fn test_fen_bad_counters() {
    assert_eq!(Err("invalid FEN: clock/number"), Board::from("8/8/8/8/8/8/8/8 w - - x 1"));
    assert_eq!(Err("invalid FEN: clock/number"), Board::from("8/8/8/8/8/8/8/8 w - - 0 -1"));
    assert_eq!(Err("invalid FEN: clock/number"), Board::from("8/8/8/8/8/8/8/8 w - - 0 "));
    assert_eq!(
        Err("invalid FEN: clock/number"),
        Board::from("8/8/8/8/8/8/8/8 w - - 0 99999999999999999999999999")
    );
}

#[test]
fn test_fen_first_error_wins() {
    assert_eq!(Err("invalid FEN: pieces"), Board::from("x w - e9 a b"));
    assert_eq!(Err("invalid FEN: en passant"), Board::from("8/8/8/8/8/8/8/8 w - e9 a b"));
}

#[test]
fn test_fen_fields() {
    let board = Board::from("8/8/8/8/8/8/8/8 b Kq e3 12 34").unwrap();
    assert_eq!(1, board.color_to_move.0);
    assert_eq!(0b1001, board.castling_rights.bits);
    assert_eq!(1u64 << 20, board.en_passant.0);
    assert_eq!(12, board.half_move_clock);
    assert_eq!(34, board.full_move_number);
    assert_eq!("8/8/8/8/8/8/8/8 b Kq e3 12 34", board.to_fen());
}
