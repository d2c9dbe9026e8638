use rust_chess_engine::board::Board;
use rust_chess_engine::chess_move::{self, Move, MoveFlags};
use rust_chess_engine::movegen;
use rust_chess_engine::movegen::movescan::{
    scan_pawn_diagonal_attacks, scan_pawn_double_push, scan_pawn_moves, scan_pawn_single_push,
    scan_piece_moves,
};
use rust_chess_engine::movegen::pseudo::MAX_MOVES;
use rust_chess_engine::piece::{self, Color, Piece};
use rust_chess_engine::square::{self, Square};

fn mv(from: u8, to: u8, flag: u8) -> Move {
    Move::new(Square(from), Square(to), MoveFlags { bits: flag })
}

#[test]
fn test_move_packing() {
    let m = mv(square::E2, square::E4, chess_move::DOUBLE_PUSH);
    assert_eq!((1 << 12) | (28 << 6) | 12, m.0);
    assert_eq!(Square(square::E2), m.from());
    assert_eq!(Square(square::E4), m.to());
    assert_eq!(chess_move::DOUBLE_PUSH, m.flags().bits());
    assert_eq!("e2e4", m.as_string());
    let m = mv(square::H8, square::A1, chess_move::PROMOTE_CAPTURE_TO_QUEEN);
    assert_eq!(0xF000 | 63, m.0);
    assert_eq!(Square(square::H8), m.from());
    assert_eq!(Square(square::A1), m.to());
    assert_eq!(15, m.flags().bits());
    assert_eq!("h8a1", m.as_string());
}

#[test]
fn test_flag_numbers() {
    assert_eq!(0, chess_move::QUIET);
    assert_eq!(1, chess_move::DOUBLE_PUSH);
    assert_eq!(2, chess_move::SHORT_CASTLE);
    assert_eq!(3, chess_move::LONG_CASTLE);
    assert_eq!(4, chess_move::CAPTURE);
    assert_eq!(5, chess_move::EN_PASSANT);
    assert_eq!(8, chess_move::PROMOTE_TO_KNIGHT);
    assert_eq!(9, chess_move::PROMOTE_TO_BISHOP);
    assert_eq!(10, chess_move::PROMOTE_TO_ROOK);
    assert_eq!(11, chess_move::PROMOTE_TO_QUEEN);
    assert_eq!(12, chess_move::PROMOTE_CAPTURE_TO_KNIGHT);
    assert_eq!(13, chess_move::PROMOTE_CAPTURE_TO_BISHOP);
    assert_eq!(14, chess_move::PROMOTE_CAPTURE_TO_ROOK);
    assert_eq!(15, chess_move::PROMOTE_CAPTURE_TO_QUEEN);
    let promo = MoveFlags { bits: chess_move::PROMOTE_CAPTURE_TO_ROOK };
    assert!(promo.contains(MoveFlags { bits: chess_move::PROMOTE_TO_KNIGHT }));
    assert!(promo.contains(MoveFlags { bits: chess_move::CAPTURE }));
    let quiet_promo = MoveFlags { bits: chess_move::PROMOTE_TO_ROOK };
    assert!(!quiet_promo.contains(MoveFlags { bits: chess_move::CAPTURE }));
    assert!(!MoveFlags { bits: chess_move::EN_PASSANT }
        .contains(MoveFlags { bits: chess_move::PROMOTE_TO_KNIGHT }));
}

#[test]
fn test_promotion_piece() {
    assert_eq!(Piece(piece::WN), mv(48, 56, chess_move::PROMOTE_TO_KNIGHT).promotion(true));
    assert_eq!(Piece(piece::BB), mv(8, 0, chess_move::PROMOTE_TO_BISHOP).promotion(false));
    assert_eq!(Piece(piece::WR), mv(48, 57, chess_move::PROMOTE_CAPTURE_TO_ROOK).promotion(true));
    assert_eq!(Piece(piece::BQ), mv(8, 1, chess_move::PROMOTE_CAPTURE_TO_QUEEN).promotion(false));
}

#[test]
fn test_opening_moves_in_order() {
    let tables = movegen::init().unwrap();
    let board = Board::new();
    let mut moves = vec![Move(0); 218];
    let count = board.get_moves(&tables, &mut moves);
    assert_eq!(20, count);
    let mut expected = Vec::new();
    for file in 0..8u8 {
        expected.push(mv(8 + file, 16 + file, chess_move::QUIET));
    }
    for file in 0..8u8 {
        expected.push(mv(8 + file, 24 + file, chess_move::DOUBLE_PUSH));
    }
    expected.push(mv(square::B1, square::A3, chess_move::QUIET));
    expected.push(mv(square::B1, square::C3, chess_move::QUIET));
    expected.push(mv(square::G1, square::F3, chess_move::QUIET));
    expected.push(mv(square::G1, square::H3, chess_move::QUIET));
    assert_eq!(expected, moves[..count].to_vec());
    // the rest of the buffer is untouched
    assert!(moves[count..].iter().all(|m| *m == Move(0)));
}

#[test]
fn test_scan_writes_from_the_index() {
    let board = Board::new();
    let white = Color(piece::WHITE);
    let mut moves = vec![Move(7); 32];
    let next = scan_pawn_single_push(&board, white, &mut moves, 3);
    assert_eq!(11, next);
    assert_eq!(Move(7), moves[2]);
    assert_eq!(mv(square::A2, square::A3, chess_move::QUIET), moves[3]);
    assert_eq!(mv(square::H2, square::H3, chess_move::QUIET), moves[10]);
    assert_eq!(Move(7), moves[11]);
    let next = scan_pawn_double_push(&board, Color(piece::BLACK), &mut moves, next);
    assert_eq!(19, next);
    assert_eq!(mv(square::A7, square::A5, chess_move::DOUBLE_PUSH), moves[11]);
    assert_eq!(mv(square::H7, square::H5, chess_move::DOUBLE_PUSH), moves[18]);
    assert_eq!(19, scan_pawn_diagonal_attacks(&board, white, true, &mut moves, 19));
    assert_eq!(16, scan_pawn_moves(&board, white, &mut moves, 0));
}

#[test]
fn test_pawn_captures_promotions_and_en_passant() {
    let board = Board::from("4k1n1/7P/8/2pP4/8/8/p7/1N2K3 w - c6 0 1").unwrap();
    let white = Color(piece::WHITE);
    let black = Color(piece::BLACK);
    let mut moves = vec![Move(0); 32];
    // towards the a-file: the pawn on d5 takes en passant on c6, the pawn on h7 takes on g8
    let count = scan_pawn_diagonal_attacks(&board, white, true, &mut moves, 0);
    assert_eq!(
        vec![
            mv(square::D5, square::C6, chess_move::EN_PASSANT),
            mv(square::H7, square::G8, chess_move::PROMOTE_CAPTURE_TO_KNIGHT),
            mv(square::H7, square::G8, chess_move::PROMOTE_CAPTURE_TO_BISHOP),
            mv(square::H7, square::G8, chess_move::PROMOTE_CAPTURE_TO_ROOK),
            mv(square::H7, square::G8, chess_move::PROMOTE_CAPTURE_TO_QUEEN),
        ],
        moves[..count].to_vec()
    );
    // towards the h-file there is nothing to take
    assert_eq!(0, scan_pawn_diagonal_attacks(&board, white, false, &mut moves, 0));
    // single steps of white: d6, then the four promotions on h8
    let count = scan_pawn_single_push(&board, white, &mut moves, 0);
    assert_eq!(
        vec![
            mv(square::D5, square::D6, chess_move::QUIET),
            mv(square::H7, square::H8, chess_move::PROMOTE_TO_KNIGHT),
            mv(square::H7, square::H8, chess_move::PROMOTE_TO_BISHOP),
            mv(square::H7, square::H8, chess_move::PROMOTE_TO_ROOK),
            mv(square::H7, square::H8, chess_move::PROMOTE_TO_QUEEN),
        ],
        moves[..count].to_vec()
    );
    // black: the pawn on a2 takes on b1 towards the h-file and promotes; c5 steps on
    let count = scan_pawn_diagonal_attacks(&board, black, false, &mut moves, 0);
    assert_eq!(4, count);
    assert_eq!(mv(square::A2, square::B1, chess_move::PROMOTE_CAPTURE_TO_KNIGHT), moves[0]);
    assert_eq!(mv(square::A2, square::B1, chess_move::PROMOTE_CAPTURE_TO_QUEEN), moves[3]);
    assert_eq!(0, scan_pawn_diagonal_attacks(&board, black, true, &mut moves, 0));
    assert_eq!(0, scan_pawn_double_push(&board, black, &mut moves, 0));
    let count = scan_pawn_single_push(&board, black, &mut moves, 0);
    assert_eq!(5, count);
    assert_eq!(mv(square::A2, square::A1, chess_move::PROMOTE_TO_KNIGHT), moves[0]);
    assert_eq!(mv(square::C5, square::C4, chess_move::QUIET), moves[4]);
}

#[test]
fn test_double_push_needs_both_squares_empty() {
    let board = Board::from("4k3/8/8/8/1p6/P6n/PPP4P/4K3 w - - 0 1").unwrap();
    let mut moves = vec![Move(0); 32];
    let count = scan_pawn_double_push(&board, Color(piece::WHITE), &mut moves, 0);
    // a2 is blocked on a3, b2 is blocked on b4, h2 is blocked on h3: only c2 can go
    assert_eq!(vec![mv(square::C2, square::C4, chess_move::DOUBLE_PUSH)], moves[..count].to_vec());
}

#[test]
fn test_piece_moves_and_castling() {
    let tables = movegen::init().unwrap();
    let board = Board::from("r3k2r/8/8/8/8/8/8/R3K2R w KQkq - 0 1").unwrap();
    let mut moves = vec![Move(0); 64];
    let count = scan_piece_moves(&board, &tables, Piece(piece::WK), &mut moves, 0);
    assert_eq!(
        vec![
            mv(square::E1, square::D1, chess_move::QUIET),
            mv(square::E1, square::F1, chess_move::QUIET),
            mv(square::E1, square::D2, chess_move::QUIET),
            mv(square::E1, square::E2, chess_move::QUIET),
            mv(square::E1, square::F2, chess_move::QUIET),
            mv(square::E1, square::F1, chess_move::SHORT_CASTLE),
            mv(square::E1, square::C1, chess_move::LONG_CASTLE),
        ],
        moves[..count].to_vec()
    );
    let count = scan_piece_moves(&board, &tables, Piece(piece::BK), &mut moves, 0);
    assert_eq!(7, count);
    assert_eq!(mv(square::E8, square::F8, chess_move::SHORT_CASTLE), moves[5]);
    assert_eq!(mv(square::E8, square::C8, chess_move::LONG_CASTLE), moves[6]);
    // rooks: a1 first, captures flagged
    let count = scan_piece_moves(&board, &tables, Piece(piece::WR), &mut moves, 0);
    assert_eq!(19, count);
    assert_eq!(mv(square::A1, square::B1, chess_move::QUIET), moves[0]);
    assert_eq!(mv(square::A1, square::A8, chess_move::CAPTURE), moves[9]);
    assert_eq!(mv(square::H1, square::H8, chess_move::CAPTURE), moves[18]);
    assert_eq!(0, scan_piece_moves(&board, &tables, Piece(piece::WQ), &mut moves, 0));
}

#[test]
fn test_castling_needs_rights_empty_squares_rook_and_safe_path() {
    let tables = movegen::init().unwrap();
    let castles = |fen: &str| -> Vec<u8> {
        let board = Board::from(fen).unwrap();
        let mut moves = vec![Move(0); 64];
        let count = scan_piece_moves(&board, &tables, Piece(piece::WK), &mut moves, 0);
        moves[..count]
            .iter()
            .map(|m| m.flags().bits())
            .filter(|f| *f == chess_move::SHORT_CASTLE || *f == chess_move::LONG_CASTLE)
            .collect()
    };
    assert_eq!(vec![2, 3], castles("4k3/8/8/8/8/8/8/R3K2R w KQ - 0 1"));
    assert_eq!(vec![3], castles("4k3/8/8/8/8/8/8/R3K2R w Q - 0 1"));
    // a piece between king and rook
    assert_eq!(vec![2], castles("4k3/8/8/8/8/8/8/RN2K2R w KQ - 0 1"));
    // the rook is not in its corner
    assert_eq!(vec![3], castles("4k3/8/8/8/8/8/7R/R3K3 w KQ - 0 1"));
    // the king is in check
    assert!(castles("4r1k1/8/8/8/8/8/8/R3K2R w KQ - 0 1").is_empty());
    // the king would cross an attacked square
    assert_eq!(vec![3], castles("5rk1/8/8/8/8/8/8/R3K2R w KQ - 0 1"));
    // only the rook crosses an attacked square
    assert_eq!(vec![2, 3], castles("1r4k1/8/8/8/8/8/8/R3K2R w KQ - 0 1"));
}

#[test]
fn test_move_from_string() {
    let tables = movegen::init().unwrap();
    let board = Board::new();
    assert_eq!(
        Ok(mv(square::E2, square::E4, chess_move::DOUBLE_PUSH)),
        Move::from_string("e2e4", &board, &tables)
    );
    assert_eq!(
        Ok(mv(square::G1, square::F3, chess_move::QUIET)),
        Move::from_string("g1f3 and more", &board, &tables)
    );
    assert_eq!(
        Err("Invalid move: move string is too short"),
        Move::from_string("e2e", &board, &tables)
    );
    assert_eq!(
        Err("Invalid move: unknown square"),
        Move::from_string("e2i4", &board, &tables)
    );
    assert_eq!(
        Err("Invalid move: move not found in position"),
        Move::from_string("e2e5", &board, &tables)
    );
    // of several moves between two squares the one generated first is found
    let board = Board::from("4k3/7P/8/8/8/8/8/4K2R w K - 0 1").unwrap();
    assert_eq!(
        Ok(mv(square::H7, square::H8, chess_move::PROMOTE_TO_KNIGHT)),
        Move::from_string("h7h8", &board, &tables)
    );
    assert_eq!(
        Ok(mv(square::E1, square::F1, chess_move::QUIET)),
        Move::from_string("e1f1", &board, &tables)
    );
}

#[test]
fn test_the_position_with_the_most_legal_moves() {
    let tables = movegen::init().unwrap();
    let mut board = Board::from("R6R/3Q4/1Q4Q1/4Q3/2Q4Q/Q4Q2/pp1Q4/kBNN1KB1 w - - 0 1").unwrap();
    let mut moves = vec![Move(0); MAX_MOVES];
    let count = board.get_moves(&tables, &mut moves);
    assert_eq!(218, count);
    assert_eq!(Ok(218), rust_chess_engine::perft::run(1, &mut board, &tables));
}
