use rust_chess_engine::bitboard::BitBoard;
use rust_chess_engine::board::Board;
use rust_chess_engine::castling;
use rust_chess_engine::chess_move::{self, Move, MoveFlags};
use rust_chess_engine::movegen;
use rust_chess_engine::movegen::pseudo::MAX_MOVES;
use rust_chess_engine::piece::{self, Color, Piece};
use rust_chess_engine::square::{self, Square};

fn sets_agree(board: &Board) {
    for s in 0..64usize {
        let here = board.state[s];
        assert!(here.0 < 12 || here.0 == piece::EMPTY);
        let mut holders = 0;
        for p in 0..12usize {
            if board.pieces[p].is_set(Square(s as u8)) {
                holders += 1;
                assert_eq!(p as u8, here.0);
            }
        }
        assert_eq!(if here.0 == piece::EMPTY { 0 } else { 1 }, holders);
    }
    let mut all = 0u64;
    for p in 0..12usize {
        all |= board.pieces[p].0;
    }
    assert_eq!(0, board.occupancy[0].0 & board.occupancy[1].0);
    assert_eq!(all, board.occupancy[0].0 | board.occupancy[1].0);
    assert!(board.en_passant.pop_count() <= 1);
}

fn moves_of(board: &Board, tables: &movegen::AttackTables) -> Vec<Move> {
    let mut buffer = vec![Move(0); MAX_MOVES];
    let count = board.get_moves(tables, &mut buffer);
    buffer.truncate(count);
    buffer
}

fn find(moves: &[Move], from: u8, to: u8, flag: u8) -> Move {
    let wanted = Move::new(Square(from), Square(to), MoveFlags { bits: flag });
    assert!(moves.contains(&wanted), "move not generated");
    wanted
}

const CORPUS: [&str; 8] = [
    "rnbqkbnr/pppppppp/8/8/8/8/PPPPPPPP/RNBQKBNR w KQkq - 0 1",
    "r3k2r/p1ppqpb1/bn2pnp1/3PN3/1p2P3/2N2Q1p/PPPBBPPP/R3K2R w KQkq - 0 1",
    "8/2p5/3p4/KP5r/1R3p1k/8/4P1P1/8 w - - 0 1",
    "r3k2r/Pppp1ppp/1b3nbN/nP6/BBP1P3/q4N2/Pp1P2PP/R2Q1RK1 w kq - 0 1",
    "rnbq1k1r/pp1Pbppp/2p5/8/2B5/8/PPP1NnPP/RNBQK2R w KQ - 1 8",
    "r4rk1/1pp1qppp/p1np1n2/2b1p1B1/2B1P1b1/P1NP1N2/1PP1QPPP/R4RK1 w - - 0 10",
    "rnbqkbnr/pp1p1ppp/8/2pPp3/8/8/PPP1PPPP/RNBQKBNR w KQkq e6 0 2",
    "rn1qkbnr/pp3ppp/4p3/3pPb2/1PpP4/4BN2/P1P1BPPP/RN1QK2R b KQkq b3 0 2",
];

#[test]
fn test_new_board_is_the_opening_position() {
    let board = Board::new();
    sets_agree(&board);
    assert_eq!(Piece(piece::WK), board.piece_at_square(Square(square::E1)));
    assert_eq!(Piece(piece::BQ), board.piece_at_square(Square(square::D8)));
    assert_eq!(Piece(piece::EMPTY), board.piece_at_square(Square(square::E4)));
    assert_eq!(BitBoard(0xFFFF_0000_0000_FFFF), board.all_occupancy());
    assert_eq!(castling::ALL, board.castling_rights.bits);
    assert_eq!(Color(piece::WHITE), board.color_to_move);
    assert!(board.can_castle_short());
    assert!(board.can_castle_long());
    assert!(board.is_sound());
}

#[test]
fn test_default_board_is_the_opening_position() {
    assert_eq!(Board::new(), Board::default());
}

#[test]
fn test_new_empty_board() {
    let board = Board::new_empty();
    sets_agree(&board);
    assert_eq!(BitBoard(0), board.all_occupancy());
    assert_eq!(castling::NONE, board.castling_rights.bits);
    assert!(!board.can_castle_short());
    assert!(!board.can_castle_long());
    assert_eq!(0, board.full_move_number);
}

#[test]
fn test_add_move_remove_piece() {
    let mut board = Board::new_empty();
    board.add_piece_to_square(Piece(piece::BN), Square(square::C6));
    sets_agree(&board);
    assert_eq!(1u64 << square::C6, board.pieces[piece::BN as usize].0);
    assert_eq!(1u64 << square::C6, board.occupancy[1].0);
    board.move_piece(Square(square::C6), Square(square::E5), Piece(piece::BN));
    sets_agree(&board);
    assert_eq!(Piece(piece::BN), board.piece_at_square(Square(square::E5)));
    assert_eq!(Piece(piece::EMPTY), board.piece_at_square(Square(square::C6)));
    board.remove_piece_from_square(Piece(piece::BN), Square(square::E5));
    sets_agree(&board);
    assert_eq!(Board::new_empty(), board);
}

#[test]
fn test_are_squares_empty() {
    let board = Board::new();
    assert!(board.are_squares_empty(&[Square(square::E4), Square(square::A3)]));
    assert!(!board.are_squares_empty(&[Square(square::E4), Square(square::E2)]));
    assert!(board.are_squares_empty(&[]));
}

#[test]
fn test_invariants_hold_after_fen_load_make_and_unmake() {
    let tables = movegen::init().unwrap();
    for fen in CORPUS {
        let mut board = Board::from(fen).unwrap();
        sets_agree(&board);
        for m in moves_of(&board, &tables) {
            board.make_move(&m);
            sets_agree(&board);
            board.undo_move(&m);
            sets_agree(&board);
        }
    }
}

#[test]
fn test_make_then_unmake_restores_the_board() {
    let tables = movegen::init().unwrap();
    for fen in CORPUS {
        let before = Board::from(fen).unwrap();
        let mut board = Board::from(fen).unwrap();
        for m in moves_of(&board, &tables) {
            board.make_move(&m);
            assert_ne!(before, board);
            for reply in moves_of(&board, &tables) {
                let between = moves_of(&board, &tables);
                board.make_move(&reply);
                board.undo_move(&reply);
                assert_eq!(between, moves_of(&board, &tables));
            }
            board.undo_move(&m);
            assert_eq!(before, board);
        }
    }
}

#[test]
fn test_double_push_sets_the_en_passant_target() {
    let tables = movegen::init().unwrap();
    let mut board = Board::new();
    let m = find(&moves_of(&board, &tables), square::E2, square::E4, chess_move::DOUBLE_PUSH);
    board.make_move(&m);
    assert_eq!(BitBoard(1u64 << square::E3), board.en_passant);
    assert_eq!(Color(piece::BLACK), board.color_to_move);
    assert_eq!("rnbqkbnr/pppppppp/8/8/4P3/8/PPPP1PPP/RNBQKBNR b KQkq e3 0 1", board.to_fen());
    let reply = find(&moves_of(&board, &tables), square::C7, square::C5, chess_move::DOUBLE_PUSH);
    board.make_move(&reply);
    assert_eq!(BitBoard(1u64 << square::C6), board.en_passant);
    board.undo_move(&reply);
    assert_eq!(BitBoard(1u64 << square::E3), board.en_passant);
    board.undo_move(&m);
    assert_eq!(Board::new(), board);
}

#[test]
fn test_en_passant_capture() {
    let tables = movegen::init().unwrap();
    let fen = "rnbqkbnr/pp1p1ppp/8/2pPp3/8/8/PPP1PPPP/RNBQKBNR w KQkq e6 0 2";
    let mut board = Board::from(fen).unwrap();
    let m = find(&moves_of(&board, &tables), square::D5, square::E6, chess_move::EN_PASSANT);
    board.make_move(&m);
    assert_eq!(Piece(piece::WP), board.piece_at_square(Square(square::E6)));
    assert_eq!(Piece(piece::EMPTY), board.piece_at_square(Square(square::E5)));
    assert_eq!(Piece(piece::EMPTY), board.piece_at_square(Square(square::D5)));
    assert!(board.captured_pieces_stack.is_empty());
    board.undo_move(&m);
    assert_eq!(Board::from(fen).unwrap(), board);
}

#[test]
fn test_capture_pushes_the_taken_piece() {
    let tables = movegen::init().unwrap();
    let fen = "r3k2r/p1ppqpb1/bn2pnp1/3PN3/1p2P3/2N2Q1p/PPPBBPPP/R3K2R w KQkq - 0 1";
    let mut board = Board::from(fen).unwrap();
    let m = find(&moves_of(&board, &tables), square::E5, square::G6, chess_move::CAPTURE);
    board.make_move(&m);
    assert_eq!(vec![Piece(piece::BP)], board.captured_pieces_stack);
    assert_eq!(Piece(piece::WN), board.piece_at_square(Square(square::G6)));
    board.undo_move(&m);
    assert_eq!(Board::from(fen).unwrap(), board);
}

#[test]
fn test_castling_moves_king_and_rook() {
    let tables = movegen::init().unwrap();
    let fen = "r3k2r/p1ppqpb1/bn2pnp1/3PN3/1p2P3/2N2Q1p/PPPBBPPP/R3K2R w KQkq - 0 1";
    let mut board = Board::from(fen).unwrap();
    let moves = moves_of(&board, &tables);
    let short = find(&moves, square::E1, square::F1, chess_move::SHORT_CASTLE);
    let long = find(&moves, square::E1, square::C1, chess_move::LONG_CASTLE);
    board.make_move(&short);
    assert_eq!(Piece(piece::WK), board.piece_at_square(Square(square::G1)));
    assert_eq!(Piece(piece::WR), board.piece_at_square(Square(square::F1)));
    assert_eq!(Piece(piece::EMPTY), board.piece_at_square(Square(square::H1)));
    assert_eq!(castling::BLACK_CASTLE, board.castling_rights.bits);
    board.undo_move(&short);
    assert_eq!(Board::from(fen).unwrap(), board);
    board.make_move(&long);
    assert_eq!(Piece(piece::WK), board.piece_at_square(Square(square::C1)));
    assert_eq!(Piece(piece::WR), board.piece_at_square(Square(square::D1)));
    assert_eq!(Piece(piece::EMPTY), board.piece_at_square(Square(square::A1)));
    assert_eq!(castling::BLACK_CASTLE, board.castling_rights.bits);
    board.undo_move(&long);
    assert_eq!(Board::from(fen).unwrap(), board);
}

#[test]
fn test_rook_move_and_rook_capture_clear_rights() {
    let tables = movegen::init().unwrap();
    let fen = "r3k2r/8/8/8/8/8/8/R3K2R w KQkq - 0 1";
    let mut board = Board::from(fen).unwrap();
    let m = find(&moves_of(&board, &tables), square::H1, square::H2, chess_move::QUIET);
    board.make_move(&m);
    assert_eq!(
        castling::WHITE_LONG_CASTLE | castling::BLACK_CASTLE,
        board.castling_rights.bits
    );
    board.undo_move(&m);
    assert_eq!(castling::ALL, board.castling_rights.bits);
    // the rook takes the rook in the corner: the mover loses its right and so does the victim
    let m = find(&moves_of(&board, &tables), square::A1, square::A8, chess_move::CAPTURE);
    board.make_move(&m);
    assert_eq!(
        castling::WHITE_SHORT_CASTLE | castling::BLACK_SHORT_CASTLE,
        board.castling_rights.bits
    );
    board.undo_move(&m);
    assert_eq!(Board::from(fen).unwrap(), board);
}

#[test]
fn test_promotions() {
    let tables = movegen::init().unwrap();
    let fen = "4k1n1/7P/8/8/8/8/p7/1N2K3 w - - 0 1";
    let mut board = Board::from(fen).unwrap();
    let moves = moves_of(&board, &tables);
    let quiet = find(&moves, square::H7, square::H8, chess_move::PROMOTE_TO_QUEEN);
    let taking = find(&moves, square::H7, square::G8, chess_move::PROMOTE_CAPTURE_TO_KNIGHT);
    board.make_move(&quiet);
    assert_eq!(Piece(piece::WQ), board.piece_at_square(Square(square::H8)));
    assert_eq!(Piece(piece::EMPTY), board.piece_at_square(Square(square::H7)));
    board.undo_move(&quiet);
    assert_eq!(Board::from(fen).unwrap(), board);
    board.make_move(&taking);
    assert_eq!(Piece(piece::WN), board.piece_at_square(Square(square::G8)));
    assert_eq!(vec![Piece(piece::BN)], board.captured_pieces_stack);
    let reply = find(
        &moves_of(&board, &tables),
        square::A2,
        square::B1,
        chess_move::PROMOTE_CAPTURE_TO_ROOK,
    );
    board.make_move(&reply);
    assert_eq!(Piece(piece::BR), board.piece_at_square(Square(square::B1)));
    assert_eq!(vec![Piece(piece::BN), Piece(piece::WN)], board.captured_pieces_stack);
    board.undo_move(&reply);
    board.undo_move(&taking);
    assert_eq!(Board::from(fen).unwrap(), board);
}

#[test]
fn test_square_attacks_and_check() {
    let tables = movegen::init().unwrap();
    let board = Board::from("4r2k/8/8/8/8/2n5/6p1/4K3 b - - 0 1").unwrap();
    let white = Color(piece::WHITE);
    // attacked by the rook along the file, by the knight, and by the pawn
    assert!(board.is_sqaure_attacked(&tables, Square(square::E1), white));
    assert!(board.is_sqaure_attacked(&tables, Square(square::D1), white));
    assert!(board.is_sqaure_attacked(&tables, Square(square::F1), white));
    assert!(board.is_sqaure_attacked(&tables, Square(square::H1), white));
    assert!(!board.is_sqaure_attacked(&tables, Square(square::G1), white));
    assert!(!board.is_sqaure_attacked(&tables, Square(square::D2), white));
    assert!(board.are_squares_attacked(
        &tables,
        &[Square(square::G1), Square(square::D2), Square(square::B1)],
        white
    ));
    assert!(!board.are_squares_attacked(&tables, &[Square(square::G1), Square(square::D2)], white));
    assert!(board.is_king_in_check(&tables, white));
    // the black king is attacked by nothing
    assert!(!board.is_sqaure_attacked(&tables, Square(square::H8), Color(piece::BLACK)));
}

#[test]
fn test_from_moves() {
    let tables = movegen::init().unwrap();
    let board = Board::from_moves(&tables, &["e2e4", "c7c5", "g1f3"]).unwrap();
    assert_eq!("rnbqkbnr/pp1ppppp/8/2p5/4P3/5N2/PPPP1PPP/RNBQKB1R b KQkq - 0 1", board.to_fen());
    assert_eq!(Ok(Board::new()), Board::from_moves(&tables, &[]));
    assert_eq!(
        Err("Invalid move: move not found in position"),
        Board::from_moves(&tables, &["e2e4", "e2e4"])
    );
    assert_eq!(
        Err("Invalid move: move string is too short"),
        Board::from_moves(&tables, &["e2e4", "e7"])
    );
    assert_eq!(
        Err("Invalid move: unknown square"),
        Board::from_moves(&tables, &["e2e9"])
    );
}
