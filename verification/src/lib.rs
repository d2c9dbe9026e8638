//! Bitboard chess move generation with reversible make/unmake and perft counting, verified
//! with Verus.
//!
//! The board keeps a piece per square next to a set of squares per piece kind and per
//! colour; `board::Board::wf` says that the three agree, and every operation that changes
//! the board keeps it so. What the operations do is stated over `position::Position`, the
//! board as plain values: `Position::make` and `Position::unmake` for moves,
//! `Position::pseudo_legal` for move generation, `Position::attacked` for attacks, and
//! `perft::nodes` for the count of move sequences.
//!
//! The sliding pieces read their attacks from magic-indexed tables. `movegen::init` builds
//! them and thereby checks the multipliers; a table that it returns answers every query
//! with what a walk along the rays finds (`movegen::sliding::ray_attacks`).
pub mod bitboard;
pub mod bits;
pub mod board;
pub mod castling;
pub mod chess_move;
pub mod fen;
pub mod fen_laws;
pub mod masks;
pub mod movegen;
pub mod perft;
pub mod piece;
pub mod position;
pub mod square;
pub mod utils;
