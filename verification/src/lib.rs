//! Bitboard core of a chess engine: board geometry, precomputed leaper
//! attack tables, magic perfect-hash tables for sliding pieces, move
//! encoding, pseudo-legal move generation, move application with a
//! legality filter, and an exhaustive node counter (perft).

pub mod bits;
pub mod geometry;
pub mod subsets;
pub mod core_types;
pub mod moves;
pub mod attacks;
pub mod state;
pub mod movemake;
pub mod fen;
pub mod perft;
pub mod laws;
