//! Bitboard position representation for an 8x8 board game, with
//! magic-number lookup tables for sliding-piece attacks.
pub mod bits;
pub mod leapers;
pub mod rays;
pub mod occupancy;
pub mod magic;
pub mod position;
pub mod fen;
pub mod lichess;
