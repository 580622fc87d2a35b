//! Magic bitboards: perfect-hash move tables for sliding chess pieces.
//!
//! A sliding piece (rook or bishop) moves along straight rays until it hits a
//! blocker or the edge of the board. This crate builds, checks and queries the
//! "magic bitboard" tables that answer such move queries in constant time: a
//! multiply-and-shift hash maps every configuration of relevant blockers to a
//! precomputed move set, and the construction proves the hash collision-free.

pub mod bitboard;
pub mod magic;
pub mod rng;
pub mod slider;
pub mod subsets;
pub mod tables;
pub mod square;
