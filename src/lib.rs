//! A chess move generator and search core on bitboards: precomputed attack
//! patterns, sliding attacks cut at the first blocker, strictly legal move
//! generation with castling, en passant and promotion, reversible make and
//! unmake, perft, and negamax search with alpha-beta pruning.

pub mod board;
pub mod engine;
pub mod invariants;
pub mod legalmoves;
pub mod utils;
pub mod geometry;
