//! A verified chess rule engine.
//!
//! The library computes, for a piece on a board snapshot with a move
//! history, the squares it may occupy next: per-kind pseudo-legal move
//! generation (sliding rays, knight jumps, king steps, pawn rules with
//! double push and en passant), promotion, attack detection, check,
//! and the legality filter that removes moves leaving the mover's own
//! king in check (checkmate and stalemate detection).
//!
//! The caller owns the board and the history; every query is a pure
//! function over a borrowed snapshot.

pub mod piece;
pub mod generate;
pub mod rules;
pub mod laws;



pub use piece::{Kind, PieceColor, Piece, Position, Move, Turn};
