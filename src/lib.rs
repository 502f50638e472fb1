//! Chessboard geometry and pseudo-legal move generation.
pub mod direction;
pub mod error;
pub mod name;
pub mod piece;
pub mod square;
