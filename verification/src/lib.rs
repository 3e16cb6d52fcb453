//! A chess rules engine: board state, per-piece move geometry and the
//! legality rules built on top of them.
//!
//! The board keeps two synchronized descriptions of a position: twelve
//! occupancy bit sets (one per piece kind and color) and a per-square overlay
//! of stateful piece records. Move generators produce pseudo-legal
//! destinations from them; the functions of [`rules`] add king safety.
//!
//! - [`utils`]: errors, square indexing, bit masks, the ray walker and the
//!   step walker.
//! - [`piece`]: colors, pieces, squares, piece records, and one module per
//!   piece kind with its move generator.
//! - [`fen`]: the text form of a position.
//! - [`board`]: the board itself.
//! - [`rules`]: check, filtering of candidate moves, checkmate, stalemate.
//!
//! Every function states what it returns in terms of the views of its
//! arguments: [`board::BoardView`] for a board and [`piece::EntityView`] for a
//! piece record. The public proof functions state what holds across
//! functions.

pub mod utils;
pub mod piece;
pub mod fen;
pub mod board;
pub mod rules;
