//! Solver for a packing puzzle with one fixed board and one fixed set of
//! pieces.
//!
//! The board is a grid of seventeen by seventeen cells. Some cells are
//! blocked, the rim of the board is filled in for good, and all other cells
//! have to be covered by thirteen pieces, each used once. One of them, the
//! target piece, surrounds a blocked cell; where it lies decides which of the
//! forty-nine targets stays marked. [`solve`] looks for a way to lay all
//! pieces down for a given target.
//!
//! The modules, from the ground up:
//!
//! - [`cells`]: sets of grid cells and how to count them.
//! - [`geometry`]: quarter turns and mirror images of occupancy matrices.
//! - [`template`]: the printed board and the piece symbols.
//! - [`piece`]: the pieces and their distinct orientations, cut out of the
//!   board.
//! - [`catalog`]: all pieces, cut out once.
//! - [`board`]: board states, their invariant, and what placing a piece
//!   means.
//! - [`placement`]: placing a piece at the anchor of a state.
//! - [`seeding`]: the states that a search starts from.
//! - [`search`]: the depth-first search, step by step or as a whole.
//! - [`render`]: plain-text pictures of pieces and boards.
//!
//! Every function is verified with Verus against a contract over
//! mathematical models of the data: a piece is a sequence of boolean
//! matrices, a board state is a grid of characters with the list of pieces on
//! it and the list of pieces left. Among the facts proved: placing never
//! makes pieces overlap, a state with pieces left always has a free cell, the
//! search ends, what it finds is a complete tiling, and it finds one whenever
//! one can be reached.

pub mod board;
pub mod catalog;
pub mod cells;
pub mod geometry;
pub mod piece;
pub mod placement;
pub mod render;
pub mod search;
pub mod seeding;
pub mod template;

pub use crate::board::{BoardPiece, BoardState};
pub use crate::catalog::Catalog;
pub use crate::geometry::{
    create_new_variant, eq_sprites, flip, Coordinate, Rotation, ROTATIONS,
};
pub use crate::piece::{
    extract_piece_from_board, piece_color, Color, Piece, Sprite, PIECE_COLORS,
};
pub use crate::search::{expand, solve, Search, Step};
pub use crate::seeding::number_to_coordinate;
pub use crate::template::{BOARD, PIECE_NAMES, SIZE};
