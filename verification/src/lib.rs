//! Core rules of a two-player sliding-piece board game on a fixed 8x8
//! pre-colored grid. Pieces never capture; the square a piece lands on
//! determines, through its color, which opposing piece must move next.
//!
//! The crate verifies the color-to-piece lookup, the sliding-move generator
//! along the three forward rays, the occupancy/blocking model, and the turn
//! state machine, including the rule that a side whose named piece has no
//! legal reply is skipped. Rendering and input handling are left to the
//! embedding program, which supplies board cells and reads back the piece
//! positions and the published legal-move set.

pub mod board;
pub mod colors;
pub mod engine;
pub mod moves;
pub mod pieces;
