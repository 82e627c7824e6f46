//! Replay and scoring of paint-bucket moves on a square grid of colour codes.
//!
//! A move picks a cell and repaints the whole 4-connected region of cells that
//! share its colour. The score of a position rewards the most frequent colour
//! and charges one point for every move made.

pub mod board;
pub mod error;
pub mod region;
pub mod grid;
pub mod fill;
pub mod score;
pub mod replay;
pub mod text;
pub mod io;
pub mod canvas;
pub mod gen;
pub mod vis;
pub mod minmax;
pub mod color;
