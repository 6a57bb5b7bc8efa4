//! Exhaustive and randomized packing of tetromino pieces onto a rectangular
//! grid with permanently blocked cells.
//!
//! The crate is organized around a small core: a fixed catalog of piece
//! orientations ([`tetra`]), a grid of cells with a candidate-position cache
//! driven by a backtracking search ([`algorithm`]), a text-format parser for
//! grid layouts ([`parse_field`]), a structured form of the search results
//! ([`structured_output`]), and the pure state of an interactive layout
//! editor ([`editor`]).

pub mod algorithm;
pub mod arith;
pub mod editor;
pub mod grid_backend;
pub mod parse_field;
pub mod randomness;
pub mod structured_output;
pub mod tetra;
pub mod util;
