//! A verified engine for "Tango"-style binary-tile logic puzzles.
//!
//! A board is a rectangular grid whose cells hold one of two colors or are
//! empty, together with a set of pairwise `Same`/`Different` restrictions
//! between cells. The engine enforces the placement rules (no run of three
//! equal colors in a row or column, no color exceeding half of a row or
//! column, all decided restrictions satisfied), solves boards by exhaustive
//! backtracking, and generates puzzles with a unique solution by rejection
//! sampling.

pub mod board;
pub mod counting;
pub mod generator;
pub mod grid;
pub mod solver;
pub mod tiles;
