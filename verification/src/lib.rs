//! Verified puzzle-solving library.
//!
//! The centrepiece is a constrained shortest-path search over a weighted
//! grid: the minimum-cost route from the top-left to the bottom-right cell
//! must keep moving in its current direction for at least `min_line` cells
//! before turning, may continue for at most `max_line` cells, and may never
//! reverse.  The search is proved to return exactly the minimal cost over
//! all routes that satisfy those rules, or `None` when no such route exists.
//!
//! The remaining modules hold smaller verified solvers and parsers.

pub mod almanac;
pub mod beams;
pub mod cards;
pub mod course;
pub mod engine;
pub mod errors;
pub mod grid;
pub mod lagoon;
pub mod laws;
pub mod lenses;
pub mod network;
pub mod oasis;
pub mod races;
pub mod text;
pub mod workflows;

pub use errors::SearchError;
