//! Monte Carlo estimation of Minesweeper "lucky first click" solvability.
//!
//! A board is a rectangular grid whose cells are mines, open cells (no
//! adjacent mine), or closed cells (at least one adjacent mine).  The library
//! generates random boards with a fixed mine count, decides by flood fill
//! whether a board can be cleared from a single open cell without guessing,
//! and aggregates the outcomes of many such trials.

pub mod board;
pub mod generator;
pub mod solver;
pub mod trials;
pub mod render;

pub use board::Board;
pub use board::Square;
pub use generator::generate;
pub use solver::check;
pub use solver::board_has_open;
pub use trials::Outcome;
pub use trials::combine;
pub use trials::fold_trials;
pub use trials::run_trial;
pub use trials::test_single_threaded;
pub use render::display;
pub use render::pretty_output;
