//! Generator and solver for Takuzu (Binairo) puzzles: square grids of even
//! side in which every cell holds one of two symbols, no symbol stands three
//! times in a row, every row and column holds both symbols equally often, and
//! no two rows and no two columns are equal.
//!
//! - [`grid`] and [`rules`] model a board and say when it is valid;
//!   [`deduction`] says what the three deduction rules ask of a board.
//! - [`validate`] is the validator, [`propagate`] the propagation engine,
//!   [`count`] the exhaustive counter of completions, [`search`] the seeded
//!   backtracking search, and [`minimize`] the two passes that take clues away.
//! - [`gen_board`] holds the cell type, the generator and its entry points.
//! - [`laws`] and [`existence`] state what holds between these parts.
//! - [`random`] draws the random choices; [`progress`] measures the work that
//!   a search has left.

pub mod count;
pub mod deduction;
pub mod existence;
pub mod gen_board;
pub mod grid;
pub mod laws;
pub mod minimize;
pub mod progress;
pub mod propagate;
pub mod random;
pub mod rules;
pub mod search;
pub mod validate;
