//! A solver for Takuzu (also known as Binairo) puzzles.
//!
//! A puzzle is a square grid of even size whose cells hold `0`, `1` or nothing.
//! A grid is legal when
//!
//! * no three equal numbers are adjacent in any row or column,
//! * no row or column holds more than half its cells of either number,
//! * no two rows and no two columns are filled and identical.
//!
//! The solver returns every way of filling the empty cells that keeps the grid legal.
//!
//! # Input format
//!
//! In text, a grid is written with the characters `0`, `1` and `.` for a missing
//! number, one line per row. The line break after the last row may be omitted.
//!
//! # What is proved
//!
//! Every function of the library is verified against a contract over
//! [`Board`](board::Board), the mathematical model of a grid:
//!
//! * [`rules`] states the three rules, and [`legality`] checks them;
//! * [`deduce`], [`quota`] and [`twins`] state what each rule forces, and prove that
//!   no deduction loses a solution; [`fixpoint`] says when deduction has something
//!   to do, and [`propagate`] carries it out;
//! * [`search`] and [`solve`] find the solutions: each of them, and each once;
//! * [`text`] reads and writes grids, and [`roundtrip`] proves that the two agree;
//!   [`report`] writes what a program says of a grid and its solutions;
//! * [`laws`] holds what follows for the rules whatever the grid.

pub mod board;
pub mod cell;
pub mod deduce;
pub mod error;
pub mod fixpoint;
pub mod grid;
pub mod laws;
pub mod legality;
pub mod propagate;
pub mod quota;
pub mod report;
pub mod roundtrip;
pub mod rules;
pub mod search;
pub mod solve;
pub mod text;
pub mod twins;

pub use cell::Cell;
pub use error::{GridError, GridParseError, GridSizeError};
pub use grid::Grid;
pub use text::ANSIGridDiff;
