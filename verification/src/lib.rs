//! A sudoku solver whose elimination rules are verified with Verus.
//!
//! The board holds 81 cells in row-major order; each cell either holds a
//! definite digit or the set of digits that are still possible there.
//! Every solving step ("tier") turns a board into a new board plus the list
//! of changes it made, or reports that the board has become contradictory.
pub mod utils;
pub mod board_utils;
pub mod quantum_utils;
pub mod solver;
pub mod solos;
pub mod disclusion;
pub mod group_search;
pub mod progress;
pub mod process;
pub mod text;
pub mod input;
pub mod soundness;
pub mod transpose;
pub mod completeness;
