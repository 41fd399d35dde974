//! State-space engine for a sliding transport puzzle: movers (cows and
//! persons) slide in straight lines until blocked and must each reach a
//! matching goal (barn or house).
//!
//! - `board`: the board value type, its well-formedness and the count rule
//!   for a solved board.
//! - `geometry`: neighbourhoods of rectangular and hexagonal grids.
//! - `text`: the board text format and its parser.
//! - `key`: injective integer keys of boards, used by the search structures.
//! - `moves` and `reverse_moves`: the forward and reverse move engines.
//! - `symmetry`: rotations, mirror images and role swaps.
//! - `solve`: the memoized and the breadth-first solver, and elegance.
//! - `reverse_solver`: breadth-first search over predecessors.
//! - `generate`: enumeration of boards and of generation jobs.

pub mod board;
pub mod geometry;
pub mod key;
pub mod moves;
pub mod reverse_moves;
pub mod symmetry;
pub mod text;
pub mod solve;
pub mod reverse_solver;
pub mod generate;
