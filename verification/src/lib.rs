//! Solvers for a collection of small text-based puzzles.
//!
//! Each module holds one puzzle: its data types, parsers and solvers, all
//! specified by contracts and verified. File reading and printing live
//! outside the library; every function here is a pure computation.

pub mod math;
pub mod parsing;
pub mod machine;
pub mod safe;
pub mod fresh;
pub mod corrupt;
pub mod joltage;
pub mod rolls;
pub mod manifold;
pub mod shapes;
pub mod devices;
pub mod polygon;
pub mod circuits;
pub mod worksheet;
