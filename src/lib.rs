pub mod bitstring;
pub mod board;
pub mod extract;
pub mod geometry;
pub mod graph;
pub mod helper;
pub mod masks;
pub mod minigrid;
pub mod node;
pub mod pruner;
pub mod solver;
pub mod visualize;

pub use bitstring::{BitString, DirtyMask, EmptyMask};
pub use board::{Board, SolveError};
pub use graph::{Graph, Relation};
pub use helper::BitMask;
pub use masks::Masks;
pub use minigrid::Minigrid;
pub use node::PermutationNode;
pub use solver::{SudokuSolver, Verdict};
pub use visualize::GraphData;
