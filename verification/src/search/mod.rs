//! The search: state, decomposition, branching, and the recursion that ties them together.

pub mod choice;
pub mod component;
pub mod frames;
pub mod heuristic;
pub mod lessons;
pub mod memo;
pub mod pace;
pub mod parts;
pub mod searcher;
pub mod state;
pub mod trace;
pub mod wide;

pub use searcher::{Answer, SearchCounters, Searcher};
