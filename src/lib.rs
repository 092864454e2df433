//! Best-first (A*) search over abstract state spaces, and a ball-sorting
//! puzzle with a set of heuristics to drive the search.
pub mod astar;
pub mod game;
pub mod h10s;
pub mod input;
pub mod graph;
mod heap;
pub mod text;
