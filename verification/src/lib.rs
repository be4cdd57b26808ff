//! A heuristic best-first search engine for planning a sequence of actions
//! that drives an initial configuration into one satisfying a goal condition,
//! over an abstract, caller-supplied state space.

pub mod astar;
pub mod grid;
pub mod model;
pub mod weighted;
