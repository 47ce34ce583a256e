//! Heuristic solvers for three small search problems: graph coloring by
//! local search and by constructive most-constrained-variable search,
//! best-first path finding over a terrain map, and a minimax player for a
//! connect-four board.

pub mod board;
pub mod color_graph;
pub mod coloring;
pub mod conflict_laws;
pub mod constructive;
pub mod escalate;
pub mod local_search;
pub mod pathfind;
pub mod pqueue;
pub mod colors;
pub mod rand_source;
pub mod seeder;
pub mod terrain_map;
