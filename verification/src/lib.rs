//! Shortest-path-first routing computations with equal-cost multipath, plus
//! the TI-LFA building blocks layered on top of them: post-convergence path
//! computation under a simulated node failure, P-space / Q-space
//! classification, and repair-list construction.

pub mod engine;
pub mod graph;
pub mod repair;
pub mod space;

pub use crate::engine::{
    spf, spf_dir, spf_get, spf_paths_are_shortest, spf_reverse, spf_run,
    spf_settles_exactly_reachable, spf_tables_agree, spf_tables_same_paths, Direction, Path,
    SpfOpt,
};
pub use crate::repair::{intersect, make_repair_list, tilfa, Intersect};
pub use crate::space::{p_space_nodes, pc_path, pc_paths, q_space_nodes};
pub use crate::graph::{ecmp_topology, tilfa_graph, Graph, Link, Node};
