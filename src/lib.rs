//! Approximate global minimum cut of a weighted multigraph by randomized
//! contraction (Karger, Karger–Stein).

pub mod api;
pub mod fenwick_tree;
pub mod graph;
pub mod graph_util;
pub mod karger;
pub mod karger_stein;
pub mod quotient;
pub mod union_find;
