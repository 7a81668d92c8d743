//! Layout computation for Aurora view graphs.
pub mod graph;
pub mod graph_laws;
pub mod graphviz;
pub mod ids;
pub mod lists;
pub mod ordering;
pub mod plain;
pub mod sweeps;
