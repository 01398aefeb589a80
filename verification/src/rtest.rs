//! Checking what transactions observed.

pub mod append_laws;
pub mod cycles;
pub mod edge_laws;
pub mod graph;
pub mod workload_append;
