pub mod determinism;
pub mod graph;
pub mod path;
pub mod prm;
pub mod queue;
pub mod search;
