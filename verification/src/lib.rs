pub mod board;
pub mod census;
pub mod graph;
pub mod laws;
pub mod lists;
pub mod product;
pub mod progress;
pub mod search;
pub mod soundness;
