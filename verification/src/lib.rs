//! Production planning over a graph of recipes and resources.

pub mod recipe;
pub mod graph;
pub mod edge_bags;
pub mod topo;
pub mod text;
pub mod related;
pub mod coverage;
pub mod construct;
pub mod image;
pub mod planner;
pub mod laws;
