pub mod grid;
pub mod search;
mod engine;
pub mod dijkstra;
pub mod astar;
pub mod bidi;
pub mod driver;
