//! A weighted undirected graph built from an edge list or from the lines of
//! a text source, with single-source shortest paths computed by Dijkstra's
//! algorithm, all verified.

pub mod dijkstra;
pub mod graph;
pub mod parse;
pub mod strmap;

pub use dijkstra::dijkstra_binheap;
pub use graph::{Graph, from_list};
pub use parse::{BuildError, from_lines};
pub use strmap::StrMap;
