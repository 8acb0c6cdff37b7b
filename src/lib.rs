//! Single-source shortest paths over graphs given by a neighbour function and a cost function.
pub mod adjacency;
pub mod djikstra;
pub mod graph;
pub mod grid;
pub mod render;

pub use adjacency::{djikstra_adj_map, make_adj_map, AdjMap};
pub use djikstra::{djikstra, djikstra_capped, djikstra_on, DjikstraNode};
