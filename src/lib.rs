//! Generator of alpha-beta rook's graphs: the rook's graph of an `n` by `m`
//! grid, rewired pair by pair with a chance to add cross edges and a chance
//! to remove line edges, and written out as a plain edge list.

pub mod edge_list;
pub mod graph;
pub mod grid;
pub mod probability;

pub use edge_list::edge_list_bytes;
pub use graph::AlphaBetaRookGraph;
pub use grid::in_line;
pub use probability::Probability;
