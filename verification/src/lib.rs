//! A labelled directed graph with breadth-first distances, reachability
//! components, induced subgraphs and a seeded random-walk ranking.

pub mod graph;
pub mod decimal;
pub mod rank;
pub mod edge_list;
pub mod components;
pub mod search;
pub mod paths;
pub mod subgraph;

pub use graph::Graph;
pub use graph::GraphModel;
pub use graph::Vertex;
pub use graph::ListOfEdges;
pub use graph::AdjacencyLists;
pub use rank::page_rank;
pub use edge_list::MalformedLine;
