//! Directed weighted graphs with a shortest-path search, a text format for
//! graphs, and the ordered lists the search keeps its frontier in.

pub mod graph;
pub mod list;
pub mod order;
pub mod roundtrip;
mod search;
pub mod text;
pub mod vertex;
pub mod paths;
