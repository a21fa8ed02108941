pub mod storage;
pub mod editor_graph;
pub mod node_tools;
