pub mod builder;
pub mod compact;
pub mod gexf;
pub mod gml;
pub mod lengauer_tarjan;
pub mod lengauer_tarjan_traits;
pub mod v8_heap_graph;

pub use builder::GraphBuilder;
pub use compact::CompactGraph;
