//! Verified core of a social-graph viewer: the on-disk graph format, the
//! in-memory person graph, community detection (Louvain), shortest paths,
//! subgraph extraction and the statistics shown next to the graph.
pub mod sums;
pub mod third_party;
pub mod algorithms;
pub mod graph_format;
pub mod graph_storage;
pub mod subgraph;
pub mod stats;
pub mod threading;
pub mod gfonts;
pub mod communities;
pub mod search;
pub mod utils;
pub mod import;
pub mod ui_state;
pub mod unique_counter;
