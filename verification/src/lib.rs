//! Layered proximity graph of an HNSW index: construction and search.
//!
//! Points are numbered from zero. Scores are similarities: a larger score means
//! that two points are closer. See the crate's README for the module layout.

pub mod building_laws;
pub mod entry_points;
pub mod graph_layers;
pub mod level_laws;
pub mod linking_laws;
pub mod linking_lemmas;
pub mod list_laws;
pub mod model;
pub mod new_point_laws;
pub mod priority_queue;
pub mod ranking;
pub mod scorer;
pub mod search_context;
pub mod search_laws;
pub mod search_lemmas;
pub mod types;
pub mod visited_pool;
