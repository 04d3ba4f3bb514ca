//! Relationship graphs of `entity:role` endpoints, their neighbourhoods,
//! and their rendering as diagram text and shareable links.
pub mod errors;
pub mod text;
pub mod bundle;
pub mod graph_model;
pub mod petgraph_store;
pub mod petgraph_wrappers;
pub mod string_utils;
pub mod graph_eq;
pub mod neighborhood_laws;
