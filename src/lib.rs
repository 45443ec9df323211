//! Update-graph library: a directed acyclic graph of releases, the plugins
//! that transform it, the pipeline that runs them, and the request checks of
//! the graph service.

pub mod catalog;
pub mod errors;
pub mod graph;
pub mod json;
pub mod metadata;
pub mod pipeline;
pub mod plugins;
pub mod request;
pub mod service;
pub mod state;
pub mod text;
pub mod tracing;
