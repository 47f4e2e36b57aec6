//! The operators of the graph.

pub mod base;
pub mod filter;
pub mod grouped;
pub mod join;
pub mod join_laws;
pub mod param_filter;
pub mod project;
pub mod routing;
pub mod sharder;
pub mod topk;
pub mod topk_laws;
pub mod trigger;
pub mod union;
