//! Core of a partially-stateful, incrementally-maintained dataflow engine: the operators of
//! the graph, the state they keep, the replay of missing keys, and the framing of what
//! domains send each other.

pub mod addressing;
pub mod assoc;
pub mod blender;
pub mod channel;
pub mod coerce;
pub mod consul;
pub mod text;
pub mod tsv;
pub mod wire;
pub mod data;
pub mod domain;
pub mod domain_handle;
pub mod flow;
pub mod getter;
pub mod state;
pub mod migrate;
pub mod ops;
pub mod payload;
pub mod processing;
pub mod ranking;
pub mod reader;
pub mod replay;
pub mod rpc;
pub mod runtime;
pub mod server;
pub mod sharding;
