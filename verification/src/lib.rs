//! Verified core of an observability correlation engine.
mod text;
pub mod json;
pub mod backend;
pub mod graph;
pub mod config;
pub mod ranking;
pub mod schema;
pub mod engine;
pub mod tempo;
pub mod loki;
pub mod prom;
pub mod time;
pub mod render;
pub mod explain;
pub mod chaos;
pub mod loadgen;
pub mod errors;
pub mod failure;
pub mod metrics;
pub mod version;
