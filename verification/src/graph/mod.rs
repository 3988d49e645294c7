//! The evidence graph: services, spans, log batches and metric anomalies,
//! linked by the relations that connect them.
pub mod nodes;
pub mod edges;
mod store;
pub mod builder;
pub mod invariants;
