//! Trust-network settlement engine.
//!
//! The library answers one question against a large, wholesale-replaceable
//! graph of trust relations: how much value can move from one account to
//! another, and by which sequence of elementary transfers. It provides
//! fixed-width 256-bit value arithmetic, 20-byte account identifiers,
//! an immutable capacitated edge graph, a versioned store of snapshots,
//! and a bounded max-flow engine with path decomposition.

pub mod account;
pub mod api;
pub mod errors;
pub mod flow;
pub mod graph;
pub mod store;
pub mod value;
