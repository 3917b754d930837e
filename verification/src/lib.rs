//! Memoized, dependency-tracking lazy evaluation.
//!
//! A `Cache` owns every computation node (a payload) that has been
//! connected to it. Nodes are keyed by the type of value they compute and the
//! identity of their worker, so equal workers share one node. Each node records
//! its last build artifact, the nodes it read while building, and the nodes that
//! read it; invalidating a node marks it and everything that transitively read
//! it for rebuilding.
pub mod cache;
pub mod identity;
pub mod laws;
pub mod lazy;
mod node_set;
pub mod reach;

pub use cache::{Cache, TypedCache};
pub use identity::LazyIdentity;
pub use lazy::{
    BuildRecord, BuildRecordDiff, EvalStep, EvalTracker, InvalidationTrigger, Lazy, LazyEvalError,
    LazyPayload, NodeId, OpaqueLazy, RunContext,
};
