//! An incremental relational evaluation engine.
//!
//! Relations hold multisets of dynamically shaped values, each value paired
//! with a signed weight (its net multiplicity).  Rules — pipelines of
//! filter-map, join, semijoin, arrange and aggregate stages — derive the
//! contents of output relations from input relations.  A transaction applies
//! a batch of inserts and deletions to the input relations, re-derives every
//! dependent relation to a fixpoint in stratum order, and reports the net
//! change of each observed relation as a delta map.
//!
//! - [`value`]: the value model and its structural total order.
//! - [`bag`]: canonical weighted multisets, a relation's materialized state.
//! - [`expr`]: the projection expressions rule stages carry.
//! - [`rules`]: stage and arrangement semantics over row streams.
//! - [`delta`]: per-transaction change reports.
//! - [`program`]: relation declarations, stratified nodes, the fixpoint
//!   driver and the transaction cycle.
//! - [`laws`]: proved global properties of the transaction cycle.
//! - [`scc`]: the strongly-connected-components workload expressed through
//!   the engine's primitives.

pub mod bag;
pub mod delta;
pub mod expr;
pub mod laws;
pub mod program;
pub mod rules;
pub mod scc;
pub mod value;
