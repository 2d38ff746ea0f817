//! A vectorized, pull-based selection (filter) operator, as used in the
//! storage-side execution layer of a distributed database.
//!
//! Given an upstream producer of row batches and a conjunction of scalar
//! predicates, the operator emits only the rows satisfying every predicate,
//! in their original order, while negotiating batch sizes between the
//! upstream's chunking policy and the row count each downstream call asks
//! for.  A single outstanding error is deferred and surfaced exactly once,
//! when the buffered rows can no longer satisfy a request.

pub mod batch;
pub mod error;
pub mod expr;
pub mod filter;
pub mod interface;
pub mod selection_executor;
