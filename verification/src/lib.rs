//! Temporal knowledge store for agent memory.
//!
//! Facts are triples (subject, predicate, object) with a validity window and
//! a recording time. Contradicted facts are closed, never deleted; forgotten
//! facts are tombstoned with a reason. This crate holds the store's rules,
//! graph traversal, ranking, forgetting decisions, pattern extraction, sync
//! conflict resolution and the tool dispatcher, each with its contract.

pub mod text;
pub mod clock;
pub mod fact;
mod time;
pub mod store;
pub mod traverse;
pub mod order;
pub mod query;
pub mod forget;
pub mod sync;
pub mod extract;
pub mod mcp;
