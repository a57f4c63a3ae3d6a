//! A snapshot-isolated observable state system.
//!
//! Callers read and mutate shared, typed cells inside isolated logical
//! scopes. A mutable scope sees a private copy-on-write view of the world
//! and publishes its writes atomically on commit, with conflict detection
//! against concurrent commits and a per-cell merge policy to resolve them.
//! A read-only scope forbids writes and records every read and write made
//! inside it for downstream reactive recomputation.

pub mod id_set;
pub mod snapshots;
pub mod state;
