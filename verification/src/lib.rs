//! Fork tracking for a blockchain node: lineages of branch points, fork
//! tips, the persistence contract a chain store must satisfy, and the
//! selector that places each incoming block on a chain and decides when
//! the canonical head changes.

pub mod types;
pub mod codec;
pub mod store;
pub mod pipe;
