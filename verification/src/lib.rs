//! A bridge from an asynchronous request-handling layer to a synchronous,
//! connection-pooled database.
//!
//! Typed units of work are dispatched to a fixed group of workers, each of
//! which privately owns a bounded connection pool; replies travel back on
//! single-use reply tickets.  On top of the bridge sits a server-side session
//! store that loads a key/value map for an identity and flushes it back with
//! an insert-or-update decision.

pub mod codec;
pub mod config;
pub mod executor;
pub mod group;
pub mod pool;
pub mod session;
pub mod table;
