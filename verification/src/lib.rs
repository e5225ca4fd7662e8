//! A transparent, read-only observer for the PostgreSQL wire protocol.
//!
//! The crate turns the bytes that flow between a client and a server into
//! per-query events, pairs each query with its reply, and keeps rolling
//! statistics keyed by a normalised form of the SQL text.
pub mod clock;
pub mod fingerprint;
pub mod output;
pub mod protocol;
pub mod proxy;
pub mod stats;
pub mod text;
