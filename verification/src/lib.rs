//! A minimal log-structured key-value store: an append-only log of records
//! and a key directory that maps each live key to the place of its value.
//!
//! The library works on the log as a byte image. Everything that touches the
//! file system is left to the caller, who persists what the library appends.

pub mod engine;
pub mod key_order;
pub mod keydir;
pub mod laws;
pub mod log;
pub mod record;
