//! A single-file, log-structured key-value storage engine.
//!
//! The engine keeps an append-only sequence of records (the log) together
//! with an in-memory index that maps each key to the byte offset of its most
//! recent record. `codec` defines the binary record format, `index` the
//! key-to-offset mapping, and `store` the public facade that composes them.

pub mod codec;
pub mod index;
pub mod laws;
pub mod store;

pub use codec::KeyValuePair;
pub use store::ActionKV;
