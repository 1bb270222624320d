//! An in-memory store of price records: a mapping from randomly generated
//! 128-bit identifiers to unsigned integer prices, with create, lookup,
//! update, delete and list operations, each specified against a
//! mathematical map view of the store.

pub mod id;
pub mod laws;
pub mod store;
