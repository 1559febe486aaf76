//! A small, verified todo-list store.
//!
//! The library owns the task records, the rules for assigning ids and
//! mutating records, and the persistence encoding: a compact JSON-style
//! text form of the record list, wrapped in a base64 transport layer so
//! the stored file is plain text. Every operation carries a contract
//! describing exactly what it returns or changes.

pub mod record;
pub mod store;
pub mod codec;
pub mod decode;
pub mod blob;
