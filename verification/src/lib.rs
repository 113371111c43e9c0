//! Core of a self-hosted photo/album service: a content-addressed catalog of
//! users, files and albums kept in an embedded ordered key-value store, an
//! album metadata structure of immutable day-sharded fragments, and a
//! crash-safe journal for cascading deletes.

pub mod error;
pub mod wire;
pub mod bytes;
pub mod records;
pub mod keys;
pub mod json;
pub mod tz;
pub mod kv;
pub mod engine;
pub mod store;
pub mod journal;
pub mod invariants;
