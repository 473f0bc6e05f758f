//! A lightweight, partitioned document store, verified.
//!
//! The store holds named tables; each table holds JSON-like documents
//! organised by a declared partition key and sort key; the whole store
//! is durable through a single-file snapshot value. Every operation's
//! behaviour — what it returns, how it changes the store, and exactly
//! when each error kind comes — is stated in its contract and proved.
//!
//! Reading the snapshot file, serialising it to bytes, and the
//! network-facing request layer are external collaborators: they hand
//! the store plain values and take plain values back.

pub mod errors;
pub mod json;
pub mod keys;
pub mod validation;
pub mod table;
pub mod database;
pub mod storage;
