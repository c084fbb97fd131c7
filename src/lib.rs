//! A version-controlled tabular store: content-addressed commits over an
//! ordered key-value model, replayed through a CRDT state engine.

pub mod error;
pub mod order;
pub mod digest;
pub mod models;
pub mod codec;
pub mod kv;
pub mod crdt;
pub mod merge;
pub mod database;
pub mod branch;
pub mod query;
pub mod cli;
pub mod sql;
pub mod text;
pub mod shim;
