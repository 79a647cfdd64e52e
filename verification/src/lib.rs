//! An in-memory key-value server core speaking a Redis-compatible wire
//! protocol: a binary-safe codec, a command model with its dispatcher over a
//! TTL-aware keyspace, and the replication handshake state.
use vstd::prelude::*;

pub mod command;
pub mod laws;
pub mod protocol;
pub mod server;
pub mod text;

verus! {

} // verus!
