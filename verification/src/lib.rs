//! arcux: a distributed, transactional key-value database with per-table tunable consistency.

pub mod bytes;
pub mod engine;
pub mod raft;
pub mod text;
pub mod pd;
pub mod client;
pub mod shell;
