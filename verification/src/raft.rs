//! The Raft consensus core.
//!
//! This is the **algorithm**, not its deployment: leader election, log replication, the
//! commit-safety rules (log matching and the current-term restriction), membership changes one
//! server at a time, snapshots and persistence. It is transport-free and single-threaded: time is
//! whatever the caller ticks and delivery is whatever the caller routes.
//!
//! The core touches the outside world only through [`storage::Storage`] (durable term, vote and
//! log) and [`message::Message`].

pub mod message;
pub mod members;
pub mod storage;
pub mod node;
pub mod cluster;
pub mod conduct;
pub mod frame;
pub mod history;
pub mod steps;
pub mod safety;
