//! The placement driver (PD): the cluster's coordination authority.
//!
//! It owns two things that every other component needs but no single data node can own alone: the
//! **timestamp oracle** ([`tso`]), one monotonic, restart-safe source of the timestamps that
//! transactions are ordered by, and the **region router** ([`region`], [`cluster`]), the map from
//! a key to the region and node that own it. [`fsm`] makes both a replicated state machine that a
//! group of nodes keeps through [`crate::raft`].

pub mod codec;
pub mod order;
pub mod region;
pub mod cluster;
pub mod placement;
pub mod clock;
pub mod tso;
pub mod command;
pub mod fsm;
pub mod assurance;
pub mod reach;
pub mod catalog;
pub mod replica;
pub mod oracle;
pub mod group;
pub mod grants;
pub mod serving;
pub mod wire;
pub mod convert;
pub mod service;
pub mod format;
pub mod topology;
