//! The client's decisions: where a request goes, what is done with the answer, and what the caller
//! is told.
//!
//! A client works in one of three modes. **Direct**: one node, no routing. **Cluster**: a fixed
//! list of nodes, of which one is presumed to lead; a redirect or an unreachable node moves on to
//! the next. **Routed**: each key's region and owner are asked of the placement driver and cached;
//! a stale route is dropped and asked for again. Sending and waiting is left to the caller.

pub mod error;
pub mod cache;
pub mod endpoint;
pub mod calls;
pub mod requests;
pub mod routing;
