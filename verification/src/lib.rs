//! Replication and discovery subsystem for a peer-to-peer, eventually
//! consistent document: a wire codec for causal frontiers and change
//! batches, a peer registry, the pairwise synchronization logic, and an
//! ordered event hub.

pub mod codec;
pub mod hub;
pub mod peer;
pub mod registry;
pub mod state;
pub mod store;
pub mod sync;
pub mod utf8;
