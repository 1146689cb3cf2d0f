//! Messages exchanged between the coordinator, the per-peer
//! connectors, the inbound workers and the recipient proxies.
//!
//! Response sinks are carried as plain tokens: the runtime that owns
//! the actual one-shot channels keys them by these values.

use vstd::prelude::*;

verus! {

/// Registers a static peer with the coordinator.
pub struct RegisterNode {
    pub addr: String,
}

/// Asks a peer connector to restart if it has failed.
pub struct ReconnectNode;

/// A worker saw an inbound handshake from this peer address.
pub struct NodeConnected(pub String);

/// A peer connector learned which types a peer supports.
pub struct NodeSupportedTypes {
    pub node: String,
    pub types: Vec<String>,
}

/// A worker's connection ended.
pub struct WorkerDisconnected(pub usize);

/// Registers a local handler for a type-id.
pub struct ProvideRecipient {
    pub type_id: String,
}

/// A peer stopped being available.
pub struct NodeGone(pub String);

/// Tells a recipient proxy that a node supports its type.
pub struct TypeSupported {
    pub type_id: String,
    pub node_id: String,
}

/// Asks a peer connector to ship one serialized message; `tx` is the
/// token of the one-shot sink awaiting the correlated result.
pub struct SendRemoteMessage {
    pub type_id: String,
    pub data: String,
    pub tx: u64,
}

/// Asks a worker to stop.
pub struct StopWorker;

} // verus!
