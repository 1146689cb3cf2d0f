//! Peer-to-peer routing and connection substrate.
//!
//! A process registers message handlers keyed by a type identifier,
//! discovers peers that host such handlers over a framed TCP wire
//! protocol, and routes typed request/response messages to them.
//! This crate holds the verified core: the wire codec, the per-peer
//! outbound connector state machine, the inbound worker state machine,
//! the remote type directory and recipient proxies, and the `World`
//! coordinator that owns the tables tying them together.

pub mod exchange;
pub mod json;
pub mod msgs;
pub mod node;
pub mod protocol;
pub mod recipient;
pub mod remote;
pub mod worker;
pub mod world;

pub use msgs::RegisterNode;
pub use world::World;
