//! A real-time message broadcast relay: a shared wire format for chat
//! events, a registry of connected peers with their outbound queues, and
//! the dispatch rules that fan every inbound message out to all other
//! peers.

pub mod client;
pub mod codec;
pub mod message;
pub mod registry;
pub mod relay;
