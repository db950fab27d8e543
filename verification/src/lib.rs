//! Core of a Maelstrom workload node.
//!
//! A node speaks line-delimited JSON over standard input and output and
//! plays one role of a simulated cluster: echo, unique-id generation,
//! broadcast with anti-entropy gossip, or a grow-only counter. This crate
//! holds the message model, the JSON codec, the routing and the shared
//! node state, with their contracts; reading and writing the actual byte
//! streams is left to the embedding program.

pub mod error;
pub mod json;
pub mod message;
pub mod server;
pub mod sorted;
