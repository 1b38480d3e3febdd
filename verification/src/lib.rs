//! A multi-client text relay: every message a client sends is handed, byte for
//! byte, to every other registered client and never back to its sender.
//!
//! The crate holds the relay's rules as verified code. Sockets, threads and
//! locks belong to the program around it, which feeds the relay plain values
//! and performs what the relay decides.

pub mod broadcast;
pub mod envelope;
pub mod laws;
pub mod model;
pub mod queue;
pub mod reader;
pub mod registry;
pub mod relay;
