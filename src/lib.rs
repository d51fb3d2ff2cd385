//! A small message relay: controllers publish addressed payloads, receivers
//! hold connections and get the payloads routed to them, and controllers may
//! query the directory of connected peers.
//!
//! The library holds the relay's logic as verified functions: the role
//! handshake, the role registry, the single-slot router, the packet codec,
//! the directory commands and the per-connection state machines. Sockets,
//! locks and timers are left to the caller.

mod text;

pub mod command;
pub mod config;
pub mod controller;
pub mod heartbeat;
pub mod json;
pub mod message;
pub mod packet;
pub mod pipe;
pub mod registry;
pub mod role;
pub mod session;
