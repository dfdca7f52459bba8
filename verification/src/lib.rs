//! Server core of a many-to-many text chat relay.
//!
//! Clients connect over a bidirectional text-frame transport, register a
//! display name, and exchange short messages that the server fans out to every
//! connected client.  This crate holds the verified logic of that server:
//! the wire-envelope codec, the shared user registry, the broadcast hub's
//! queueing policy, and the per-connection session state machine.  The
//! unverified shell around it (socket accept loop, websocket handshake, async
//! plumbing) lives outside the library and hands frames in and out as plain
//! byte vectors.

pub mod codec;
pub mod envelope;
pub mod hub;
pub mod registry;
pub mod session;
