//! A multi-room voice-chat server engine for an unreliable datagram transport.
//!
//! `protocol` is the wire codec: every frame is a magic word, a big-endian
//! opcode and an opcode-specific payload.  `server` is the in-memory engine:
//! users, rooms, the sequence-numbered presence log and the handlers that
//! turn one inbound datagram into state changes and outbound datagrams.
//!
//! The engine owns its state and performs no I/O.  A handler takes the
//! sender's endpoint, the datagram and the time, changes the model, and
//! returns the list of `Effect`s for its caller to carry out in order:
//! datagrams to send and collaborators to call.

pub mod protocol;
pub mod server;
