//! Batched access to the state variables of a running FSUIPC peer.
//!
//! Requests are framed into one shared region through bounded cursors
//! (`raw`), in the wire format of `frame`; `session` queues them, hands the
//! batch over, and sends each part of the peer's answer back to the read
//! that asked for it.

pub mod error;
pub mod frame;
pub mod raw;
pub mod session;
