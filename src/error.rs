use vstd::prelude::*;

verus! {

/// What can go wrong while talking to the peer.
#[derive(Clone, Copy, Debug, PartialEq, Eq, Structural)]
pub enum Error {
    /// The peer could not be reached, or the shared region could not be set up.
    ConnectionRefused,
    /// A request does not fit in what is left of the shared buffer.
    BufferExhausted,
    /// The peer answered the commit with a status other than success.
    PeerRejected { code: i64 },
    /// The response stream holds a frame that cannot be decoded.
    MalformedFrame,
}

} // verus!
