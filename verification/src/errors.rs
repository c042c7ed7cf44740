//! Errors surfaced by the wire codec.
use vstd::prelude::*;

verus! {

/// A datagram that cannot be decoded is rejected with one of these; the
/// stream continues with the next datagram.
#[derive(Debug, Clone, Copy, PartialEq, Eq, Structural)]
pub enum CodecError {
    /// A frame with a zero-length body, or a truncated packet.
    InvalidPacketLength,
    /// The top three bits of the flags byte name no reliability class.
    InvalidReliability(u8),
    /// An ACK/NACK record tag other than range or single.
    InvalidRecordType(u8),
    /// An incoming ACK or NACK covers more than the allowed number of
    /// sequence numbers.
    AckCountExceed,
}

} // verus!
