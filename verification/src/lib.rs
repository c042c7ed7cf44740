//! Core of a RakNet-style reliable-UDP transport: the wire codec for
//! connected packets (frame sets, ACK, NACK), the ack packer, the resend
//! map, the shared link between the read and write halves of a connection,
//! the receive-side router, and the write-side outgoing guard.
use vstd::prelude::*;

pub mod ack;
pub mod errors;
pub mod guard;
pub mod incoming;
pub mod link;
pub mod packet;
pub mod resend;
pub mod router;
pub mod wire;

verus! {

/// The remote endpoint of a connection: its globally unique id and the
/// negotiated maximum transmission unit in bytes.
#[derive(Debug, Clone, Copy, PartialEq, Eq, Structural)]
pub struct Peer {
    pub guid: u64,
    pub mtu: u16,
}

/// Which side of the connection this endpoint plays, with its own guid.
#[derive(Debug, Clone, Copy, PartialEq, Eq, Structural)]
pub enum Role {
    Client { guid: u64 },
    Server { guid: u64 },
}

impl Role {
    /// The globally unique id of this side of the connection.
    pub fn guid(&self) -> (g: u64)
        ensures
            g == self.spec_guid(),
    {
        match self {
            Role::Client { guid } => *guid,
            Role::Server { guid } => *guid,
        }
    }

    pub open spec fn spec_guid(&self) -> u64 {
        match self {
            Role::Client { guid } => *guid,
            Role::Server { guid } => *guid,
        }
    }
}

} // verus!
