//! What a daemon tells a client.

use vstd::prelude::*;

use crate::forward::ForwardResetReason;
use crate::ids::{CmdSeq, GridSize, SessionId, StreamId};
use crate::sessions::CAPABILITY_BYTES;

verus! {

/// The versions of the wire one side speaks, the first and the last of them.
#[derive(Clone, Copy, Debug, PartialEq, Eq, Structural)]
pub struct VersionRange {
    pub first: u16,
    pub last: u16,
}

/// Why a client is turned away or let go.
#[derive(Clone, Copy, Debug, PartialEq, Eq, Structural)]
pub enum RejectReason {
    /// No version both sides speak: what each of them does.
    Version { server: VersionRange, client: VersionRange },
    /// The session named is not running, or the capability is not its own.
    UnknownSession,
    /// The daemon holds as many sessions as it will.
    TooManySessions,
    /// The session, or the daemon, holds as many clients as it will.
    TooManyAttachments,
    /// A child that is not reading let its input accumulate.
    InputBacklog,
    /// A command was lost from an ordered stream.
    SequenceGap,
    Internal,
}

/// Why a client was detached.
#[derive(Clone, Copy, Debug, PartialEq, Eq, Structural)]
pub enum DetachReason {
    /// It asked to be.
    Requested,
    /// The same client arrived on a newer transport.
    Replaced,
}

/// The datagram path one attachment may move onto.
#[derive(Clone, Copy, Debug, PartialEq, Eq)]
pub struct Offer {
    /// The address to send to, zeroed where it is not known: a daemon holds one socket and
    /// no idea which of its host's addresses a client reached.
    pub ip: [u8; 16],
    pub port: u16,
    /// The number the connection's datagrams carry.
    pub cid: u128,
    pub secret: [u8; 32],
}

/// One message a session has for one client.
#[derive(Clone, Copy, Debug, PartialEq, Eq)]
pub enum Notice {
    /// The first message of an attachment: it names the kind of session, not the
    /// request that reached it. The offer rides in it, since it is the only message a
    /// client that has not attached yet is going to read.
    Greeting {
        forward_only: bool,
        /// What the two sides agreed to speak.
        version: u16,
        size: GridSize,
        session_id: SessionId,
        capability: [u8; CAPABILITY_BYTES],
        offer: Option<Offer>,
    },
    CommandAck { highest: Option<CmdSeq> },
    /// Bytes of the stream the client will never be handed.
    OutputSkipped { bytes: u64 },
    Ping { token: u64, echo_ack: Option<CmdSeq>, interval_ms: u16 },
    Detached { why: DetachReason },
    Reject { reason: RejectReason },
    Exit { code: i32 },
    ForwardReset { stream: StreamId, cause: ForwardResetReason },
}

} // verus!
