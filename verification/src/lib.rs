//! Core of a Kafka-aware TCP reverse tunnel agent.
//!
//! A Kafka client discovers the cluster's brokers from the first broker it
//! talks to, so a plain TCP tunnel is not enough: the agent must watch the
//! stream for `Metadata` responses, open a tunnel for every broker they
//! mention, and rewrite the advertised endpoints so that clients connect
//! back through the public tunnels.  This crate holds the proxy's logic:
//! the frame codec, the in-flight correlation table, the selective metadata
//! decode and rewrite, the broker pool, and the control-channel state
//! machine.  The network plumbing around it lives outside the library.

use vstd::prelude::*;

pub mod auth;
pub mod client;
pub mod kafka;
pub mod proxy_state;
pub mod utils;

verus! {

/// The kinds of failure the proxy core distinguishes.
#[derive(Debug, Clone, Copy, PartialEq, Eq, Structural)]
pub enum ErrorKind {
    /// A malformed Kafka frame or metadata payload.
    Decode,
    /// Re-serialization of a rewritten metadata response failed.
    Encode,
    /// An underlying socket read, write, dial or timeout failed.
    Io,
    /// An unexpected control message, or an authentication mismatch.
    Protocol,
    /// The pool has no port for a broker the adapter needs.
    UnknownBroker,
}

impl ErrorKind {
    /// The fixed description of this error kind.
    pub open spec fn spec_message(self) -> Seq<char> {
        match self {
            ErrorKind::Decode => "Error decoding message"@,
            ErrorKind::Encode => "Error encoding message"@,
            ErrorKind::Io => "IoError"@,
            ErrorKind::Protocol => "Protocol error"@,
            ErrorKind::UnknownBroker => "Unknown broker"@,
        }
    }

    /// A human-readable description of the error.
    pub fn message(&self) -> (m: &'static str)
        ensures
            m@ == self.spec_message(),
    {
        match self {
            ErrorKind::Decode => "Error decoding message",
            ErrorKind::Encode => "Error encoding message",
            ErrorKind::Io => "IoError",
            ErrorKind::Protocol => "Protocol error",
            ErrorKind::UnknownBroker => "Unknown broker",
        }
    }
}

} // verus!
