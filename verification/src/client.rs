//! The tunnel client's control-channel state machine.
//!
//! One tunnel client runs per broker.  It speaks length-delimited JSON
//! with the rendezvous server: an optional challenge-response, a
//! `Hello(0)` asking for any free port, then a live loop of heartbeats
//! and connection notifications.  The network plumbing lives outside the
//! library; the decisions — what to reply, what each incoming message
//! means — stand here with their contracts.

use vstd::prelude::*;

use crate::ErrorKind;
use crate::auth::Authenticator;
use crate::auth::hex_of;
use crate::auth::hmac_sha256;

verus! {

/// The TCP port of the rendezvous server's control listener.
pub const CONTROL_PORT: u16 = 7835;

/// How many seconds an outbound dial or a handshake read may take.
pub const NETWORK_TIMEOUT_SECS: u64 = 3;

/// A message from the rendezvous server.  Challenge and connection ids
/// are carried as raw bytes of the wire-format identifier.
#[derive(Debug)]
pub enum ServerMessage {
    /// Echoes the assigned public port.
    Hello(u16),
    /// Authentication is required: answer this challenge.
    Challenge(Vec<u8>),
    /// Periodic liveness signal.
    Heartbeat,
    /// A new inbound flow, to be accepted on a fresh data connection.
    Connection(Vec<u8>),
    /// A server-side error.
    Error(String),
}

/// A message from the tunnel client to the rendezvous server.
#[derive(Debug)]
pub enum ClientMessage {
    /// Request a public port; 0 asks for any free one.
    Hello(u16),
    /// The lower-hex HMAC answer to a challenge.
    Authenticate(Vec<u8>),
    /// Bind this fresh data connection to a pending inbound flow.
    Accept(Vec<u8>),
}

/// What the live control loop does with one incoming message.
#[derive(Debug)]
pub enum ListenAction {
    /// A heartbeat: do nothing.
    Ignore,
    /// A connection notification: open a data flow for this id.
    SpawnFlow(Vec<u8>),
    /// A hello or challenge after the handshake: log it as unexpected.
    LogUnexpected,
    /// A server error: log it and carry on.
    LogError(String),
    /// End of stream: the tunnel client terminates cleanly.
    Terminate,
}

/// The client's reply in an authenticated handshake: the server must
/// open with a challenge, which is answered under the shared secret; any
/// other opening is a protocol error.
pub fn challenge_response(auth: &Authenticator, msg: &ServerMessage) -> (r: Result<
    ClientMessage,
    ErrorKind,
>)
    ensures
        match msg {
            ServerMessage::Challenge(c) => r matches Ok(m) && m matches
                ClientMessage::Authenticate(a) && a@ == hex_of(hmac_sha256(auth.spec_key(), c@)),
            _ => r == Err::<ClientMessage, ErrorKind>(ErrorKind::Protocol),
        },
{
    match msg {
        ServerMessage::Challenge(c) => Ok(ClientMessage::Authenticate(auth.answer(c))),
        _ => Err(ErrorKind::Protocol),
    }
}

/// The outcome of the initial exchange, after `Hello(0)` was sent: a
/// server hello yields the assigned public port; a server error, an
/// unexpected challenge — the server wants authentication the client
/// cannot give — any other message, or end of stream fails the
/// handshake.
pub fn hello_outcome(reply: &Option<ServerMessage>) -> (r: Result<u16, ErrorKind>)
    ensures
        match reply {
            Some(ServerMessage::Hello(p)) => r == Ok::<u16, ErrorKind>(*p),
            _ => r == Err::<u16, ErrorKind>(ErrorKind::Protocol),
        },
{
    match reply {
        Some(ServerMessage::Hello(p)) => Ok(*p),
        _ => Err(ErrorKind::Protocol),
    }
}

/// One step of the live control loop: heartbeats are ignored, connection
/// notifications spawn a data flow, server errors are logged and the
/// loop carries on, stray hellos and challenges are logged as
/// unexpected, and end of stream terminates the tunnel client.
pub fn listen_step(msg: &Option<ServerMessage>) -> (r: ListenAction)
    ensures
        match msg {
            None => r == ListenAction::Terminate,
            Some(ServerMessage::Hello(_)) => r == ListenAction::LogUnexpected,
            Some(ServerMessage::Challenge(_)) => r == ListenAction::LogUnexpected,
            Some(ServerMessage::Heartbeat) => r == ListenAction::Ignore,
            Some(ServerMessage::Connection(id)) => r matches ListenAction::SpawnFlow(x) && x@
                == id@,
            Some(ServerMessage::Error(e)) => r matches ListenAction::LogError(x) && x@ == e@,
        },
{
    match msg {
        None => ListenAction::Terminate,
        Some(ServerMessage::Hello(_)) => ListenAction::LogUnexpected,
        Some(ServerMessage::Challenge(_)) => ListenAction::LogUnexpected,
        Some(ServerMessage::Heartbeat) => ListenAction::Ignore,
        Some(ServerMessage::Connection(id)) => {
            let mut copy: Vec<u8> = Vec::new();
            let n = id.len();
            for k in 0..n
                invariant
                    n == id@.len(),
                    copy@ =~= id@.take(k as int),
            {
                copy.push(id[k]);
                proof {
                    assert(id@.take(k + 1) =~= id@.take(k as int).push(id@[k as int]));
                }
            }
            proof {
                assert(id@.take(n as int) =~= id@);
            }
            ListenAction::SpawnFlow(copy)
        },
        Some(ServerMessage::Error(e)) => ListenAction::LogError(e.clone()),
    }
}

} // verus!
