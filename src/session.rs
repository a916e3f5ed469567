//! The replication session's life cycle as a state machine: the caller
//! reports what happened on the wire and follows the state it is given.

use vstd::prelude::*;

verus! {

/// Where a replication session stands.
#[derive(Debug, Clone, Copy, PartialEq, Eq, Structural)]
pub enum SessionState {
    Disconnected,
    Connecting,
    Greeting,
    Authenticating,
    Configuring,
    Registering,
    Streaming,
    Rotating,
    Failed,
}

/// What the caller observed.
#[derive(Debug, Clone, Copy, PartialEq, Eq, Structural)]
pub enum SessionEvent {
    /// A connection attempt starts.
    Connect,
    /// The TCP connection is up.
    Connected,
    /// The server greeting was read and the handshake response sent.
    GreetingRead,
    /// The server accepted the credentials.
    AuthOk,
    /// The session queries succeeded.
    Configured,
    /// The dump request was sent.
    DumpSent,
    /// A ROTATE event arrived.
    Rotate,
    /// The rotate was applied.
    RotateDone,
    /// The server ended the stream.
    EndOfStream,
    /// A transport error.
    TransportError,
    /// Any other fatal error (protocol, authentication, server).
    FatalError,
    /// The consumer stopped the session.
    Stop,
}

/// The next state. Transport errors and stops always disconnect; other
/// fatal errors fail the session; an event that does not fit the state
/// fails it too.
pub open spec fn next_state(s: SessionState, e: SessionEvent) -> SessionState {
    match e {
        SessionEvent::TransportError | SessionEvent::Stop => SessionState::Disconnected,
        SessionEvent::FatalError => SessionState::Failed,
        _ => match (s, e) {
            (SessionState::Disconnected, SessionEvent::Connect) => SessionState::Connecting,
            (SessionState::Failed, SessionEvent::Connect) => SessionState::Connecting,
            (SessionState::Connecting, SessionEvent::Connected) => SessionState::Greeting,
            (SessionState::Greeting, SessionEvent::GreetingRead) => SessionState::Authenticating,
            (SessionState::Authenticating, SessionEvent::AuthOk) => SessionState::Configuring,
            (SessionState::Configuring, SessionEvent::Configured) => SessionState::Registering,
            (SessionState::Registering, SessionEvent::DumpSent) => SessionState::Streaming,
            (SessionState::Streaming, SessionEvent::Rotate) => SessionState::Rotating,
            (SessionState::Rotating, SessionEvent::RotateDone) => SessionState::Streaming,
            (SessionState::Streaming, SessionEvent::EndOfStream) => SessionState::Disconnected,
            (SessionState::Rotating, SessionEvent::EndOfStream) => SessionState::Disconnected,
            _ => SessionState::Failed,
        },
    }
}

/// A session reaches `Configuring` only after `Authenticating` and an
/// accepted login, `Authenticating` only after `Greeting` and a read
/// greeting, and `Greeting` only after `Connecting` and a connection: from
/// `Disconnected` the order is Connecting, Greeting, Authenticating,
/// Configuring.
pub proof fn lemma_login_order(s: SessionState, e: SessionEvent)
    ensures
        next_state(s, e) == SessionState::Configuring ==> s == SessionState::Authenticating && e
            == SessionEvent::AuthOk,
        next_state(s, e) == SessionState::Authenticating ==> s == SessionState::Greeting && e
            == SessionEvent::GreetingRead,
        next_state(s, e) == SessionState::Greeting ==> s == SessionState::Connecting && e
            == SessionEvent::Connected,
        next_state(s, e) == SessionState::Connecting ==> e == SessionEvent::Connect,
{
}

impl SessionState {
    /// The state after `e`.
    pub fn next(self, e: SessionEvent) -> (r: SessionState)
        ensures
            r == next_state(self, e),
    {
        match e {
            SessionEvent::TransportError | SessionEvent::Stop => SessionState::Disconnected,
            SessionEvent::FatalError => SessionState::Failed,
            _ => match (self, e) {
                (SessionState::Disconnected, SessionEvent::Connect) => SessionState::Connecting,
                (SessionState::Failed, SessionEvent::Connect) => SessionState::Connecting,
                (SessionState::Connecting, SessionEvent::Connected) => SessionState::Greeting,
                (SessionState::Greeting, SessionEvent::GreetingRead) => SessionState::Authenticating,
                (SessionState::Authenticating, SessionEvent::AuthOk) => SessionState::Configuring,
                (SessionState::Configuring, SessionEvent::Configured) => SessionState::Registering,
                (SessionState::Registering, SessionEvent::DumpSent) => SessionState::Streaming,
                (SessionState::Streaming, SessionEvent::Rotate) => SessionState::Rotating,
                (SessionState::Rotating, SessionEvent::RotateDone) => SessionState::Streaming,
                (SessionState::Streaming, SessionEvent::EndOfStream) => SessionState::Disconnected,
                (SessionState::Rotating, SessionEvent::EndOfStream) => SessionState::Disconnected,
                _ => SessionState::Failed,
            },
        }
    }

    /// Only a streaming session emits change records.
    pub fn emits_records(self) -> (r: bool)
        ensures
            r == (self == SessionState::Streaming),
    {
        match self {
            SessionState::Streaming => true,
            _ => false,
        }
    }
}

} // verus!
