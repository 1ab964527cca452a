//! The transport abstraction: capability interfaces any connection substrate
//! must satisfy, the error taxonomy of connection and stream operations, and
//! the decision logic of the endpoint lifecycles — what a `listen` call does
//! when the endpoint is already bound, when an `accept` may proceed, and how
//! a client reuses its local endpoint across connects. The binary drives the
//! actual encrypted-datagram substrate through these decisions.

use vstd::prelude::*;

verus! {

/// Why a transport operation failed.
#[derive(Clone, Copy, PartialEq, Eq, Debug, Structural)]
pub enum TransportError {
    /// A call out of order, such as `accept` before `listen`: a programmer
    /// error, surfaced immediately, never silently ignored.
    Precondition,
    /// The listening endpoint is closed; no further connection can arrive.
    EndpointClosed,
    /// Connection establishment (dial or handshake) failed.
    Connection,
    /// A send, receive or close on an established connection failed; the
    /// connection is unusable afterwards.
    Stream,
}

/// An established, encrypted, ordered, bidirectional channel to exactly one
/// peer. Not reusable after `close`.
pub trait Transport {
    /// Delivers one whole message: writes the bytes, then half-closes the
    /// sending direction, so the peer's receive sees exactly this payload.
    fn send_data(&mut self, data: &[u8]) -> Result<(), TransportError>;

    /// Suspends until the peer half-closes its sending direction, then
    /// returns the whole accumulated payload.
    fn receive_data(&mut self) -> Result<Vec<u8>, TransportError>;

    /// Terminates the underlying connection.
    fn close(&mut self) -> Result<(), TransportError>;
}

/// Establishes outbound connections; repeated connects reuse the client's
/// local endpoint rather than rebinding.
pub trait TransportClient {
    type Conn: Transport;

    fn connect(&mut self) -> Result<Self::Conn, TransportError>;
}

/// Listens for and accepts inbound connections. `listen` is idempotent;
/// `accept` fails when `listen` never ran or the endpoint closed.
pub trait TransportServer {
    type Conn: Transport;

    fn listen(&mut self) -> Result<(), TransportError>;

    fn accept(&mut self) -> Result<Self::Conn, TransportError>;
}

/// What a `listen` call must do to the endpoint.
#[derive(Clone, Copy, PartialEq, Eq, Debug, Structural)]
pub enum ListenAction {
    /// Not bound yet: bind the server endpoint now.
    Bind,
    /// Already listening: do nothing, the call is a no-op, not an error.
    AlreadyListening,
}

/// The decision state of one server endpoint: whether `listen` has bound it.
#[derive(Clone, Copy, PartialEq, Eq, Debug, Structural)]
pub struct ServerSession {
    pub listening: bool,
}

impl ServerSession {
    /// A fresh server: nothing bound, nothing listening.
    pub fn new() -> (r: ServerSession)
        ensures
            !r.listening,
    {
        ServerSession { listening: false }
    }

    /// Decides what `listen` does: bind on the first call, nothing on every
    /// later one; either way the session is listening afterwards.
    pub fn on_listen(&mut self) -> (a: ListenAction)
        ensures
            final (self).listening,
            a == (if old(self).listening {
                ListenAction::AlreadyListening
            } else {
                ListenAction::Bind
            }),
    {
        let a = if self.listening {
            ListenAction::AlreadyListening
        } else {
            ListenAction::Bind
        };
        self.listening = true;
        a
    }

    /// Gates `accept`: it may proceed exactly when the session is listening;
    /// before `listen` it fails with a precondition error.
    pub fn check_accept(&self) -> (r: Result<(), TransportError>)
        ensures
            match r {
                Ok(_) => self.listening,
                Err(e) => !self.listening && e == TransportError::Precondition,
            },
    {
        if self.listening {
            Ok(())
        } else {
            Err(TransportError::Precondition)
        }
    }
}

/// What the listening endpoint reported when asked for the next connection.
#[derive(Clone, Copy, PartialEq, Eq, Debug, Structural)]
pub enum AcceptEvent {
    /// An inbound connection attempt arrived.
    Incoming,
    /// The endpoint is closed; nothing will arrive any more.
    Closed,
}

/// Turns the endpoint's answer into `accept`'s result: an inbound attempt
/// proceeds, a closed endpoint is an error.
pub fn accept_outcome(ev: AcceptEvent) -> (r: Result<(), TransportError>)
    ensures
        r == (match ev {
            AcceptEvent::Incoming => Result::<(), TransportError>::Ok(()),
            AcceptEvent::Closed => Result::<(), TransportError>::Err(TransportError::EndpointClosed),
        }),
{
    match ev {
        AcceptEvent::Incoming => Ok(()),
        AcceptEvent::Closed => Err(TransportError::EndpointClosed),
    }
}

/// The decision state of one client: whether its local endpoint is bound.
#[derive(Clone, Copy, PartialEq, Eq, Debug, Structural)]
pub struct ClientSession {
    pub endpoint_bound: bool,
}

impl ClientSession {
    /// A fresh client: no local endpoint yet.
    pub fn new() -> (r: ClientSession)
        ensures
            !r.endpoint_bound,
    {
        ClientSession { endpoint_bound: false }
    }

    /// Decides what `connect` does locally: bind an endpoint on the first
    /// call, reuse it on every later one.
    pub fn on_connect(&mut self) -> (bind_now: bool)
        ensures
            final (self).endpoint_bound,
            bind_now == !old(self).endpoint_bound,
    {
        let bind_now = !self.endpoint_bound;
        self.endpoint_bound = true;
        bind_now
    }
}

} // verus!
