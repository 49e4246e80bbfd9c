//! Local IPC surface: the messages applications exchange with the
//! daemon over its Unix sockets, and the per-stream auth token.
//!
//! The socket plumbing itself is I/O and lives outside the library;
//! these are the values it carries.

use vstd::prelude::*;
use crate::keys::PublicKey;
use crate::peer::ApplicationId;

verus! {

/// The token a client must present on the stream socket it was handed.
#[derive(Clone, Copy, Debug, PartialEq, Eq)]
pub struct StreamAuthToken(pub [u8; 32]);

impl StreamAuthToken {
    pub fn new(data: [u8; 32]) -> (r: Self)
        ensures
            r@ == data@,
    {
        StreamAuthToken(data)
    }
}

impl View for StreamAuthToken {
    type V = Seq<u8>;

    open spec fn view(&self) -> Seq<u8> {
        self.0@
    }
}

/// What a client asks of the daemon's control socket.
#[derive(Clone, Debug, PartialEq, Eq)]
pub enum ServerBoundSocketIpc {
    /// Claim incoming connections for an application.
    Listen { application_id: ApplicationId },
    /// Open an outbound stream to a node for an application.
    Connect { application_id: ApplicationId, destination: PublicKey },
}

/// What the daemon answers on its control socket.
#[derive(Clone, Debug, PartialEq, Eq)]
pub enum ClientBoundSocketIpc {
    /// The request was accepted.
    Success,
    /// Where to connect for the data stream, and the token to present.
    Stream { stream_socket_path: Vec<u8>, stream_auth_token: StreamAuthToken },
}

/// What a client sends on an accepted data stream.
#[derive(Clone, Debug, PartialEq, Eq)]
pub enum ServerBoundStreamIpc {
    Auth { token: StreamAuthToken },
    Data { data: Vec<u8> },
}

/// What the daemon answers on a data stream.
#[derive(Clone, Copy, Debug, PartialEq, Eq, Structural)]
pub enum ClientBoundStreamIpc {
    AuthSuccess,
    DataSendingSuccess,
}

/// Confirmation that a queued message was fully acknowledged by its
/// destination, and how long that took.
#[derive(Clone, Copy, Debug, PartialEq, Eq, Structural)]
pub struct RequestWriteMessageResponse {
    /// Time from queueing to full confirmation, in milliseconds.
    pub time_taken_millis: u64,
}

} // verus!
