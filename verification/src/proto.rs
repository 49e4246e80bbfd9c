//! Application-level messages carried between nodes.

use vstd::prelude::*;
use crate::peer::ApplicationId;
use crate::peer::Peer;
use crate::peer::PeerModel;

verus! {

/// Context id naming a virtual connection; unique between two nodes.
pub type ConnectionId = u32;

/// One application-level unit, after compression and segmentation are
/// reversed.
#[derive(Clone, Debug, PartialEq, Eq)]
pub enum Message {
    /// Ask a remote node for its best peers.
    RequestPeerSuggestion,
    /// The peers this node considers its best.
    PeerSuggestion { peers: Vec<Peer> },
    /// Ask the remote node to open a connection for an application.
    RequestConnection { application: ApplicationId },
    /// The last requested connection was accepted.
    ConnectionAccepted { application: ApplicationId, connection_id: ConnectionId },
    /// The last requested connection was denied.
    ConnectionDenied { application: ApplicationId },
    ConnectionHeartbeat { connection_id: ConnectionId },
    ConnectionClose { connection_id: ConnectionId },
    ConnectionData { connection_id: ConnectionId, data: Vec<u8> },
}

/// Model of [`Message`].
pub enum MessageModel {
    RequestPeerSuggestion,
    PeerSuggestion { peers: Seq<PeerModel> },
    RequestConnection { application: Seq<u8> },
    ConnectionAccepted { application: Seq<u8>, connection_id: ConnectionId },
    ConnectionDenied { application: Seq<u8> },
    ConnectionHeartbeat { connection_id: ConnectionId },
    ConnectionClose { connection_id: ConnectionId },
    ConnectionData { connection_id: ConnectionId, data: Seq<u8> },
}

impl MessageModel {
    /// Structural bounds every message obeys on the wire.
    pub open spec fn wf(&self) -> bool {
        match *self {
            MessageModel::PeerSuggestion { peers } => {
                &&& peers.len() < 0x100000000
                &&& forall|i: int| 0 <= i < peers.len() ==> (#[trigger] peers[i]).wf()
            },
            MessageModel::RequestConnection { application } => application.len() <= 6,
            MessageModel::ConnectionAccepted { application, .. } => application.len() <= 6,
            MessageModel::ConnectionDenied { application } => application.len() <= 6,
            MessageModel::ConnectionData { data, .. } => data.len() < 0x100000000,
            _ => true,
        }
    }
}

impl View for Message {
    type V = MessageModel;

    open spec fn view(&self) -> MessageModel {
        match *self {
            Message::RequestPeerSuggestion => MessageModel::RequestPeerSuggestion,
            Message::PeerSuggestion { peers } => MessageModel::PeerSuggestion {
                peers: peers@.map_values(|p: Peer| p@),
            },
            Message::RequestConnection { application } => MessageModel::RequestConnection {
                application: application@,
            },
            Message::ConnectionAccepted { application, connection_id } =>
                MessageModel::ConnectionAccepted { application: application@, connection_id },
            Message::ConnectionDenied { application } => MessageModel::ConnectionDenied {
                application: application@,
            },
            Message::ConnectionHeartbeat { connection_id } => MessageModel::ConnectionHeartbeat {
                connection_id,
            },
            Message::ConnectionClose { connection_id } => MessageModel::ConnectionClose {
                connection_id,
            },
            Message::ConnectionData { connection_id, data } => MessageModel::ConnectionData {
                connection_id,
                data: data@,
            },
        }
    }
}

} // verus!
