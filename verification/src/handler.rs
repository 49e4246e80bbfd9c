//! Interprets decoded application-level messages and classifies inbound
//! packets; the side effects they call for run outside the library.

use vstd::prelude::*;
use crate::keys::PublicKey;
use crate::packet::Packet;
use crate::packet::PacketData;
use crate::peer::Peer;
use crate::proto::ConnectionId;
use crate::proto::Message;

verus! {

/// The side effect one inbound message calls for.
#[derive(Debug, PartialEq, Eq)]
pub enum MessageAction {
    /// Answer with our current local addresses as a peer suggestion.
    ReplyPeerSuggestion,
    /// Feed the suggested peers, throttled, into the per-protocol
    /// connection initiators.
    ConnectToSuggested { peers: Vec<Peer> },
    /// Drop the local inbound data channel for the connection.
    CloseConnection { connection_id: ConnectionId },
    /// Hand the data to the local consumer of the connection.
    ForwardConnectionData { connection_id: ConnectionId, data: Vec<u8> },
    /// Reserved message kinds are accepted and ignored cleanly.
    Ignore,
}

/// What to do with one message from a peer node.
pub fn handle_message(message: Message) -> (r: MessageAction)
    ensures
        message is RequestPeerSuggestion ==> r is ReplyPeerSuggestion,
        message matches Message::PeerSuggestion { peers } ==> r matches
            MessageAction::ConnectToSuggested { peers: p } && p@ == peers@,
        message matches Message::ConnectionClose { connection_id } ==> r matches
            MessageAction::CloseConnection { connection_id: c } && c == connection_id,
        message matches Message::ConnectionData { connection_id, data } ==> r matches
            MessageAction::ForwardConnectionData { connection_id: c, data: d } && c == connection_id
            && d@ == data@,
        message is RequestConnection || message is ConnectionAccepted || message
            is ConnectionDenied || message is ConnectionHeartbeat ==> r is Ignore,
{
    match message {
        Message::RequestPeerSuggestion => MessageAction::ReplyPeerSuggestion,
        Message::PeerSuggestion { peers } => MessageAction::ConnectToSuggested { peers },
        Message::ConnectionClose { connection_id } => MessageAction::CloseConnection {
            connection_id,
        },
        Message::ConnectionData { connection_id, data } => MessageAction::ForwardConnectionData {
            connection_id,
            data,
        },
        Message::RequestConnection { .. } => MessageAction::Ignore,
        Message::ConnectionAccepted { .. } => MessageAction::Ignore,
        Message::ConnectionDenied { .. } => MessageAction::Ignore,
        Message::ConnectionHeartbeat { .. } => MessageAction::Ignore,
    }
}

/// Where the reader sends one inbound packet.
#[derive(Debug, PartialEq, Eq)]
pub enum PacketClass {
    /// Someone is pretending to be us, or it echoed back: drop it.
    DropSelfSourced,
    /// A packet aimed at its own source is improper: drop it.
    DropSourceIsDestination,
    /// A handshake for us (or an anonymous first contact): feed the
    /// handshake driver under the claimed source key.
    HandshakeForUs,
    /// Sealed segment data for us: open it on the source's channel.
    SegmentForUs,
    /// A sealed segment with no destination is improper: drop it.
    DropAnonymousSegment,
    /// For a third party: hand it to the router.
    Transit,
}

/// Classifies one packet read from a transport, as the reader task does
/// before any expensive work.
pub fn classify_packet(packet: &Packet, self_key: &PublicKey) -> (r: PacketClass)
    ensures
        packet.source@ == self_key@ ==> r is DropSelfSourced,
        packet.source@ != self_key@ && (packet.destination matches Some(d) && d@ == packet.source@)
            ==> r is DropSourceIsDestination,
        packet.source@ != self_key@ && (packet.destination matches Some(d) && d@ != packet.source@
            && d@ != self_key@) ==> r is Transit,
        packet.source@ != self_key@ && (match packet.destination {
            Some(d) => d@ == self_key@ && d@ != packet.source@,
            None => false,
        }) ==> (packet.data is Handshake ==> r is HandshakeForUs) && (packet.data
            is MessageSegment ==> r is SegmentForUs),
        packet.source@ != self_key@ && packet.destination is None ==> (packet.data is Handshake
            ==> r is HandshakeForUs) && (packet.data is MessageSegment
            ==> r is DropAnonymousSegment),
{
    if packet.source == *self_key {
        return PacketClass::DropSelfSourced;
    }
    let for_us: bool = match &packet.destination {
        Some(d) => {
            if *d == packet.source {
                return PacketClass::DropSourceIsDestination;
            }
            if *d == *self_key {
                true
            } else {
                return PacketClass::Transit;
            }
        },
        None => false,
    };
    match &packet.data {
        PacketData::Handshake(_) => PacketClass::HandshakeForUs,
        PacketData::MessageSegment(_) => {
            if for_us {
                PacketClass::SegmentForUs
            } else {
                PacketClass::DropAnonymousSegment
            }
        },
    }
}

} // verus!
