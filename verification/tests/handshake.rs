//! Handshake driving: identity binding, the anonymous first contact,
//! and sealed channel traffic over real Noise states.

use routeweaver::channel::open_segment;
use routeweaver::channel::seal_segment;
use routeweaver::handler::classify_packet;
use routeweaver::handler::handle_message;
use routeweaver::handler::MessageAction;
use routeweaver::handler::PacketClass;
use routeweaver::keys::PublicKey;
use routeweaver::noise::absorb_handshake_message;
use routeweaver::noise::accept_anonymous_response;
use routeweaver::noise::continue_handshake_entry;
use routeweaver::noise::create_handshake_responder;
use routeweaver::noise::generate_keys;
use routeweaver::noise::initiate_anonymous_handshake;
use routeweaver::noise::HandshakeTick;
use routeweaver::packet::MessagePayload;
use routeweaver::packet::MessageSegment;
use routeweaver::packet::Packet;
use routeweaver::packet::PacketData;
use routeweaver::proto::Message;

fn handshake_bytes(p: &Packet) -> Vec<u8> {
    match &p.data {
        PacketData::Handshake(d) => d.clone(),
        PacketData::MessageSegment(_) => panic!("expected handshake data"),
    }
}

/// Drives the full anonymous XX handshake between an initiator and a
/// non-anonymous responder until both sides hold a transport state.
#[test]
fn anonymous_handshake_completes() {
    let initiator_keys = generate_keys();
    let responder_keys = generate_keys();

    // Initiator sends its first message with no destination.
    let (ini_state, first) =
        initiate_anonymous_handshake(&initiator_keys.private, &initiator_keys.public).unwrap();
    assert!(first.destination.is_none());
    assert!(matches!(first.data, PacketData::Handshake(_)));

    // The responder files a responder state under the claimed source and
    // absorbs the message.
    let mut resp_state = create_handshake_responder(&responder_keys.private);
    assert!(absorb_handshake_message(
        &mut resp_state,
        &handshake_bytes(&first)
    ));

    // On its tick the responder replies, addressed at the initiator.
    let reply = match continue_handshake_entry(
        resp_state,
        &first.source,
        &responder_keys.public,
    ) {
        HandshakeTick::Reply { state, packet } => {
            resp_state = state;
            packet
        }
        _ => panic!("responder should reply"),
    };
    assert_eq!(reply.destination, Some(initiator_keys.public));

    // The initiator files the advanced state under the revealed source.
    let (revealed, mut ini_state) =
        accept_anonymous_response(ini_state, &initiator_keys.public, &reply).unwrap();
    assert_eq!(revealed, responder_keys.public);

    // The initiator's tick sends the final message; the entry stays.
    let last = match continue_handshake_entry(ini_state, &revealed, &initiator_keys.public) {
        HandshakeTick::Reply { state, packet } => {
            ini_state = state;
            packet
        }
        _ => panic!("initiator should reply"),
    };
    assert!(absorb_handshake_message(
        &mut resp_state,
        &handshake_bytes(&last)
    ));

    // Both sides now promote, each under the other's true static key.
    let (mut ini_ts, ini_peer) = match continue_handshake_entry(
        ini_state,
        &responder_keys.public,
        &initiator_keys.public,
    ) {
        HandshakeTick::Promoted { state, node } => (state, node),
        _ => panic!("initiator should promote"),
    };
    assert_eq!(ini_peer, responder_keys.public);
    let (mut resp_ts, resp_peer) = match continue_handshake_entry(
        resp_state,
        &initiator_keys.public,
        &responder_keys.public,
    ) {
        HandshakeTick::Promoted { state, node } => (state, node),
        _ => panic!("responder should promote"),
    };
    assert_eq!(resp_peer, initiator_keys.public);

    // The channel carries a sealed segment end to end.
    let segment = MessageSegment {
        id: 0,
        payload: MessagePayload::Head {
            body_count: 1,
            compression: false,
        },
    };
    let sealed = seal_segment(
        &mut ini_ts,
        &segment,
        &initiator_keys.public,
        &responder_keys.public,
    )
    .unwrap();
    let ct = match &sealed.data {
        PacketData::MessageSegment(ct) => ct.clone(),
        _ => panic!("expected sealed segment"),
    };
    assert_eq!(open_segment(&mut resp_ts, &ct), Some(segment));

    // A corrupted frame is dropped without killing the channel.
    let mut bad = ct;
    bad[0] ^= 0xff;
    assert_eq!(open_segment(&mut resp_ts, &bad), None);
}

/// Promotion is refused when the handshake was filed under the wrong
/// key: no transport state is installed for an impostor.
#[test]
fn identity_mismatch_drops_entry() {
    let initiator_keys = generate_keys();
    let responder_keys = generate_keys();
    let impostor = generate_keys();

    let (ini_state, first) =
        initiate_anonymous_handshake(&initiator_keys.private, &initiator_keys.public).unwrap();
    let mut resp_state = create_handshake_responder(&responder_keys.private);
    assert!(absorb_handshake_message(
        &mut resp_state,
        &handshake_bytes(&first)
    ));
    let reply = match continue_handshake_entry(resp_state, &first.source, &responder_keys.public)
    {
        HandshakeTick::Reply { state, packet } => {
            resp_state = state;
            packet
        }
        _ => panic!("responder should reply"),
    };
    let (_, ini_state) =
        accept_anonymous_response(ini_state, &initiator_keys.public, &reply).unwrap();
    let last = match continue_handshake_entry(
        ini_state,
        &responder_keys.public,
        &initiator_keys.public,
    ) {
        HandshakeTick::Reply { state, packet } => {
            let _ = state;
            packet
        }
        _ => panic!("initiator should reply"),
    };
    assert!(absorb_handshake_message(
        &mut resp_state,
        &handshake_bytes(&last)
    ));

    // The responder filed the entry under the impostor's key: the
    // completed handshake reveals the true key and the entry drops.
    match continue_handshake_entry(resp_state, &impostor.public, &responder_keys.public) {
        HandshakeTick::Dropped => {}
        _ => panic!("mismatched identity must drop the entry"),
    }
}

#[test]
fn packet_classification() {
    let us = PublicKey::new([1; 32]);
    let them = PublicKey::new([2; 32]);
    let third = PublicKey::new([3; 32]);

    let from_self = Packet {
        source: us,
        destination: Some(them),
        data: PacketData::Handshake(vec![1]),
    };
    assert_eq!(classify_packet(&from_self, &us), PacketClass::DropSelfSourced);

    let echo = Packet {
        source: them,
        destination: Some(them),
        data: PacketData::Handshake(vec![1]),
    };
    assert_eq!(
        classify_packet(&echo, &us),
        PacketClass::DropSourceIsDestination
    );

    let hs = Packet {
        source: them,
        destination: Some(us),
        data: PacketData::Handshake(vec![1]),
    };
    assert_eq!(classify_packet(&hs, &us), PacketClass::HandshakeForUs);

    let anon_hs = Packet {
        source: them,
        destination: None,
        data: PacketData::Handshake(vec![1]),
    };
    assert_eq!(classify_packet(&anon_hs, &us), PacketClass::HandshakeForUs);

    let seg = Packet {
        source: them,
        destination: Some(us),
        data: PacketData::MessageSegment(vec![1]),
    };
    assert_eq!(classify_packet(&seg, &us), PacketClass::SegmentForUs);

    let anon_seg = Packet {
        source: them,
        destination: None,
        data: PacketData::MessageSegment(vec![1]),
    };
    assert_eq!(
        classify_packet(&anon_seg, &us),
        PacketClass::DropAnonymousSegment
    );

    let transit = Packet {
        source: them,
        destination: Some(third),
        data: PacketData::MessageSegment(vec![1]),
    };
    assert_eq!(classify_packet(&transit, &us), PacketClass::Transit);
}

#[test]
fn message_dispatch() {
    assert_eq!(
        handle_message(Message::RequestPeerSuggestion),
        MessageAction::ReplyPeerSuggestion
    );
    assert_eq!(
        handle_message(Message::ConnectionClose { connection_id: 4 }),
        MessageAction::CloseConnection { connection_id: 4 }
    );
    assert_eq!(
        handle_message(Message::ConnectionData {
            connection_id: 4,
            data: vec![1]
        }),
        MessageAction::ForwardConnectionData {
            connection_id: 4,
            data: vec![1]
        }
    );
    assert_eq!(
        handle_message(Message::ConnectionHeartbeat { connection_id: 4 }),
        MessageAction::Ignore
    );
}
