//! Wire-format behavior: exact bytes, round trips, and strict rejection.

use routeweaver::codec::decode_packet;
use routeweaver::codec::packet_start_invalid;
use routeweaver::codec::decode_packet_prefix;
use routeweaver::codec::decode_segment;
use routeweaver::codec::encode_packet;
use routeweaver::codec::encode_segment;
use routeweaver::keys::PublicKey;
use routeweaver::msgcodec::decode_message;
use routeweaver::msgcodec::encode_message;
use routeweaver::packet::MessagePayload;
use routeweaver::packet::MessageSegment;
use routeweaver::packet::Packet;
use routeweaver::packet::PacketData;
use routeweaver::peer::Address;
use routeweaver::peer::ApplicationId;
use routeweaver::peer::IpAddress;
use routeweaver::peer::Peer;
use routeweaver::peer::parse_peer_text;
use routeweaver::peer::Protocol;
use routeweaver::proto::Message;

#[test]
fn message_exact_bytes() {
    // A request has only its tag byte.
    assert_eq!(encode_message(&Message::RequestPeerSuggestion), vec![0u8]);
    // A heartbeat: tag, then the connection id as a one-byte varint.
    assert_eq!(
        encode_message(&Message::ConnectionHeartbeat { connection_id: 9 }),
        vec![5u8, 9u8]
    );
    // A close with a large id: tag, marker 251, little-endian 16-bit id.
    assert_eq!(
        encode_message(&Message::ConnectionClose {
            connection_id: 0x1234
        }),
        vec![6u8, 251u8, 0x34u8, 0x12u8]
    );
}

#[test]
fn message_round_trip_all_variants() {
    let peers = vec![
        Peer {
            protocol: Protocol::Tcp,
            address: Address::Ip {
                address: IpAddress::V4([127, 0, 0, 1]),
                port: 12345,
            },
        },
        Peer {
            protocol: Protocol::Bluetooth,
            address: Address::Bluetooth {
                address: [0, 0x11, 0x22, 0x33, 0x44, 0x55],
                psm: 66,
            },
        },
        Peer {
            protocol: Protocol::Wss,
            address: Address::Ip {
                address: IpAddress::V6([0, 0, 0, 0, 0, 0, 0, 0, 0, 0, 0, 0, 0, 0, 0, 1]),
                port: 443,
            },
        },
    ];
    let msgs = vec![
        Message::RequestPeerSuggestion,
        Message::PeerSuggestion { peers },
        Message::RequestConnection {
            application: ApplicationId(b"mesh01".to_vec()),
        },
        Message::ConnectionAccepted {
            application: ApplicationId(b"m".to_vec()),
            connection_id: 77,
        },
        Message::ConnectionDenied {
            application: ApplicationId(Vec::new()),
        },
        Message::ConnectionHeartbeat { connection_id: 1 },
        Message::ConnectionClose {
            connection_id: 0xdeadbeef,
        },
        Message::ConnectionData {
            connection_id: 3,
            data: vec![1, 2, 3, 4, 5],
        },
    ];
    for m in msgs {
        let encoded = encode_message(&m);
        assert_eq!(decode_message(&encoded), Some(m));
    }
}

#[test]
fn message_rejects_trailing_and_bad_tags() {
    let mut encoded = encode_message(&Message::RequestPeerSuggestion);
    encoded.push(0);
    assert_eq!(decode_message(&encoded), None);
    assert_eq!(decode_message(&[200u8]), None);
    assert_eq!(decode_message(&[]), None);
}

#[test]
fn segment_round_trip() {
    let segs = vec![
        MessageSegment {
            id: 0,
            payload: MessagePayload::Head {
                body_count: 2,
                compression: true,
            },
        },
        MessageSegment {
            id: 65535,
            payload: MessagePayload::Body {
                index: 511,
                data: vec![9; 100],
            },
        },
        MessageSegment {
            id: 300,
            payload: MessagePayload::MessageProgress {
                confirmed_head: true,
                confirmed_bodies: vec![(0, 3), (7, 7)],
            },
        },
    ];
    for s in segs {
        let encoded = encode_segment(&s);
        assert_eq!(decode_segment(&encoded), Some(s));
    }
}

#[test]
fn segment_rejects_invalid() {
    // A head whose body count is zero.
    assert_eq!(decode_segment(&[0u8, 0u8, 0u8, 0u8]), None);
    // An inverted confirmation range: lo 5, hi 2.
    assert_eq!(decode_segment(&[0u8, 2u8, 1u8, 1u8, 5u8, 2u8]), None);
    // A non-canonical two-byte varint holding a small value.
    assert_eq!(decode_segment(&[251u8, 5u8, 0u8, 0u8, 1u8, 0u8]), None);
}

#[test]
fn packet_round_trip() {
    let a = PublicKey::new([1; 32]);
    let b = PublicKey::new([2; 32]);
    let packets = vec![
        Packet {
            source: a,
            destination: None,
            data: PacketData::Handshake(vec![5; 96]),
        },
        Packet {
            source: a,
            destination: Some(b),
            data: PacketData::MessageSegment(vec![7; 500]),
        },
    ];
    for p in packets {
        let encoded = encode_packet(&p);
        assert_eq!(decode_packet(&encoded), Some(p.clone()));
        // Prefix decoding reports the exact frame length.
        let mut extended = encoded.clone();
        extended.extend_from_slice(&[1, 2, 3]);
        let (q, used) = decode_packet_prefix(&extended).unwrap();
        assert_eq!(q, p);
        assert_eq!(used, encoded.len());
    }
}

#[test]
fn packet_rejects_trailing_and_oversized_handshake() {
    let p = Packet {
        source: PublicKey::new([3; 32]),
        destination: None,
        data: PacketData::Handshake(vec![1, 2, 3]),
    };
    let mut encoded = encode_packet(&p);
    encoded.push(0);
    assert_eq!(decode_packet(&encoded), None);

    // A handshake length over 128 is refused outright: key, no
    // destination, handshake tag, varint length 200, then 200 bytes.
    let mut bad = vec![9u8; 32];
    bad.push(0);
    bad.push(0);
    bad.push(200);
    bad.extend_from_slice(&[0u8; 200]);
    assert_eq!(decode_packet(&bad), None);

    // Truncated input is refused.
    assert_eq!(decode_packet(&[1, 2, 3]), None);
}

#[test]
fn peer_loopback() {
    let lo4 = Peer {
        protocol: Protocol::Tcp,
        address: Address::Ip {
            address: IpAddress::V4([127, 0, 0, 1]),
            port: 1,
        },
    };
    let lo6 = Peer {
        protocol: Protocol::Tcp,
        address: Address::Ip {
            address: IpAddress::V6([0, 0, 0, 0, 0, 0, 0, 0, 0, 0, 0, 0, 0, 0, 0, 1]),
            port: 1,
        },
    };
    let remote = Peer {
        protocol: Protocol::Udp,
        address: Address::Ip {
            address: IpAddress::V4([192, 168, 1, 4]),
            port: 4343,
        },
    };
    let bt = Peer {
        protocol: Protocol::Bluetooth,
        address: Address::Bluetooth {
            address: [0; 6],
            psm: 1,
        },
    };
    assert!(lo4.is_loopback());
    assert!(lo6.is_loopback());
    assert!(!remote.is_loopback());
    assert!(!bt.is_loopback());
}

#[test]
fn key_hex_round_trip() {
    let mut key = [0u8; 32];
    for (i, b) in key.iter_mut().enumerate() {
        *b = (i as u8).wrapping_mul(37).wrapping_add(11);
    }
    let text = routeweaver::keys::key_to_hex(&key);
    assert_eq!(text.len(), 64);
    assert_eq!(routeweaver::keys::key_from_hex(&text), Some(key));

    // Uppercase digits are accepted too.
    let upper: Vec<u8> = text.iter().map(|b| b.to_ascii_uppercase()).collect();
    assert_eq!(routeweaver::keys::key_from_hex(&upper), Some(key));

    // A known spelling comes out lowercase.
    assert_eq!(
        routeweaver::keys::key_to_hex(&[0xab; 32])[..4].to_vec(),
        b"abab".to_vec()
    );
}

#[test]
fn key_hex_rejects_bad_input() {
    assert_eq!(routeweaver::keys::key_from_hex(b"abc"), None);
    let mut text = routeweaver::keys::key_to_hex(&[7; 32]);
    text[10] = b'g';
    assert_eq!(routeweaver::keys::key_from_hex(&text), None);
}

#[test]
fn stream_classifier_separates_garbage_from_short_reads() {
    let p = Packet {
        source: PublicKey::new([4; 32]),
        destination: Some(PublicKey::new([5; 32])),
        data: PacketData::MessageSegment(vec![9; 40]),
    };
    let encoded = encode_packet(&p);

    // Every strict prefix is a short read, not garbage.
    for cut in 0..encoded.len() {
        assert_eq!(decode_packet_prefix(&encoded[..cut]), None);
        assert!(!packet_start_invalid(&encoded[..cut]));
    }

    // A bad destination tag can never become a packet.
    let mut bad = encoded.clone();
    bad[32] = 9;
    assert!(packet_start_invalid(&bad));
    assert!(packet_start_invalid(&bad[..34]));

    // An oversized handshake length is fatal as soon as it is visible.
    let mut hs = vec![1u8; 32];
    hs.push(0); // no destination
    hs.push(0); // handshake
    hs.push(200); // longer than any handshake may be
    assert!(packet_start_invalid(&hs));
}

#[test]
fn print_bluetooth_peer() {
    let peer = Peer {
        protocol: Protocol::Bluetooth,
        address: Address::Bluetooth {
            address: [0x00, 0x11, 0x22, 0x33, 0x44, 0x55],
            psm: 66,
        },
    };
    assert_eq!(
        b"/bluetooth/bluetooth/00:11:22:33:44:55/66".to_vec(),
        peer.text()
    );
}

#[test]
fn peer_text_forms() {
    let v4 = Peer {
        protocol: Protocol::Tcp,
        address: Address::Ip {
            address: IpAddress::V4([127, 0, 0, 1]),
            port: 12345,
        },
    };
    assert_eq!(b"/tcp/ip/127.0.0.1/12345".to_vec(), v4.text());

    let v6 = Peer {
        protocol: Protocol::Wss,
        address: Address::Ip {
            address: IpAddress::V6([
                0x20, 0x01, 0x0d, 0xb8, 0, 0, 0, 0, 0, 0, 0, 0, 0, 0, 0, 1,
            ]),
            port: 443,
        },
    };
    assert_eq!(b"/wss/ip/2001:db8:0:0:0:0:0:1/443".to_vec(), v6.text());
}

#[test]
fn parse_ipv4_peer() {
    let peer = parse_peer_text(b"/tcp/ipv4/127.0.0.1/12345").unwrap();
    assert_eq!(peer.protocol, Protocol::Tcp);
    assert_eq!(
        peer.address,
        Address::Ip {
            address: IpAddress::V4([127, 0, 0, 1]),
            port: 12345
        }
    );
}

#[test]
fn parse_bluetooth_peer() {
    let peer = parse_peer_text(b"/bluetooth/bluetooth/00:11:22:33:44:55/66").unwrap();

    assert_eq!(peer.protocol, Protocol::Bluetooth);
    assert_eq!(
        peer.address,
        Address::Bluetooth {
            address: [0x00, 0x11, 0x22, 0x33, 0x44, 0x55],
            psm: 66
        }
    );
}

#[test]
fn peer_text_round_trips() {
    let peers = vec![
        Peer {
            protocol: Protocol::Udp,
            address: Address::Ip {
                address: IpAddress::V4([192, 168, 0, 255]),
                port: 4343,
            },
        },
        Peer {
            protocol: Protocol::Wss,
            address: Address::Ip {
                address: IpAddress::V6([
                    0xfe, 0x80, 0, 0, 0, 0, 0, 0, 0x02, 0x1b, 0x44, 0x11, 0x3a, 0xb7, 0, 1,
                ]),
                port: 65535,
            },
        },
        Peer {
            protocol: Protocol::Bluetooth,
            address: Address::Bluetooth {
                address: [0xde, 0xad, 0xbe, 0xef, 0x00, 0x01],
                psm: 25,
            },
        },
    ];
    for peer in peers {
        assert_eq!(parse_peer_text(&peer.text()), Some(peer));
    }
}

#[test]
fn parse_peer_text_rejects_bad_forms() {
    // No leading slash, a fifth segment, a bad family, an out-of-range
    // octet, a short MAC, and an oversized port.
    assert_eq!(parse_peer_text(b"tcp/ip/1.2.3.4/1"), None);
    assert_eq!(parse_peer_text(b"/tcp/ip/1.2.3.4/1/x"), None);
    assert_eq!(parse_peer_text(b"/tcp/dns/example/1"), None);
    assert_eq!(parse_peer_text(b"/tcp/ip/1.2.3.256/1"), None);
    assert_eq!(parse_peer_text(b"/bluetooth/bluetooth/00:11:22:33:44/66"), None);
    assert_eq!(parse_peer_text(b"/tcp/ip/1.2.3.4/65536"), None);
    // Protocol and family tokens are case-insensitive.
    assert!(parse_peer_text(b"/TCP/IP/1.2.3.4/1").is_some());
}
