//! Segmentation behavior: head and body emission, confirmation, and the
//! compression heuristic.

use routeweaver::disassembler::MessageDisassembler;
use routeweaver::entropy::should_message_be_compressed;
use routeweaver::msgcodec::encode_message;
use routeweaver::packet::MessagePayload;
use routeweaver::proto::Message;

#[test]
fn message_entropy() {
    let buffer = vec![0; 1000];

    assert!(should_message_be_compressed(&buffer));
}

#[test]
fn nonconfirmed_message() {
    let mut tracker = MessageDisassembler::default();
    tracker.message(&Message::RequestPeerSuggestion);

    assert_eq!(
        tracker.payloads(),
        Some((
            0,
            vec![
                MessagePayload::Head {
                    body_count: 1,
                    compression: false
                },
                MessagePayload::Body {
                    data: encode_message(&Message::RequestPeerSuggestion),
                    index: 0
                },
            ]
        ))
    );
}

#[test]
fn confirmed_head() {
    let mut tracker = MessageDisassembler::default();
    tracker.message(&Message::RequestPeerSuggestion);
    tracker.head_status(0, true);

    assert_eq!(
        tracker.payloads(),
        Some((
            0,
            vec![MessagePayload::Body {
                index: 0,
                data: encode_message(&Message::RequestPeerSuggestion)
            }]
        ))
    );
}

#[test]
fn confirmed_body() {
    let mut tracker = MessageDisassembler::default();
    tracker.message(&Message::RequestPeerSuggestion);
    tracker.body_status(0, &vec![(0, 0)]);

    assert_eq!(
        tracker.payloads(),
        Some((
            0,
            vec![MessagePayload::Head {
                body_count: 1,
                compression: false
            }]
        ))
    );
}

#[test]
fn confirmed_head_and_body() {
    let mut tracker = MessageDisassembler::default();
    tracker.message(&Message::RequestPeerSuggestion);
    tracker.head_status(0, true);
    tracker.body_status(0, &vec![(0, 0)]);

    assert_eq!(tracker.payloads(), None);
}

#[test]
fn multiple_nonconfirmed_messages() {
    let mut tracker = MessageDisassembler::default();
    tracker.message(&Message::RequestPeerSuggestion);
    tracker.message(&Message::RequestPeerSuggestion);

    assert_eq!(
        tracker.payloads(),
        Some((
            0,
            vec![
                MessagePayload::Head {
                    body_count: 1,
                    compression: false
                },
                MessagePayload::Body {
                    index: 0,
                    data: encode_message(&Message::RequestPeerSuggestion)
                },
            ]
        ))
    );

    tracker.head_status(0, true);
    tracker.body_status(0, &vec![(0, 0)]);
    tracker.payloads();

    assert_eq!(
        tracker.payloads(),
        Some((
            1,
            vec![
                MessagePayload::Head {
                    body_count: 1,
                    compression: false
                },
                MessagePayload::Body {
                    index: 0,
                    data: encode_message(&Message::RequestPeerSuggestion)
                }
            ]
        ))
    );
}

#[test]
fn assigned_ids_increase_by_one() {
    let mut tracker = MessageDisassembler::default();
    let mut expected: u16 = 0;
    for _ in 0..20 {
        let id = tracker.message(&Message::RequestPeerSuggestion);
        assert_eq!(id, expected);
        expected = expected.wrapping_add(1);
    }
}

#[test]
fn confirmation_is_idempotent() {
    let mut once = MessageDisassembler::default();
    let mut twice = MessageDisassembler::default();
    once.message(&Message::RequestPeerSuggestion);
    twice.message(&Message::RequestPeerSuggestion);

    once.head_status(0, true);
    twice.head_status(0, true);
    twice.head_status(0, true);
    once.body_status(0, &vec![(0, 0)]);
    twice.body_status(0, &vec![(0, 0)]);
    twice.body_status(0, &vec![(0, 0)]);

    assert_eq!(
        once.is_message_confirmed(0),
        twice.is_message_confirmed(0)
    );
    assert_eq!(once.payloads(), twice.payloads());
    assert_eq!(once.payloads(), twice.payloads());
}

#[test]
fn random_bytes_stay_uncompressed() {
    // A deterministic xorshift generator stands in for random content.
    let mut x: u64 = 0x243f6a8885a308d3;
    let mut data = Vec::new();
    for _ in 0..1000 {
        x ^= x << 13;
        x ^= x >> 7;
        x ^= x << 17;
        data.push((x % 256) as u8);
    }
    assert!(!should_message_be_compressed(&data));

    let mut tracker = MessageDisassembler::default();
    let id = tracker.message(&Message::ConnectionData {
        connection_id: 7,
        data,
    });
    let (_, payloads) = tracker.payloads().unwrap();
    assert!(matches!(
        payloads[0],
        MessagePayload::Head {
            compression: false,
            ..
        }
    ));
    assert_eq!(id, 0);
}

#[test]
fn zeroed_message_is_compressed() {
    let mut tracker = MessageDisassembler::default();
    tracker.message(&Message::ConnectionData {
        connection_id: 7,
        data: vec![0; 1000],
    });
    let (_, payloads) = tracker.payloads().unwrap();
    assert!(matches!(
        payloads[0],
        MessagePayload::Head {
            compression: true,
            ..
        }
    ));
}
