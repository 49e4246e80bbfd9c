//! End-to-end pipeline: messages split by the disassembler and fed to
//! the assembler come back identical, in any segment order.

use routeweaver::assembler::MessageAssembler;
use routeweaver::disassembler::MessageDisassembler;
use routeweaver::packet::MessagePayload;
use routeweaver::proto::Message;

fn transfer(payloads: Vec<MessagePayload>, id: u16, assembler: &mut MessageAssembler) {
    for p in payloads {
        match p {
            MessagePayload::Head {
                body_count,
                compression,
            } => assembler.head(id, body_count, compression),
            MessagePayload::Body { index, data } => assembler.body(id, index, data),
            MessagePayload::MessageProgress { .. } => {}
        }
    }
}

fn round_trip_in_order(m: Message) {
    let mut dis = MessageDisassembler::default();
    let mut rx = MessageAssembler::default();
    let id = dis.message(&m);
    let (emit_id, payloads) = dis.payloads().unwrap();
    assert_eq!(id, emit_id);
    transfer(payloads, emit_id, &mut rx);
    let (got_id, got) = rx.next_message().unwrap();
    assert_eq!(got_id, id);
    assert_eq!(got, m);
}

#[test]
fn round_trip_short_message() {
    round_trip_in_order(Message::RequestPeerSuggestion);
    round_trip_in_order(Message::ConnectionData {
        connection_id: 3,
        data: vec![1, 2, 3, 4],
    });
}

#[test]
fn round_trip_multi_body_message() {
    // More than one body, with a partial tail; high entropy so it stays
    // uncompressed.
    let mut x: u64 = 0x9e3779b97f4a7c15;
    let mut data = Vec::new();
    for _ in 0..(64512 + 4) {
        x ^= x << 13;
        x ^= x >> 7;
        x ^= x << 17;
        data.push((x % 256) as u8);
    }
    round_trip_in_order(Message::ConnectionData {
        connection_id: 1,
        data,
    });
}

#[test]
fn round_trip_compressed_message() {
    // A zeroed payload is compressed and must still come back intact.
    round_trip_in_order(Message::ConnectionData {
        connection_id: 2,
        data: vec![0; 100000],
    });
}

#[test]
fn round_trip_any_permutation() {
    // One message, three segments (head + two bodies): every order of
    // delivery reassembles the same bytes.
    let mut data = vec![0u8; 64512];
    data.extend_from_slice(&[1, 2, 3, 4]);
    let mut x: u64 = 1;
    for b in data.iter_mut() {
        x ^= x << 13;
        x ^= x >> 7;
        x ^= x << 17;
        *b = (x % 256) as u8;
    }
    let m = Message::ConnectionData {
        connection_id: 9,
        data,
    };

    let mut dis = MessageDisassembler::default();
    let id = dis.message(&m);
    let (_, payloads) = dis.payloads().unwrap();
    assert_eq!(payloads.len(), 3);

    let orders: Vec<Vec<usize>> = vec![
        vec![0, 1, 2],
        vec![0, 2, 1],
        vec![1, 0, 2],
        vec![1, 2, 0],
        vec![2, 0, 1],
        vec![2, 1, 0],
    ];
    for order in orders {
        let mut rx = MessageAssembler::default();
        for k in order {
            match payloads[k].clone() {
                MessagePayload::Head {
                    body_count,
                    compression,
                } => rx.head(id, body_count, compression),
                MessagePayload::Body { index, data } => rx.body(id, index, data),
                MessagePayload::MessageProgress { .. } => {}
            }
        }
        let (got_id, got) = rx.next_message().unwrap();
        assert_eq!(got_id, id);
        assert_eq!(got, m);
    }
}

#[test]
fn progress_feedback_completes_message() {
    // Confirming the head and all bodies drains the tracker.
    let mut dis = MessageDisassembler::default();
    let id = dis.message(&Message::ConnectionData {
        connection_id: 5,
        data: vec![9; 70000],
    });
    let (_, payloads) = dis.payloads().unwrap();
    let body_count = payloads
        .iter()
        .filter(|p| matches!(p, MessagePayload::Body { .. }))
        .count() as u16;
    dis.head_status(id, true);
    dis.body_status(id, &vec![(0, body_count - 1)]);
    assert!(dis.is_message_confirmed(id));
    assert_eq!(dis.payloads(), None);
    // The tracker is gone: nothing further is emitted for that id.
    assert_eq!(dis.payloads(), None);
}
