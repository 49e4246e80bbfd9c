//! Reassembly behavior: ordered and out-of-order segments, wrapping ids,
//! window limits, and hostile input.

use routeweaver::assembler::MessageAssembler;
use routeweaver::assembler::MARGIN_OF_OUT_OF_ORDER_ALLOWED;
use routeweaver::packet::MessageId;
use routeweaver::packet::MAX_PACKET_PAYLOAD_SIZE;

#[test]
fn final_partial_segment() {
    let mut tracker = MessageAssembler::default();
    let bodies = vec![0, 1, 2, 3];

    tracker.head(0, 1, false);
    tracker.body(0, 0, bodies.clone());

    assert_eq!(Some((bodies, 0)), tracker.next());
}

#[test]
fn final_full_body() {
    let mut tracker = MessageAssembler::default();
    let bodies = [vec![0; MAX_PACKET_PAYLOAD_SIZE]];

    tracker.head(0, bodies.len() as u16, false);
    tracker.body(0, 0, bodies[0].clone());

    assert_eq!(Some((bodies.concat(), 0)), tracker.next());
}

#[test]
fn full_and_partial_body() {
    let mut tracker = MessageAssembler::default();
    let bodies = [vec![0; MAX_PACKET_PAYLOAD_SIZE], vec![0, 1, 2, 3]];

    tracker.head(0, bodies.len() as u16, false);
    tracker.body(0, 0, bodies[0].clone());
    tracker.body(0, 1, bodies[1].clone());

    assert_eq!(Some((bodies.concat(), 0)), tracker.next());
}

#[test]
fn multiple_full_bodies() {
    let mut tracker = MessageAssembler::default();
    let bodies = [
        vec![0; MAX_PACKET_PAYLOAD_SIZE],
        vec![1; MAX_PACKET_PAYLOAD_SIZE],
    ];

    tracker.head(0, bodies.len() as u16, false);
    tracker.body(0, 0, bodies[0].clone());
    tracker.body(0, 1, bodies[1].clone());

    assert_eq!(Some((bodies.concat(), 0)), tracker.next());
}

#[test]
fn out_of_order_body() {
    let mut tracker = MessageAssembler::default();
    let bodies = [
        vec![0; MAX_PACKET_PAYLOAD_SIZE],
        vec![1; MAX_PACKET_PAYLOAD_SIZE],
        vec![2; MAX_PACKET_PAYLOAD_SIZE],
        vec![0, 1, 2, 3],
    ];

    tracker.head(0, bodies.len() as u16, false);
    tracker.body(0, 1, bodies[1].clone());
    tracker.body(0, 0, bodies[0].clone());
    tracker.body(0, 3, bodies[3].clone());
    tracker.body(0, 2, bodies[2].clone());

    assert_eq!(Some((bodies.concat(), 0)), tracker.next());
}

#[test]
fn out_of_order_head() {
    let mut tracker = MessageAssembler::default();
    let bodies = [
        vec![0; MAX_PACKET_PAYLOAD_SIZE],
        vec![1; MAX_PACKET_PAYLOAD_SIZE],
        vec![2; MAX_PACKET_PAYLOAD_SIZE],
        vec![0, 1, 2, 3],
    ];

    tracker.body(0, 0, bodies[0].clone());
    tracker.body(0, 1, bodies[1].clone());
    tracker.body(0, 2, bodies[2].clone());
    tracker.head(0, bodies.len() as u16, false);
    tracker.body(0, 3, bodies[3].clone());

    assert_eq!(Some((bodies.concat(), 0)), tracker.next());
}

#[test]
fn out_of_order_bodies_and_head() {
    let mut tracker = MessageAssembler::default();
    let bodies = [
        vec![0; MAX_PACKET_PAYLOAD_SIZE],
        vec![1; MAX_PACKET_PAYLOAD_SIZE],
        vec![2; MAX_PACKET_PAYLOAD_SIZE],
        vec![0, 1, 2, 3],
    ];

    tracker.body(0, 1, bodies[1].clone());
    tracker.head(0, bodies.len() as u16, false);
    tracker.body(0, 0, bodies[0].clone());
    tracker.body(0, 3, bodies[3].clone());
    tracker.body(0, 2, bodies[2].clone());

    assert_eq!(Some((bodies.concat(), 0)), tracker.next());
}

#[test]
fn multiple_messages_single_bodies() {
    let mut tracker = MessageAssembler::default();
    let bodies = [
        [vec![0; MAX_PACKET_PAYLOAD_SIZE]],
        [vec![1; MAX_PACKET_PAYLOAD_SIZE]],
    ];

    tracker.head(0, bodies[0].len() as u16, false);
    tracker.body(0, 0, bodies[0][0].clone());

    tracker.head(1, bodies[1].len() as u16, false);
    tracker.body(1, 0, bodies[1][0].clone());

    assert_eq!(Some((bodies[0].concat(), 0)), tracker.next());
    assert_eq!(Some((bodies[1].concat(), 1)), tracker.next());
}

#[test]
fn multiple_messages_multiple_bodies() {
    let mut tracker = MessageAssembler::default();
    let bodies = [
        [
            vec![0; MAX_PACKET_PAYLOAD_SIZE],
            vec![1; MAX_PACKET_PAYLOAD_SIZE],
        ],
        [
            vec![2; MAX_PACKET_PAYLOAD_SIZE],
            vec![3; MAX_PACKET_PAYLOAD_SIZE],
        ],
    ];

    tracker.head(0, bodies[0].len() as u16, false);
    tracker.body(0, 0, bodies[0][0].clone());
    tracker.body(0, 1, bodies[0][1].clone());

    tracker.head(1, bodies[1].len() as u16, false);
    tracker.body(1, 0, bodies[1][0].clone());
    tracker.body(1, 1, bodies[1][1].clone());

    assert_eq!(Some((bodies[0].concat(), 0)), tracker.next());
    assert_eq!(Some((bodies[1].concat(), 1)), tracker.next());
}

#[test]
fn too_many_pending_messages() {
    let mut tracker = MessageAssembler::default();
    let body = vec![0; MAX_PACKET_PAYLOAD_SIZE];

    for i in 0..MARGIN_OF_OUT_OF_ORDER_ALLOWED as MessageId {
        tracker.head(i, 1, false);
        tracker.body(i, 0, body.clone());
    }

    tracker.head(MARGIN_OF_OUT_OF_ORDER_ALLOWED as MessageId, 1, false);
    tracker.body(MARGIN_OF_OUT_OF_ORDER_ALLOWED as MessageId, 0, body.clone());

    for i in 0..MARGIN_OF_OUT_OF_ORDER_ALLOWED as MessageId {
        assert_eq!(Some((body.clone(), i)), tracker.next());
    }

    assert_eq!(None, tracker.next());
}

#[test]
fn incorrect_first_message_correct_second_message() {
    let mut tracker = MessageAssembler::default();
    let body = [vec![1, 2, 3, 4], vec![5, 6, 7, 8], vec![9, 10, 11, 12]];

    // The third call will invalidate and discard the first message
    tracker.head(0, 1, false);
    tracker.body(0, 0, body[0].clone());
    tracker.body(0, 1, body[1].clone());

    // Message works as expected
    tracker.head(1, 1, false);
    tracker.body(1, 0, body[2].clone());

    // We should be getting neither of them
    assert_eq!(None, tracker.next());
    assert_eq!(None, tracker.next());

    // Now we write a actual sensical message
    tracker.head(0, 1, false);
    tracker.body(0, 0, body[0].clone());

    // We should be getting both of them
    assert_eq!(Some((body[0].clone(), 0)), tracker.next());
    assert_eq!(Some((body[2].clone(), 1)), tracker.next());
}

#[test]
fn incorrect_head_body_count() {
    let mut tracker = MessageAssembler::default();
    let bodies = [
        vec![0; MAX_PACKET_PAYLOAD_SIZE],
        vec![1; MAX_PACKET_PAYLOAD_SIZE],
        vec![2; MAX_PACKET_PAYLOAD_SIZE],
        vec![0, 1, 2, 3],
    ];

    tracker.body(0, 1, bodies[1].clone());
    tracker.body(0, 0, bodies[0].clone());
    tracker.body(0, 3, bodies[3].clone());
    tracker.body(0, 2, bodies[2].clone());
    tracker.head(0, 1, false);

    assert_eq!(None, tracker.next());
}

#[test]
fn delivery_ids_increase_by_one() {
    let mut tracker = MessageAssembler::default();
    let body = vec![7, 7, 7];

    let mut expected: MessageId = 0;
    for round in 0..40u32 {
        let id = round as MessageId;
        tracker.head(id, 1, false);
        tracker.body(id, 0, body.clone());
        let (_, delivered) = tracker.next().unwrap();
        assert_eq!(delivered, expected);
        expected = expected.wrapping_add(1);
    }
}

#[test]
fn hostile_slot_does_not_touch_neighbors() {
    let mut tracker = MessageAssembler::default();

    // A valid single-body message at id 1.
    tracker.head(1, 1, false);
    tracker.body(1, 0, vec![9, 9, 9]);

    // Hostile input at id 0: an empty body invalidates only slot 0.
    tracker.body(0, 0, Vec::new());
    assert_eq!(None, tracker.next());

    // Slot 0 recovers with consistent segments, and id 1 is untouched.
    tracker.head(0, 1, false);
    tracker.body(0, 0, vec![1]);
    assert_eq!(Some((vec![1], 0)), tracker.next());
    assert_eq!(Some((vec![9, 9, 9], 1)), tracker.next());
}

#[test]
fn oversized_body_index_rejected() {
    let mut tracker = MessageAssembler::default();

    // Index 512 is outside the addressable range and poisons only slot 0.
    tracker.body(0, 512, vec![1, 2, 3]);
    tracker.head(0, 1, false);
    tracker.body(0, 0, vec![1, 2, 3]);
    assert_eq!(Some((vec![1, 2, 3], 0)), tracker.next());
}

#[test]
fn far_ahead_ids_are_ignored() {
    let mut tracker = MessageAssembler::default();

    // An id past the out-of-order window must not alias a slot.
    tracker.head(MARGIN_OF_OUT_OF_ORDER_ALLOWED as MessageId + 3, 1, false);
    tracker.body(
        MARGIN_OF_OUT_OF_ORDER_ALLOWED as MessageId + 3,
        0,
        vec![1, 2, 3],
    );
    assert_eq!(None, tracker.next());
}

#[test]
fn undecompressable_message_is_dropped_and_cursor_advances() {
    let mut tracker = MessageAssembler::default();

    // A "compressed" message whose bytes are no LZ4 stream (the size
    // prefix announces two bytes, then nothing follows) is dropped, but
    // its id is consumed, so the next id still delivers.
    tracker.head(0, 1, true);
    tracker.body(0, 0, vec![2, 0, 0, 0]);
    assert_eq!(None, tracker.next());

    tracker.head(1, 1, false);
    tracker.body(1, 0, vec![4, 4]);
    assert_eq!(Some((vec![4, 4], 1)), tracker.next());
}
