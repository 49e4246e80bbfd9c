//! Channel encryption: frames message segments into sealed packets and
//! opens inbound ciphertext back into segments.
//!
//! A failed `open` drops only the offending segment; the session and its
//! transport state survive, so one corrupt packet cannot kill a channel.

use vstd::prelude::*;
use crate::codec::decode_segment;
use crate::codec::encode_segment;
use crate::keys::PublicKey;
use crate::noise::ts_read_message;
use crate::noise::ts_write_message;
use crate::packet::MessageSegment;
use crate::packet::Packet;
use crate::packet::PacketData;

verus! {

/// Largest sealed frame a channel produces or accepts.
pub const MAX_SEALED_SIZE: usize = 65535;

fn zero_buffer() -> (r: Vec<u8>)
    ensures
        r@.len() == MAX_SEALED_SIZE,
{
    let mut buf: Vec<u8> = Vec::new();
    let mut i: usize = 0;
    while i < MAX_SEALED_SIZE
        invariant
            buf@.len() == i,
            i <= MAX_SEALED_SIZE,
        decreases MAX_SEALED_SIZE - i,
    {
        buf.push(0);
        i = i + 1;
    }
    buf
}

/// Encodes and seals one segment for `node`: the segment bytes are
/// encrypted under the channel's transport state and wrapped as a
/// packet from us to `node`.  `None` when sealing fails (for instance,
/// a frame too large for the channel).
pub fn seal_segment(
    ts: &mut snow::TransportState,
    segment: &MessageSegment,
    local: &PublicKey,
    node: &PublicKey,
) -> (r: Option<Packet>)
    requires
        segment@.wf(),
    ensures
        r matches Some(p) ==> {
            &&& p@.wf()
            &&& p.source@ == local@
            &&& p.destination matches Some(d) && d@ == node@
            &&& p.data is MessageSegment
        },
{
    let encoded = encode_segment(segment);
    let mut buf = zero_buffer();
    match ts_write_message(ts, encoded.as_slice(), &mut buf) {
        Some(n) => {
            let ct = crate::wire::read_raw(buf.as_slice(), 0, n);
            Some(
                Packet {
                    source: *local,
                    destination: Some(*node),
                    data: PacketData::MessageSegment(ct),
                },
            )
        },
        None => None,
    }
}

/// Opens one inbound ciphertext frame and decodes the segment in it.
/// `None` when decryption or strict decoding fails; the transport state
/// remains usable either way.
pub fn open_segment(ts: &mut snow::TransportState, data: &Vec<u8>) -> (r: Option<MessageSegment>)
    ensures
        r matches Some(seg) ==> seg@.wf(),
{
    let mut buf = zero_buffer();
    match ts_read_message(ts, data.as_slice(), &mut buf) {
        Some(n) => {
            let pt = crate::wire::read_raw(buf.as_slice(), 0, n);
            decode_segment(pt.as_slice())
        },
        None => None,
    }
}

} // verus!
