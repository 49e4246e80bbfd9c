//! Bit-exact wire format for packets and message segments.
//!
//! The format is stable and little-endian with variable-length integers
//! and no magic bytes; it is identical for every transport.  Decoding is
//! strict: it rejects a zero body count, a body larger than
//! [`MAX_PACKET_PAYLOAD_SIZE`], an oversized handshake, an inverted
//! confirmation range, any non-canonical integer form, and (for
//! datagrams) trailing bytes after a complete packet.

use vstd::prelude::*;
use crate::keys::PublicKey;
use crate::packet::MAX_HANDSHAKE_SIZE;
use crate::packet::MAX_PACKET_PAYLOAD_SIZE;
use crate::packet::MessagePayload;
use crate::packet::MessageSegment;
use crate::packet::Packet;
use crate::packet::PacketData;
use crate::packet::PacketDataModel;
use crate::packet::PacketModel;
use crate::packet::PayloadModel;
use crate::packet::SegmentModel;
use crate::wire::enc_bool;
use crate::wire::enc_bytes;
use crate::wire::enc_varu16;
use crate::wire::enc_varu32;
use crate::wire::lemma_parse_bool;
use crate::wire::lemma_parse_bytes;
use crate::wire::lemma_parse_varu16;
use crate::wire::lemma_parse_varu32;
use crate::wire::parse_bool;
use crate::wire::parse_bytes;
use crate::wire::parse_key_bytes;
use crate::wire::parse_varu16;
use crate::wire::parse_varu32;
use crate::wire::push_bool;
use crate::wire::push_bytes;
use crate::wire::push_slice;
use crate::wire::push_varu16;
use crate::wire::push_varu32;
use crate::wire::read_bool;
use crate::wire::read_bytes;
use crate::wire::read_varu16;
use crate::wire::read_varu32;

verus! {

/// A piece of a longer sequence that equals a known encoding also
/// matches that encoding piecewise.
pub proof fn lemma_chunk(s: Seq<u8>, i: int, e: Seq<u8>, off: int, len: int)
    requires
        0 <= i,
        i + e.len() <= s.len(),
        s.subrange(i, i + e.len() as int) == e,
        0 <= off,
        0 <= len,
        off + len <= e.len(),
    ensures
        s.subrange(i + off, i + off + len) == e.subrange(off, off + len),
{
    assert forall|k: int| 0 <= k < len implies #[trigger] s.subrange(i + off, i + off + len)[k]
        == e.subrange(off, off + len)[k] by {
        assert(s[i + off + k] == s.subrange(i, i + e.len() as int)[off + k]);
    }
    assert(s.subrange(i + off, i + off + len) =~= e.subrange(off, off + len));
}

// ---------------------------------------------------------------------
// Confirmation ranges
// ---------------------------------------------------------------------
/// Encoding of inclusive confirmation ranges, in order.
pub open spec fn enc_ranges(rs: Seq<(u16, u16)>) -> Seq<u8>
    decreases rs.len(),
{
    if rs.len() == 0 {
        Seq::empty()
    } else {
        enc_varu16(rs[0].0) + enc_varu16(rs[0].1) + enc_ranges(rs.drop_first())
    }
}

pub proof fn lemma_enc_ranges_push(rs: Seq<(u16, u16)>, r: (u16, u16))
    ensures
        enc_ranges(rs.push(r)) == enc_ranges(rs) + enc_varu16(r.0) + enc_varu16(r.1),
    decreases rs.len(),
{
    if rs.len() == 0 {
        assert(rs.push(r).drop_first() =~= Seq::<(u16, u16)>::empty());
        assert(rs.push(r)[0] == r);
        assert(enc_ranges(rs.push(r).drop_first()) == Seq::<u8>::empty());
        assert(enc_ranges(rs) == Seq::<u8>::empty());
        assert(enc_ranges(rs.push(r)) =~= enc_ranges(rs) + enc_varu16(r.0) + enc_varu16(r.1));
    } else {
        assert(rs.push(r).drop_first() =~= rs.drop_first().push(r));
        lemma_enc_ranges_push(rs.drop_first(), r);
        assert(rs.push(r)[0] == rs[0]);
        assert(enc_ranges(rs.push(r)) =~= enc_ranges(rs) + enc_varu16(r.0) + enc_varu16(r.1));
    }
}

/// Parse of exactly `n` ranges; each must satisfy lo <= hi.
pub open spec fn parse_ranges(s: Seq<u8>, i: int, n: int) -> Option<(Seq<(u16, u16)>, int)>
    decreases n,
{
    if n <= 0 {
        Some((Seq::empty(), i))
    } else {
        match parse_varu16(s, i) {
            Some((lo, j)) => match parse_varu16(s, j) {
                Some((hi, k)) => {
                    if lo <= hi {
                        match parse_ranges(s, k, n - 1) {
                            Some((rest, e)) => Some((seq![(lo, hi)] + rest, e)),
                            None => None,
                        }
                    } else {
                        None
                    }
                },
                None => None,
            },
            None => None,
        }
    }
}

pub proof fn lemma_parse_ranges(s: Seq<u8>, i: int, rs: Seq<(u16, u16)>)
    requires
        0 <= i,
        i + enc_ranges(rs).len() <= s.len(),
        s.subrange(i, i + enc_ranges(rs).len() as int) == enc_ranges(rs),
        forall|k: int| 0 <= k < rs.len() ==> (#[trigger] rs[k]).0 <= rs[k].1,
    ensures
        parse_ranges(s, i, rs.len() as int) == Some((rs, i + enc_ranges(rs).len() as int)),
    decreases rs.len(),
{
    if rs.len() == 0 {
        assert(rs =~= Seq::<(u16, u16)>::empty());
    } else {
        let e = enc_ranges(rs);
        let lo = rs[0].0;
        let hi = rs[0].1;
        let a = enc_varu16(lo);
        let b = enc_varu16(hi);
        let rest = enc_ranges(rs.drop_first());
        assert(e == a + b + rest);
        lemma_chunk(s, i, e, 0, a.len() as int);
        assert((a + b + rest).subrange(0, a.len() as int) =~= a);
        lemma_parse_varu16(s, i, lo);
        let j = i + a.len() as int;
        lemma_chunk(s, i, e, a.len() as int, b.len() as int);
        assert((a + b + rest).subrange(a.len() as int, (a.len() + b.len()) as int) =~= b);
        lemma_parse_varu16(s, j, hi);
        let k = j + b.len() as int;
        lemma_chunk(s, i, e, (a.len() + b.len()) as int, rest.len() as int);
        assert((a + b + rest).subrange((a.len() + b.len()) as int, e.len() as int) =~= rest);
        assert(forall|q: int| 0 <= q < rs.drop_first().len() ==> (#[trigger] rs.drop_first()[q]).0
            <= rs.drop_first()[q].1);
        lemma_parse_ranges(s, k, rs.drop_first());
        assert(seq![(lo, hi)] + rs.drop_first() =~= rs);
    }
}

// ---------------------------------------------------------------------
// Message payloads
// ---------------------------------------------------------------------
/// Encoding of a message payload: a tag byte, then its fields.
pub open spec fn enc_payload(p: PayloadModel) -> Seq<u8> {
    match p {
        PayloadModel::Head { body_count, compression } => seq![0u8] + enc_varu16(body_count)
            + enc_bool(compression),
        PayloadModel::Body { index, data } => seq![1u8] + enc_varu16(index) + enc_bytes(data),
        PayloadModel::MessageProgress { confirmed_head, confirmed_bodies } => seq![2u8] + enc_bool(
            confirmed_head,
        ) + enc_varu32(confirmed_bodies.len() as u32) + enc_ranges(confirmed_bodies),
    }
}

/// Strict parse of a message payload; enforces the payload bounds.
pub open spec fn parse_payload(s: Seq<u8>, i: int) -> Option<(PayloadModel, int)> {
    if 0 <= i < s.len() {
        let tag = s[i];
        if tag == 0 {
            match parse_varu16(s, i + 1) {
                Some((bc, j)) => match parse_bool(s, j) {
                    Some((comp, k)) => {
                        if bc >= 1 {
                            Some((PayloadModel::Head { body_count: bc, compression: comp }, k))
                        } else {
                            None
                        }
                    },
                    None => None,
                },
                None => None,
            }
        } else if tag == 1 {
            match parse_varu16(s, i + 1) {
                Some((index, j)) => match parse_bytes(s, j, MAX_PACKET_PAYLOAD_SIZE as int) {
                    Some((data, k)) => Some((PayloadModel::Body { index, data }, k)),
                    None => None,
                },
                None => None,
            }
        } else if tag == 2 {
            match parse_bool(s, i + 1) {
                Some((ch, j)) => match parse_varu32(s, j) {
                    Some((n, k)) => match parse_ranges(s, k, n as int) {
                        Some((rs, e)) => Some(
                            (
                                PayloadModel::MessageProgress {
                                    confirmed_head: ch,
                                    confirmed_bodies: rs,
                                },
                                e,
                            ),
                        ),
                        None => None,
                    },
                    None => None,
                },
                None => None,
            }
        } else {
            None
        }
    } else {
        None
    }
}

pub proof fn lemma_parse_payload(s: Seq<u8>, i: int, p: PayloadModel)
    requires
        0 <= i,
        p.wf(),
        i + enc_payload(p).len() <= s.len(),
        s.subrange(i, i + enc_payload(p).len() as int) == enc_payload(p),
    ensures
        parse_payload(s, i) == Some((p, i + enc_payload(p).len() as int)),
{
    let e = enc_payload(p);
    assert(s[i] == e[0]);
    match p {
        PayloadModel::Head { body_count, compression } => {
            let a = enc_varu16(body_count);
            let b = enc_bool(compression);
            assert(e == seq![0u8] + a + b);
            lemma_chunk(s, i, e, 1, a.len() as int);
            assert((seq![0u8] + a + b).subrange(1, (1 + a.len()) as int) =~= a);
            lemma_parse_varu16(s, i + 1, body_count);
            let j = i + 1 + a.len() as int;
            lemma_chunk(s, i, e, (1 + a.len()) as int, 1);
            assert((seq![0u8] + a + b).subrange((1 + a.len()) as int, e.len() as int) =~= b);
            lemma_parse_bool(s, j, compression);
        },
        PayloadModel::Body { index, data } => {
            let a = enc_varu16(index);
            let b = enc_bytes(data);
            assert(e == seq![1u8] + a + b);
            lemma_chunk(s, i, e, 1, a.len() as int);
            assert((seq![1u8] + a + b).subrange(1, (1 + a.len()) as int) =~= a);
            lemma_parse_varu16(s, i + 1, index);
            let j = i + 1 + a.len() as int;
            lemma_chunk(s, i, e, (1 + a.len()) as int, b.len() as int);
            assert((seq![1u8] + a + b).subrange((1 + a.len()) as int, e.len() as int) =~= b);
            lemma_parse_bytes(s, j, data, MAX_PACKET_PAYLOAD_SIZE as int);
        },
        PayloadModel::MessageProgress { confirmed_head, confirmed_bodies } => {
            let a = enc_bool(confirmed_head);
            let b = enc_varu32(confirmed_bodies.len() as u32);
            let c = enc_ranges(confirmed_bodies);
            assert(e == seq![2u8] + a + b + c);
            lemma_chunk(s, i, e, 1, a.len() as int);
            assert((seq![2u8] + a + b + c).subrange(1, (1 + a.len()) as int) =~= a);
            lemma_parse_bool(s, i + 1, confirmed_head);
            let j = i + 1 + a.len() as int;
            lemma_chunk(s, i, e, (1 + a.len()) as int, b.len() as int);
            assert((seq![2u8] + a + b + c).subrange((1 + a.len()) as int, (1 + a.len() + b.len()) as int)
                =~= b);
            lemma_parse_varu32(s, j, confirmed_bodies.len() as u32);
            let k = j + b.len() as int;
            lemma_chunk(s, i, e, (1 + a.len() + b.len()) as int, c.len() as int);
            assert((seq![2u8] + a + b + c).subrange((1 + a.len() + b.len()) as int, e.len() as int)
                =~= c);
            lemma_parse_ranges(s, k, confirmed_bodies);
        },
    }
}

// ---------------------------------------------------------------------
// Message segments
// ---------------------------------------------------------------------
/// Encoding of a message segment: its id, then its payload.
pub open spec fn enc_segment(m: SegmentModel) -> Seq<u8> {
    enc_varu16(m.id) + enc_payload(m.payload)
}

pub open spec fn parse_segment(s: Seq<u8>, i: int) -> Option<(SegmentModel, int)> {
    match parse_varu16(s, i) {
        Some((id, j)) => match parse_payload(s, j) {
            Some((p, k)) => Some((SegmentModel { id, payload: p }, k)),
            None => None,
        },
        None => None,
    }
}

/// A whole decrypted frame is one segment with nothing after it.
pub open spec fn segment_from_bytes(s: Seq<u8>) -> Option<SegmentModel> {
    match parse_segment(s, 0) {
        Some((m, e)) => {
            if e == s.len() {
                Some(m)
            } else {
                None
            }
        },
        None => None,
    }
}

pub proof fn lemma_parse_segment(s: Seq<u8>, i: int, m: SegmentModel)
    requires
        0 <= i,
        m.wf(),
        i + enc_segment(m).len() <= s.len(),
        s.subrange(i, i + enc_segment(m).len() as int) == enc_segment(m),
    ensures
        parse_segment(s, i) == Some((m, i + enc_segment(m).len() as int)),
{
    let e = enc_segment(m);
    let a = enc_varu16(m.id);
    let b = enc_payload(m.payload);
    assert(e == a + b);
    lemma_chunk(s, i, e, 0, a.len() as int);
    assert((a + b).subrange(0, a.len() as int) =~= a);
    lemma_parse_varu16(s, i, m.id);
    let j = i + a.len() as int;
    lemma_chunk(s, i, e, a.len() as int, b.len() as int);
    assert((a + b).subrange(a.len() as int, e.len() as int) =~= b);
    lemma_parse_payload(s, j, m.payload);
}

/// Round trip: decoding an encoded segment gives the segment back.
pub proof fn lemma_segment_round_trip(m: SegmentModel)
    requires
        m.wf(),
    ensures
        segment_from_bytes(enc_segment(m)) == Some(m),
{
    let e = enc_segment(m);
    assert(e.subrange(0, e.len() as int) =~= e);
    lemma_parse_segment(e, 0, m);
}

// ---------------------------------------------------------------------
// Packets
// ---------------------------------------------------------------------
/// Encoding of an optional 32-byte key.
pub open spec fn enc_opt_key(d: Option<Seq<u8>>) -> Seq<u8> {
    match d {
        None => seq![0u8],
        Some(k) => seq![1u8] + k,
    }
}

pub open spec fn parse_opt_key(s: Seq<u8>, i: int) -> Option<(Option<Seq<u8>>, int)> {
    if 0 <= i < s.len() {
        if s[i] == 0 {
            Some((None, i + 1))
        } else if s[i] == 1 {
            match parse_key_bytes(s, i + 1) {
                Some((k, j)) => Some((Some(k), j)),
                None => None,
            }
        } else {
            None
        }
    } else {
        None
    }
}

/// Encoding of the packet payload variant.
pub open spec fn enc_packet_data(d: PacketDataModel) -> Seq<u8> {
    match d {
        PacketDataModel::Handshake(b) => seq![0u8] + enc_bytes(b),
        PacketDataModel::MessageSegment(b) => seq![1u8] + enc_bytes(b),
    }
}

pub open spec fn parse_packet_data(s: Seq<u8>, i: int) -> Option<(PacketDataModel, int)> {
    if 0 <= i < s.len() {
        if s[i] == 0 {
            match parse_bytes(s, i + 1, MAX_HANDSHAKE_SIZE as int) {
                Some((b, j)) => Some((PacketDataModel::Handshake(b), j)),
                None => None,
            }
        } else if s[i] == 1 {
            match parse_bytes(s, i + 1, 0xffffffff) {
                Some((b, j)) => Some((PacketDataModel::MessageSegment(b), j)),
                None => None,
            }
        } else {
            None
        }
    } else {
        None
    }
}

/// Encoding of a whole packet: source key, optional destination, payload.
pub open spec fn enc_packet(p: PacketModel) -> Seq<u8> {
    p.source + enc_opt_key(p.destination) + enc_packet_data(p.data)
}

pub open spec fn parse_packet(s: Seq<u8>, i: int) -> Option<(PacketModel, int)> {
    match parse_key_bytes(s, i) {
        Some((src, j)) => match parse_opt_key(s, j) {
            Some((dst, k)) => match parse_packet_data(s, k) {
                Some((d, e)) => Some((PacketModel { source: src, destination: dst, data: d }, e)),
                None => None,
            },
            None => None,
        },
        None => None,
    }
}

/// A whole datagram is one packet with nothing after it.
pub open spec fn packet_from_bytes(s: Seq<u8>) -> Option<PacketModel> {
    match parse_packet(s, 0) {
        Some((p, e)) => {
            if e == s.len() {
                Some(p)
            } else {
                None
            }
        },
        None => None,
    }
}

pub proof fn lemma_parse_packet(s: Seq<u8>, i: int, p: PacketModel)
    requires
        0 <= i,
        p.wf(),
        p.data matches PacketDataModel::MessageSegment(b) ==> b.len() < 0x100000000,
        i + enc_packet(p).len() <= s.len(),
        s.subrange(i, i + enc_packet(p).len() as int) == enc_packet(p),
    ensures
        parse_packet(s, i) == Some((p, i + enc_packet(p).len() as int)),
{
    let e = enc_packet(p);
    let a = p.source;
    let b = enc_opt_key(p.destination);
    let c = enc_packet_data(p.data);
    assert(e == a + b + c);
    lemma_chunk(s, i, e, 0, 32);
    assert((a + b + c).subrange(0, 32) =~= a);
    let j = i + 32;
    lemma_chunk(s, i, e, 32, b.len() as int);
    assert((a + b + c).subrange(32, (32 + b.len()) as int) =~= b);
    // the optional destination key
    assert(s[j] == b[0]);
    match p.destination {
        None => {},
        Some(k) => {
            assert((seq![1u8] + k).subrange(1, (1 + k.len()) as int) =~= k);
            lemma_chunk(s, j, b, 1, 32);
        },
    }
    let k = j + b.len() as int;
    lemma_chunk(s, i, e, (32 + b.len()) as int, c.len() as int);
    assert((a + b + c).subrange((32 + b.len()) as int, e.len() as int) =~= c);
    assert(s[k] == c[0]);
    match p.data {
        PacketDataModel::Handshake(d) => {
            assert((seq![0u8] + enc_bytes(d)).subrange(1, c.len() as int) =~= enc_bytes(d));
            lemma_chunk(s, k, c, 1, enc_bytes(d).len() as int);
            lemma_parse_bytes(s, k + 1, d, MAX_HANDSHAKE_SIZE as int);
        },
        PacketDataModel::MessageSegment(d) => {
            assert((seq![1u8] + enc_bytes(d)).subrange(1, c.len() as int) =~= enc_bytes(d));
            lemma_chunk(s, k, c, 1, enc_bytes(d).len() as int);
            lemma_parse_bytes(s, k + 1, d, 0xffffffff);
        },
    }
}

/// Round trip: decoding an encoded packet gives the packet back.
pub proof fn lemma_packet_round_trip(p: PacketModel)
    requires
        p.wf(),
        p.data matches PacketDataModel::MessageSegment(b) ==> b.len() < 0x100000000,
    ensures
        packet_from_bytes(enc_packet(p)) == Some(p),
{
    let e = enc_packet(p);
    assert(e.subrange(0, e.len() as int) =~= e);
    lemma_parse_packet(e, 0, p);
}

// ---------------------------------------------------------------------
// Executable encoders
// ---------------------------------------------------------------------
/// Appends the encoding of one payload.
fn push_payload(out: &mut Vec<u8>, p: &MessagePayload)
    requires
        p@.wf(),
    ensures
        final(out)@ == old(out)@ + enc_payload(p@),
{
    match p {
        MessagePayload::Head { body_count, compression } => {
            out.push(0u8);
            assert(out@ =~= old(out)@ + seq![0u8]);
            push_varu16(out, *body_count);
            push_bool(out, *compression);
            assert(out@ =~= old(out)@ + enc_payload(p@));
        },
        MessagePayload::Body { index, data } => {
            out.push(1u8);
            assert(out@ =~= old(out)@ + seq![1u8]);
            push_varu16(out, *index);
            push_bytes(out, data.as_slice());
            assert(out@ =~= old(out)@ + enc_payload(p@));
        },
        MessagePayload::MessageProgress { confirmed_head, confirmed_bodies } => {
            out.push(2u8);
            assert(out@ =~= old(out)@ + seq![2u8]);
            push_bool(out, *confirmed_head);
            push_varu32(out, confirmed_bodies.len() as u32);
            let ghost base = out@;
            let mut k: usize = 0;
            while k < confirmed_bodies.len()
                invariant
                    k <= confirmed_bodies@.len(),
                    out@ == base + enc_ranges(confirmed_bodies@.subrange(0, k as int)),
                decreases confirmed_bodies@.len() - k,
            {
                let (lo, hi) = confirmed_bodies[k];
                push_varu16(out, lo);
                push_varu16(out, hi);
                proof {
                    lemma_enc_ranges_push(
                        confirmed_bodies@.subrange(0, k as int),
                        confirmed_bodies@[k as int],
                    );
                    assert(confirmed_bodies@.subrange(0, (k + 1) as int) =~= confirmed_bodies@
                        .subrange(0, k as int).push(confirmed_bodies@[k as int]));
                }
                k = k + 1;
            }
            assert(confirmed_bodies@.subrange(0, confirmed_bodies@.len() as int) =~= confirmed_bodies@);
            assert(out@ =~= old(out)@ + enc_payload(p@));
        },
    }
}

/// Encodes a message segment for sealing into a packet.
pub fn encode_segment(m: &MessageSegment) -> (r: Vec<u8>)
    requires
        m@.wf(),
    ensures
        r@ == enc_segment(m@),
{
    let mut out: Vec<u8> = Vec::new();
    push_varu16(&mut out, m.id);
    push_payload(&mut out, &m.payload);
    assert(out@ =~= enc_segment(m@));
    out
}

/// Encodes a whole packet as one transport frame.
pub fn encode_packet(p: &Packet) -> (r: Vec<u8>)
    requires
        p@.wf(),
        p@.data matches PacketDataModel::MessageSegment(b) ==> b.len() < 0x100000000,
    ensures
        r@ == enc_packet(p@),
{
    let mut out: Vec<u8> = Vec::new();
    push_slice(&mut out, p.source.as_bytes());
    match &p.destination {
        None => {
            out.push(0u8);
        },
        Some(k) => {
            out.push(1u8);
            push_slice(&mut out, k.as_bytes());
        },
    }
    match &p.data {
        PacketData::Handshake(b) => {
            out.push(0u8);
            push_bytes(&mut out, b.as_slice());
        },
        PacketData::MessageSegment(b) => {
            out.push(1u8);
            push_bytes(&mut out, b.as_slice());
        },
    }
    assert(out@ =~= enc_packet(p@));
    out
}

// ---------------------------------------------------------------------
// Executable decoders
// ---------------------------------------------------------------------
/// Reads 32 raw key bytes; mirrors [`parse_key_bytes`].
fn read_key(s: &[u8], i: usize) -> (r: Option<([u8; 32], usize)>)
    ensures
        match r {
            Some((k, j)) => parse_key_bytes(s@, i as int) == Some((k@, j as int)) && i < j
                <= s@.len(),
            None => parse_key_bytes(s@, i as int) is None,
        },
{
    let slen = s.len();
    if i > slen || slen - i < 32 {
        return None;
    }
    let mut k = [0u8; 32];
    let mut q: usize = 0;
    while q < 32
        invariant
            q <= 32,
            i + 32 <= slen,
            slen == s@.len(),
            k@.len() == 32,
            forall|t: int| 0 <= t < q ==> k@[t] == s@[i + t],
        decreases 32 - q,
    {
        k[q] = s[i + q];
        q = q + 1;
    }
    assert(k@ =~= s@.subrange(i as int, i + 32));
    Some((k, i + 32))
}

/// Decodes one message payload; mirrors [`parse_payload`].
fn read_payload(s: &[u8], i: usize) -> (r: Option<(MessagePayload, usize)>)
    ensures
        match r {
            Some((p, j)) => parse_payload(s@, i as int) == Some((p@, j as int)) && i < j <= s@.len()
                && p@.wf(),
            None => parse_payload(s@, i as int) is None,
        },
{
    if i >= s.len() {
        return None;
    }
    let tag = s[i];
    if tag == 0 {
        let (bc, j) = match read_varu16(s, i + 1) {
            Some(v) => v,
            None => {
                return None;
            },
        };
        let (comp, k) = match read_bool(s, j) {
            Some(v) => v,
            None => {
                return None;
            },
        };
        if bc >= 1 {
            Some((MessagePayload::Head { body_count: bc, compression: comp }, k))
        } else {
            None
        }
    } else if tag == 1 {
        let (index, j) = match read_varu16(s, i + 1) {
            Some(v) => v,
            None => {
                return None;
            },
        };
        let (data, k) = match read_bytes(s, j, MAX_PACKET_PAYLOAD_SIZE) {
            Some(v) => v,
            None => {
                return None;
            },
        };
        Some((MessagePayload::Body { index, data }, k))
    } else if tag == 2 {
        let (ch, j) = match read_bool(s, i + 1) {
            Some(v) => v,
            None => {
                return None;
            },
        };
        let (n, k) = match read_varu32(s, j) {
            Some(v) => v,
            None => {
                return None;
            },
        };
        let (rs, e) = match read_ranges(s, k, n) {
            Some(v) => v,
            None => {
                return None;
            },
        };
        Some((MessagePayload::MessageProgress { confirmed_head: ch, confirmed_bodies: rs }, e))
    } else {
        None
    }
}

/// Decodes exactly `n` confirmation ranges; mirrors [`parse_ranges`].
fn read_ranges(s: &[u8], i: usize, n: u32) -> (r: Option<(Vec<(u16, u16)>, usize)>)
    requires
        i <= s@.len(),
    ensures
        match r {
            Some((rs, j)) => parse_ranges(s@, i as int, n as int) == Some((rs@, j as int)) && i <= j
                <= s@.len() && rs@.len() == n && (forall|q: int|
                0 <= q < rs@.len() ==> (#[trigger] rs@[q]).0 <= rs@[q].1),
            None => parse_ranges(s@, i as int, n as int) is None,
        },
{
    let mut acc: Vec<(u16, u16)> = Vec::new();
    let mut cur: usize = i;
    let mut left: u32 = n;
    proof {
        match parse_ranges(s@, i as int, n as int) {
            Some(p) => {
                assert(Seq::<(u16, u16)>::empty() + p.0 =~= p.0);
                assert(p == (p.0, p.1));
            },
            None => {},
        }
    }
    loop
        invariant
            i <= cur <= s@.len(),
            left <= n,
            acc@.len() + left == n,
            forall|q: int| 0 <= q < acc@.len() ==> (#[trigger] acc@[q]).0 <= acc@[q].1,
            parse_ranges(s@, cur as int, left as int) matches Some(p) ==> parse_ranges(
                s@,
                i as int,
                n as int,
            ) == Some((acc@ + p.0, p.1)),
            parse_ranges(s@, cur as int, left as int) is None ==> parse_ranges(
                s@,
                i as int,
                n as int,
            ) is None,
        decreases left,
    {
        if left == 0 {
            assert(parse_ranges(s@, cur as int, 0) == Some((Seq::<(u16, u16)>::empty(), cur as int)));
            assert(acc@ + Seq::<(u16, u16)>::empty() =~= acc@);
            return Some((acc, cur));
        }
        let (lo, j) = match read_varu16(s, cur) {
            Some(v) => v,
            None => {
                return None;
            },
        };
        let (hi, k) = match read_varu16(s, j) {
            Some(v) => v,
            None => {
                return None;
            },
        };
        if lo > hi {
            return None;
        }
        proof {
            match parse_ranges(s@, k as int, (left - 1) as int) {
                Some(p) => {
                    assert(parse_ranges(s@, cur as int, left as int) == Some(
                        (seq![(lo, hi)] + p.0, p.1),
                    ));
                    assert(acc@ + (seq![(lo, hi)] + p.0) =~= acc@.push((lo, hi)) + p.0);
                },
                None => {
                    assert(parse_ranges(s@, cur as int, left as int) is None);
                },
            }
        }
        acc.push((lo, hi));
        cur = k;
        left = left - 1;
    }
}

/// Decodes a whole decrypted frame as one message segment, rejecting
/// trailing bytes.
pub fn decode_segment(s: &[u8]) -> (r: Option<MessageSegment>)
    ensures
        match r {
            Some(m) => segment_from_bytes(s@) == Some(m@) && m@.wf(),
            None => segment_from_bytes(s@) is None,
        },
{
    let (id, j) = match read_varu16(s, 0) {
        Some(v) => v,
        None => {
            return None;
        },
    };
    let (payload, k) = match read_payload(s, j) {
        Some(v) => v,
        None => {
            return None;
        },
    };
    if k == s.len() {
        Some(MessageSegment { id, payload })
    } else {
        None
    }
}

/// Decodes one packet from the start of a buffer, returning how many
/// bytes it used; `None` when the buffer holds no complete, valid packet
/// prefix.  Stream transports call this after every read.
pub fn decode_packet_prefix(s: &[u8]) -> (r: Option<(Packet, usize)>)
    ensures
        match r {
            Some((p, j)) => parse_packet(s@, 0) == Some((p@, j as int)) && 0 < j <= s@.len()
                && p@.wf(),
            None => parse_packet(s@, 0) is None,
        },
{
    let (src, j) = match read_key(s, 0) {
        Some(v) => v,
        None => {
            return None;
        },
    };
    if j >= s.len() {
        return None;
    }
    let (dst, k): (Option<PublicKey>, usize) = if s[j] == 0 {
        (None, j + 1)
    } else if s[j] == 1 {
        match read_key(s, j + 1) {
            Some((d, k)) => (Some(PublicKey::new(d)), k),
            None => {
                return None;
            },
        }
    } else {
        return None;
    };
    if k >= s.len() {
        return None;
    }
    let (data, e): (PacketData, usize) = if s[k] == 0 {
        match read_bytes(s, k + 1, MAX_HANDSHAKE_SIZE) {
            Some((b, e)) => (PacketData::Handshake(b), e),
            None => {
                return None;
            },
        }
    } else if s[k] == 1 {
        match read_bytes(s, k + 1, 0xffffffff) {
            Some((b, e)) => (PacketData::MessageSegment(b), e),
            None => {
                return None;
            },
        }
    } else {
        return None;
    };
    Some((Packet { source: PublicKey::new(src), destination: dst, data }, e))
}

/// Decodes a whole datagram as one packet, rejecting trailing bytes.
pub fn decode_packet(s: &[u8]) -> (r: Option<Packet>)
    ensures
        match r {
            Some(p) => packet_from_bytes(s@) == Some(p@) && p@.wf(),
            None => packet_from_bytes(s@) is None,
        },
{
    match decode_packet_prefix(s) {
        Some((p, e)) => {
            if e == s.len() {
                Some(p)
            } else {
                None
            }
        },
        None => None,
    }
}

/// The packet codec as one value, shared by every transport: stateless,
/// since the format needs no negotiation.
pub struct PacketEncoderDecoder;

impl PacketEncoderDecoder {
    /// Encodes one packet as one transport frame.
    pub fn encode(&self, p: &Packet) -> (r: Vec<u8>)
        requires
            p@.wf(),
            p@.data matches PacketDataModel::MessageSegment(b) ==> b.len() < 0x100000000,
        ensures
            r@ == enc_packet(p@),
    {
        encode_packet(p)
    }

    /// Decodes one packet from the front of a stream buffer, telling the
    /// caller how many bytes the frame used.  `None` covers both an
    /// incomplete frame and garbage; [`packet_start_invalid`] separates
    /// the two, and a framer caps its buffer at the largest frame it
    /// will carry either way.
    pub fn decode(&self, s: &[u8]) -> (r: Option<(Packet, usize)>)
        ensures
            match r {
                Some((p, j)) => parse_packet(s@, 0) == Some((p@, j as int)) && 0 < j <= s@.len()
                    && p@.wf(),
                None => parse_packet(s@, 0) is None,
            },
    {
        decode_packet_prefix(s)
    }
}

/// Whether a stream whose unconsumed buffer is `s` can never again
/// yield a packet: the bytes already present fix a failure no further
/// input can repair (a bad tag, a non-canonical length form, or a
/// handshake length over the cap).  `false` is conservative: the frame
/// may merely be incomplete.
pub open spec fn spec_packet_start_invalid(s: Seq<u8>) -> bool {
    if s.len() <= 32 {
        false
    } else if s[32] >= 2 {
        true
    } else {
        let j: int = if s[32] == 0 {
            33
        } else {
            65
        };
        if s.len() <= j {
            false
        } else if s[j] >= 2 {
            true
        } else if s.len() <= j + 1 {
            false
        } else {
            let cap: int = if s[j] == 0 {
                MAX_HANDSHAKE_SIZE as int
            } else {
                0xffffffff
            };
            let b0 = s[j + 1];
            if b0 < 251 {
                b0 > cap
            } else if b0 == 251 {
                if s.len() <= j + 3 {
                    false
                } else {
                    let v = s[j + 2] + 256 * (s[j + 3] as int);
                    v < 251 || v > cap
                }
            } else if b0 == 252 {
                if s[j] == 0 {
                    true
                } else if s.len() <= j + 5 {
                    false
                } else {
                    s[j + 2] + 256 * (s[j + 3] as int) + 65536 * (s[j + 4] as int) + 16777216 * (
                    s[j + 5] as int) < 65536
                }
            } else {
                true
            }
        }
    }
}

/// Soundness of the classifier: a buffer it rejects parses as no packet
/// under any extension.
pub proof fn lemma_packet_start_invalid_sound(s: Seq<u8>, ext: Seq<u8>)
    requires
        spec_packet_start_invalid(s),
    ensures
        parse_packet(s + ext, 0) is None,
{
    let w = s + ext;
    assert(w.len() >= s.len());
    assert(forall|i: int| 0 <= i < s.len() ==> w[i] == s[i]);
    assert(w[32] == s[32]);
    if s[32] >= 2 {
        return ;
    }
    let j: int = if s[32] == 0 {
        33
    } else {
        65
    };
    assert(w[j] == s[j]);
    if s[j] >= 2 {
        return ;
    }
    let cap: int = if s[j] == 0 {
        MAX_HANDSHAKE_SIZE as int
    } else {
        0xffffffff
    };
    assert(w[j + 1] == s[j + 1]);
    let b0 = s[j + 1];
    if b0 < 251 {
        assert(b0 > cap);
    } else if b0 == 251 {
        assert(w[j + 2] == s[j + 2] && w[j + 3] == s[j + 3]);
    } else if b0 == 252 {
        if s[j] == 0 {
            match parse_varu32(w, j + 1) {
                Some((v, k2)) => {
                    assert(v >= 65536);
                    assert(parse_bytes(w, j + 1, cap) is None);
                },
                None => {},
            }
        } else {
            assert(w[j + 2] == s[j + 2] && w[j + 3] == s[j + 3] && w[j + 4] == s[j + 4] && w[j + 5]
                == s[j + 5]);
        }
    }
}

/// Executable classifier; mirrors [`spec_packet_start_invalid`], and
/// when it answers `true` no extension of the buffer parses.
pub fn packet_start_invalid(s: &[u8]) -> (r: bool)
    ensures
        r == spec_packet_start_invalid(s@),
        r ==> forall|ext: Seq<u8>| parse_packet(s@ + ext, 0) is None,
{
    proof {
        if spec_packet_start_invalid(s@) {
            assert forall|ext: Seq<u8>| parse_packet(s@ + ext, 0) is None by {
                lemma_packet_start_invalid_sound(s@, ext);
            }
        }
    }
    if s.len() <= 32 {
        return false;
    }
    if s[32] >= 2 {
        return true;
    }
    let j: usize = if s[32] == 0 {
        33
    } else {
        65
    };
    if s.len() <= j {
        return false;
    }
    if s[j] >= 2 {
        return true;
    }
    if s.len() <= j + 1 {
        return false;
    }
    let cap: u64 = if s[j] == 0 {
        MAX_HANDSHAKE_SIZE as u64
    } else {
        0xffffffff
    };
    let b0 = s[j + 1];
    if b0 < 251 {
        b0 as u64 > cap
    } else if b0 == 251 {
        if s.len() <= j + 3 {
            false
        } else {
            let v: u64 = s[j + 2] as u64 + 256 * (s[j + 3] as u64);
            v < 251 || v > cap
        }
    } else if b0 == 252 {
        if s[j] == 0 {
            true
        } else if s.len() <= j + 5 {
            false
        } else {
            let v: u64 = s[j + 2] as u64 + 256 * (s[j + 3] as u64) + 65536 * (s[j + 4] as u64)
                + 16777216 * (s[j + 5] as u64);
            v < 65536
        }
    } else {
        true
    }
}

} // verus!
