//! Wire format for application-level messages and the peers they carry.
//!
//! A message is encoded as a tag byte followed by its fields, with the
//! same primitives as the packet codec.  [`lemma_message_round_trip`]
//! proves that decoding an encoding yields the original message.

use vstd::prelude::*;
use crate::codec::lemma_chunk;
use crate::peer::Address;
use crate::peer::AddressModel;
use crate::peer::ApplicationId;
use crate::peer::IpAddress;
use crate::peer::IpModel;
use crate::peer::Peer;
use crate::peer::PeerModel;
use crate::peer::Protocol;
use crate::proto::Message;
use crate::proto::MessageModel;
use crate::wire::enc_bytes;
use crate::wire::enc_varu16;
use crate::wire::enc_varu32;
use crate::wire::lemma_parse_bytes;
use crate::wire::lemma_parse_varu16;
use crate::wire::lemma_parse_varu32;
use crate::wire::parse_bytes;
use crate::wire::parse_varu16;
use crate::wire::parse_varu32;
use crate::wire::push_bytes;
use crate::wire::push_slice;
use crate::wire::push_varu16;
use crate::wire::push_varu32;
use crate::wire::read_bytes;
use crate::wire::read_varu16;
use crate::wire::read_varu32;

verus! {

// ---------------------------------------------------------------------
// Fixed-length byte runs
// ---------------------------------------------------------------------
/// A fixed run of `n` raw bytes.
pub open spec fn parse_raw(s: Seq<u8>, i: int, n: int) -> Option<(Seq<u8>, int)> {
    if 0 <= i && i + n <= s.len() {
        Some((s.subrange(i, i + n), i + n))
    } else {
        None
    }
}

/// Reads `n` raw bytes into a vector; mirrors [`parse_raw`].
fn read_raw_vec(s: &[u8], i: usize, n: usize) -> (r: Option<(Vec<u8>, usize)>)
    ensures
        match r {
            Some((v, j)) => parse_raw(s@, i as int, n as int) == Some((v@, j as int)) && i <= j
                <= s@.len() && v@.len() == n,
            None => parse_raw(s@, i as int, n as int) is None,
        },
{
    let slen = s.len();
    if i > slen || slen - i < n {
        return None;
    }
    let v = crate::wire::read_raw(s, i, n);
    Some((v, i + n))
}

// ---------------------------------------------------------------------
// Peers
// ---------------------------------------------------------------------
/// Encoding of a protocol: one tag byte.
pub open spec fn enc_protocol(p: Protocol) -> Seq<u8> {
    match p {
        Protocol::Udp => seq![0u8],
        Protocol::Tcp => seq![1u8],
        Protocol::Ws => seq![2u8],
        Protocol::Wss => seq![3u8],
        Protocol::Bluetooth => seq![4u8],
    }
}

pub open spec fn parse_protocol(s: Seq<u8>, i: int) -> Option<(Protocol, int)> {
    if 0 <= i < s.len() {
        if s[i] == 0 {
            Some((Protocol::Udp, i + 1))
        } else if s[i] == 1 {
            Some((Protocol::Tcp, i + 1))
        } else if s[i] == 2 {
            Some((Protocol::Ws, i + 1))
        } else if s[i] == 3 {
            Some((Protocol::Wss, i + 1))
        } else if s[i] == 4 {
            Some((Protocol::Bluetooth, i + 1))
        } else {
            None
        }
    } else {
        None
    }
}

/// Encoding of an address: an IP or Bluetooth variant with raw bytes.
pub open spec fn enc_address(a: AddressModel) -> Seq<u8> {
    match a {
        AddressModel::Ip { address, port } => match address {
            IpModel::V4(b) => seq![0u8] + seq![0u8] + b + enc_varu16(port),
            IpModel::V6(b) => seq![0u8] + seq![1u8] + b + enc_varu16(port),
        },
        AddressModel::Bluetooth { address, psm } => seq![1u8] + address + enc_varu16(psm),
    }
}

pub open spec fn parse_address(s: Seq<u8>, i: int) -> Option<(AddressModel, int)> {
    if 0 <= i < s.len() {
        if s[i] == 0 {
            if i + 1 < s.len() {
                if s[i + 1] == 0 {
                    match parse_raw(s, i + 2, 4) {
                        Some((b, j)) => match parse_varu16(s, j) {
                            Some((port, k)) => Some(
                                (AddressModel::Ip { address: IpModel::V4(b), port }, k),
                            ),
                            None => None,
                        },
                        None => None,
                    }
                } else if s[i + 1] == 1 {
                    match parse_raw(s, i + 2, 16) {
                        Some((b, j)) => match parse_varu16(s, j) {
                            Some((port, k)) => Some(
                                (AddressModel::Ip { address: IpModel::V6(b), port }, k),
                            ),
                            None => None,
                        },
                        None => None,
                    }
                } else {
                    None
                }
            } else {
                None
            }
        } else if s[i] == 1 {
            match parse_raw(s, i + 1, 6) {
                Some((b, j)) => match parse_varu16(s, j) {
                    Some((psm, k)) => Some((AddressModel::Bluetooth { address: b, psm }, k)),
                    None => None,
                },
                None => None,
            }
        } else {
            None
        }
    } else {
        None
    }
}

/// Encoding of a peer: its protocol, then its address.
pub open spec fn enc_peer(p: PeerModel) -> Seq<u8> {
    enc_protocol(p.protocol) + enc_address(p.address)
}

pub open spec fn parse_peer(s: Seq<u8>, i: int) -> Option<(PeerModel, int)> {
    match parse_protocol(s, i) {
        Some((pr, j)) => match parse_address(s, j) {
            Some((a, k)) => Some((PeerModel { protocol: pr, address: a }, k)),
            None => None,
        },
        None => None,
    }
}

pub proof fn lemma_parse_address(s: Seq<u8>, i: int, a: AddressModel)
    requires
        0 <= i,
        a.wf(),
        i + enc_address(a).len() <= s.len(),
        s.subrange(i, i + enc_address(a).len() as int) == enc_address(a),
    ensures
        parse_address(s, i) == Some((a, i + enc_address(a).len() as int)),
{
    let e = enc_address(a);
    assert(s[i] == e[0]);
    match a {
        AddressModel::Ip { address, port } => {
            assert(s[i + 1] == e[1]);
            match address {
                IpModel::V4(b) => {
                    assert(e == seq![0u8] + seq![0u8] + b + enc_varu16(port));
                    lemma_chunk(s, i, e, 2, 4);
                    assert((seq![0u8] + seq![0u8] + b + enc_varu16(port)).subrange(2, 6) =~= b);
                    assert(parse_raw(s, i + 2, 4) == Some((b, i + 6)));
                    lemma_chunk(s, i, e, 6, enc_varu16(port).len() as int);
                    assert((seq![0u8] + seq![0u8] + b + enc_varu16(port)).subrange(
                        6,
                        e.len() as int,
                    ) =~= enc_varu16(port));
                    lemma_parse_varu16(s, i + 6, port);
                },
                IpModel::V6(b) => {
                    assert(e == seq![0u8] + seq![1u8] + b + enc_varu16(port));
                    lemma_chunk(s, i, e, 2, 16);
                    assert((seq![0u8] + seq![1u8] + b + enc_varu16(port)).subrange(2, 18) =~= b);
                    assert(parse_raw(s, i + 2, 16) == Some((b, i + 18)));
                    lemma_chunk(s, i, e, 18, enc_varu16(port).len() as int);
                    assert((seq![0u8] + seq![1u8] + b + enc_varu16(port)).subrange(
                        18,
                        e.len() as int,
                    ) =~= enc_varu16(port));
                    lemma_parse_varu16(s, i + 18, port);
                },
            }
        },
        AddressModel::Bluetooth { address, psm } => {
            assert(e == seq![1u8] + address + enc_varu16(psm));
            lemma_chunk(s, i, e, 1, 6);
            assert((seq![1u8] + address + enc_varu16(psm)).subrange(1, 7) =~= address);
            assert(parse_raw(s, i + 1, 6) == Some((address, i + 7)));
            lemma_chunk(s, i, e, 7, enc_varu16(psm).len() as int);
            assert((seq![1u8] + address + enc_varu16(psm)).subrange(7, e.len() as int) =~= enc_varu16(
                psm,
            ));
            lemma_parse_varu16(s, i + 7, psm);
        },
    }
}

pub proof fn lemma_parse_peer(s: Seq<u8>, i: int, p: PeerModel)
    requires
        0 <= i,
        p.wf(),
        i + enc_peer(p).len() <= s.len(),
        s.subrange(i, i + enc_peer(p).len() as int) == enc_peer(p),
    ensures
        parse_peer(s, i) == Some((p, i + enc_peer(p).len() as int)),
{
    let e = enc_peer(p);
    let a = enc_protocol(p.protocol);
    let b = enc_address(p.address);
    assert(e == a + b);
    lemma_chunk(s, i, e, 0, 1);
    assert((a + b).subrange(0, 1) =~= a);
    assert(s[i] == a[0]);
    lemma_chunk(s, i, e, 1, b.len() as int);
    assert((a + b).subrange(1, e.len() as int) =~= b);
    lemma_parse_address(s, i + 1, p.address);
}

/// Encoding of a peer list, in order.
pub open spec fn enc_peers(ps: Seq<PeerModel>) -> Seq<u8>
    decreases ps.len(),
{
    if ps.len() == 0 {
        Seq::empty()
    } else {
        enc_peer(ps[0]) + enc_peers(ps.drop_first())
    }
}

pub proof fn lemma_enc_peers_push(ps: Seq<PeerModel>, p: PeerModel)
    ensures
        enc_peers(ps.push(p)) == enc_peers(ps) + enc_peer(p),
    decreases ps.len(),
{
    if ps.len() == 0 {
        assert(ps.push(p).drop_first() =~= Seq::<PeerModel>::empty());
        assert(ps.push(p)[0] == p);
        assert(enc_peers(ps.push(p).drop_first()) == Seq::<u8>::empty());
        assert(enc_peers(ps) == Seq::<u8>::empty());
        assert(enc_peers(ps.push(p)) =~= enc_peers(ps) + enc_peer(p));
    } else {
        assert(ps.push(p).drop_first() =~= ps.drop_first().push(p));
        lemma_enc_peers_push(ps.drop_first(), p);
        assert(ps.push(p)[0] == ps[0]);
        assert(enc_peers(ps.push(p)) =~= enc_peers(ps) + enc_peer(p));
    }
}

/// Parse of exactly `n` peers.
pub open spec fn parse_peers(s: Seq<u8>, i: int, n: int) -> Option<(Seq<PeerModel>, int)>
    decreases n,
{
    if n <= 0 {
        Some((Seq::empty(), i))
    } else {
        match parse_peer(s, i) {
            Some((p, j)) => match parse_peers(s, j, n - 1) {
                Some((rest, e)) => Some((seq![p] + rest, e)),
                None => None,
            },
            None => None,
        }
    }
}

pub proof fn lemma_parse_peers(s: Seq<u8>, i: int, ps: Seq<PeerModel>)
    requires
        0 <= i,
        i + enc_peers(ps).len() <= s.len(),
        s.subrange(i, i + enc_peers(ps).len() as int) == enc_peers(ps),
        forall|k: int| 0 <= k < ps.len() ==> (#[trigger] ps[k]).wf(),
    ensures
        parse_peers(s, i, ps.len() as int) == Some((ps, i + enc_peers(ps).len() as int)),
    decreases ps.len(),
{
    if ps.len() == 0 {
        assert(ps =~= Seq::<PeerModel>::empty());
    } else {
        let e = enc_peers(ps);
        let a = enc_peer(ps[0]);
        let rest = enc_peers(ps.drop_first());
        assert(e == a + rest);
        lemma_chunk(s, i, e, 0, a.len() as int);
        assert((a + rest).subrange(0, a.len() as int) =~= a);
        lemma_parse_peer(s, i, ps[0]);
        let j = i + a.len() as int;
        lemma_chunk(s, i, e, a.len() as int, rest.len() as int);
        assert((a + rest).subrange(a.len() as int, e.len() as int) =~= rest);
        assert(forall|q: int| 0 <= q < ps.drop_first().len() ==> (#[trigger] ps.drop_first()[q]).wf());
        lemma_parse_peers(s, j, ps.drop_first());
        assert(seq![ps[0]] + ps.drop_first() =~= ps);
    }
}

// ---------------------------------------------------------------------
// Messages
// ---------------------------------------------------------------------
/// Encoding of a message: a tag byte, then its fields.
pub open spec fn enc_message(m: MessageModel) -> Seq<u8> {
    match m {
        MessageModel::RequestPeerSuggestion => seq![0u8],
        MessageModel::PeerSuggestion { peers } => seq![1u8] + enc_varu32(peers.len() as u32)
            + enc_peers(peers),
        MessageModel::RequestConnection { application } => seq![2u8] + enc_bytes(application),
        MessageModel::ConnectionAccepted { application, connection_id } => seq![3u8] + enc_bytes(
            application,
        ) + enc_varu32(connection_id),
        MessageModel::ConnectionDenied { application } => seq![4u8] + enc_bytes(application),
        MessageModel::ConnectionHeartbeat { connection_id } => seq![5u8] + enc_varu32(
            connection_id,
        ),
        MessageModel::ConnectionClose { connection_id } => seq![6u8] + enc_varu32(connection_id),
        MessageModel::ConnectionData { connection_id, data } => seq![7u8] + enc_varu32(
            connection_id,
        ) + enc_bytes(data),
    }
}

pub open spec fn parse_message(s: Seq<u8>, i: int) -> Option<(MessageModel, int)> {
    if 0 <= i < s.len() {
        let tag = s[i];
        if tag == 0 {
            Some((MessageModel::RequestPeerSuggestion, i + 1))
        } else if tag == 1 {
            match parse_varu32(s, i + 1) {
                Some((n, j)) => match parse_peers(s, j, n as int) {
                    Some((ps, k)) => Some((MessageModel::PeerSuggestion { peers: ps }, k)),
                    None => None,
                },
                None => None,
            }
        } else if tag == 2 {
            match parse_bytes(s, i + 1, 6) {
                Some((app, j)) => Some((MessageModel::RequestConnection { application: app }, j)),
                None => None,
            }
        } else if tag == 3 {
            match parse_bytes(s, i + 1, 6) {
                Some((app, j)) => match parse_varu32(s, j) {
                    Some((cid, k)) => Some(
                        (
                            MessageModel::ConnectionAccepted {
                                application: app,
                                connection_id: cid,
                            },
                            k,
                        ),
                    ),
                    None => None,
                },
                None => None,
            }
        } else if tag == 4 {
            match parse_bytes(s, i + 1, 6) {
                Some((app, j)) => Some((MessageModel::ConnectionDenied { application: app }, j)),
                None => None,
            }
        } else if tag == 5 {
            match parse_varu32(s, i + 1) {
                Some((cid, j)) => Some((MessageModel::ConnectionHeartbeat { connection_id: cid }, j)),
                None => None,
            }
        } else if tag == 6 {
            match parse_varu32(s, i + 1) {
                Some((cid, j)) => Some((MessageModel::ConnectionClose { connection_id: cid }, j)),
                None => None,
            }
        } else if tag == 7 {
            match parse_varu32(s, i + 1) {
                Some((cid, j)) => match parse_bytes(s, j, 0xffffffff) {
                    Some((data, k)) => Some(
                        (MessageModel::ConnectionData { connection_id: cid, data }, k),
                    ),
                    None => None,
                },
                None => None,
            }
        } else {
            None
        }
    } else {
        None
    }
}

/// A whole message body is one message with nothing after it.
pub open spec fn message_from_bytes(s: Seq<u8>) -> Option<MessageModel> {
    match parse_message(s, 0) {
        Some((m, e)) => {
            if e == s.len() {
                Some(m)
            } else {
                None
            }
        },
        None => None,
    }
}

pub proof fn lemma_parse_message(s: Seq<u8>, i: int, m: MessageModel)
    requires
        0 <= i,
        m.wf(),
        i + enc_message(m).len() <= s.len(),
        s.subrange(i, i + enc_message(m).len() as int) == enc_message(m),
    ensures
        parse_message(s, i) == Some((m, i + enc_message(m).len() as int)),
{
    let e = enc_message(m);
    assert(s[i] == e[0]);
    match m {
        MessageModel::RequestPeerSuggestion => {},
        MessageModel::PeerSuggestion { peers } => {
            let a = enc_varu32(peers.len() as u32);
            let b = enc_peers(peers);
            assert(e == seq![1u8] + a + b);
            lemma_chunk(s, i, e, 1, a.len() as int);
            assert((seq![1u8] + a + b).subrange(1, (1 + a.len()) as int) =~= a);
            lemma_parse_varu32(s, i + 1, peers.len() as u32);
            let j = i + 1 + a.len() as int;
            lemma_chunk(s, i, e, (1 + a.len()) as int, b.len() as int);
            assert((seq![1u8] + a + b).subrange((1 + a.len()) as int, e.len() as int) =~= b);
            lemma_parse_peers(s, j, peers);
        },
        MessageModel::RequestConnection { application } => {
            let a = enc_bytes(application);
            assert(e == seq![2u8] + a);
            lemma_chunk(s, i, e, 1, a.len() as int);
            assert((seq![2u8] + a).subrange(1, e.len() as int) =~= a);
            lemma_parse_bytes(s, i + 1, application, 6);
        },
        MessageModel::ConnectionAccepted { application, connection_id } => {
            let a = enc_bytes(application);
            let b = enc_varu32(connection_id);
            assert(e == seq![3u8] + a + b);
            lemma_chunk(s, i, e, 1, a.len() as int);
            assert((seq![3u8] + a + b).subrange(1, (1 + a.len()) as int) =~= a);
            lemma_parse_bytes(s, i + 1, application, 6);
            let j = i + 1 + a.len() as int;
            lemma_chunk(s, i, e, (1 + a.len()) as int, b.len() as int);
            assert((seq![3u8] + a + b).subrange((1 + a.len()) as int, e.len() as int) =~= b);
            lemma_parse_varu32(s, j, connection_id);
        },
        MessageModel::ConnectionDenied { application } => {
            let a = enc_bytes(application);
            assert(e == seq![4u8] + a);
            lemma_chunk(s, i, e, 1, a.len() as int);
            assert((seq![4u8] + a).subrange(1, e.len() as int) =~= a);
            lemma_parse_bytes(s, i + 1, application, 6);
        },
        MessageModel::ConnectionHeartbeat { connection_id } => {
            let a = enc_varu32(connection_id);
            assert(e == seq![5u8] + a);
            lemma_chunk(s, i, e, 1, a.len() as int);
            assert((seq![5u8] + a).subrange(1, e.len() as int) =~= a);
            lemma_parse_varu32(s, i + 1, connection_id);
        },
        MessageModel::ConnectionClose { connection_id } => {
            let a = enc_varu32(connection_id);
            assert(e == seq![6u8] + a);
            lemma_chunk(s, i, e, 1, a.len() as int);
            assert((seq![6u8] + a).subrange(1, e.len() as int) =~= a);
            lemma_parse_varu32(s, i + 1, connection_id);
        },
        MessageModel::ConnectionData { connection_id, data } => {
            let a = enc_varu32(connection_id);
            let b = enc_bytes(data);
            assert(e == seq![7u8] + a + b);
            lemma_chunk(s, i, e, 1, a.len() as int);
            assert((seq![7u8] + a + b).subrange(1, (1 + a.len()) as int) =~= a);
            lemma_parse_varu32(s, i + 1, connection_id);
            let j = i + 1 + a.len() as int;
            lemma_chunk(s, i, e, (1 + a.len()) as int, b.len() as int);
            assert((seq![7u8] + a + b).subrange((1 + a.len()) as int, e.len() as int) =~= b);
            lemma_parse_bytes(s, j, data, 0xffffffff);
        },
    }
}

/// Round trip: decoding an encoded message gives the message back.
pub proof fn lemma_message_round_trip(m: MessageModel)
    requires
        m.wf(),
    ensures
        message_from_bytes(enc_message(m)) == Some(m),
{
    let e = enc_message(m);
    assert(e.subrange(0, e.len() as int) =~= e);
    lemma_parse_message(e, 0, m);
}

// ---------------------------------------------------------------------
// Executable encoder
// ---------------------------------------------------------------------
/// Every executable peer maps to a well-formed model.
pub proof fn lemma_peer_wf(p: Peer)
    ensures
        p@.wf(),
{
}

fn push_peer(out: &mut Vec<u8>, p: &Peer)
    ensures
        final(out)@ == old(out)@ + enc_peer(p@),
{
    match p.protocol {
        Protocol::Udp => out.push(0u8),
        Protocol::Tcp => out.push(1u8),
        Protocol::Ws => out.push(2u8),
        Protocol::Wss => out.push(3u8),
        Protocol::Bluetooth => out.push(4u8),
    }
    match &p.address {
        Address::Ip { address, port } => {
            out.push(0u8);
            match address {
                IpAddress::V4(b) => {
                    out.push(0u8);
                    push_slice(out, b.as_slice());
                },
                IpAddress::V6(b) => {
                    out.push(1u8);
                    push_slice(out, b.as_slice());
                },
            }
            push_varu16(out, *port);
        },
        Address::Bluetooth { address, psm } => {
            out.push(1u8);
            push_slice(out, address.as_slice());
            push_varu16(out, *psm);
        },
    }
    assert(out@ =~= old(out)@ + enc_peer(p@));
}

/// Encodes a message into the bytes the disassembler splits.
pub fn encode_message(m: &Message) -> (r: Vec<u8>)
    requires
        m@.wf(),
    ensures
        r@ == enc_message(m@),
{
    let mut out: Vec<u8> = Vec::new();
    match m {
        Message::RequestPeerSuggestion => {
            out.push(0u8);
        },
        Message::PeerSuggestion { peers } => {
            out.push(1u8);
            assert(out@ =~= seq![1u8]);
            push_varu32(&mut out, peers.len() as u32);
            let ghost base = out@;
            let mut k: usize = 0;
            while k < peers.len()
                invariant
                    k <= peers@.len(),
                    out@ == base + enc_peers(peers@.map_values(|p: Peer| p@).subrange(0, k as int)),
                decreases peers@.len() - k,
            {
                push_peer(&mut out, &peers[k]);
                proof {
                    let pm = peers@.map_values(|p: Peer| p@);
                    lemma_enc_peers_push(pm.subrange(0, k as int), pm[k as int]);
                    assert(pm.subrange(0, (k + 1) as int) =~= pm.subrange(0, k as int).push(
                        pm[k as int],
                    ));
                }
                k = k + 1;
            }
            proof {
                let pm = peers@.map_values(|p: Peer| p@);
                assert(pm.subrange(0, pm.len() as int) =~= pm);
            }
        },
        Message::RequestConnection { application } => {
            out.push(2u8);
            push_bytes(&mut out, application.0.as_slice());
        },
        Message::ConnectionAccepted { application, connection_id } => {
            out.push(3u8);
            push_bytes(&mut out, application.0.as_slice());
            push_varu32(&mut out, *connection_id);
        },
        Message::ConnectionDenied { application } => {
            out.push(4u8);
            push_bytes(&mut out, application.0.as_slice());
        },
        Message::ConnectionHeartbeat { connection_id } => {
            out.push(5u8);
            push_varu32(&mut out, *connection_id);
        },
        Message::ConnectionClose { connection_id } => {
            out.push(6u8);
            push_varu32(&mut out, *connection_id);
        },
        Message::ConnectionData { connection_id, data } => {
            out.push(7u8);
            push_varu32(&mut out, *connection_id);
            push_bytes(&mut out, data.as_slice());
        },
    }
    assert(out@ =~= enc_message(m@));
    out
}

// ---------------------------------------------------------------------
// Executable decoder
// ---------------------------------------------------------------------
fn read_peer(s: &[u8], i: usize) -> (r: Option<(Peer, usize)>)
    ensures
        match r {
            Some((p, j)) => parse_peer(s@, i as int) == Some((p@, j as int)) && i < j <= s@.len(),
            None => parse_peer(s@, i as int) is None,
        },
{
    if i >= s.len() {
        return None;
    }
    let protocol = if s[i] == 0 {
        Protocol::Udp
    } else if s[i] == 1 {
        Protocol::Tcp
    } else if s[i] == 2 {
        Protocol::Ws
    } else if s[i] == 3 {
        Protocol::Wss
    } else if s[i] == 4 {
        Protocol::Bluetooth
    } else {
        return None;
    };
    let j = i + 1;
    if j >= s.len() {
        return None;
    }
    if s[j] == 0 {
        if s.len() - j < 2 {
            return None;
        }
        if s[j + 1] == 0 {
            let (b, k) = match read_raw_vec(s, j + 2, 4) {
                Some(v) => v,
                None => {
                    return None;
                },
            };
            let mut arr = [0u8; 4];
            arr[0] = b[0];
            arr[1] = b[1];
            arr[2] = b[2];
            arr[3] = b[3];
            assert(arr@ =~= b@);
            let (port, e) = match read_varu16(s, k) {
                Some(v) => v,
                None => {
                    return None;
                },
            };
            Some(
                (
                    Peer {
                        protocol,
                        address: Address::Ip { address: IpAddress::V4(arr), port },
                    },
                    e,
                ),
            )
        } else if s[j + 1] == 1 {
            let (b, k) = match read_raw_vec(s, j + 2, 16) {
                Some(v) => v,
                None => {
                    return None;
                },
            };
            let mut arr = [0u8; 16];
            let mut q: usize = 0;
            while q < 16
                invariant
                    q <= 16,
                    b@.len() == 16,
                    arr@.len() == 16,
                    forall|t: int| 0 <= t < q ==> arr@[t] == b@[t],
                decreases 16 - q,
            {
                arr[q] = b[q];
                q = q + 1;
            }
            assert(arr@ =~= b@);
            let (port, e) = match read_varu16(s, k) {
                Some(v) => v,
                None => {
                    return None;
                },
            };
            Some(
                (
                    Peer {
                        protocol,
                        address: Address::Ip { address: IpAddress::V6(arr), port },
                    },
                    e,
                ),
            )
        } else {
            None
        }
    } else if s[j] == 1 {
        let (b, k) = match read_raw_vec(s, j + 1, 6) {
            Some(v) => v,
            None => {
                return None;
            },
        };
        let mut arr = [0u8; 6];
        arr[0] = b[0];
        arr[1] = b[1];
        arr[2] = b[2];
        arr[3] = b[3];
        arr[4] = b[4];
        arr[5] = b[5];
        assert(arr@ =~= b@);
        let (psm, e) = match read_varu16(s, k) {
            Some(v) => v,
            None => {
                return None;
            },
        };
        Some((Peer { protocol, address: Address::Bluetooth { address: arr, psm } }, e))
    } else {
        None
    }
}

fn read_peers(s: &[u8], i: usize, n: u32) -> (r: Option<(Vec<Peer>, usize)>)
    requires
        i <= s@.len(),
    ensures
        match r {
            Some((ps, j)) => parse_peers(s@, i as int, n as int) == Some(
                (ps@.map_values(|p: Peer| p@), j as int),
            ) && i <= j <= s@.len() && ps@.len() == n,
            None => parse_peers(s@, i as int, n as int) is None,
        },
{
    let mut acc: Vec<Peer> = Vec::new();
    let mut cur: usize = i;
    let mut left: u32 = n;
    proof {
        match parse_peers(s@, i as int, n as int) {
            Some(p) => {
                assert(Seq::<PeerModel>::empty() + p.0 =~= p.0);
                assert(p == (p.0, p.1));
                assert(acc@.map_values(|p: Peer| p@) =~= Seq::<PeerModel>::empty());
            },
            None => {},
        }
    }
    loop
        invariant
            i <= cur <= s@.len(),
            left <= n,
            acc@.len() + left == n,
            parse_peers(s@, cur as int, left as int) matches Some(p) ==> parse_peers(
                s@,
                i as int,
                n as int,
            ) == Some((acc@.map_values(|p: Peer| p@) + p.0, p.1)),
            parse_peers(s@, cur as int, left as int) is None ==> parse_peers(
                s@,
                i as int,
                n as int,
            ) is None,
        decreases left,
    {
        if left == 0 {
            assert(parse_peers(s@, cur as int, 0) == Some((Seq::<PeerModel>::empty(), cur as int)));
            assert(acc@.map_values(|p: Peer| p@) + Seq::<PeerModel>::empty() =~= acc@.map_values(
                |p: Peer| p@,
            ));
            return Some((acc, cur));
        }
        let (peer, k) = match read_peer(s, cur) {
            Some(v) => v,
            None => {
                return None;
            },
        };
        proof {
            match parse_peers(s@, k as int, (left - 1) as int) {
                Some(p) => {
                    assert(parse_peers(s@, cur as int, left as int) == Some(
                        (seq![peer@] + p.0, p.1),
                    ));
                    assert(acc@.map_values(|q: Peer| q@) + (seq![peer@] + p.0) =~= acc@.push(
                        peer,
                    ).map_values(|q: Peer| q@) + p.0);
                },
                None => {
                    assert(parse_peers(s@, cur as int, left as int) is None);
                },
            }
        }
        acc.push(peer);
        cur = k;
        left = left - 1;
    }
}

/// Decodes a reassembled message body, rejecting trailing bytes.
pub fn decode_message(s: &[u8]) -> (r: Option<Message>)
    ensures
        match r {
            Some(m) => message_from_bytes(s@) == Some(m@),
            None => message_from_bytes(s@) is None,
        },
{
    if s.len() == 0 {
        return None;
    }
    let tag = s[0];
    let (m, e): (Message, usize) = if tag == 0 {
        (Message::RequestPeerSuggestion, 1)
    } else if tag == 1 {
        let (n, j) = match read_varu32(s, 1) {
            Some(v) => v,
            None => {
                return None;
            },
        };
        let (peers, k) = match read_peers(s, j, n) {
            Some(v) => v,
            None => {
                return None;
            },
        };
        (Message::PeerSuggestion { peers }, k)
    } else if tag == 2 {
        let (app, j) = match read_bytes(s, 1, 6) {
            Some(v) => v,
            None => {
                return None;
            },
        };
        (Message::RequestConnection { application: ApplicationId(app) }, j)
    } else if tag == 3 {
        let (app, j) = match read_bytes(s, 1, 6) {
            Some(v) => v,
            None => {
                return None;
            },
        };
        let (cid, k) = match read_varu32(s, j) {
            Some(v) => v,
            None => {
                return None;
            },
        };
        (Message::ConnectionAccepted { application: ApplicationId(app), connection_id: cid }, k)
    } else if tag == 4 {
        let (app, j) = match read_bytes(s, 1, 6) {
            Some(v) => v,
            None => {
                return None;
            },
        };
        (Message::ConnectionDenied { application: ApplicationId(app) }, j)
    } else if tag == 5 {
        let (cid, j) = match read_varu32(s, 1) {
            Some(v) => v,
            None => {
                return None;
            },
        };
        (Message::ConnectionHeartbeat { connection_id: cid }, j)
    } else if tag == 6 {
        let (cid, j) = match read_varu32(s, 1) {
            Some(v) => v,
            None => {
                return None;
            },
        };
        (Message::ConnectionClose { connection_id: cid }, j)
    } else if tag == 7 {
        let (cid, j) = match read_varu32(s, 1) {
            Some(v) => v,
            None => {
                return None;
            },
        };
        let (data, k) = match read_bytes(s, j, 0xffffffff) {
            Some(v) => v,
            None => {
                return None;
            },
        };
        (Message::ConnectionData { connection_id: cid, data }, k)
    } else {
        return None;
    };
    if e == s.len() {
        Some(m)
    } else {
        None
    }
}

} // verus!
