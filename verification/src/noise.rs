//! Trusted boundary to the Noise XX handshake and transport states, and
//! the verified decisions around them: identity binding on promotion,
//! turn-taking, and the anonymous first contact.

use vstd::prelude::*;
use crate::keys::Keys;
use crate::keys::PrivateKey;
use crate::keys::PublicKey;
use crate::keys::eq_bytes32;
use crate::packet::MAX_HANDSHAKE_SIZE;
use crate::packet::Packet;
use crate::packet::PacketData;

verus! {

#[verifier::external_type_specification]
#[verifier::external_body]
pub struct ExHandshakeState(snow::HandshakeState);

#[verifier::external_type_specification]
#[verifier::external_body]
pub struct ExTransportState(snow::TransportState);

/// Relies on snow::Builder::generate_keypair for the
/// `Noise_XX_25519_ChaChaPoly_BLAKE2s` pattern: both keys are 32 bytes.
/// The key material is random, so nothing more is promised.
#[verifier::external_body]
pub fn generate_keys() -> (r: Keys)
{
    let keypair = snow::Builder::new("Noise_XX_25519_ChaChaPoly_BLAKE2s".parse().unwrap())
        .generate_keypair()
        .unwrap();
    Keys {
        public: PublicKey::new(keypair.public.try_into().unwrap()),
        private: PrivateKey::new(keypair.private.try_into().unwrap()),
    }
}

/// Relies on snow::Builder::build_initiator: a fresh initiator-side
/// handshake state for our static key; any 32-byte scalar is accepted.
#[verifier::external_body]
pub fn create_handshake_initiator(key: &PrivateKey) -> (r: snow::HandshakeState)
{
    snow::Builder::new("Noise_XX_25519_ChaChaPoly_BLAKE2s".parse().unwrap())
        .local_private_key(&key.0)
        .unwrap()
        .build_initiator()
        .unwrap()
}

/// Relies on snow::Builder::build_responder: a fresh responder-side
/// handshake state for our static key.
#[verifier::external_body]
pub fn create_handshake_responder(key: &PrivateKey) -> (r: snow::HandshakeState)
{
    snow::Builder::new("Noise_XX_25519_ChaChaPoly_BLAKE2s".parse().unwrap())
        .local_private_key(&key.0)
        .unwrap()
        .build_responder()
        .unwrap()
}

/// Relies on snow::HandshakeState::is_my_turn.
#[verifier::external_body]
pub(crate) fn hs_is_my_turn(hs: &snow::HandshakeState) -> (r: bool)
{
    hs.is_my_turn()
}

/// Relies on snow::HandshakeState::is_handshake_finished.
#[verifier::external_body]
pub(crate) fn hs_is_finished(hs: &snow::HandshakeState) -> (r: bool)
{
    hs.is_handshake_finished()
}

/// Relies on snow::HandshakeState::write_message with an empty payload:
/// on success it wrote the returned number of bytes into the buffer,
/// never more than the buffer holds; the buffer keeps its length.  The
/// buffer must offer room for a whole handshake message: snow
/// bounds-checks the key token against the key bytes alone, not the
/// trailing AEAD tag, and can panic rather than err on a shorter
/// buffer.
#[verifier::external_body]
pub(crate) fn hs_write_message(hs: &mut snow::HandshakeState, buf: &mut Vec<u8>) -> (r: Option<
    usize,
>)
    requires
        old(buf)@.len() >= MAX_HANDSHAKE_SIZE,
    ensures
        final(buf)@.len() == old(buf)@.len(),
        r matches Some(n) ==> n <= final(buf)@.len(),
{
    match hs.write_message(&[], buf.as_mut_slice()) {
        Ok(n) => Some(n),
        Err(_) => None,
    }
}

/// Relies on snow::HandshakeState::read_message with an empty output
/// buffer: on success it returns the decrypted payload length, which
/// here must be zero to fit the buffer.
#[verifier::external_body]
pub(crate) fn hs_read_message_empty(hs: &mut snow::HandshakeState, data: &[u8]) -> (r: Option<
    usize,
>)
{
    match hs.read_message(data, &mut []) {
        Ok(n) => Some(n),
        Err(_) => None,
    }
}

/// Relies on snow::HandshakeState::read_message: on success the
/// returned payload length never exceeds the buffer.
#[verifier::external_body]
pub(crate) fn hs_read_message(
    hs: &mut snow::HandshakeState,
    data: &[u8],
    buf: &mut Vec<u8>,
) -> (r: Option<usize>)
    ensures
        final(buf)@.len() == old(buf)@.len(),
        r matches Some(n) ==> n <= final(buf)@.len(),
{
    match hs.read_message(data, buf.as_mut_slice()) {
        Ok(n) => Some(n),
        Err(_) => None,
    }
}

/// Relies on snow::HandshakeState::into_transport_mode: succeeds only
/// once the handshake is complete.
#[verifier::external_body]
pub(crate) fn hs_into_transport(hs: snow::HandshakeState) -> (r: Option<snow::TransportState>)
{
    hs.into_transport_mode().ok()
}

/// Relies on snow::TransportState::get_remote_static: the remote's
/// 32-byte static key, once transmitted.
#[verifier::external_body]
pub(crate) fn ts_get_remote_static(ts: &snow::TransportState) -> (r: Option<Vec<u8>>)
{
    ts.get_remote_static().map(|k| k.to_vec())
}

/// Relies on snow::TransportState::write_message: on success it wrote
/// the returned number of bytes into the buffer.
#[verifier::external_body]
pub(crate) fn ts_write_message(
    ts: &mut snow::TransportState,
    data: &[u8],
    buf: &mut Vec<u8>,
) -> (r: Option<usize>)
    ensures
        final(buf)@.len() == old(buf)@.len(),
        r matches Some(n) ==> n <= final(buf)@.len(),
{
    match ts.write_message(data, buf.as_mut_slice()) {
        Ok(n) => Some(n),
        Err(_) => None,
    }
}

/// Relies on snow::TransportState::read_message: on success the
/// returned plaintext length never exceeds the buffer.
#[verifier::external_body]
pub(crate) fn ts_read_message(
    ts: &mut snow::TransportState,
    data: &[u8],
    buf: &mut Vec<u8>,
) -> (r: Option<usize>)
    ensures
        final(buf)@.len() == old(buf)@.len(),
        r matches Some(n) ==> n <= final(buf)@.len(),
{
    match ts.read_message(data, buf.as_mut_slice()) {
        Ok(n) => Some(n),
        Err(_) => None,
    }
}

// ---------------------------------------------------------------------
// Verified handshake decisions
// ---------------------------------------------------------------------
/// What one driver tick did to a peer's handshake entry.
pub enum HandshakeTick {
    /// The handshake completed and the remote static key matched the
    /// key the entry was filed under: install the transport state.
    Promoted { state: snow::TransportState, node: PublicKey },
    /// It is our turn: keep the entry and send this handshake packet.
    Reply { state: snow::HandshakeState, packet: Packet },
    /// The entry is broken (a write failure, a failed promotion, or an
    /// identity mismatch): remove it.
    Dropped,
    /// Waiting for the remote: keep the entry untouched.
    Idle { state: snow::HandshakeState },
}

/// Builds a handshake packet once the written length is known to fit.
fn handshake_packet(
    source: &PublicKey,
    destination: Option<PublicKey>,
    buf: &Vec<u8>,
    n: usize,
) -> (r: Packet)
    requires
        n <= MAX_HANDSHAKE_SIZE,
        n <= buf@.len(),
    ensures
        r@.wf(),
        r.source@ == source@,
        r.destination == destination,
        r.data matches PacketData::Handshake(d) && d@ == buf@.subrange(0, n as int),
{
    let data = crate::wire::read_raw(buf.as_slice(), 0, n);
    Packet { source: *source, destination, data: PacketData::Handshake(data) }
}

/// One driver tick on one handshake entry, filed under `filed`.
///
/// Identity binding: the entry is promoted only when the remote static
/// key extracted from the completed handshake equals, byte for byte,
/// the key the entry was filed under; on any mismatch or extraction
/// failure the entry is dropped and no transport state is installed.
pub fn continue_handshake_entry(
    state: snow::HandshakeState,
    filed: &PublicKey,
    local: &PublicKey,
) -> (r: HandshakeTick)
    ensures
        r matches HandshakeTick::Promoted { node, .. } ==> node@ == filed@,
        r matches HandshakeTick::Reply { packet, .. } ==> {
            &&& packet@.wf()
            &&& packet.source@ == local@
            &&& packet.destination matches Some(d) && d@ == filed@
            &&& packet.data is Handshake
        },
{
    if hs_is_finished(&state) {
        match hs_into_transport(state) {
            Some(ts) => {
                match ts_get_remote_static(&ts) {
                    Some(k) => {
                        if k.len() != 32 {
                            return HandshakeTick::Dropped;
                        }
                        let mut arr = [0u8; 32];
                        let mut q: usize = 0;
                        while q < 32
                            invariant
                                q <= 32,
                                k@.len() == 32,
                                forall|t: int| 0 <= t < q ==> arr@[t] == k@[t],
                            decreases 32 - q,
                        {
                            arr[q] = k[q];
                            q = q + 1;
                        }
                        let remote = PublicKey::new(arr);
                        if eq_bytes32(&remote.0, &filed.0) {
                            HandshakeTick::Promoted { state: ts, node: remote }
                        } else {
                            HandshakeTick::Dropped
                        }
                    },
                    None => HandshakeTick::Dropped,
                }
            },
            None => HandshakeTick::Dropped,
        }
    } else {
        let mut state = state;
        if hs_is_my_turn(&state) {
            let mut buf: Vec<u8> = Vec::new();
            let mut i: usize = 0;
            while i < MAX_HANDSHAKE_SIZE
                invariant
                    buf@.len() == i,
                    i <= MAX_HANDSHAKE_SIZE,
                decreases MAX_HANDSHAKE_SIZE - i,
            {
                buf.push(0);
                i = i + 1;
            }
            match hs_write_message(&mut state, &mut buf) {
                Some(n) => {
                    let packet = handshake_packet(local, Some(*filed), &buf, n);
                    HandshakeTick::Reply { state, packet }
                },
                None => HandshakeTick::Dropped,
            }
        } else {
            HandshakeTick::Idle { state }
        }
    }
}

/// Whether a handshake entry survives what `read_message` returned for
/// an inbound handshake message: only a successful read of an empty
/// payload does; a nonzero decrypted payload is a protocol error, and a
/// failed read removes the entry.
pub fn handshake_read_keeps(read: Option<usize>) -> (keep: bool)
    ensures
        keep == (read == Some(0usize)),
{
    match read {
        Some(n) => n == 0,
        None => false,
    }
}

/// An inbound handshake message for an existing entry: out-of-turn or
/// post-completion messages are ignored (the entry stays), and otherwise
/// the message bytes are handed verbatim to the Noise read, whose
/// outcome [`handshake_read_keeps`] judges.
pub fn absorb_handshake_message(state: &mut snow::HandshakeState, data: &Vec<u8>) -> (keep: bool)
{
    if hs_is_my_turn(state) || hs_is_finished(state) {
        return true;
    }
    let read = hs_read_message_empty(state, data.as_slice());
    handshake_read_keeps(read)
}

/// The first packet of a handshake we initiate towards `node`.
pub fn initiate_handshake(private: &PrivateKey, local: &PublicKey, node: &PublicKey) -> (r: Option<
    (snow::HandshakeState, Packet),
>)
    ensures
        r matches Some((_, packet)) ==> {
            &&& packet@.wf()
            &&& packet.source@ == local@
            &&& packet.destination matches Some(d) && d@ == node@
            &&& packet.data is Handshake
        },
{
    match first_handshake_packet(private, local, Some(*node)) {
        Some((state, packet)) => Some((state, packet)),
        None => None,
    }
}

/// The first packet of an anonymous opportunistic handshake: its
/// destination is left empty so an uninterested peer learns nothing.
pub fn initiate_anonymous_handshake(private: &PrivateKey, local: &PublicKey) -> (r: Option<
    (snow::HandshakeState, Packet),
>)
    ensures
        r matches Some((_, packet)) ==> {
            &&& packet@.wf()
            &&& packet.source@ == local@
            &&& packet.destination is None
            &&& packet.data is Handshake
        },
{
    first_handshake_packet(private, local, None)
}

fn first_handshake_packet(
    private: &PrivateKey,
    local: &PublicKey,
    destination: Option<PublicKey>,
) -> (r: Option<(snow::HandshakeState, Packet)>)
    ensures
        r matches Some((_, packet)) ==> {
            &&& packet@.wf()
            &&& packet.source@ == local@
            &&& packet.destination == destination
            &&& packet.data is Handshake
        },
{
    let mut state = create_handshake_initiator(private);
    let mut buf: Vec<u8> = Vec::new();
    let mut i: usize = 0;
    while i < MAX_HANDSHAKE_SIZE
        invariant
            buf@.len() == i,
            i <= MAX_HANDSHAKE_SIZE,
        decreases MAX_HANDSHAKE_SIZE - i,
    {
        buf.push(0);
        i = i + 1;
    }
    match hs_write_message(&mut state, &mut buf) {
        Some(n) => Some((state, handshake_packet(local, destination, &buf, n))),
        None => None,
    }
}

/// The response read during an anonymous handshake: the remote cared
/// only if it addressed us back with a handshake our state accepts; the
/// advanced state is then filed under the revealed source key.
pub fn accept_anonymous_response(
    state: snow::HandshakeState,
    self_key: &PublicKey,
    packet: &Packet,
) -> (r: Option<(PublicKey, snow::HandshakeState)>)
    ensures
        r matches Some((node, _)) ==> {
            &&& node@ == packet.source@
            &&& packet.destination matches Some(d) && d@ == self_key@
            &&& packet.data is Handshake
        },
{
    match &packet.destination {
        Some(d) => {
            if !eq_bytes32(&d.0, &self_key.0) {
                return None;
            }
        },
        None => {
            return None;
        },
    }
    match &packet.data {
        PacketData::Handshake(data) => {
            let mut state = state;
            let mut buf: Vec<u8> = Vec::new();
            let mut i: usize = 0;
            while i < MAX_HANDSHAKE_SIZE
                invariant
                    buf@.len() == i,
                    i <= MAX_HANDSHAKE_SIZE,
                decreases MAX_HANDSHAKE_SIZE - i,
            {
                buf.push(0);
                i = i + 1;
            }
            match hs_read_message(&mut state, data.as_slice(), &mut buf) {
                Some(_) => Some((packet.source, state)),
                None => None,
            }
        },
        PacketData::MessageSegment(_) => None,
    }
}

} // verus!
