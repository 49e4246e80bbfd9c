//! Wire entities: packets and the message segments they carry.
//!
//! Each executable type has a mathematical model (`...Model`) used by the
//! codec's specification; `@` maps a value to its model.

use vstd::prelude::*;
use crate::keys::PublicKey;

verus! {

/// Largest number of payload bytes one body segment may carry.
pub const MAX_PACKET_PAYLOAD_SIZE: usize = 64512;

/// Largest handshake payload a packet may carry.
pub const MAX_HANDSHAKE_SIZE: usize = 128;

/// The per-direction message id; wraps modulo 2^16.
pub type MessageId = u16;

// ---------------------------------------------------------------------
// Packets
// ---------------------------------------------------------------------
/// Payload of one transport frame.
#[derive(Debug, PartialEq, Eq, Clone)]
pub enum PacketData {
    /// Noise handshake data, at most [`MAX_HANDSHAKE_SIZE`] bytes.
    Handshake(Vec<u8>),
    /// One sealed (encrypted) message segment.
    MessageSegment(Vec<u8>),
}

/// Model of [`PacketData`].
pub enum PacketDataModel {
    Handshake(Seq<u8>),
    MessageSegment(Seq<u8>),
}

impl PacketDataModel {
    pub open spec fn wf(&self) -> bool {
        match *self {
            PacketDataModel::Handshake(d) => d.len() <= MAX_HANDSHAKE_SIZE,
            PacketDataModel::MessageSegment(_) => true,
        }
    }
}

impl View for PacketData {
    type V = PacketDataModel;

    open spec fn view(&self) -> PacketDataModel {
        match *self {
            PacketData::Handshake(d) => PacketDataModel::Handshake(d@),
            PacketData::MessageSegment(d) => PacketDataModel::MessageSegment(d@),
        }
    }
}

/// One on-the-wire unit; a transport frame carries exactly one.
#[derive(Debug, PartialEq, Eq, Clone)]
pub struct Packet {
    /// Claimed origin; adversarial until authenticated.
    pub source: PublicKey,
    /// `None` means one-hop identity hint; `Some(us)` means for us;
    /// anything else is transit.
    pub destination: Option<PublicKey>,
    pub data: PacketData,
}

/// Model of [`Packet`].
pub struct PacketModel {
    pub source: Seq<u8>,
    pub destination: Option<Seq<u8>>,
    pub data: PacketDataModel,
}

impl PacketModel {
    pub open spec fn wf(&self) -> bool {
        &&& self.source.len() == 32
        &&& match self.destination {
            Some(d) => d.len() == 32,
            None => true,
        }
        &&& self.data.wf()
    }
}

impl View for Packet {
    type V = PacketModel;

    open spec fn view(&self) -> PacketModel {
        PacketModel {
            source: self.source@,
            destination: match self.destination {
                Some(k) => Some(k@),
                None => None,
            },
            data: self.data@,
        }
    }
}

// ---------------------------------------------------------------------
// Message segments
// ---------------------------------------------------------------------
/// A piece of a message carried inside an encrypted packet payload.
#[derive(Debug, PartialEq, Eq, Clone)]
pub enum MessagePayload {
    /// What is needed to decode the message.
    Head {
        /// Number of body segments; never zero.
        body_count: u16,
        /// Whether the message bytes were compressed as a unit.
        compression: bool,
    },
    /// One indexed slice of the message bytes.
    Body { index: u16, data: Vec<u8> },
    /// Receiver's report of what has arrived so far.
    MessageProgress {
        confirmed_head: bool,
        /// Inclusive index ranges of bodies that have arrived.
        confirmed_bodies: Vec<(u16, u16)>,
    },
}

/// Model of [`MessagePayload`].
pub enum PayloadModel {
    Head { body_count: u16, compression: bool },
    Body { index: u16, data: Seq<u8> },
    MessageProgress { confirmed_head: bool, confirmed_bodies: Seq<(u16, u16)> },
}

impl PayloadModel {
    /// What the codec accepts: no zero body count, no oversized body,
    /// no inverted confirmation range.
    pub open spec fn wf(&self) -> bool {
        match *self {
            PayloadModel::Head { body_count, .. } => body_count >= 1,
            PayloadModel::Body { data, .. } => data.len() <= MAX_PACKET_PAYLOAD_SIZE,
            PayloadModel::MessageProgress { confirmed_bodies, .. } => {
                &&& confirmed_bodies.len() < 0x100000000
                &&& forall|i: int|
                    0 <= i < confirmed_bodies.len() ==> (#[trigger] confirmed_bodies[i]).0
                        <= confirmed_bodies[i].1
            },
        }
    }
}

impl View for MessagePayload {
    type V = PayloadModel;

    open spec fn view(&self) -> PayloadModel {
        match *self {
            MessagePayload::Head { body_count, compression } => PayloadModel::Head {
                body_count,
                compression,
            },
            MessagePayload::Body { index, data } => PayloadModel::Body { index, data: data@ },
            MessagePayload::MessageProgress { confirmed_head, confirmed_bodies } =>
                PayloadModel::MessageProgress {
                confirmed_head,
                confirmed_bodies: confirmed_bodies@,
            },
        }
    }
}

/// One decrypted message segment: a message id plus a payload.
#[derive(Debug, PartialEq, Eq, Clone)]
pub struct MessageSegment {
    pub id: MessageId,
    pub payload: MessagePayload,
}

/// Model of [`MessageSegment`].
pub struct SegmentModel {
    pub id: MessageId,
    pub payload: PayloadModel,
}

impl SegmentModel {
    pub open spec fn wf(&self) -> bool {
        self.payload.wf()
    }
}

impl View for MessageSegment {
    type V = SegmentModel;

    open spec fn view(&self) -> SegmentModel {
        SegmentModel { id: self.id, payload: self.payload@ }
    }
}

} // verus!
