//! Inbound pipeline: reconstructs messages from head and body segments
//! with a bounded out-of-order window, wrapping message ids, and
//! rejection of hostile input.
//!
//! A 16-slot ring is addressed by `id - current_message_id (mod 2^16)`;
//! offsets at or past the window are ignored.  Any segment that
//! contradicts an earlier one — an empty or oversized body, a changed
//! final-partial length, an index at or past the declared body count or
//! past the largest representable index, or a head whose count no
//! longer fits what has arrived — invalidates only that message's slot.

use vstd::prelude::*;
use crate::lz4::lz4_block;
use crate::lz4::lz4_decompress;
use crate::msgcodec::decode_message;
use crate::msgcodec::message_from_bytes;
use crate::packet::MAX_PACKET_PAYLOAD_SIZE;
use crate::packet::MessageId;
use crate::proto::Message;
use crate::ring::ring_capacity;
use crate::ring::ring_dequeue;
use crate::ring::ring_enqueue;
use crate::ring::ring_items;
use crate::ring::ring_new;
use crate::ring::ring_peek;
use crate::ring::ring_put;
use crate::ring::ring_take;

verus! {

/// How many message ids may be in flight per direction.
pub const MARGIN_OF_OUT_OF_ORDER_ALLOWED: usize = 16;

/// Largest number of bodies one message may declare.
pub const MAX_BODIES_PER_MESSAGE: usize = 512;

/// One partially reassembled inbound message.
pub struct PendingMessage {
    /// Whether the head segment has arrived.
    pub head_arrived: bool,
    /// Whether the head declared the message compressed.
    pub compression: bool,
    /// Highest body index observed so far.
    pub max_index_seen: u16,
    /// Declared or inferred body count; `None` until known.
    pub total_bodies: Option<u16>,
    /// Length of the final partial body, once one has arrived.
    pub final_partial_body_length: Option<u16>,
    /// Which body indices have been committed; always 512 entries.
    pub committed_bodies: Vec<bool>,
    /// The accumulating message bytes.
    pub bodies: Vec<u8>,
}

/// Model of [`PendingMessage`].
#[verifier::ext_equal]
pub struct PendingModel {
    pub head_arrived: bool,
    pub compression: bool,
    pub max_index_seen: u16,
    pub total_bodies: Option<u16>,
    pub final_partial_body_length: Option<u16>,
    pub committed_bodies: Seq<bool>,
    pub bodies: Seq<u8>,
}

impl View for PendingMessage {
    type V = PendingModel;

    open spec fn view(&self) -> PendingModel {
        PendingModel {
            head_arrived: self.head_arrived,
            compression: self.compression,
            max_index_seen: self.max_index_seen,
            total_bodies: self.total_bodies,
            final_partial_body_length: self.final_partial_body_length,
            committed_bodies: self.committed_bodies@,
            bodies: self.bodies@,
        }
    }
}

/// The state of a slot before anything has arrived.
pub open spec fn pending_default() -> PendingModel {
    PendingModel {
        head_arrived: false,
        compression: false,
        max_index_seen: 0,
        total_bodies: None,
        final_partial_body_length: None,
        committed_bodies: Seq::new(MAX_BODIES_PER_MESSAGE as nat, |i: int| false),
        bodies: Seq::empty(),
    }
}

impl PendingModel {
    /// Structural bounds every reachable slot satisfies.
    pub open spec fn wf(&self) -> bool {
        &&& self.committed_bodies.len() == MAX_BODIES_PER_MESSAGE
        &&& self.max_index_seen < MAX_BODIES_PER_MESSAGE
        &&& (self.head_arrived ==> self.total_bodies is Some)
        &&& match self.total_bodies {
            Some(t) => 1 <= t <= MAX_BODIES_PER_MESSAGE,
            None => true,
        }
        &&& match self.final_partial_body_length {
            Some(l) => 1 <= l < MAX_PACKET_PAYLOAD_SIZE,
            None => true,
        }
        &&& self.bodies.len() <= MAX_BODIES_PER_MESSAGE * MAX_PACKET_PAYLOAD_SIZE
    }
}

impl Default for PendingMessage {
    fn default() -> (r: Self)
        ensures
            r@ == pending_default(),
    {
        let mut committed: Vec<bool> = Vec::new();
        let mut i: usize = 0;
        while i < MAX_BODIES_PER_MESSAGE
            invariant
                i <= MAX_BODIES_PER_MESSAGE,
                committed@.len() == i,
                forall|j: int| 0 <= j < i ==> !committed@[j],
            decreases MAX_BODIES_PER_MESSAGE - i,
        {
            committed.push(false);
            i = i + 1;
        }
        let r = PendingMessage {
            head_arrived: false,
            compression: false,
            max_index_seen: 0,
            total_bodies: None,
            final_partial_body_length: None,
            committed_bodies: committed,
            bodies: Vec::new(),
        };
        proof {
            assert(r@.committed_bodies =~= pending_default().committed_bodies);
            assert(r@.bodies =~= pending_default().bodies);
        }
        r
    }
}

/// A sequence resized to length `n`: truncated, or extended with zeros.
pub open spec fn resize_bytes_spec(b: Seq<u8>, n: int) -> Seq<u8> {
    if n <= b.len() {
        b.take(n)
    } else {
        b + Seq::new((n - b.len()) as nat, |i: int| 0u8)
    }
}

/// How much shorter than a full multiple the message is, once its final
/// partial body is known.
pub open spec fn spec_adjust(fp: Option<u16>) -> int {
    match fp {
        Some(l) => MAX_PACKET_PAYLOAD_SIZE - l,
        None => 0,
    }
}

/// What a head segment does to a slot: `None` is an invalidated slot.
pub open spec fn spec_head_step(
    slot: Option<PendingModel>,
    body_count: u16,
    compression: bool,
) -> Option<PendingModel> {
    let s = match slot {
        Some(p) => p,
        None => pending_default(),
    };
    if body_count > MAX_BODIES_PER_MESSAGE {
        None
    } else {
        let cal = body_count * MAX_PACKET_PAYLOAD_SIZE - spec_adjust(s.final_partial_body_length);
        if s.bodies.len() > cal {
            None
        } else {
            Some(
                PendingModel {
                    head_arrived: true,
                    compression,
                    total_bodies: Some(body_count),
                    bodies: resize_bytes_spec(s.bodies, cal),
                    ..s
                },
            )
        }
    }
}

/// The slot after the partial-body and forced-total bookkeeping of a
/// body arrival, before consistency checks.
pub open spec fn spec_body_noted(s: PendingModel, index: u16, data: Seq<u8>) -> PendingModel {
    let s1 = if data.len() < MAX_PACKET_PAYLOAD_SIZE {
        PendingModel {
            final_partial_body_length: Some(data.len() as u16),
            total_bodies: match s.total_bodies {
                Some(t) => Some(t),
                None => Some((index + 1) as u16),
            },
            ..s
        }
    } else {
        s
    };
    if index == MAX_BODIES_PER_MESSAGE - 1 && s1.total_bodies is None {
        PendingModel { total_bodies: Some(MAX_BODIES_PER_MESSAGE as u16), ..s1 }
    } else {
        s1
    }
}

/// The declared body count, or one past the highest index seen.
pub open spec fn spec_known_count(s: PendingModel) -> int {
    match s.total_bodies {
        Some(t) => t as int,
        None => s.max_index_seen + 1,
    }
}

/// What a body segment does to a slot: `None` is an invalidated slot.
pub open spec fn spec_body_step(
    slot: Option<PendingModel>,
    index: u16,
    data: Seq<u8>,
) -> Option<PendingModel> {
    let s = match slot {
        Some(p) => p,
        None => pending_default(),
    };
    if data.len() == 0 || data.len() > MAX_PACKET_PAYLOAD_SIZE {
        None
    } else if index >= MAX_BODIES_PER_MESSAGE {
        None
    } else if data.len() < MAX_PACKET_PAYLOAD_SIZE && (match s.final_partial_body_length {
        Some(l) => l != data.len(),
        None => false,
    }) {
        None
    } else {
        let s2 = spec_body_noted(s, index, data);
        if match s2.total_bodies {
            Some(t) => t <= index,
            None => false,
        } {
            None
        } else {
            let s3 = PendingModel {
                max_index_seen: if index > s2.max_index_seen {
                    index
                } else {
                    s2.max_index_seen
                },
                ..s2
            };
            let cal = spec_known_count(s3) * MAX_PACKET_PAYLOAD_SIZE - spec_adjust(
                s3.final_partial_body_length,
            );
            let rb = resize_bytes_spec(s3.bodies, cal);
            let chunk_len: int = if (index + 1) * MAX_PACKET_PAYLOAD_SIZE <= cal {
                MAX_PACKET_PAYLOAD_SIZE as int
            } else {
                cal - index * MAX_PACKET_PAYLOAD_SIZE
            };
            if chunk_len != data.len() {
                None
            } else {
                Some(
                    PendingModel {
                        bodies: rb.take(index * MAX_PACKET_PAYLOAD_SIZE) + data + rb.skip(
                            index * MAX_PACKET_PAYLOAD_SIZE + data.len(),
                        ),
                        committed_bodies: s3.committed_bodies.update(index as int, true),
                        ..s3
                    },
                )
            }
        }
    }
}

/// A slot holds a complete message: its head arrived and every body
/// below the declared count is committed.
pub open spec fn spec_slot_finished(slot: Option<PendingModel>) -> bool {
    match slot {
        Some(s) => s.head_arrived && match s.total_bodies {
            Some(t) => forall|i: int| 0 <= i < t ==> s.committed_bodies[i],
            None => false,
        },
        None => false,
    }
}

/// The ring offset a message id maps to: its wrapping distance from the
/// current cursor.
pub open spec fn spec_offset(id: u16, cur: u16) -> int {
    if id >= cur {
        id - cur
    } else {
        id - cur + 0x10000
    }
}

/// Reconstructs messages for one source key.
pub struct MessageAssembler {
    /// The next message id to deliver.
    pub current_message_id: MessageId,
    /// One slot per in-flight id, oldest first.
    pub pending_messages: ringbuffer::AllocRingBuffer<Option<PendingMessage>>,
}

/// The models of a ring's slots.
pub open spec fn slots_of(
    r: ringbuffer::AllocRingBuffer<Option<PendingMessage>>,
) -> Seq<Option<PendingModel>> {
    ring_items(r).map_values(
        |s: Option<PendingMessage>|
            match s {
                Some(p) => Some(p@),
                None => None,
            },
    )
}

proof fn lemma_slots_update(
    items: Seq<Option<PendingMessage>>,
    i: int,
    v: Option<PendingMessage>,
)
    requires
        0 <= i < items.len(),
    ensures
        items.update(i, v).map_values(
            |s: Option<PendingMessage>|
                match s {
                    Some(p) => Some(p@),
                    None => None,
                },
        ) == items.map_values(
            |s: Option<PendingMessage>|
                match s {
                    Some(p) => Some(p@),
                    None => None,
                },
        ).update(
            i,
            match v {
                Some(p) => Some(p@),
                None => None,
            },
        ),
{
    let f = |s: Option<PendingMessage>|
        match s {
            Some(p) => Some(p@),
            None => None,
        };
    assert forall|j: int| 0 <= j < items.len() implies #[trigger] items.update(i, v).map_values(
        f,
    )[j] == items.map_values(f).update(i, f(v))[j] by {
        if j != i {
            assert(items.update(i, v)[j] == items[j]);
            assert(items.map_values(f)[j] == f(items[j]));
        }
    }
    assert(items.update(i, v).map_values(f) =~= items.map_values(f).update(i, f(v)));
}

impl MessageAssembler {
    /// The window is full-width and every slot is structurally sound.
    pub open spec fn wf(&self) -> bool {
        &&& ring_capacity(self.pending_messages) == MARGIN_OF_OUT_OF_ORDER_ALLOWED
        &&& slots_of(self.pending_messages).len() == MARGIN_OF_OUT_OF_ORDER_ALLOWED
        &&& forall|i: int|
            0 <= i < MARGIN_OF_OUT_OF_ORDER_ALLOWED ==> match #[trigger] slots_of(
                self.pending_messages,
            )[i] {
                Some(s) => s.wf(),
                None => true,
            }
    }

    /// The slot models, oldest first; slot `k` holds id
    /// `current_message_id + k (mod 2^16)`.
    pub open spec fn slots(&self) -> Seq<Option<PendingModel>> {
        slots_of(self.pending_messages)
    }

    /// A fresh assembler: 16 empty slots, delivering from id 0.
    pub fn new() -> (r: Self)
        ensures
            r.wf(),
            r.current_message_id == 0,
            forall|i: int| 0 <= i < MARGIN_OF_OUT_OF_ORDER_ALLOWED ==> r.slots()[i] is None,
    {
        let mut ring = ring_new(MARGIN_OF_OUT_OF_ORDER_ALLOWED);
        let mut i: usize = 0;
        while i < MARGIN_OF_OUT_OF_ORDER_ALLOWED
            invariant
                i <= MARGIN_OF_OUT_OF_ORDER_ALLOWED,
                ring_capacity(ring) == MARGIN_OF_OUT_OF_ORDER_ALLOWED,
                ring_items(ring).len() == i,
                forall|j: int| 0 <= j < i ==> ring_items(ring)[j] is None,
            decreases MARGIN_OF_OUT_OF_ORDER_ALLOWED - i,
        {
            let evicted = ring_enqueue(&mut ring, None);
            i = i + 1;
        }
        let r = MessageAssembler { current_message_id: 0, pending_messages: ring };
        proof {
            assert forall|i: int| 0 <= i < MARGIN_OF_OUT_OF_ORDER_ALLOWED implies r.slots()[i]
                is None by {
                assert(ring_items(r.pending_messages)[i] is None);
            }
        }
        r
    }

    /// Applies a head segment to the slot its id addresses; ids outside
    /// the 16-id window are ignored.
    #[verifier::rlimit(100)]
    pub fn head(&mut self, message_id: MessageId, body_count: u16, compression: bool)
        requires
            old(self).wf(),
            body_count >= 1,
        ensures
            final(self).wf(),
            final(self).current_message_id == old(self).current_message_id,
            spec_offset(message_id, old(self).current_message_id)
                >= MARGIN_OF_OUT_OF_ORDER_ALLOWED ==> final(self).slots() == old(self).slots(),
            spec_offset(message_id, old(self).current_message_id) < MARGIN_OF_OUT_OF_ORDER_ALLOWED
                ==> final(self).slots() == old(self).slots().update(
                spec_offset(message_id, old(self).current_message_id),
                spec_head_step(
                    old(self).slots()[spec_offset(message_id, old(self).current_message_id)],
                    body_count,
                    compression,
                ),
            ),
    {
        let off = message_id.wrapping_sub(self.current_message_id);
        if off as usize >= MARGIN_OF_OUT_OF_ORDER_ALLOWED {
            return ;
        }
        proof {
            assert(ring_items(self.pending_messages).len() == 16);
            assert(off as int % 16 == off as int);
        }
        let taken = ring_take(&mut self.pending_messages, off as usize);
        let slot: Option<PendingMessage> = match taken {
            Some(s) => s,
            None => vstd::pervasive::unreached(),
        };
        let ghost gslot = match &slot {
            Some(p) => Some(p@),
            None => None,
        };
        proof {
            assert(gslot == old(self).slots()[off as int]);
            assert(match gslot {
                Some(s) => s.wf(),
                None => true,
            });
        }
        let entry = match slot {
            Some(p) => p,
            None => PendingMessage::default(),
        };
        proof {
            assert(entry@.wf());
        }
        let result: Option<PendingMessage> = if body_count as usize > MAX_BODIES_PER_MESSAGE {
            None
        } else {
            proof {
                assert((body_count as int) * (MAX_PACKET_PAYLOAD_SIZE as int) <= 512 * 64512
                    && (body_count as int) * (MAX_PACKET_PAYLOAD_SIZE as int) >= 1 * 64512)
                    by (nonlinear_arith)
                    requires
                        1 <= body_count <= 512,
                ;
            }
            let cal: usize = (body_count as usize) * MAX_PACKET_PAYLOAD_SIZE - (
            match entry.final_partial_body_length {
                Some(l) => MAX_PACKET_PAYLOAD_SIZE - l as usize,
                None => 0,
            });
            if entry.bodies.len() > cal {
                None
            } else {
                let mut e = entry;
                resize_bytes(&mut e.bodies, cal);
                e.head_arrived = true;
                e.compression = compression;
                e.total_bodies = Some(body_count);
                proof {
                    assert(e@.bodies.len() == cal);
                    assert(e@.wf());
                }
                Some(e)
            }
        };
        proof {
            let expect = spec_head_step(gslot, body_count, compression);
            assert(match (result, expect) {
                (Some(a), Some(b)) => a@ == b,
                (None, None) => true,
                _ => false,
            });
        }
        let ghost pre_put = ring_items(self.pending_messages);
        ring_put(&mut self.pending_messages, off as usize, result);
        proof {
            lemma_slots_update(pre_put, off as int, result);
            lemma_slots_update(ring_items(old(self).pending_messages), off as int, None);
            assert(final(self).slots() =~= old(self).slots().update(
                off as int,
                spec_head_step(old(self).slots()[off as int], body_count, compression),
            ));
        }
    }

    /// Applies a body segment to the slot its id addresses; ids outside
    /// the 16-id window are ignored.
    #[verifier::rlimit(100)]
    pub fn body(&mut self, message_id: MessageId, index: u16, data: Vec<u8>)
        requires
            old(self).wf(),
        ensures
            final(self).wf(),
            final(self).current_message_id == old(self).current_message_id,
            spec_offset(message_id, old(self).current_message_id)
                >= MARGIN_OF_OUT_OF_ORDER_ALLOWED ==> final(self).slots() == old(self).slots(),
            spec_offset(message_id, old(self).current_message_id) < MARGIN_OF_OUT_OF_ORDER_ALLOWED
                ==> final(self).slots() == old(self).slots().update(
                spec_offset(message_id, old(self).current_message_id),
                spec_body_step(
                    old(self).slots()[spec_offset(message_id, old(self).current_message_id)],
                    index,
                    data@,
                ),
            ),
    {
        let off = message_id.wrapping_sub(self.current_message_id);
        if off as usize >= MARGIN_OF_OUT_OF_ORDER_ALLOWED {
            return ;
        }
        proof {
            assert(ring_items(self.pending_messages).len() == 16);
            assert(off as int % 16 == off as int);
        }
        let taken = ring_take(&mut self.pending_messages, off as usize);
        let slot: Option<PendingMessage> = match taken {
            Some(s) => s,
            None => vstd::pervasive::unreached(),
        };
        let ghost gslot = match &slot {
            Some(p) => Some(p@),
            None => None,
        };
        proof {
            assert(gslot == old(self).slots()[off as int]);
            assert(match gslot {
                Some(s) => s.wf(),
                None => true,
            });
        }
        let entry = match slot {
            Some(p) => p,
            None => PendingMessage::default(),
        };
        proof {
            assert(entry@.wf());
            assert(spec_body_step(gslot, index, data@) == spec_body_step(
                Some(entry@),
                index,
                data@,
            ));
        }
        let result: Option<PendingMessage> = Self::apply_body(entry, index, &data);
        proof {
            let expect = spec_body_step(gslot, index, data@);
            assert(match (result, expect) {
                (Some(a), Some(b)) => a@ == b,
                (None, None) => true,
                _ => false,
            });
        }
        let ghost pre_put = ring_items(self.pending_messages);
        ring_put(&mut self.pending_messages, off as usize, result);
        proof {
            lemma_slots_update(pre_put, off as int, result);
            lemma_slots_update(ring_items(old(self).pending_messages), off as int, None);
            assert(final(self).slots() =~= old(self).slots().update(
                off as int,
                spec_body_step(old(self).slots()[off as int], index, data@),
            ));
        }
    }

    /// The body transition on one slot's state.
    #[verifier::rlimit(100)]
    fn apply_body(entry: PendingMessage, index: u16, data: &Vec<u8>) -> (r: Option<PendingMessage>)
        requires
            entry@.wf(),
        ensures
            match (r, spec_body_step(Some(entry@), index, data@)) {
                (Some(a), Some(b)) => a@ == b && a@.wf(),
                (None, None) => true,
                _ => false,
            },
    {
        let mut e = entry;
        if data.len() == 0 || data.len() > MAX_PACKET_PAYLOAD_SIZE {
            return None;
        }
        if index as usize >= MAX_BODIES_PER_MESSAGE {
            return None;
        }
        if data.len() < MAX_PACKET_PAYLOAD_SIZE {
            match e.final_partial_body_length {
                Some(l) => {
                    if l as usize != data.len() {
                        return None;
                    }
                },
                None => {},
            }
            e.final_partial_body_length = Some(data.len() as u16);
            if e.total_bodies.is_none() {
                e.total_bodies = Some(index + 1);
            }
        }
        if index as usize == MAX_BODIES_PER_MESSAGE - 1 && e.total_bodies.is_none() {
            e.total_bodies = Some(MAX_BODIES_PER_MESSAGE as u16);
        }
        proof {
            assert(e@ == spec_body_noted(entry@, index, data@));
        }
        match e.total_bodies {
            Some(t) => {
                if t <= index {
                    return None;
                }
            },
            None => {},
        }
        if index > e.max_index_seen {
            e.max_index_seen = index;
        }
        let ghost s3 = e@;
        let k: usize = match e.total_bodies {
            Some(t) => t as usize,
            None => e.max_index_seen as usize + 1,
        };
        proof {
            assert(k == spec_known_count(s3));
            assert((k as int) * (MAX_PACKET_PAYLOAD_SIZE as int) <= 512 * 64512
                && (k as int) * (MAX_PACKET_PAYLOAD_SIZE as int) >= (index as int + 1) * 64512
                && (index as int + 1) * 64512 == index as int * 64512 + 64512) by (nonlinear_arith)
                requires
                    index < k <= 512,
            ;
        }
        let cal: usize = k * MAX_PACKET_PAYLOAD_SIZE - (match e.final_partial_body_length {
            Some(l) => MAX_PACKET_PAYLOAD_SIZE - l as usize,
            None => 0,
        });
        resize_bytes(&mut e.bodies, cal);
        proof {
            assert(e.bodies@.len() == cal);
        }
        let lo: usize = (index as usize) * MAX_PACKET_PAYLOAD_SIZE;
        let chunk_len: usize = if lo + MAX_PACKET_PAYLOAD_SIZE <= cal {
            MAX_PACKET_PAYLOAD_SIZE
        } else {
            cal - lo
        };
        if chunk_len != data.len() {
            return None;
        }
        proof {
            assert(lo + data@.len() <= cal);
        }
        let ghost rb = e.bodies@;
        let mut q: usize = 0;
        while q < data.len()
            invariant
                q <= data@.len(),
                lo + data@.len() <= rb.len(),
                rb.len() <= 512 * 64512,
                e.bodies@.len() == rb.len(),
                e.head_arrived == s3.head_arrived,
                e.compression == s3.compression,
                e.max_index_seen == s3.max_index_seen,
                e.total_bodies == s3.total_bodies,
                e.final_partial_body_length == s3.final_partial_body_length,
                e.committed_bodies@ == s3.committed_bodies,
                forall|j: int| 0 <= j < q ==> e.bodies@[lo + j] == data@[j],
                forall|j: int| 0 <= j < lo ==> e.bodies@[j] == rb[j],
                forall|j: int| lo + data@.len() <= j < rb.len() ==> e.bodies@[j] == rb[j],
            decreases data@.len() - q,
        {
            e.bodies[lo + q] = data[q];
            q = q + 1;
        }
        proof {
            assert(e.bodies@ =~= rb.take(lo as int) + data@ + rb.skip(lo + data@.len()));
        }
        proof {
            assert(e.committed_bodies@.len() == 512);
        }
        e.committed_bodies[index as usize] = true;
        proof {
            let sb = spec_body_step(Some(entry@), index, data@);
            assert(sb is Some);
            assert(e@ == sb.unwrap());
            assert(e@.wf());
        }
        Some(e)
    }

    /// Whether the message at `message_id` is complete: its head has
    /// arrived and every declared body is committed.
    pub fn is_finished(&self, message_id: MessageId) -> (r: bool)
        requires
            self.wf(),
        ensures
            r == (spec_offset(message_id, self.current_message_id) < MARGIN_OF_OUT_OF_ORDER_ALLOWED
                && spec_slot_finished(
                self.slots()[spec_offset(message_id, self.current_message_id)],
            )),
    {
        let off = message_id.wrapping_sub(self.current_message_id);
        if off as usize >= MARGIN_OF_OUT_OF_ORDER_ALLOWED {
            return false;
        }
        proof {
            assert(ring_items(self.pending_messages).len() == 16);
            assert(off as int % 16 == off as int);
        }
        let peeked = ring_peek(&self.pending_messages, off as usize);
        let slot: &Option<PendingMessage> = match peeked {
            Some(s) => s,
            None => vstd::pervasive::unreached(),
        };
        proof {
            assert(self.slots()[off as int] == match *slot {
                Some(p) => Some(p@),
                None => None,
            });
            assert(match self.slots()[off as int] {
                Some(s) => s.wf(),
                None => true,
            });
        }
        match slot {
            Some(entry) => {
                if !entry.head_arrived {
                    return false;
                }
                let total: u16 = match entry.total_bodies {
                    Some(t) => t,
                    None => vstd::pervasive::unreached(),
                };
                let ghost gslot = self.slots()[off as int];
                let mut i: usize = 0;
                while i < total as usize
                    invariant
                        spec_offset(message_id, self.current_message_id) == off as int,
                        (off as int) < MARGIN_OF_OUT_OF_ORDER_ALLOWED,
                        self.slots()[off as int] == gslot,
                        gslot == Some(entry@),
                        entry.head_arrived,
                        entry.total_bodies == Some(total),
                        total as nat <= entry.committed_bodies@.len(),
                        i <= total,
                        forall|j: int| 0 <= j < i ==> entry.committed_bodies@[j],
                    decreases total as int - i,
                {
                    if !entry.committed_bodies[i] {
                        proof {
                            let s = entry@;
                            assert(!s.committed_bodies[i as int]);
                            assert(!spec_slot_finished(gslot));
                        }
                        return false;
                    }
                    i = i + 1;
                }
                proof {
                    let s = entry@;
                    assert(forall|j: int| 0 <= j < total ==> s.committed_bodies[j]);
                    assert(spec_slot_finished(gslot));
                }
                true
            },
            None => false,
        }
    }

    /// Delivers the message at the cursor when it is complete: its slot
    /// leaves the ring, the cursor advances one wrapping step, and the
    /// bytes are decompressed when the head said so.  A message whose
    /// compressed bytes do not decompress is dropped: the cursor still
    /// advances and `None` is returned.
    pub fn next(&mut self) -> (r: Option<(Vec<u8>, MessageId)>)
        requires
            old(self).wf(),
        ensures
            final(self).wf(),
            !spec_slot_finished(old(self).slots()[0]) ==> {
                &&& r is None
                &&& final(self).slots() == old(self).slots()
                &&& final(self).current_message_id == old(self).current_message_id
            },
            spec_slot_finished(old(self).slots()[0]) ==> {
                &&& final(self).slots() == old(self).slots().drop_first().push(None)
                &&& final(self).current_message_id == (old(self).current_message_id + 1) % 0x10000
                &&& !old(self).slots()[0].unwrap().compression ==> (r matches Some((b, id)) && b@
                    == old(self).slots()[0].unwrap().bodies && id == old(self).current_message_id)
                &&& old(self).slots()[0].unwrap().compression ==> (forall|d: Seq<u8>|
                    d.len() < 0x100000000 && old(self).slots()[0].unwrap().bodies == lz4_block(d)
                        ==> (r matches Some((b, id)) && b@ == d && id == old(
                        self,
                    ).current_message_id))
                &&& (r is None ==> old(self).slots()[0].unwrap().compression && (forall|d: Seq<u8>|
                    d.len() < 0x100000000 ==> old(self).slots()[0].unwrap().bodies != lz4_block(
                        d,
                    )))
                &&& (r matches Some((b, id)) ==> id == old(self).current_message_id)
            },
    {
        if !self.is_finished(self.current_message_id) {
            return None;
        }
        assert(spec_offset(self.current_message_id, self.current_message_id) == 0);
        let taken = ring_dequeue(&mut self.pending_messages);
        let slot: Option<PendingMessage> = match taken {
            Some(s) => s,
            None => vstd::pervasive::unreached(),
        };
        let entry: PendingMessage = match slot {
            Some(p) => p,
            None => vstd::pervasive::unreached(),
        };
        let evicted = ring_enqueue(&mut self.pending_messages, None);
        let id = self.current_message_id;
        self.current_message_id = self.current_message_id.wrapping_add(1);
        proof {
            assert(final(self).slots() =~= old(self).slots().drop_first().push(None));
        }
        if entry.compression {
            match lz4_decompress(entry.bodies.as_slice()) {
                Some(b) => Some((b, id)),
                None => None,
            }
        } else {
            Some((entry.bodies, id))
        }
    }

    /// Delivers the next complete message, decoded; a message whose
    /// bytes do not decode as a message is dropped, the cursor having
    /// advanced.
    pub fn next_message(&mut self) -> (r: Option<(MessageId, Message)>)
        requires
            old(self).wf(),
        ensures
            final(self).wf(),
            !spec_slot_finished(old(self).slots()[0]) ==> {
                &&& r is None
                &&& final(self).slots() == old(self).slots()
                &&& final(self).current_message_id == old(self).current_message_id
            },
            spec_slot_finished(old(self).slots()[0]) ==> {
                &&& final(self).slots() == old(self).slots().drop_first().push(None)
                &&& final(self).current_message_id == (old(self).current_message_id + 1) % 0x10000
                &&& !old(self).slots()[0].unwrap().compression ==> (forall|m: crate::proto::MessageModel|
                    message_from_bytes(old(self).slots()[0].unwrap().bodies) == Some(m)
                        ==> (r matches Some((id, v)) && v@ == m && id == old(
                        self,
                    ).current_message_id))
                &&& old(self).slots()[0].unwrap().compression ==> (forall|d: Seq<u8>, m: crate::proto::MessageModel|
                    d.len() < 0x100000000 && old(self).slots()[0].unwrap().bodies == lz4_block(d)
                        && message_from_bytes(d) == Some(m) ==> (r matches Some((id, v)) && v@ == m
                        && id == old(self).current_message_id))
                &&& (!old(self).slots()[0].unwrap().compression ==> ((r is None)
                    == (message_from_bytes(old(self).slots()[0].unwrap().bodies) is None)))
                &&& (r is None && old(self).slots()[0].unwrap().compression ==> (forall|d: Seq<u8>|
                    d.len() < 0x100000000 && old(self).slots()[0].unwrap().bodies == lz4_block(d)
                        ==> message_from_bytes(d) is None))
                &&& (r matches Some((id, v)) ==> id == old(self).current_message_id)
            },
    {
        match self.next() {
            Some((bytes, id)) => {
                match decode_message(bytes.as_slice()) {
                    Some(m) => Some((id, m)),
                    None => None,
                }
            },
            None => None,
        }
    }
}

impl Default for MessageAssembler {
    /// Same as [`MessageAssembler::new`].
    fn default() -> (r: Self)
        ensures
            r.wf(),
            r.current_message_id == 0,
            forall|i: int| 0 <= i < MARGIN_OF_OUT_OF_ORDER_ALLOWED ==> r.slots()[i] is None,
    {
        Self::new()
    }
}

/// Resizes a byte vector in place: truncate, or extend with zeros.
fn resize_bytes(v: &mut Vec<u8>, n: usize)
    ensures
        final(v)@ == resize_bytes_spec(old(v)@, n as int),
{
    let ghost orig = v@;
    proof {
        assert(orig.take(orig.len() as int) =~= orig);
    }
    while v.len() > n
        invariant
            v@.len() <= orig.len(),
            v@.len() >= n || v@.len() == orig.len(),
            v@ == orig.take(v@.len() as int),
        decreases v@.len(),
    {
        let ghost blen = v@.len() as int;
        let popped = v.pop();
        proof {
            assert(v@ =~= orig.take(blen).subrange(0, blen - 1));
            assert(orig.take(blen).subrange(0, blen - 1) =~= orig.take(blen - 1));
        }
    }
    if v.len() >= n {
        proof {
            assert(v@ == orig.take(n as int));
        }
        return ;
    }
    let ghost base = v@;
    proof {
        assert(base == orig);
        assert(base.subrange(0, base.len() as int) =~= base);
    }
    while v.len() < n
        invariant
            base.len() <= v@.len() <= n,
            v@.subrange(0, base.len() as int) == base,
            forall|j: int| base.len() <= j < v@.len() ==> v@[j] == 0u8,
        decreases n - v@.len(),
    {
        v.push(0);
        proof {
            assert(v@.subrange(0, base.len() as int) =~= base);
        }
    }
    proof {
        assert(v@ =~= base + Seq::new((n - base.len()) as nat, |i: int| 0u8));
    }
}

} // verus!
