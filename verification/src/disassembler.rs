//! Outbound pipeline: splits one message per id into a head and indexed
//! bodies, tracks per-segment confirmation, and re-emits whatever is
//! still unconfirmed.

use vstd::prelude::*;
use std::collections::HashMap;
use crate::entropy::should_message_be_compressed;
use crate::entropy::spec_should_compress;
use crate::lz4::lz4_block;
use crate::lz4::lz4_compress;
use crate::msgcodec::enc_message;
use crate::msgcodec::encode_message;
use crate::packet::MAX_PACKET_PAYLOAD_SIZE;
use crate::packet::MessageId;
use crate::packet::MessagePayload;
use crate::packet::PayloadModel;
use crate::proto::Message;
use crate::ranges::range_set_contains;
use crate::ranges::range_set_contents;
use crate::ranges::range_set_insert;
use crate::ranges::range_set_new;

verus! {

broadcast use vstd::std_specs::hash::group_hash_axioms;

/// Most body segments one message may be split into: no message may
/// address a body index outside the 512-body window receivers keep.
pub const MAX_BODIES_PER_PAYLOAD: usize = 512;

/// Outbound state of one message: its (possibly compressed) bytes and
/// what the receiver has confirmed so far.
pub struct PayloadTracker {
    /// The message bytes that the bodies slice up.
    pub payload: Vec<u8>,
    /// Whether `payload` is LZ4-compressed.
    pub compression: bool,
    /// Whether the head segment has been confirmed.
    pub head_confirmed: bool,
    /// Number of body segments; always `ceil(len / MAX)` and nonzero.
    pub body_count: u16,
    /// Which body indices the receiver has confirmed.
    pub bodies_confirmed: rangemap::RangeInclusiveSet<u16>,
}

impl PayloadTracker {
    /// The body count matches the payload length.
    pub open spec fn wf(&self) -> bool {
        &&& 1 <= self.payload@.len()
        &&& self.payload@.len() <= MAX_BODIES_PER_PAYLOAD * MAX_PACKET_PAYLOAD_SIZE
        &&& self.body_count == (self.payload@.len() + MAX_PACKET_PAYLOAD_SIZE - 1) as int
            / MAX_PACKET_PAYLOAD_SIZE as int
    }

    /// All body indices below `body_count` are confirmed.
    pub open spec fn all_bodies_confirmed(&self) -> bool {
        forall|i: u16| i < self.body_count ==> range_set_contents(self.bodies_confirmed).contains(i)
    }

    /// The tracker's message is fully confirmed.
    pub open spec fn confirmed(&self) -> bool {
        self.head_confirmed && self.all_bodies_confirmed()
    }
}

/// The byte slice carried by body `i` of a payload.
pub open spec fn spec_body_chunk(p: Seq<u8>, i: int) -> Seq<u8> {
    let lo = i * MAX_PACKET_PAYLOAD_SIZE;
    let hi = (i + 1) * MAX_PACKET_PAYLOAD_SIZE;
    p.subrange(
        lo,
        if hi <= p.len() {
            hi
        } else {
            p.len() as int
        },
    )
}

/// The bytes that `message` stores for `m`: the encoding, compressed
/// when the entropy heuristic fires and the result still fits the
/// 16-bit body count.
pub open spec fn spec_stored_payload(m: crate::proto::MessageModel) -> (Seq<u8>, bool) {
    let e = enc_message(m);
    if spec_should_compress(e) && lz4_block(e).len() <= MAX_BODIES_PER_PAYLOAD
        * MAX_PACKET_PAYLOAD_SIZE {
        (lz4_block(e), true)
    } else {
        (e, false)
    }
}

/// The unconfirmed body payloads of a tracker, for indices below `k`,
/// in index order.
pub open spec fn spec_pending_bodies(t: PayloadTracker, k: int) -> Seq<PayloadModel>
    decreases k,
{
    if k <= 0 {
        Seq::empty()
    } else {
        spec_pending_bodies(t, k - 1) + if range_set_contents(t.bodies_confirmed).contains(
            (k - 1) as u16,
        ) {
            Seq::empty()
        } else {
            seq![
                PayloadModel::Body {
                    index: (k - 1) as u16,
                    data: spec_body_chunk(t.payload@, k - 1),
                },
            ]
        }
    }
}

/// Everything `payloads` emits for a tracker: an unconfirmed head
/// first, then every unconfirmed body.
pub open spec fn spec_emitted(t: PayloadTracker) -> Seq<PayloadModel> {
    (if t.head_confirmed {
        Seq::empty()
    } else {
        seq![PayloadModel::Head { body_count: t.body_count, compression: t.compression }]
    }) + spec_pending_bodies(t, t.body_count as int)
}

/// Per-destination outbound state: one tracker per in-flight message
/// id, the id to emit next, and the last id assigned.
pub struct MessageDisassembler {
    pub packets: HashMap<MessageId, PayloadTracker>,
    /// The next id whose segments `payloads` emits.
    pub next_message_id: MessageId,
    /// The last id assigned by `message`.
    pub highest_message_id: MessageId,
}

impl MessageDisassembler {
    pub open spec fn wf(&self) -> bool {
        forall|id: MessageId| #[trigger]
            self.packets@.contains_key(id) ==> self.packets@[id].wf()
    }

    /// An empty disassembler: the first assigned id and the first id to
    /// emit are both 0.
    pub fn new() -> (r: Self)
        ensures
            r.wf(),
            r.packets@ == Map::<MessageId, PayloadTracker>::empty(),
            r.next_message_id == 0,
            r.highest_message_id == 0xffff,
    {
        MessageDisassembler {
            packets: HashMap::new(),
            next_message_id: 0,
            highest_message_id: 0xffff,
        }
    }

    /// Queues a message: encodes it, compresses it when the entropy
    /// heuristic fires, and installs a tracker under the next wrapping
    /// id, which is returned.
    pub fn message(&mut self, m: &Message) -> (id: MessageId)
        requires
            old(self).wf(),
            m@.wf(),
            enc_message(m@).len() >= 1,
            enc_message(m@).len() <= MAX_BODIES_PER_PAYLOAD * MAX_PACKET_PAYLOAD_SIZE,
        ensures
            final(self).wf(),
            id == (old(self).highest_message_id + 1) % 0x10000,
            final(self).highest_message_id == id,
            final(self).next_message_id == old(self).next_message_id,
            final(self).packets@.contains_key(id),
            final(self).packets@ == old(self).packets@.insert(id, final(self).packets@[id]),
            final(self).packets@[id].payload@ == spec_stored_payload(m@).0,
            final(self).packets@[id].compression == spec_stored_payload(m@).1,
            !final(self).packets@[id].head_confirmed,
            range_set_contents(final(self).packets@[id].bodies_confirmed) == Set::<u16>::empty(),
    {
        let encoded = encode_message(m);
        let compress = should_message_be_compressed(encoded.as_slice());
        let (payload, compression): (Vec<u8>, bool) = if compress {
            let c = lz4_compress(encoded.as_slice());
            if c.len() <= MAX_BODIES_PER_PAYLOAD * MAX_PACKET_PAYLOAD_SIZE {
                (c, true)
            } else {
                (encoded, false)
            }
        } else {
            (encoded, false)
        };
        let body_count_big: usize = (payload.len() + (MAX_PACKET_PAYLOAD_SIZE - 1))
            / MAX_PACKET_PAYLOAD_SIZE;
        assert(body_count_big <= MAX_BODIES_PER_PAYLOAD) by {
            vstd::arithmetic::div_mod::lemma_div_is_ordered(
                payload@.len() + (MAX_PACKET_PAYLOAD_SIZE - 1) as int,
                (MAX_BODIES_PER_PAYLOAD * MAX_PACKET_PAYLOAD_SIZE + (MAX_PACKET_PAYLOAD_SIZE
                    - 1)) as int,
                MAX_PACKET_PAYLOAD_SIZE as int,
            );
        }
        let body_count: u16 = body_count_big as u16;
        let id = if self.highest_message_id == 0xffff {
            0
        } else {
            self.highest_message_id + 1
        };
        let tracker = PayloadTracker {
            payload,
            compression,
            head_confirmed: false,
            body_count,
            bodies_confirmed: range_set_new(),
        };
        self.packets.insert(id, tracker);
        self.highest_message_id = id;
        id
    }

    /// Records whether the head of `message_id` has been confirmed; ids
    /// without a tracker are ignored.
    pub fn head_status(&mut self, message_id: MessageId, head_status: bool)
        requires
            old(self).wf(),
        ensures
            final(self).wf(),
            final(self).next_message_id == old(self).next_message_id,
            final(self).highest_message_id == old(self).highest_message_id,
            !old(self).packets@.contains_key(message_id) ==> final(self).packets@ == old(
                self,
            ).packets@,
            old(self).packets@.contains_key(message_id) ==> {
                &&& final(self).packets@.contains_key(message_id)
                &&& final(self).packets@ == old(self).packets@.insert(
                    message_id,
                    final(self).packets@[message_id],
                )
                &&& final(self).packets@[message_id] == PayloadTracker {
                    head_confirmed: head_status,
                    ..old(self).packets@[message_id]
                }
            },
            final(self).packets@ == spec_head_status_map(
                old(self).packets@,
                message_id,
                head_status,
            ),
    {
        match self.packets.remove(&message_id) {
            Some(mut t) => {
                t.head_confirmed = head_status;
                self.packets.insert(message_id, t);
                proof {
                    assert(self.packets@ =~= old(self).packets@.insert(
                        message_id,
                        self.packets@[message_id],
                    ));
                    assert(self.packets@ =~= spec_head_status_map(
                        old(self).packets@,
                        message_id,
                        head_status,
                    ));
                }
            },
            None => {
                proof {
                    assert(self.packets@ =~= old(self).packets@);
                }
            },
        }
    }

    /// Replaces the confirmed-body ranges of `message_id` with exactly
    /// the union of the given inclusive ranges; ids without a tracker
    /// are ignored.
    pub fn body_status(&mut self, message_id: MessageId, body_status: &Vec<(u16, u16)>)
        requires
            old(self).wf(),
            forall|i: int|
                0 <= i < body_status@.len() ==> (#[trigger] body_status@[i]).0 <= body_status@[i].1,
        ensures
            final(self).wf(),
            final(self).next_message_id == old(self).next_message_id,
            final(self).highest_message_id == old(self).highest_message_id,
            !old(self).packets@.contains_key(message_id) ==> final(self).packets@ == old(
                self,
            ).packets@,
            old(self).packets@.contains_key(message_id) ==> {
                &&& final(self).packets@.contains_key(message_id)
                &&& final(self).packets@ == old(self).packets@.insert(
                    message_id,
                    final(self).packets@[message_id],
                )
                &&& final(self).packets@[message_id].payload == old(
                    self,
                ).packets@[message_id].payload
                &&& final(self).packets@[message_id].compression == old(
                    self,
                ).packets@[message_id].compression
                &&& final(self).packets@[message_id].head_confirmed == old(
                    self,
                ).packets@[message_id].head_confirmed
                &&& final(self).packets@[message_id].body_count == old(
                    self,
                ).packets@[message_id].body_count
                &&& range_set_contents(final(self).packets@[message_id].bodies_confirmed)
                    == spec_ranges_union(body_status@)
            },
    {
        match self.packets.remove(&message_id) {
            Some(mut t) => {
                let mut fresh = range_set_new();
                let mut k: usize = 0;
                while k < body_status.len()
                    invariant
                        k <= body_status@.len(),
                        forall|i: int|
                            0 <= i < body_status@.len() ==> (#[trigger] body_status@[i]).0
                                <= body_status@[i].1,
                        range_set_contents(fresh) == spec_ranges_union(
                            body_status@.subrange(0, k as int),
                        ),
                    decreases body_status@.len() - k,
                {
                    let (lo, hi) = body_status[k];
                    range_set_insert(&mut fresh, lo, hi);
                    proof {
                        assert(body_status@.subrange(0, (k + 1) as int).drop_last()
                            =~= body_status@.subrange(0, k as int));
                        assert(range_set_contents(fresh) =~= spec_ranges_union(
                            body_status@.subrange(0, (k + 1) as int),
                        ));
                    }
                    k = k + 1;
                }
                proof {
                    assert(body_status@.subrange(0, body_status@.len() as int) =~= body_status@);
                }
                t.bodies_confirmed = fresh;
                self.packets.insert(message_id, t);
                proof {
                    assert(self.packets@ =~= old(self).packets@.insert(
                        message_id,
                        self.packets@[message_id],
                    ));
                }
            },
            None => {
                proof {
                    assert(self.packets@ =~= old(self).packets@);
                }
            },
        }
    }

    /// Whether `message_id` is fully confirmed: its head and every body
    /// index below its body count.
    pub fn is_message_confirmed(&self, message_id: MessageId) -> (r: bool)
        requires
            self.wf(),
        ensures
            r == (self.packets@.contains_key(message_id)
                && self.packets@[message_id].confirmed()),
    {
        match self.packets.get(&message_id) {
            Some(t) => {
                assert(self.packets@.contains_key(message_id) && self.packets@[message_id] == *t);
                if !t.head_confirmed {
                    return false;
                }
                let mut i: u16 = 0;
                while i < t.body_count
                    invariant
                        self.packets@.contains_key(message_id),
                        self.packets@[message_id] == *t,
                        t.head_confirmed,
                        i <= t.body_count,
                        forall|j: u16|
                            j < i ==> range_set_contents(t.bodies_confirmed).contains(j),
                    decreases t.body_count - i,
                {
                    if !range_set_contains(&t.bodies_confirmed, i) {
                        assert(!t.all_bodies_confirmed());
                        return false;
                    }
                    i = i + 1;
                }
                assert(t.all_bodies_confirmed());
                true
            },
            None => false,
        }
    }

    /// Emits everything still unconfirmed for the message at
    /// `next_message_id`: the head (unless confirmed) and every
    /// unconfirmed body, in index order.  When that message is fully
    /// confirmed its tracker is dropped, the cursor advances one
    /// wrapping step, and `None` is returned, so callers drive this
    /// until `None` to drain completions.
    pub fn payloads(&mut self) -> (r: Option<(MessageId, Vec<MessagePayload>)>)
        requires
            old(self).wf(),
        ensures
            final(self).wf(),
            final(self).highest_message_id == old(self).highest_message_id,
            !old(self).packets@.contains_key(old(self).next_message_id) ==> {
                &&& r is None
                &&& final(self).packets@ == old(self).packets@
                &&& final(self).next_message_id == old(self).next_message_id
            },
            old(self).packets@.contains_key(old(self).next_message_id) && old(
                self,
            ).packets@[old(self).next_message_id].confirmed() ==> {
                &&& r is None
                &&& final(self).packets@ == old(self).packets@.remove(old(self).next_message_id)
                &&& final(self).next_message_id == (old(self).next_message_id + 1) % 0x10000
            },
            old(self).packets@.contains_key(old(self).next_message_id) && !old(
                self,
            ).packets@[old(self).next_message_id].confirmed() ==> {
                &&& final(self).packets@ == old(self).packets@
                &&& final(self).next_message_id == old(self).next_message_id
                &&& r matches Some((id, v)) && id == old(self).next_message_id
                    && v@.map_values(|p: MessagePayload| p@) == spec_emitted(
                    old(self).packets@[old(self).next_message_id],
                )
            },
    {
        let id = self.next_message_id;
        match self.packets.get(&id) {
            Some(t) => {
                let ghost gt = *t;
                let mut out: Vec<MessagePayload> = Vec::new();
                if !t.head_confirmed {
                    out.push(
                        MessagePayload::Head {
                            body_count: t.body_count,
                            compression: t.compression,
                        },
                    );
                }
                proof {
                    assert(out@.map_values(|p: MessagePayload| p@) =~= (if gt.head_confirmed {
                        Seq::<PayloadModel>::empty()
                    } else {
                        seq![
                            PayloadModel::Head {
                                body_count: gt.body_count,
                                compression: gt.compression,
                            },
                        ]
                    }));
                }
                let ghost head_part = out@.map_values(|p: MessagePayload| p@);
                let mut index: u16 = 0;
                while index < t.body_count
                    invariant
                        gt == *t,
                        gt.wf(),
                        index <= gt.body_count,
                        out@.map_values(|p: MessagePayload| p@) == head_part
                            + spec_pending_bodies(gt, index as int),
                    decreases t.body_count - index,
                {
                    proof {
                        lemma_chunk_bounds(gt.payload@.len() as int, index as int, gt.body_count as int);
                    }
                    if !range_set_contains(&t.bodies_confirmed, index) {
                        let lo: usize = (index as usize) * MAX_PACKET_PAYLOAD_SIZE;
                        let hi: usize = if lo + MAX_PACKET_PAYLOAD_SIZE <= t.payload.len() {
                            lo + MAX_PACKET_PAYLOAD_SIZE
                        } else {
                            t.payload.len()
                        };
                        proof {
                            assert(lo as int == index as int * MAX_PACKET_PAYLOAD_SIZE);
                            assert(hi as int == if (index as int + 1) * MAX_PACKET_PAYLOAD_SIZE
                                <= gt.payload@.len() {
                                (index as int + 1) * MAX_PACKET_PAYLOAD_SIZE
                            } else {
                                gt.payload@.len() as int
                            });
                        }
                        let data = crate::wire::read_raw(t.payload.as_slice(), lo, hi - lo);
                        proof {
                            assert(data@ == gt.payload@.subrange(lo as int, hi as int));
                            assert(data@ =~= spec_body_chunk(gt.payload@, index as int));
                            assert(spec_pending_bodies(gt, index as int + 1)
                                == spec_pending_bodies(gt, index as int) + seq![
                                PayloadModel::Body {
                                    index,
                                    data: spec_body_chunk(gt.payload@, index as int),
                                },
                            ]);
                        }
                        let ghost prev = out@;
                        let ghost model = PayloadModel::Body {
                            index,
                            data: spec_body_chunk(gt.payload@, index as int),
                        };
                        out.push(MessagePayload::Body { index, data });
                        proof {
                            let f = |p: MessagePayload| p@;
                            assert forall|j: int| 0 <= j < out@.len() implies #[trigger] out@
                                .map_values(f)[j] == prev.map_values(f).push(model)[j] by {
                                if j < prev.len() {
                                    assert(out@[j] == prev[j]);
                                    assert(prev.map_values(f)[j] == f(prev[j]));
                                }
                            }
                            assert(out@.map_values(f) =~= prev.map_values(f).push(model));
                            assert(out@.map_values(f) =~= head_part + spec_pending_bodies(
                                gt,
                                index as int + 1,
                            ));
                        }
                    } else {
                        proof {
                            assert(out@.map_values(|p: MessagePayload| p@) =~= head_part
                                + spec_pending_bodies(gt, index as int + 1));
                        }
                    }
                    index = index + 1;
                }
                proof {
                    assert(out@.map_values(|p: MessagePayload| p@) =~= spec_emitted(gt));
                }
                if out.len() == 0 {
                    proof {
                        lemma_emitted_empty_means_confirmed(gt);
                    }
                    self.packets.remove(&id);
                    self.next_message_id = if id == 0xffff {
                        0
                    } else {
                        id + 1
                    };
                    proof {
                        assert(self.packets@ =~= old(self).packets@.remove(id));
                    }
                    None
                } else {
                    proof {
                        lemma_emitted_nonempty_means_unconfirmed(gt);
                    }
                    Some((id, out))
                }
            },
            None => None,
        }
    }
}

impl Default for MessageDisassembler {
    /// Same as [`MessageDisassembler::new`].
    fn default() -> (r: Self)
        ensures
            r.wf(),
            r.packets@ == Map::<MessageId, PayloadTracker>::empty(),
            r.next_message_id == 0,
            r.highest_message_id == 0xffff,
    {
        Self::new()
    }
}

/// The tracker map after recording a head confirmation: ids without a
/// tracker are untouched.
pub open spec fn spec_head_status_map(
    m: Map<MessageId, PayloadTracker>,
    id: MessageId,
    s: bool,
) -> Map<MessageId, PayloadTracker> {
    if m.contains_key(id) {
        m.insert(id, PayloadTracker { head_confirmed: s, ..m[id] })
    } else {
        m
    }
}

/// What confirmation state a tracker shows: everything `payloads` and
/// `is_message_confirmed` can observe of it.
pub open spec fn tracker_observed(t: PayloadTracker) -> (Seq<u8>, bool, bool, u16, Set<u16>) {
    (
        t.payload@,
        t.compression,
        t.head_confirmed,
        t.body_count,
        range_set_contents(t.bodies_confirmed),
    )
}

/// Idempotent confirmation: recording the same head confirmation twice
/// leaves exactly the state that one recording leaves.
pub proof fn lemma_head_status_idempotent(
    m: Map<MessageId, PayloadTracker>,
    id: MessageId,
    s: bool,
)
    ensures
        spec_head_status_map(spec_head_status_map(m, id, s), id, s) == spec_head_status_map(
            m,
            id,
            s,
        ),
{
    if m.contains_key(id) {
        assert(spec_head_status_map(spec_head_status_map(m, id, s), id, s) =~= spec_head_status_map(
            m,
            id,
            s,
        ));
    }
}

/// Idempotent confirmation: `body_status` replaces the confirmed set
/// with a function of the given ranges alone and touches nothing else,
/// so a second identical call reproduces the same observable tracker.
/// Here `one` is any tracker that one call produced from some original,
/// and `two` any tracker a second identical call produced from `one`.
pub proof fn lemma_body_status_idempotent(
    one: PayloadTracker,
    two: PayloadTracker,
    rs: Seq<(u16, u16)>,
)
    requires
        range_set_contents(one.bodies_confirmed) == spec_ranges_union(rs),
        two.payload == one.payload,
        two.compression == one.compression,
        two.head_confirmed == one.head_confirmed,
        two.body_count == one.body_count,
        range_set_contents(two.bodies_confirmed) == spec_ranges_union(rs),
    ensures
        tracker_observed(two) == tracker_observed(one),
{
}

/// The set of indices covered by a list of inclusive ranges.
pub open spec fn spec_ranges_union(rs: Seq<(u16, u16)>) -> Set<u16>
    decreases rs.len(),
{
    if rs.len() == 0 {
        Set::empty()
    } else {
        spec_ranges_union(rs.drop_last()).union(
            Set::new(|x: u16| rs.last().0 <= x <= rs.last().1),
        )
    }
}

/// Body chunk bounds: for an index below the body count, the chunk's
/// start lies within the payload.
proof fn lemma_chunk_bounds(len: int, i: int, bc: int)
    requires
        1 <= len,
        bc == (len + MAX_PACKET_PAYLOAD_SIZE - 1) / MAX_PACKET_PAYLOAD_SIZE as int,
        0 <= i < bc,
    ensures
        i * MAX_PACKET_PAYLOAD_SIZE < len,
        (i + 1) * MAX_PACKET_PAYLOAD_SIZE <= len || (i + 1 == bc),
        (i + 1) * MAX_PACKET_PAYLOAD_SIZE == i * MAX_PACKET_PAYLOAD_SIZE
            + MAX_PACKET_PAYLOAD_SIZE,
        len <= bc * MAX_PACKET_PAYLOAD_SIZE,
{
    let m = MAX_PACKET_PAYLOAD_SIZE as int;
    vstd::arithmetic::div_mod::lemma_fundamental_div_mod(len + m - 1, m);
    assert((i + 1) * m == i * m + m) by (nonlinear_arith);
    assert(bc * m <= len + m - 1) by (nonlinear_arith)
        requires
            bc == (len + m - 1) / m,
            m > 0,
            len + m - 1 == m * bc + (len + m - 1) % m,
            (len + m - 1) % m >= 0,
    ;
    assert(len <= bc * m) by (nonlinear_arith)
        requires
            bc == (len + m - 1) / m,
            m > 0,
            len + m - 1 == m * bc + (len + m - 1) % m,
            (len + m - 1) % m < m,
    ;
    if i + 1 < bc {
        assert((i + 1) * m <= (bc - 1) * m) by (nonlinear_arith)
            requires
                i + 1 <= bc - 1,
                m > 0,
        ;
        assert((bc - 1) * m == bc * m - m) by (nonlinear_arith);
    }
    assert(i * m <= (bc - 1) * m) by (nonlinear_arith)
        requires
            i <= bc - 1,
            m > 0,
    ;
    assert((bc - 1) * m == bc * m - m) by (nonlinear_arith);
}

/// An empty emission means the head and all bodies are confirmed.
proof fn lemma_emitted_empty_means_confirmed(t: PayloadTracker)
    requires
        spec_emitted(t).len() == 0,
    ensures
        t.confirmed(),
{
    assert(t.head_confirmed);
    assert forall|i: u16| i < t.body_count implies range_set_contents(
        t.bodies_confirmed,
    ).contains(i) by {
        lemma_pending_monotone(t, i as int + 1, t.body_count as int);
        if !range_set_contents(t.bodies_confirmed).contains(i) {
            assert(spec_pending_bodies(t, i as int + 1).len() >= 1);
        }
    }
}

/// A nonempty emission means something was unconfirmed.
proof fn lemma_emitted_nonempty_means_unconfirmed(t: PayloadTracker)
    requires
        spec_emitted(t).len() > 0,
    ensures
        !t.confirmed(),
{
    if t.head_confirmed && t.all_bodies_confirmed() {
        lemma_pending_all_confirmed(t, t.body_count as int);
    }
}

/// Pending-body sequences only grow with the index bound.
proof fn lemma_pending_monotone(t: PayloadTracker, k1: int, k2: int)
    requires
        0 <= k1 <= k2,
    ensures
        spec_pending_bodies(t, k1).len() <= spec_pending_bodies(t, k2).len(),
    decreases k2 - k1,
{
    if k1 < k2 {
        lemma_pending_monotone(t, k1, k2 - 1);
    }
}

/// With every index confirmed nothing is pending.
proof fn lemma_pending_all_confirmed(t: PayloadTracker, k: int)
    requires
        t.all_bodies_confirmed(),
        k <= t.body_count,
    ensures
        spec_pending_bodies(t, k).len() == 0,
    decreases k,
{
    if k > 0 {
        lemma_pending_all_confirmed(t, k - 1);
        assert(((k - 1) as u16) < t.body_count);
    }
}

} // verus!
