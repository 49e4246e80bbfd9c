//! Transit routing: scores forwarding peers by prior outcomes and picks
//! where a packet whose destination is not us goes next.
//!
//! The surrounding task loop (channel waits, timers, the one-in-ten
//! draw) lives outside the library; the decisions here are pure.

use vstd::prelude::*;
use ringbuffer::RingBuffer;
use crate::peer::Peer;

verus! {

/// How many recent events each forwarding peer keeps.
pub const PEER_EVENT_WINDOW: usize = 50;

/// How many refused selections lift the loopback guard.
pub const RETURN_TO_SENDER_GRACE: u8 = 5;

/// One forwarding outcome for a peer.
#[derive(Clone, Copy, Debug)]
pub struct PeerEvent {
    /// How long the forwarding attempt took, in milliseconds.
    pub time_taken_millis: u32,
    /// Whether the attempt failed.
    pub failed: bool,
}

impl PeerEvent {
    /// A signed score: the time taken, negated on failure.
    pub open spec fn spec_score(&self) -> int {
        if self.failed {
            -(self.time_taken_millis as int)
        } else {
            self.time_taken_millis as int
        }
    }

    /// The score of one event.
    pub fn score(&self) -> (r: i64)
        ensures
            r == self.spec_score(),
    {
        if self.failed {
            -(self.time_taken_millis as i64)
        } else {
            self.time_taken_millis as i64
        }
    }
}

/// The sum of the scores of events below index `k`.
pub open spec fn spec_score_sum(events: Seq<PeerEvent>, k: int) -> int
    decreases k,
{
    if k <= 0 {
        0
    } else {
        spec_score_sum(events, k - 1) + events[k - 1].spec_score()
    }
}

#[verifier::external_type_specification]
#[verifier::external_body]
#[verifier::reject_recursive_types(T)]
pub struct ExConstGenericRingBuffer<T, const CAP: usize>(
    ringbuffer::ConstGenericRingBuffer<T, CAP>,
);

/// The events currently stored for one peer, oldest first.
pub uninterp spec fn events_of(
    r: ringbuffer::ConstGenericRingBuffer<PeerEvent, 50>,
) -> Seq<PeerEvent>;

/// Relies on ConstGenericRingBuffer::new: an empty ring.
#[verifier::external_body]
pub(crate) fn event_ring_new() -> (r: ringbuffer::ConstGenericRingBuffer<PeerEvent, 50>)
    ensures
        events_of(r) == Seq::<PeerEvent>::empty(),
{
    ringbuffer::ConstGenericRingBuffer::new()
}

/// Relies on RingBuffer::enqueue: appends at the back; on a full ring it
/// first drops the oldest event.
#[verifier::external_body]
pub(crate) fn event_ring_push(
    r: &mut ringbuffer::ConstGenericRingBuffer<PeerEvent, 50>,
    v: PeerEvent,
) -> (evicted: Option<PeerEvent>)
    ensures
        events_of(*old(r)).len() < PEER_EVENT_WINDOW ==> {
            &&& events_of(*final(r)) == events_of(*old(r)).push(v)
            &&& evicted is None
        },
        events_of(*old(r)).len() >= PEER_EVENT_WINDOW ==> {
            &&& events_of(*final(r)) == events_of(*old(r)).drop_first().push(v)
            &&& evicted == Some(events_of(*old(r))[0])
        },
{
    r.enqueue(v)
}

/// Relies on RingBuffer::to_vec: copies out the stored events, oldest
/// first.
#[verifier::external_body]
pub(crate) fn event_ring_to_vec(r: &ringbuffer::ConstGenericRingBuffer<PeerEvent, 50>) -> (v: Vec<
    PeerEvent,
>)
    ensures
        v@ == events_of(*r),
        v@.len() <= PEER_EVENT_WINDOW,
{
    r.to_vec()
}

/// Per-peer forwarding history: a bounded event window per known peer.
pub struct ScoreKeeper {
    pub entries: Vec<(Peer, ringbuffer::ConstGenericRingBuffer<PeerEvent, 50>)>,
}

impl ScoreKeeper {
    /// The tracked peers and their event windows, in insertion order.
    pub open spec fn view_entries(&self) -> Seq<(Peer, Seq<PeerEvent>)> {
        self.entries@.map_values(
            |e: (Peer, ringbuffer::ConstGenericRingBuffer<PeerEvent, 50>)|
                (e.0, events_of(e.1)),
        )
    }

    /// The total score of the entry at `i`.
    pub open spec fn entry_score(&self, i: int) -> int {
        spec_score_sum(self.view_entries()[i].1, self.view_entries()[i].1.len() as int)
    }

    /// No peer is tracked twice.
    pub open spec fn wf(&self) -> bool {
        forall|i: int, j: int|
            0 <= i < j < self.view_entries().len() ==> (#[trigger] self.view_entries()[i]).0@ != (
            #[trigger] self.view_entries()[j]).0@
    }

    /// An empty score keeper.
    pub fn new() -> (r: Self)
        ensures
            r.wf(),
            r.view_entries() == Seq::<(Peer, Seq<PeerEvent>)>::empty(),
    {
        let r = ScoreKeeper { entries: Vec::new() };
        proof {
            assert(r.view_entries() =~= Seq::<(Peer, Seq<PeerEvent>)>::empty());
        }
        r
    }

    /// Records one forwarding outcome for `peer`, creating its window on
    /// first use and evicting its oldest event when the window is full.
    pub fn insert(&mut self, peer: Peer, event: PeerEvent)
        requires
            old(self).wf(),
        ensures
            final(self).wf(),
            final(self).view_entries().len() >= old(self).view_entries().len(),
            (exists|i: int|
                0 <= i < old(self).view_entries().len() && (#[trigger] old(
                    self,
                ).view_entries()[i]).0@ == peer@) ==> {
                &&& final(self).view_entries().len() == old(self).view_entries().len()
                &&& forall|i: int|
                    0 <= i < old(self).view_entries().len() && (#[trigger] old(
                        self,
                    ).view_entries()[i]).0@ != peer@ ==> final(self).view_entries()[i] == old(
                        self,
                    ).view_entries()[i]
                &&& forall|i: int|
                    0 <= i < old(self).view_entries().len() && (#[trigger] old(
                        self,
                    ).view_entries()[i]).0@ == peer@ ==> final(self).view_entries()[i].0 == old(
                        self,
                    ).view_entries()[i].0 && final(self).view_entries()[i].1 == (if old(
                        self,
                    ).view_entries()[i].1.len() < PEER_EVENT_WINDOW {
                        old(self).view_entries()[i].1.push(event)
                    } else {
                        old(self).view_entries()[i].1.drop_first().push(event)
                    })
            },
            !(exists|i: int|
                0 <= i < old(self).view_entries().len() && (#[trigger] old(
                    self,
                ).view_entries()[i]).0@ == peer@) ==> final(self).view_entries() == old(
                self,
            ).view_entries().push((peer, seq![event])),
    {
        let n = self.entries.len();
        let mut k: usize = 0;
        while k < n
            invariant
                old(self).wf(),
                n == self.entries@.len(),
                *self == *old(self),
                k <= n,
                forall|i: int|
                    0 <= i < k ==> (#[trigger] old(self).view_entries()[i]).0@ != peer@,
            decreases n - k,
        {
            if self.entries[k].0 == peer {
                proof {
                    assert(old(self).view_entries()[k as int].0@ == peer@);
                }
                let evicted = event_ring_push(&mut self.entries[k].1, event);
                proof {
                    let f = |e: (Peer, ringbuffer::ConstGenericRingBuffer<PeerEvent, 50>)|
                        (e.0, events_of(e.1));
                    assert forall|i: int|
                        0 <= i < old(self).view_entries().len() && i != k implies #[trigger] self
                        .view_entries()[i] == old(self).view_entries()[i] by {
                        assert(self.entries@[i] == old(self).entries@[i]);
                    }
                    assert(self.view_entries()[k as int].0 == old(self).view_entries()[
                    k as int].0);
                    assert forall|i: int, j: int|
                        0 <= i < j < self.view_entries().len() implies (#[trigger] self
                        .view_entries()[i]).0@ != (#[trigger] self.view_entries()[j]).0@ by {
                        assert(old(self).view_entries()[i].0 == self.view_entries()[i].0);
                        assert(old(self).view_entries()[j].0 == self.view_entries()[j].0);
                    }
                }
                return ;
            }
            k = k + 1;
        }
        let mut ring = event_ring_new();
        let evicted = event_ring_push(&mut ring, event);
        self.entries.push((peer, ring));
        proof {
            assert(events_of(ring) =~= seq![event]);
            assert forall|i: int|
                0 <= i < old(self).view_entries().len() implies #[trigger] self.view_entries()[i]
                == old(self).view_entries()[i] by {
                assert(self.entries@[i] == old(self).entries@[i]);
            }
            assert(self.view_entries() =~= old(self).view_entries().push((peer, seq![event])));
            assert forall|i: int, j: int|
                0 <= i < j < self.view_entries().len() implies (#[trigger] self.view_entries()[
            i]).0@ != (#[trigger] self.view_entries()[j]).0@ by {
                if j < old(self).view_entries().len() {
                } else {
                    assert(self.view_entries()[j].0@ == peer@);
                    assert(old(self).view_entries()[i].0@ != peer@);
                }
            }
        }
    }

    /// The tracked peer with the highest event-score sum; `None` only
    /// when no peer is tracked.  Ties go to the earliest entry.
    pub fn best(&self) -> (r: Option<Peer>)
        requires
            self.wf(),
        ensures
            (r is None) == (self.view_entries().len() == 0),
            r matches Some(p) ==> exists|i: int|
                0 <= i < self.view_entries().len() && (#[trigger] self.view_entries()[i]).0 == p
                    && (forall|j: int|
                    0 <= j < self.view_entries().len() ==> self.entry_score(j) <= self.entry_score(
                        i,
                    )),
    {
        if self.entries.len() == 0 {
            return None;
        }
        let n = self.entries.len();
        let mut best_idx: usize = 0;
        let mut best_score: i64 = self.score_at(0);
        let mut k: usize = 1;
        while k < n
            invariant
                self.wf(),
                n == self.entries@.len(),
                1 <= k <= n,
                best_idx < k,
                best_score == self.entry_score(best_idx as int),
                forall|j: int| 0 <= j < k ==> self.entry_score(j) <= best_score,
            decreases n - k,
        {
            let s = self.score_at(k);
            if s > best_score {
                best_idx = k;
                best_score = s;
            }
            k = k + 1;
        }
        proof {
            assert(self.view_entries()[best_idx as int].0 == self.entries@[best_idx as int].0);
        }
        Some(self.entries[best_idx].0)
    }

    /// The score sum of the entry at `k`.
    fn score_at(&self, k: usize) -> (r: i64)
        requires
            k < self.entries@.len(),
        ensures
            r == self.entry_score(k as int),
    {
        let events = event_ring_to_vec(&self.entries[k].1);
        let mut sum: i64 = 0;
        let mut q: usize = 0;
        proof {
            assert(self.view_entries()[k as int].1 == events@);
        }
        while q < events.len()
            invariant
                q <= events@.len(),
                events@.len() <= PEER_EVENT_WINDOW,
                events@ == self.view_entries()[k as int].1,
                sum == spec_score_sum(events@, q as int),
                -(q as int) * 0x100000000 <= sum <= (q as int) * 0x100000000,
            decreases events@.len() - q,
        {
            let sc = events[q].score();
            proof {
                assert(-0x100000000 <= events@[q as int].spec_score() <= 0x100000000);
                assert((q as int) * 0x100000000 + 0x100000000 == (q as int + 1) * 0x100000000)
                    by (nonlinear_arith);
                assert(-(q as int) * 0x100000000 - 0x100000000 == -(q as int + 1) * 0x100000000)
                    by (nonlinear_arith);
                assert((q as int + 1) * 0x100000000 <= 0x10000000000000 && -(q as int + 1)
                    * 0x100000000 >= -0x10000000000000) by (nonlinear_arith)
                    requires
                        0 <= q as int + 1 <= 51,
            ;
            }
            sum = sum + sc;
            q = q + 1;
        }
        sum
    }
}

/// Which peer a routing round should try: a freshly connected candidate
/// on the one-in-ten draw, otherwise the best-scoring peer.
pub fn choose_candidate(
    keeper: &ScoreKeeper,
    new_candidate: Option<Peer>,
    use_new: bool,
) -> (r: Option<Peer>)
    requires
        keeper.wf(),
    ensures
        use_new ==> r == new_candidate,
        !use_new ==> ((r is None) == (keeper.view_entries().len() == 0) && (r matches Some(p)
            ==> exists|i: int|
            0 <= i < keeper.view_entries().len() && (#[trigger] keeper.view_entries()[i]).0 == p && (
            forall|j: int|
                0 <= j < keeper.view_entries().len() ==> keeper.entry_score(j)
                    <= keeper.entry_score(i)))),
{
    if use_new {
        new_candidate
    } else {
        keeper.best()
    }
}

/// Whether a selected candidate may be used for a packet that arrived
/// from `origin`: never back to the origin until the grace counter has
/// run out.
pub fn may_forward_to(candidate: &Peer, origin: &Option<Peer>, tries_until_return_allowed: u8) -> (
    r: bool)
    ensures
        r == (match *origin {
            Some(o) => o@ != candidate@ || tries_until_return_allowed == 0,
            None => true,
        }),
{
    match origin {
        Some(o) => !(o == candidate) || tries_until_return_allowed == 0,
        None => true,
    }
}

/// Loopback guard: while the grace counter is positive, a packet is
/// never forwarded back to the peer it arrived from.
pub proof fn lemma_loopback_guard(candidate: Peer, origin: Peer, tries: u8)
    requires
        origin@ == candidate@,
        tries > 0,
    ensures
        !(match Some(origin) {
            Some(o) => o@ != candidate@ || tries == 0,
            None => true,
        }),
{
}

} // verus!
