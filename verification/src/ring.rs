//! Trusted boundary to the fixed-capacity ring buffer that stores
//! pending inbound messages.
//!
//! The buffer indexes relative to its oldest element and, as its source
//! shows, reduces every index modulo the current length; the contracts
//! below say so explicitly, and callers keep their indices below the
//! length themselves.

use vstd::prelude::*;
use ringbuffer::RingBuffer;
use crate::assembler::PendingMessage;

verus! {

#[verifier::external_type_specification]
#[verifier::external_body]
#[verifier::reject_recursive_types(T)]
pub struct ExAllocRingBuffer<T>(ringbuffer::AllocRingBuffer<T>);

/// The elements currently stored, oldest first.
pub uninterp spec fn ring_items(
    r: ringbuffer::AllocRingBuffer<Option<PendingMessage>>,
) -> Seq<Option<PendingMessage>>;

/// The fixed element capacity the ring was created with.
pub uninterp spec fn ring_capacity(r: ringbuffer::AllocRingBuffer<Option<PendingMessage>>) -> nat;

/// Relies on AllocRingBuffer::new: an empty ring with the given
/// capacity; panics on capacity zero, so that is required away.
#[verifier::external_body]
pub(crate) fn ring_new(capacity: usize) -> (r: ringbuffer::AllocRingBuffer<Option<PendingMessage>>)
    requires
        capacity >= 1,
    ensures
        ring_items(r) == Seq::<Option<PendingMessage>>::empty(),
        ring_capacity(r) == capacity,
{
    ringbuffer::AllocRingBuffer::new(capacity)
}

/// Relies on RingBuffer::enqueue: appends at the back; on a full ring it
/// first drops and returns the front element.
#[verifier::external_body]
pub(crate) fn ring_enqueue(
    r: &mut ringbuffer::AllocRingBuffer<Option<PendingMessage>>,
    v: Option<PendingMessage>,
) -> (evicted: Option<Option<PendingMessage>>)
    ensures
        ring_capacity(*final(r)) == ring_capacity(*old(r)),
        ring_items(*old(r)).len() < ring_capacity(*old(r)) ==> {
            &&& ring_items(*final(r)) == ring_items(*old(r)).push(v)
            &&& evicted is None
        },
        ring_items(*old(r)).len() >= ring_capacity(*old(r)) ==> {
            &&& ring_items(*final(r)) == ring_items(*old(r)).drop_first().push(v)
            &&& evicted == Some(ring_items(*old(r))[0])
        },
{
    r.enqueue(v)
}

/// Relies on RingBuffer::dequeue: removes and returns the front
/// element, or `None` on an empty ring.
#[verifier::external_body]
pub(crate) fn ring_dequeue(r: &mut ringbuffer::AllocRingBuffer<Option<PendingMessage>>) -> (front:
    Option<Option<PendingMessage>>)
    ensures
        ring_capacity(*final(r)) == ring_capacity(*old(r)),
        ring_items(*old(r)).len() == 0 ==> {
            &&& ring_items(*final(r)) == ring_items(*old(r))
            &&& front is None
        },
        ring_items(*old(r)).len() > 0 ==> {
            &&& ring_items(*final(r)) == ring_items(*old(r)).drop_first()
            &&& front == Some(ring_items(*old(r))[0])
        },
{
    r.dequeue()
}

/// Relies on RingBuffer::get: reads the element `i` places after the
/// front, with `i` reduced modulo the length; `None` only on an empty
/// ring.
#[verifier::external_body]
pub(crate) fn ring_peek<'a>(
    r: &'a ringbuffer::AllocRingBuffer<Option<PendingMessage>>,
    i: usize,
) -> (res: Option<&'a Option<PendingMessage>>)
    ensures
        match res {
            Some(s) => ring_items(*r).len() > 0 && *s == ring_items(*r)[i as int % (ring_items(
                *r,
            ).len() as int)],
            None => ring_items(*r).len() == 0,
        },
{
    r.get(i)
}

/// Relies on RingBuffer::get_mut: gives the element `i` places after
/// the front, with `i` reduced modulo the length.  This wrapper moves
/// the element out, leaving `None` in its place.
#[verifier::external_body]
pub(crate) fn ring_take(
    r: &mut ringbuffer::AllocRingBuffer<Option<PendingMessage>>,
    i: usize,
) -> (taken: Option<Option<PendingMessage>>)
    ensures
        ring_capacity(*final(r)) == ring_capacity(*old(r)),
        ring_items(*old(r)).len() == 0 ==> {
            &&& ring_items(*final(r)) == ring_items(*old(r))
            &&& taken is None
        },
        ring_items(*old(r)).len() > 0 ==> {
            &&& ring_items(*final(r)) == ring_items(*old(r)).update(
                i as int % (ring_items(*old(r)).len() as int),
                None,
            )
            &&& taken == Some(
                ring_items(*old(r))[i as int % (ring_items(*old(r)).len() as int)],
            )
        },
{
    match r.get_mut(i) {
        Some(slot) => Some(slot.take()),
        None => None,
    }
}

/// Relies on RingBuffer::get_mut: writes the element `i` places after
/// the front, with `i` reduced modulo the length.
#[verifier::external_body]
pub(crate) fn ring_put(
    r: &mut ringbuffer::AllocRingBuffer<Option<PendingMessage>>,
    i: usize,
    v: Option<PendingMessage>,
)
    ensures
        ring_capacity(*final(r)) == ring_capacity(*old(r)),
        ring_items(*old(r)).len() == 0 ==> ring_items(*final(r)) == ring_items(*old(r)),
        ring_items(*old(r)).len() > 0 ==> ring_items(*final(r)) == ring_items(*old(r)).update(
            i as int % (ring_items(*old(r)).len() as int),
            v,
        ),
{
    if let Some(slot) = r.get_mut(i) {
        *slot = v;
    }
}

} // verus!
