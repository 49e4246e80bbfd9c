//! Cross-component laws of the pipeline, proved over the same
//! specification functions the executable contracts use.
//!
//! The centrepiece is the round trip: the segments the disassembler
//! emits for a queued message, fed back through the assembler's head and
//! body transitions, leave a finished slot holding exactly the stored
//! bytes, and those bytes decode back to the original message.

use vstd::prelude::*;
use vstd::arithmetic::div_mod::lemma_fundamental_div_mod;
use crate::assembler::spec_body_step;
use crate::assembler::spec_head_step;
use crate::assembler::spec_slot_finished;
use crate::assembler::PendingModel;
use crate::disassembler::spec_body_chunk;
use crate::disassembler::spec_stored_payload;
use crate::lz4::lz4_block;
use crate::msgcodec::enc_message;
use crate::msgcodec::lemma_message_round_trip;
use crate::msgcodec::message_from_bytes;
use crate::packet::MAX_PACKET_PAYLOAD_SIZE;
use crate::proto::MessageModel;

verus! {

/// How many bodies a payload of `len` bytes splits into.
pub open spec fn body_count_of(len: int) -> int {
    (len + MAX_PACKET_PAYLOAD_SIZE - 1) / (MAX_PACKET_PAYLOAD_SIZE as int)
}

/// Bounds of the body count: between 1 and 512 for payloads that fit,
/// with the payload ending inside the last body.
pub proof fn lemma_body_count_bounds(len: int)
    requires
        1 <= len <= 512 * 64512,
    ensures
        1 <= body_count_of(len) <= 512,
        (body_count_of(len) - 1) * 64512 < len,
        len <= body_count_of(len) * 64512,
        body_count_of(len) * 64512 <= 512 * 64512,
{
    let m = 64512int;
    let bc = body_count_of(len);
    lemma_fundamental_div_mod(len + m - 1, m);
    assert(bc * m <= len + m - 1 && len <= bc * m && (bc - 1) * m < len && bc >= 1)
        by (nonlinear_arith)
        requires
            len + m - 1 == m * bc + (len + m - 1) % m,
            0 <= (len + m - 1) % m < m,
            1 <= len,
            m == 64512,
    ;
    assert(bc <= 512) by (nonlinear_arith)
        requires
            (bc - 1) * m < len,
            len <= 512 * m,
            m == 64512,
    ;
    assert(bc * m <= 512 * m) by (nonlinear_arith)
        requires
            bc <= 512,
            m == 64512,
    ;
}

/// The whole pipeline on one message, segments in any order: the
/// disassembler stores either the message's encoding or its LZ4 form
/// with the compression flag set; any delivery schedule that carries the
/// head and every body reassembles exactly the stored bytes; and the
/// encoding decodes back to the message.  With the `next` contract this
/// closes the loop: an uncompressed transfer yields the encoding, a
/// compressed one yields bytes that LZ4 restores to the encoding, and
/// decoding returns `m` under its id.
pub proof fn lemma_pipeline_round_trip(m: MessageModel, order: Seq<int>)
    requires
        m.wf(),
        1 <= spec_stored_payload(m).0.len() <= 512 * 64512,
        forall|j: int| 0 <= j < order.len() ==> -1 <= #[trigger] order[j] < body_count_of(
            spec_stored_payload(m).0.len() as int,
        ),
        order.contains(-1),
        forall|i: int|
            0 <= i < body_count_of(spec_stored_payload(m).0.len() as int) ==> order.contains(i),
    ensures
        ({
            let p = spec_stored_payload(m).0;
            let c = spec_stored_payload(m).1;
            &&& feed_segments(p, c, order) matches Some(st) && spec_slot_finished(Some(st))
                && st.bodies == p && st.compression == c
            &&& (c ==> p == lz4_block(enc_message(m)))
            &&& (!c ==> p == enc_message(m))
            &&& message_from_bytes(enc_message(m)) == Some(m)
        }),
{
    lemma_any_order_reassembly(spec_stored_payload(m).0, spec_stored_payload(m).1, order);
    lemma_message_round_trip(m);
}

// ---------------------------------------------------------------------
// Order independence
// ---------------------------------------------------------------------
/// The length of the final, possibly partial, body of `p`.
pub open spec fn spec_tail_len(p: Seq<u8>) -> int {
    p.len() - (body_count_of(p.len() as int) - 1) * MAX_PACKET_PAYLOAD_SIZE
}

/// Whether the transfer's final body is shorter than a full one.
pub open spec fn spec_has_partial_tail(p: Seq<u8>) -> bool {
    p.len() < body_count_of(p.len() as int) * MAX_PACKET_PAYLOAD_SIZE
}

/// The body count a slot knows after the head (`h`) and the bodies in
/// `got` of an honest transfer of `p` have arrived, by whichever of the
/// three rules fired: the head said so, a partial tail fixed it, or the
/// largest representable index forced it.
pub open spec fn spec_transfer_total(p: Seq<u8>, h: bool, got: Set<u16>) -> Option<u16> {
    let bc = body_count_of(p.len() as int);
    if h || (spec_has_partial_tail(p) && got.contains((bc - 1) as u16)) || (bc == 512
        && got.contains(511u16)) {
        Some(bc as u16)
    } else {
        None
    }
}

/// The slot states reachable by feeding any subset of an honest
/// transfer: the head iff `h`, and exactly the bodies in `got`.
pub open spec fn honest_slot(p: Seq<u8>, c: bool, h: bool, got: Set<u16>, st: PendingModel) -> bool {
    let m = MAX_PACKET_PAYLOAD_SIZE as int;
    let bc = body_count_of(p.len() as int);
    let partial_known = spec_has_partial_tail(p) && got.contains((bc - 1) as u16);
    let k = match spec_transfer_total(p, h, got) {
        Some(t) => t as int,
        None => st.max_index_seen + 1,
    };
    let cal = k * m - (if partial_known {
        m - spec_tail_len(p)
    } else {
        0
    });
    &&& st.head_arrived == h
    &&& st.compression == (h && c)
    &&& st.total_bodies == spec_transfer_total(p, h, got)
    &&& st.final_partial_body_length == (if partial_known {
        Some(spec_tail_len(p) as u16)
    } else {
        None
    })
    &&& (forall|i: u16| got.contains(i) ==> i < bc && i <= st.max_index_seen)
    &&& (st.max_index_seen != 0 ==> got.contains(st.max_index_seen))
    &&& st.max_index_seen < bc
    &&& st.committed_bodies == Seq::new(512, |i: int| got.contains(i as u16))
    &&& (st.bodies.len() == cal || (st.bodies.len() == 0 && got == Set::<u16>::empty() && !h))
    &&& (forall|pos: int|
        0 <= pos < st.bodies.len() ==> st.bodies[pos] == (if got.contains(
            (pos / MAX_PACKET_PAYLOAD_SIZE as int) as u16,
        ) && pos < p.len() {
            p[pos]
        } else {
            0u8
        }))
}

/// Positions inside `i`'s chunk divide down to `i`.
proof fn lemma_chunk_index(pos: int, i: int)
    requires
        0 <= i,
        i * 64512 <= pos < (i + 1) * 64512,
    ensures
        pos / 64512 == i,
{
    vstd::arithmetic::div_mod::lemma_fundamental_div_mod_converse(pos, 64512, i, pos - i * 64512);
}

/// Every stored byte of a received chunk lies inside the slot buffer.
proof fn lemma_got_positions_inside(p: Seq<u8>, c: bool, h: bool, got: Set<u16>, st: PendingModel)
    requires
        1 <= p.len() <= 512 * 64512,
        honest_slot(p, c, h, got, st),
        st.bodies.len() != 0,
    ensures
        forall|pos: int|
            0 <= pos < p.len() && got.contains(#[trigger] ((pos / 64512) as u16)) ==> pos
                < st.bodies.len(),
{
    let m = 64512int;
    let bc = body_count_of(p.len() as int);
    lemma_body_count_bounds(p.len() as int);
    assert forall|pos: int|
        0 <= pos < p.len() && got.contains(#[trigger] ((pos / m) as u16)) implies pos
        < st.bodies.len() by {
        let i = pos / m;
        lemma_fundamental_div_mod(pos, m);
        assert(0 <= i && i * m <= pos < (i + 1) * m) by (nonlinear_arith)
            requires
                pos == m * i + pos % m,
                0 <= pos % m < m,
                m == 64512,
                pos >= 0,
        ;
        assert((i as u16) < bc && (i as u16) <= st.max_index_seen);
        let partial_known = spec_has_partial_tail(p) && got.contains((bc - 1) as u16);
        let k = match spec_transfer_total(p, h, got) {
            Some(t) => t as int,
            None => st.max_index_seen + 1,
        };
        assert(i + 1 <= k);
        if partial_known {
            // The buffer ends exactly at the payload's end.
            assert(spec_transfer_total(p, h, got) == Some(bc as u16));
            assert(k == bc);
            assert(st.bodies.len() == bc * m - (m - spec_tail_len(p)));
            assert(bc * m - (m - spec_tail_len(p)) == (bc - 1) * m + spec_tail_len(p))
                by (nonlinear_arith);
            assert(st.bodies.len() == p.len());
        } else {
            assert(st.bodies.len() == k * m);
            assert((i + 1) * m <= k * m) by (nonlinear_arith)
                requires
                    i + 1 <= k,
                    m == 64512,
            ;
        }
    }
}

/// A head lands on any honestly reached slot and marks it arrived,
/// leaving everything received so far intact.
pub proof fn lemma_head_any_time(p: Seq<u8>, c: bool, h: bool, got: Set<u16>, st: PendingModel)
    requires
        1 <= p.len() <= 512 * 64512,
        honest_slot(p, c, h, got, st),
    ensures
        spec_head_step(Some(st), body_count_of(p.len() as int) as u16, c) matches Some(st2)
            && honest_slot(p, c, true, got, st2),
{
    let m = 64512int;
    let bc = body_count_of(p.len() as int);
    lemma_body_count_bounds(p.len() as int);
    let partial_known = spec_has_partial_tail(p) && got.contains((bc - 1) as u16);
    let adj: int = if partial_known {
        m - spec_tail_len(p)
    } else {
        0
    };
    let cal_new = bc * m - adj;
    let k = match spec_transfer_total(p, h, got) {
        Some(t) => t as int,
        None => st.max_index_seen + 1,
    };
    assert(k <= bc);
    assert(k * m <= bc * m) by (nonlinear_arith)
        requires
            k <= bc,
            m == 64512,
    ;
    assert(st.bodies.len() <= cal_new);
    let stepped = spec_head_step(Some(st), bc as u16, c);
    assert(stepped is Some);
    let st2 = stepped.unwrap();
    assert(st2.committed_bodies == st.committed_bodies);
    // The resize only appends zeros; every received byte was already
    // inside the buffer.
    if st.bodies.len() != 0 {
        lemma_got_positions_inside(p, c, h, got, st, );
    }
    assert forall|pos: int| 0 <= pos < st2.bodies.len() implies st2.bodies[pos] == (
    if got.contains(((pos / m) as u16)) && pos < p.len() {
        p[pos]
    } else {
        0u8
    }) by {
        if pos < st.bodies.len() {
            assert(st2.bodies[pos] == st.bodies[pos]);
        } else {
            assert(st2.bodies[pos] == 0);
            if got.contains(((pos / m) as u16)) && pos < p.len() {
                assert(st.bodies.len() != 0);
                assert(pos < st.bodies.len());
            }
        }
    }
    assert(st2.bodies.len() == cal_new);
    assert(honest_slot(p, c, true, got, st2));
}

/// A fresh slot is an honest state with nothing received.
pub proof fn lemma_default_honest(p: Seq<u8>, c: bool)
    requires
        1 <= p.len() <= 512 * 64512,
    ensures
        honest_slot(p, c, false, Set::empty(), crate::assembler::pending_default()),
{
    let st = crate::assembler::pending_default();
    assert(st.committed_bodies =~= Seq::new(512, |i: int| Set::<u16>::empty().contains(i as u16)));
}

/// Positions below a chunk divide below its index, and positions past it
/// divide past it.
proof fn lemma_div_band(pos: int, i: int)
    requires
        0 <= pos,
        0 <= i,
    ensures
        pos < i * 64512 ==> pos / 64512 < i,
        pos >= (i + 1) * 64512 ==> pos / 64512 > i,
{
    let m = 64512int;
    lemma_fundamental_div_mod(pos, m);
    assert((pos < i * m ==> pos / m < i) && (pos >= (i + 1) * m ==> pos / m > i))
        by (nonlinear_arith)
        requires
            pos == m * (pos / m) + pos % m,
            0 <= pos % m < m,
            m == 64512,
            0 <= pos,
            0 <= i,
    ;
}

/// A body lands on any honestly reached slot and commits its chunk,
/// leaving everything else received so far intact.  Re-delivery of a
/// chunk already received overwrites it with identical bytes.
pub proof fn lemma_body_any_time(p: Seq<u8>, c: bool, h: bool, got: Set<u16>, st: PendingModel, i: int)
    requires
        1 <= p.len() <= 512 * 64512,
        honest_slot(p, c, h, got, st),
        0 <= i < body_count_of(p.len() as int),
    ensures
        spec_body_step(Some(st), i as u16, spec_body_chunk(p, i)) matches Some(st2) && honest_slot(
            p,
            c,
            h,
            got.insert(i as u16),
            st2,
        ),
{
    let m = 64512int;
    let bc = body_count_of(p.len() as int);
    lemma_body_count_bounds(p.len() as int);
    let d = spec_body_chunk(p, i);
    let got2 = got.insert(i as u16);
    assert((i + 1) * m == i * m + m && i * m <= (bc - 1) * m && (i + 1) * m <= bc * m && ((i + 1)
        < bc ==> (i + 1) * m <= (bc - 1) * m)) by (nonlinear_arith)
        requires
            0 <= i < bc,
            m == 64512,
    ;
    assert(i * m < p.len());
    let full = (i + 1) * m <= p.len();
    assert(d.len() == if full {
        m
    } else {
        p.len() - i * m
    });
    if !full {
        assert(i == bc - 1) by {
            if i < bc - 1 {
                assert((i + 1) * m <= (bc - 1) * m);
            }
        }
        assert(spec_has_partial_tail(p));
        assert(d.len() == spec_tail_len(p));
    }
    if full && i == bc - 1 {
        assert(p.len() == bc * m);
        assert(!spec_has_partial_tail(p));
    }
    let stepped = spec_body_step(Some(st), i as u16, d);
    assert(d.len() > 0 && d.len() <= m);
    assert(i < 512);
    assert(stepped is Some);
    let st2 = stepped.unwrap();

    // Bookkeeping fields.
    assert(st2.head_arrived == h && st2.compression == (h && c));
    assert(st2.total_bodies == spec_transfer_total(p, h, got2));
    let partial_known2 = spec_has_partial_tail(p) && got2.contains((bc - 1) as u16);
    assert(st2.final_partial_body_length == (if partial_known2 {
        Some(spec_tail_len(p) as u16)
    } else {
        None
    }));
    assert(forall|j: u16| got2.contains(j) ==> j < bc && j <= st2.max_index_seen);
    assert(st2.max_index_seen != 0 ==> got2.contains(st2.max_index_seen));
    assert(st2.max_index_seen < bc);
    assert(st2.committed_bodies =~= Seq::new(512, |q: int| got2.contains(q as u16)));

    // The buffer: its new length is the predicate's, and every position
    // holds the received byte or zero.
    let k2 = match spec_transfer_total(p, h, got2) {
        Some(tb) => tb as int,
        None => st2.max_index_seen + 1,
    };
    let cal2 = k2 * m - (if partial_known2 {
        m - spec_tail_len(p)
    } else {
        0
    });
    assert(st2.bodies.len() == cal2);
    if st.bodies.len() != 0 {
        lemma_got_positions_inside(p, c, h, got, st);
    }
    assert(i * m + d.len() <= cal2) by {
        if partial_known2 {
            assert(k2 == bc);
            assert(bc * m - (m - spec_tail_len(p)) == (bc - 1) * m + spec_tail_len(p))
                by (nonlinear_arith);
            assert(cal2 == p.len());
            assert(i * m + d.len() <= p.len());
        } else {
            assert(d.len() == m);
            assert(i + 1 <= k2);
            assert((i + 1) * m <= k2 * m) by (nonlinear_arith)
                requires
                    i + 1 <= k2,
                    m == 64512,
            ;
        }
    }
    assert forall|pos: int| 0 <= pos < st2.bodies.len() implies st2.bodies[pos] == (
    if got2.contains(((pos / m) as u16)) && pos < p.len() {
        p[pos]
    } else {
        0u8
    }) by {
        lemma_div_band(pos, i);
        if pos < i * m {
            // Untouched prefix.
            assert(((pos / m) as u16) != i as u16);
            assert(got2.contains(((pos / m) as u16)) == got.contains(((pos / m) as u16)));
            if pos < st.bodies.len() {
                assert(st2.bodies[pos] == st.bodies[pos]);
            } else {
                assert(st2.bodies[pos] == 0);
                if got.contains(((pos / m) as u16)) && pos < p.len() {
                    assert(st.bodies.len() != 0);
                    assert(pos < st.bodies.len());
                }
            }
        } else if pos < i * m + d.len() {
            // The chunk just written.
            lemma_chunk_index(pos, i);
            assert(st2.bodies[pos] == d[pos - i * m]);
            assert(d[pos - i * m] == p[pos]);
            assert(got2.contains((i as u16)));
            assert(pos < p.len());
        } else {
            // Untouched suffix.
            assert(pos >= (i + 1) * m) by {
                if pos < (i + 1) * m {
                    // Then the chunk was partial and the buffer ends at
                    // the payload's end, so no such position exists.
                    assert(!full);
                    assert(cal2 == p.len());
                    assert(i * m + d.len() == p.len());
                }
            }
            assert(((pos / m) as u16) != i as u16 && (pos / m) > i);
            assert(got2.contains(((pos / m) as u16)) == got.contains(((pos / m) as u16)));
            assert(st2.bodies[pos] == (if pos < st.bodies.len() {
                st.bodies[pos]
            } else {
                0u8
            }));
            if pos < st.bodies.len() {
            } else {
                if got.contains(((pos / m) as u16)) && pos < p.len() {
                    assert(st.bodies.len() != 0);
                    assert(pos < st.bodies.len());
                }
            }
        }
    }
    assert(honest_slot(p, c, h, got2, st2));
}

/// The slot after a whole delivery schedule: `-1` stands for the head,
/// a nonnegative entry for that body index.
pub open spec fn feed_segments(p: Seq<u8>, c: bool, order: Seq<int>) -> Option<PendingModel>
    decreases order.len(),
{
    if order.len() == 0 {
        None
    } else {
        let prev = feed_segments(p, c, order.drop_last());
        if order.last() < 0 {
            spec_head_step(prev, body_count_of(p.len() as int) as u16, c)
        } else {
            spec_body_step(prev, order.last() as u16, spec_body_chunk(p, order.last()))
        }
    }
}

/// Which bodies a schedule delivers.
pub open spec fn bodies_of(order: Seq<int>, bc: int) -> Set<u16> {
    Set::new(|i: u16| (i as int) < bc && order.contains(i as int))
}

proof fn lemma_contains_snoc(s: Seq<int>, v: int)
    requires
        s.len() > 0,
    ensures
        s.contains(v) == (s.drop_last().contains(v) || s.last() == v),
{
    if s.drop_last().contains(v) {
        let j = choose|j: int| 0 <= j < s.drop_last().len() && s.drop_last()[j] == v;
        assert(s[j] == v);
    }
    if s.contains(v) && s.last() != v {
        let j = choose|j: int| 0 <= j < s.len() && s[j] == v;
        assert(s.drop_last()[j] == v);
    }
}

/// Any schedule of valid segments reaches an honest slot state that
/// records exactly what was delivered.
pub proof fn lemma_feed_honest(p: Seq<u8>, c: bool, order: Seq<int>)
    requires
        1 <= p.len() <= 512 * 64512,
        forall|j: int| 0 <= j < order.len() ==> -1 <= #[trigger] order[j] < body_count_of(
            p.len() as int,
        ),
        order.len() > 0,
    ensures
        feed_segments(p, c, order) matches Some(st) && honest_slot(
            p,
            c,
            order.contains(-1),
            bodies_of(order, body_count_of(p.len() as int)),
            st,
        ),
    decreases order.len(),
{
    let bc = body_count_of(p.len() as int);
    lemma_body_count_bounds(p.len() as int);
    let s = order.last();
    assert(-1 <= s < bc) by {
        assert(order[order.len() - 1] == s);
    }
    lemma_contains_snoc(order, -1);
    assert forall|i: u16| true implies bodies_of(order, bc).contains(i) == (bodies_of(
        order.drop_last(),
        bc,
    ).contains(i) || ((i as int) < bc && s == i as int)) by {
        lemma_contains_snoc(order, i as int);
    }
    if order.len() == 1 {
        lemma_default_honest(p, c);
        assert(order.drop_last().len() == 0);
        let base = crate::assembler::pending_default();
        assert(bodies_of(order.drop_last(), bc) =~= Set::<u16>::empty());
        if s < 0 {
            assert(spec_head_step(None, bc as u16, c) == spec_head_step(Some(base), bc as u16, c));
            lemma_head_any_time(p, c, false, Set::empty(), base);
            assert(bodies_of(order, bc) =~= Set::<u16>::empty());
            assert(order.contains(-1)) by {
                assert(order[0] == -1);
            }
        } else {
            assert(spec_body_step(None, s as u16, spec_body_chunk(p, s)) == spec_body_step(
                Some(base),
                s as u16,
                spec_body_chunk(p, s),
            ));
            lemma_body_any_time(p, c, false, Set::empty(), base, s);
            assert(bodies_of(order, bc) =~= Set::<u16>::empty().insert(s as u16));
            assert(!order.contains(-1)) by {
                if order.contains(-1) {
                    let j = choose|j: int| 0 <= j < order.len() && order[j] == -1;
                    assert(j == 0);
                }
            }
        }
    } else {
        let prev_order = order.drop_last();
        assert(forall|j: int| 0 <= j < prev_order.len() ==> -1 <= #[trigger] prev_order[j] < bc)
            by {
            assert(forall|j: int|
                0 <= j < prev_order.len() ==> prev_order[j] == #[trigger] order[j]);
        }
        lemma_feed_honest(p, c, prev_order);
        let prev = feed_segments(p, c, prev_order).unwrap();
        let hp = prev_order.contains(-1);
        let gp = bodies_of(prev_order, bc);
        if s < 0 {
            lemma_head_any_time(p, c, hp, gp, prev);
            assert(bodies_of(order, bc) =~= gp);
            assert(order.contains(-1));
        } else {
            lemma_body_any_time(p, c, hp, gp, prev, s);
            assert(bodies_of(order, bc) =~= gp.insert(s as u16));
            assert(order.contains(-1) == hp);
        }
    }
}

/// Round trip of one transfer, segments in any order, re-deliveries
/// included: once a schedule has carried the head and every body of an
/// honest transfer of `p`, the slot is finished and holds exactly `p`,
/// with the head's compression flag.
pub proof fn lemma_any_order_reassembly(p: Seq<u8>, c: bool, order: Seq<int>)
    requires
        1 <= p.len() <= 512 * 64512,
        forall|j: int| 0 <= j < order.len() ==> -1 <= #[trigger] order[j] < body_count_of(
            p.len() as int,
        ),
        order.contains(-1),
        forall|i: int| 0 <= i < body_count_of(p.len() as int) ==> order.contains(i),
    ensures
        feed_segments(p, c, order) matches Some(st) && spec_slot_finished(Some(st)) && st.bodies
            == p && st.compression == c,
{
    let m = 64512int;
    let bc = body_count_of(p.len() as int);
    lemma_body_count_bounds(p.len() as int);
    assert(order.len() > 0) by {
        assert(order.contains(-1));
    }
    lemma_feed_honest(p, c, order);
    let st = feed_segments(p, c, order).unwrap();
    let got = bodies_of(order, bc);
    assert(forall|i: int| 0 <= i < bc ==> got.contains(#[trigger] (i as u16)));
    assert(got.contains(0u16));
    assert(st.total_bodies == Some(bc as u16));
    assert forall|i: int| 0 <= i < bc implies st.committed_bodies[i] by {
        assert(got.contains(i as u16));
    }
    assert(spec_slot_finished(Some(st)));
    // The buffer is exactly the payload.
    let partial_known = spec_has_partial_tail(p) && got.contains((bc - 1) as u16);
    assert(st.bodies.len() != 0) by {
        if st.bodies.len() == 0 {
            assert(got == Set::<u16>::empty());
        }
    }
    assert(st.bodies.len() == p.len()) by {
        if partial_known {
            assert(bc * m - (m - spec_tail_len(p)) == (bc - 1) * m + spec_tail_len(p))
                by (nonlinear_arith);
        } else {
            assert(!spec_has_partial_tail(p));
        }
    }
    assert forall|pos: int| 0 <= pos < p.len() implies st.bodies[pos] == p[pos] by {
        lemma_fundamental_div_mod(pos, m);
        assert(0 <= pos / m && (pos / m) * m <= pos < (pos / m + 1) * m) by (nonlinear_arith)
            requires
                pos == m * (pos / m) + pos % m,
                0 <= pos % m < m,
                m == 64512,
                pos >= 0,
        ;
        assert(pos / m < bc) by {
            if pos / m >= bc {
                assert((pos / m) * m >= bc * m) by (nonlinear_arith)
                    requires
                        pos / m >= bc,
                        m == 64512,
                ;
            }
        }
        assert(got.contains(((pos / m) as u16)));
    }
    assert(st.bodies =~= p);
}

} // verus!
