//! A transfer as a whole: whatever packets are lost, repeated or out of order, the
//! writer gets the sender's slices, whole and in the order of their numbers.

use crate::bitmap::numbers_below;
use crate::delivery::{
    law_complete_slice_is_the_source, law_data_packet_tells_all, law_packets_carry_the_source,
    law_recovery_is_true, law_stored_blocks_are_true, lemma_block_bytes, lemma_read,
    lemma_true_elsewhere, lemma_write_block, outside, parity_true, source_block, source_blocks,
    stripe_of, true_to,
};
use crate::diskio::law_output_is_the_front;
use crate::fifo::{lemma_apart, lemma_offset, lemma_onward, lemma_round, ring_read, spot, Fifo};
use crate::incoming::{
    done, effect_of, idle_slice, law_there_is_a_place, law_writing_spares_slices, lemma_accounts,
    lemma_bounded, lemma_farthest, lemma_finished, lemma_handed, lemma_located, lemma_placed,
    lemma_ready, lemma_settled, lemma_slot, lemma_touched, proper, slice_like, AnswerModel, Effect,
    Place, World,
};
use crate::produconsum::lemma_halved;
use crate::protocol::{
    law_fec_block_round_trip, law_reqack_round_trip, DataBlock, FecBlock, Reqack, CMD_DATA,
    CMD_FEC, CMD_REQACK,
};
use crate::receivedata::{first_world, lemma_first_world, receivable, ClientConfig};
use crate::recvslice::{lemma_recovered, RxModel, RxState};
use crate::senddata::request;
use crate::sendslice::{
    block_len, data_packet, fec_packet, fits, lemma_block, lemma_blocks, lemma_stripe, nr_blocks,
    parity_block, slice_parity, stripe_blocks, SliceModel,
};
use crate::wire::u16_at;
use vstd::arithmetic::div_mod::lemma_mod_bound;
use vstd::prelude::*;

verus! {

/// A file as the sender sends it: cut into slices, with parity in so many stripes.
pub struct Source {
    pub slices: Seq<Seq<u8>>,
    pub stripes: int,
}

impl Source {
    /// Every slice has data, and no more than 1024 blocks.
    pub open spec fn ok(self, block_size: int) -> bool {
        &&& self.slices.len() <= i32::MAX
        &&& 0 < self.stripes
        &&& forall|k: int|
            0 <= k < self.slices.len() ==> 0 < (#[trigger] self.slices[k]).len() <= block_size
                * 1024
    }

    /// The slices from `a` up to `b`, one behind the other.
    pub open spec fn joined(self, a: int, b: int) -> Seq<u8>
        decreases b - a,
    {
        if b <= a {
            Seq::empty()
        } else {
            self.joined(a, b - 1) + self.slices[b - 1]
        }
    }
}

/// Slices in a row are slices in two rows.
proof fn lemma_joined(src: Source, a: int, b: int, c: int)
    requires
        a <= b <= c,
    ensures
        src.joined(a, b) + src.joined(b, c) == src.joined(a, c),
    decreases c - b,
{
    if b == c {
        assert(src.joined(a, b) + src.joined(b, c) =~= src.joined(a, c));
    } else {
        lemma_joined(src, a, b, c - 1);
        assert(src.joined(a, b) + (src.joined(b, c - 1) + src.slices[c - 1]) =~= (src.joined(a, b)
            + src.joined(b, c - 1)) + src.slices[c - 1]);
    }
}

/// What is there of the slice in place `i` is the sender's, data and parity.
pub open spec fn carries(w: World, src: Source, i: int) -> bool {
    let s = w.slices[i];
    let source = src.slices[s.slice_no as int];
    &&& s.slice_no < src.slices.len()
    &&& true_to(s, w.ring, w.block_size, source)
    &&& forall|b: int| #[trigger] s.have.contains(b) ==> s.bytes_known
    &&& s.fec_nos.len() > 0 ==> s.stripes == src.stripes && s.bytes_known
    &&& parity_true(s, w.block_size, source_blocks(source, w.block_size))
    &&& s.state == RxState::Done ==> s.bytes_known && s.all_there(w.block_size)
}

/// The receiver knows nothing of the slices in its ring but what the sender has.
pub open spec fn loyal(w: World, src: Source) -> bool {
    &&& w.sound()
    &&& src.ok(w.block_size)
    &&& w.next <= src.slices.len()
    &&& w.end matches Some(e) ==> e == src.slices.len()
    &&& forall|i: int| 0 <= i < 8 && w.holds(i) ==> #[trigger] carries(w, src, i)
}

/// Something misses of the slice in place `i`, if its size is known.
pub open spec fn unfinished(w: World, i: int) -> bool {
    w.slices[i].state == RxState::Receiving && w.slices[i].bytes_known
        ==> !w.slices[i].all_there(w.block_size)
}

/// The receiver of a file: what it has is the sender's, and a slice of which nothing
/// misses counts as complete.
pub open spec fn faithful(w: World, src: Source) -> bool {
    &&& w.ok()
    &&& loyal(w, src)
    &&& forall|i: int| 0 <= i < 8 ==> #[trigger] unfinished(w, i)
}

/// Some slices were handed over: their bytes stand behind those that waited for the
/// writer already.
pub open spec fn grew(w: World, v: World, src: Source) -> bool {
    &&& w.next <= v.next
    &&& v.block_size == w.block_size
    &&& v.pipe().queued() == w.pipe().queued() + src.joined(w.next, v.next)
}

/// Nothing was lost on the way from `w` to `v`: complete slices stay complete, and
/// the blocks of a slice that comes in stay until it is complete.
pub open spec fn advanced(w: World, v: World) -> bool {
    &&& forall|j: int| #[trigger] done(w.completed, j) ==> done(v.completed, j)
    &&& forall|i: int|
        0 <= i < 8 && (#[trigger] w.slices[i]).state == RxState::Receiving ==> {
            ||| done(v.completed, w.slices[i].slice_no as int)
            ||| {
                &&& v.slices[i].state == RxState::Receiving
                &&& v.slices[i].slice_no == w.slices[i].slice_no
                &&& w.slices[i].have.subset_of(v.slices[i].have)
            }
        }
}

/// Nothing is lost in two steps of which neither loses anything.
proof fn lemma_advanced(w: World, v: World, u: World)
    requires
        advanced(w, v),
        advanced(v, u),
    ensures
        advanced(w, u),
{
    assert forall|i: int| 0 <= i < 8 && (#[trigger] w.slices[i]).state == RxState::Receiving implies {
        ||| done(u.completed, w.slices[i].slice_no as int)
        ||| {
            &&& u.slices[i].state == RxState::Receiving
            &&& u.slices[i].slice_no == w.slices[i].slice_no
            &&& w.slices[i].have.subset_of(u.slices[i].have)
        }
    } by {
        if done(v.completed, w.slices[i].slice_no as int) {
        } else {
            assert(v.slices[i].state == RxState::Receiving);
        }
    }
}

/// Handing slices over changes nothing of them but where they lie.
proof fn lemma_settled_slots(w: World)
    requires
        w.sound(),
    ensures
        forall|j: int|
            0 <= j < 8 ==> #[trigger] w.settled().slices[j] == (RxModel {
                base: w.settled().slices[j].base,
                ..w.slices[j]
            }),
    decreases i32::MAX + 1 - w.next,
{
    if exists|i: int| 0 <= i < 8 && w.is_ready(i) {
        let i = choose|i: int| 0 <= i < 8 && w.is_ready(i);
        lemma_ready(w, i);
        lemma_handed(w, i);
        lemma_settled_slots(w.handed(i));
    }
}

/// The writer's data lies outside the stretches of slices.
proof fn lemma_queue_outside(w: World, i: int, q: int)
    requires
        w.sound(),
        0 <= i < 8,
        w.holds(i),
        0 <= q < w.data.waiting,
    ensures
        outside(
            w.slices[i].base,
            w.slice_room(),
            w.ring.len() as int,
            spot(w.data.consumed, q, w.ring.len() as int),
        ),
{
    let n = w.ring.len() as int;
    let room = w.slice_room();
    let k = w.slices[i].slice_no - w.next;
    assert(w.slot_ok(i));
    assert((k + 1) * room == k * room + room && 0 <= k * room) by (nonlinear_arith)
        requires
            0 <= k,
            0 <= room,
    ;
    assert forall|x: int| 0 <= x < room implies #[trigger] spot(w.slices[i].base, x, n) != spot(
        w.data.consumed,
        q,
        n,
    ) by {
        lemma_onward(w.free.consumed, k * room, x, n);
        lemma_onward(w.free.consumed, k * room + x, 0, n);
        lemma_onward(w.data.consumed, w.data.waiting, k * room + x, n);
        assert(w.free.consumed % n == spot(w.data.consumed, w.data.waiting, n));
        lemma_apart(w.data.consumed, q, w.data.waiting + (k * room + x), n);
    }
}

/// What the queue holds is decided by its places.
proof fn lemma_same_queue(w: World, v: World)
    requires
        w.pipe().ok(),
        v.data == w.data,
        v.ring.len() == w.ring.len(),
        forall|q: int|
            0 <= q < w.data.waiting ==> v.ring[#[trigger] spot(
                w.data.consumed,
                q,
                w.ring.len() as int,
            )] == w.ring[spot(w.data.consumed, q, w.ring.len() as int)],
    ensures
        v.pipe().queued() == w.pipe().queued(),
{
    let n = w.ring.len() as int;
    assert forall|q: int| 0 <= q < w.data.waiting implies v.pipe().queued()[q]
        == w.pipe().queued()[q] by {
        lemma_round(w.data.consumed, q, n);
        assert(v.ring[spot(w.data.consumed, q, n)] == w.ring[spot(w.data.consumed, q, n)]);
    }
    assert(v.pipe().queued() =~= w.pipe().queued());
}

/// What is written into the stretch of one slice leaves the others and the writer's
/// data.
proof fn lemma_others_stay(w: World, v: World, src: Source, i: int)
    requires
        w.ok(),
        loyal(w, src),
        0 <= i < 8,
        w.holds(i),
        v == (World { slices: w.slices.update(i, v.slices[i]), ring: v.ring, ..w }),
        v.ring.len() == w.ring.len(),
        forall|p: int|
            0 <= p < w.ring.len() && #[trigger] outside(
                w.slices[i].base,
                w.slice_room(),
                w.ring.len() as int,
                p,
            ) ==> v.ring[p] == w.ring[p],
    ensures
        forall|j: int| 0 <= j < 8 && j != i && v.holds(j) ==> #[trigger] carries(v, src, j),
        v.pipe().queued() == w.pipe().queued(),
{
    let n = w.ring.len() as int;
    let room = w.slice_room();
    assert forall|j: int| 0 <= j < 8 && j != i && v.holds(j) implies #[trigger] carries(
        v,
        src,
        j,
    ) by {
        assert(w.holds(j));
        assert(carries(w, src, j));
        assert(w.slot_ok(j));
        let base = w.slices[j].base;
        assert forall|x: int| 0 <= x < room implies v.ring[#[trigger] spot(base, x, n)]
            == w.ring[spot(base, x, n)] by {
            lemma_mod_bound(base + x, n);
            assert(outside(w.slices[i].base, room, n, spot(base, x, n))) by {
                assert forall|y: int| 0 <= y < room implies #[trigger] spot(
                    w.slices[i].base,
                    y,
                    n,
                ) != spot(base, x, n) by {
                    assert(spot(w.slices[j].base, x, n) != spot(w.slices[i].base, y, n));
                }
            }
        }
        lemma_true_elsewhere(
            w.slices[j],
            w.ring,
            v.ring,
            w.block_size,
            src.slices[w.slices[j].slice_no as int],
        );
    }
    assert forall|q: int| 0 <= q < w.data.waiting implies v.ring[#[trigger] spot(
        w.data.consumed,
        q,
        n,
    )] == w.ring[spot(w.data.consumed, q, n)] by {
        lemma_mod_bound(w.data.consumed + q, n);
        lemma_queue_outside(w, i, q);
    }
    lemma_same_queue(w, v);
}

/// After the next slice was handed over, the slices behind it hold what they held.
proof fn lemma_moved(w: World, i: int, j: int, x: int)
    requires
        w.sound(),
        0 <= i < 8,
        w.is_ready(i),
        0 <= j < 8,
        w.slices[j].state != RxState::Free,
        w.slices[j].slice_no > w.next,
        0 <= x < w.slice_room(),
    ensures
        ({
            let v = w.handed(i);
            let n = w.ring.len() as int;
            v.ring[spot(v.slices[j].base, x, n)] == w.ring[spot(w.slices[j].base, x, n)]
        }),
{
    let v = w.handed(i);
    let n = w.ring.len() as int;
    let room = w.slice_room();
    let b = w.slices[i].bytes;
    let gap = room - b;
    let c = w.free.consumed;
    let k = w.slices[j].slice_no - w.next;
    let f = w.farthest(8);
    lemma_ready(w, i);
    lemma_farthest(w, 8);
    assert(w.slot_ok(j));
    let y = (k - 1) * room + x;
    assert((k - 1) * room == k * room - room && (k + 1) * room == k * room + room && 0 <= (k - 1)
        * room && k * room <= f * room) by (nonlinear_arith)
        requires
            1 <= k <= f,
            0 <= room,
    ;
    assert(0 <= y < f * room);
    let to = spot(c, b, n);
    // the byte's place before
    lemma_onward(c, k * room, x, n);
    assert(spot(w.slices[j].base, x, n) == spot(c, k * room + x, n));
    // and after
    lemma_onward(c, k * room, -gap, n);
    lemma_onward(c, k * room - gap, x, n);
    lemma_onward(c, b, y, n);
    assert(k * room - gap + x == b + y);
    let p = spot(to, y, n);
    assert(spot(v.slices[j].base, x, n) == p);
    lemma_offset(to, 0, y, n);
    lemma_mod_bound(to + y, n);
    lemma_onward(c, b, gap + y, n);
    assert(b + (gap + y) == k * room + x);
    assert(v.ring[p] == w.ring[spot(to, gap + y, n)]);
}

/// What was handed over stands behind the writer's data, which stays.
proof fn lemma_handed_queue(w: World, i: int, q: int)
    requires
        w.sound(),
        0 <= i < 8,
        w.is_ready(i),
        0 <= q < w.data.waiting + w.slices[i].bytes,
    ensures
        ({
            let v = w.handed(i);
            let n = w.ring.len() as int;
            v.ring[spot(w.data.consumed, q, n)] == w.ring[spot(w.data.consumed, q, n)]
        }),
{
    let n = w.ring.len() as int;
    let room = w.slice_room();
    let b = w.slices[i].bytes;
    let c = w.free.consumed;
    let d = w.data.consumed;
    let f = w.farthest(8);
    let to = spot(c, b, n);
    let p = spot(d, q, n);
    lemma_ready(w, i);
    lemma_farthest(w, 8);
    lemma_mod_bound(d + q, n);
    lemma_offset(to, p, 0, n);
    let y = (p - to) % n;
    if y < f * room {
        lemma_onward(c, b, y, n);
        lemma_onward(c, b + y, 0, n);
        lemma_onward(d, w.data.waiting, b + y, n);
        assert(c % n == spot(d, w.data.waiting, n));
        lemma_apart(d, q, w.data.waiting + (b + y), n);
    }
}

/// Handing a slice over queues the sender's bytes.
proof fn lemma_handed_is_true(w: World, src: Source, i: int)
    requires
        loyal(w, src),
        0 <= i < 8,
        w.is_ready(i),
    ensures
        loyal(w.handed(i), src),
        w.handed(i).pipe().queued() == w.pipe().queued() + src.slices[w.next],
{
    let v = w.handed(i);
    let n = w.ring.len() as int;
    let s = w.slices[i];
    let source = src.slices[w.next];
    let b = s.bytes;
    let d = w.data.consumed;
    lemma_ready(w, i);
    lemma_handed(w, i);
    assert(w.slot_ok(i));
    assert(w.holds(i));
    assert(carries(w, src, i));
    lemma_have_finite(s.have);
    law_complete_slice_is_the_source(s, w.ring, w.block_size, source);
    assert(b == source.len());
    lemma_halved(w.data.waiting + b, n);
    assert(v.data.waiting == w.data.waiting + b);
    assert forall|q: int| 0 <= q < w.data.waiting + b implies v.pipe().queued()[q]
        == (w.pipe().queued() + source)[q] by {
        lemma_round(d, q, n);
        lemma_handed_queue(w, i, q);
        if q >= w.data.waiting {
            let t = q - w.data.waiting;
            lemma_read(w.ring, s.base, b, t);
            assert(ring_read(w.ring, s.base, b as nat)[t] == source[t]);
            lemma_onward(d, w.data.waiting, t, n);
        }
    }
    assert(v.pipe().queued() =~= w.pipe().queued() + source);
    assert forall|j: int| 0 <= j < 8 && v.holds(j) implies #[trigger] carries(v, src, j) by {
        let r = w.slices[j];
        let other = src.slices[r.slice_no as int];
        assert(w.slot_ok(j));
        assert(r.slice_no > w.next);
        assert(w.holds(j));
        assert(carries(w, src, j));
        assert forall|e: int, t: int|
            r.have.contains(e) && 0 <= t < block_len(other.len() as int, w.block_size, e) implies
            #[trigger] v.ring[spot(v.slices[j].base, e * w.block_size + t, n)] == other[e
            * w.block_size + t] by {
            lemma_block(other.len() as int, w.block_size, e);
            lemma_moved(w, i, j, e * w.block_size + t);
            assert(w.ring[spot(r.base, e * w.block_size + t, n)] == other[e * w.block_size + t]);
        }
        assert(true_to(v.slices[j], v.ring, v.block_size, other));
    }
}

/// The blocks that can be there are finitely many.
pub proof fn lemma_have_finite(have: Set<int>)
    requires
        have.subset_of(numbers_below(1024)),
    ensures
        have.finite(),
{
    vstd::set_lib::lemma_int_range(0, 1024);
    vstd::set_lib::lemma_set_subset_finite(numbers_below(1024), have);
}

/// Handing over whatever can be handed over queues the sender's slices in order.
proof fn lemma_settled_is_true(w: World, src: Source)
    requires
        loyal(w, src),
        forall|i: int| 0 <= i < 8 ==> #[trigger] unfinished(w, i),
    ensures
        faithful(w.settled(), src),
        grew(w, w.settled(), src),
    decreases i32::MAX + 1 - w.next,
{
    lemma_settled(w);
    if exists|i: int| 0 <= i < 8 && w.is_ready(i) {
        let i = choose|i: int| 0 <= i < 8 && w.is_ready(i);
        let v = w.handed(i);
        lemma_ready(w, i);
        lemma_handed_is_true(w, src, i);
        assert forall|j: int| 0 <= j < 8 implies #[trigger] unfinished(v, j) by {
            assert(unfinished(w, j));
        }
        lemma_settled_is_true(v, src);
        let u = w.settled();
        lemma_joined(src, w.next, v.next, u.next);
        assert(src.joined(w.next, v.next) =~= src.slices[w.next]) by {
            assert(src.joined(w.next, w.next) =~= Seq::<u8>::empty());
        }
        assert((w.pipe().queued() + src.slices[w.next]) + src.joined(v.next, u.next)
            =~= w.pipe().queued() + (src.slices[w.next] + src.joined(v.next, u.next)));
    } else {
        assert(w.pipe().queued() + src.joined(w.next, w.next) =~= w.pipe().queued());
    }
}

/// A slice that is complete is the sender's.
proof fn lemma_complete_is_true(w: World, src: Source, i: int)
    requires
        w.ok(),
        loyal(w, src),
        0 <= i < 8,
        w.slices[i].state == RxState::Receiving,
        w.slices[i].bytes_known,
        w.slices[i].all_there(w.block_size),
        forall|j: int| 0 <= j < 8 && j != i ==> #[trigger] unfinished(w, j),
    ensures
        faithful(w.complete(i).world, src),
        grew(w, w.complete(i).world, src),
        advanced(w, w.complete(i).world),
{
    let v = w.finished(i);
    assert(w.slot_ok(i));
    assert(w.holds(i));
    assert(carries(w, src, i));
    lemma_finished(w, i);
    assert forall|j: int| 0 <= j < 8 && v.holds(j) implies #[trigger] carries(v, src, j) by {
        assert(w.holds(j));
        assert(carries(w, src, j));
    }
    assert forall|j: int| 0 <= j < 8 implies #[trigger] unfinished(v, j) by {
        if j != i {
            assert(unfinished(w, j));
        }
    }
    lemma_settled_is_true(v, src);
    lemma_settled(v);
    lemma_settled_slots(v);
    assert(v.pipe().queued() == w.pipe().queued());
}

/// Looking whether a slice is complete keeps to what the sender has.
proof fn lemma_checked_is_true(w: World, src: Source, i: int)
    requires
        w.ok(),
        loyal(w, src),
        0 <= i < 8,
        w.slices[i].state == RxState::Receiving,
        w.slices[i].bytes_known,
        forall|j: int| 0 <= j < 8 && j != i ==> #[trigger] unfinished(w, j),
    ensures
        faithful(w.checked(i).world, src),
        grew(w, w.checked(i).world, src),
        advanced(w, w.checked(i).world),
{
    let s = w.slices[i];
    let source = src.slices[s.slice_no as int];
    assert(w.slot_ok(i));
    assert(w.holds(i));
    assert(carries(w, src, i));
    assert(w.pipe().queued() + src.joined(w.next, w.next) =~= w.pipe().queued());
    if s.all_there(w.block_size) {
        lemma_complete_is_true(w, src, i);
    } else if w.worth_a_try(i) {
        let v = w.recovered(i);
        let r = v.slices[i];
        law_recovery_is_true(s, w.ring, w.block_size, source, s.stripes as nat);
        lemma_recovered(s, w.ring, w.block_size, s.stripes as nat);
        lemma_blocks(s.bytes, w.block_size);
        assert(r.have.subset_of(numbers_below(1024))) by {
            assert forall|b: int| r.have.contains(b) implies numbers_below(1024).contains(b) by {}
        }
        lemma_touched(w, v, i);
        lemma_others_stay(w, v, src, i);
        assert(carries(v, src, i));
        assert(loyal(v, src)) by {
            assert forall|j: int| 0 <= j < 8 && v.holds(j) implies #[trigger] carries(
                v,
                src,
                j,
            ) by {
                if j != i {
                    assert(v.holds(j));
                }
            }
        }
        assert forall|j: int| 0 <= j < 8 && j != i implies #[trigger] unfinished(v, j) by {
            assert(unfinished(w, j));
        }
        if r.all_there(w.block_size) {
            lemma_complete_is_true(v, src, i);
            lemma_advanced(w, v, v.complete(i).world);
        } else {
            assert(unfinished(v, i));
        }
    } else {
        assert(unfinished(w, i));
    }
}

/// A packet is one that a sender of this file can have sent: a block, a parity block
/// or a question about a slice, with the sender's data. The slice without data behind
/// the last one is the end.
pub open spec fn genuine(src: Source, block_size: int, p: Seq<u8>) -> bool {
    let op = u16_at(p, 0);
    if p.len() < 16 {
        true
    } else if op == CMD_DATA {
        let m = DataBlock::of_bytes(p);
        let source = src.slices[m.slice_no as int];
        &&& 0 <= m.slice_no < src.slices.len()
        &&& m.bytes == source.len()
        &&& m.block_no < nr_blocks(source.len() as int, block_size)
        &&& p.skip(16) == source_block(source, block_size, m.block_no as int)
    } else if op == CMD_FEC {
        let m = FecBlock::of_bytes(p);
        let source = src.slices[m.slice_no as int];
        let stripe = m.block_no as int % src.stripes;
        &&& 0 <= m.slice_no < src.slices.len()
        &&& m.bytes == source.len()
        &&& m.stripes == src.stripes
        &&& stripe < nr_blocks(source.len() as int, block_size) ==> p.skip(16) == parity_block(
            stripe_of(source_blocks(source, block_size), src.stripes, stripe),
            block_size,
            m.block_no as int / src.stripes,
        )
    } else if op == CMD_REQACK {
        let m = Reqack::of_bytes(p);
        &&& 0 <= m.slice_no <= src.slices.len()
        &&& m.bytes == if m.slice_no < src.slices.len() {
            src.slices[m.slice_no as int].len() as int
        } else {
            0
        }
    } else {
        true
    }
}

/// The packets with the blocks of a slice are genuine.
pub proof fn law_data_packets_are_genuine(
    src: Source,
    s: SliceModel,
    ring: Seq<u8>,
    block_size: int,
    b: int,
)
    requires
        fits(s.base, s.bytes, block_size, ring.len() as int),
        0 <= s.slice_no < src.slices.len(),
        src.slices[s.slice_no as int] == ring_read(ring, s.base, s.bytes as nat),
        0 <= b < nr_blocks(s.bytes, block_size),
    ensures
        genuine(src, block_size, data_packet(s, ring, block_size, b)),
{
    lemma_block(s.bytes, block_size, b);
    law_data_packet_tells_all(s, ring, block_size, b);
    law_packets_carry_the_source(ring, s.base, s.bytes, block_size, b);
}

/// The packets with the parity of a slice are genuine.
pub proof fn law_parity_packets_are_genuine(
    src: Source,
    s: SliceModel,
    ring: Seq<u8>,
    block_size: int,
    p: int,
)
    requires
        fits(s.base, s.bytes, block_size, ring.len() as int),
        0 <= s.slice_no < src.slices.len(),
        src.slices[s.slice_no as int] == ring_read(ring, s.base, s.bytes as nat),
        0 < src.stripes <= 32767,
        0 <= p < s.fec.len() <= 65536,
        s.fec == slice_parity(s, ring, block_size, src.stripes),
    ensures
        genuine(src, block_size, fec_packet(s, src.stripes, p)),
{
    let source = src.slices[s.slice_no as int];
    let stripes = src.stripes;
    let m = FecBlock {
        stripes: stripes as i32,
        slice_no: s.slice_no,
        block_no: p as u16,
        bytes: s.bytes as i32,
    };
    let packet = fec_packet(s, stripes, p);
    vstd::arithmetic::div_mod::lemma_small_mod(p as nat, 65536);
    law_fec_block_round_trip(m, s.fec[p]);
    assert(m.encoded().len() == 16);
    assert(packet.skip(16) =~= s.fec[p]);
    crate::wire::lemma_u16_round_trip(CMD_FEC, packet, 0);
    let stripe = p % stripes;
    let n = nr_blocks(s.bytes, block_size);
    lemma_mod_bound(p, stripes);
    lemma_blocks(s.bytes, block_size);
    if stripe < n {
        let a = stripe_of(source_blocks(source, block_size), stripes, stripe);
        let b = stripe_blocks(ring, s.base, s.bytes, block_size, stripes, stripe);
        lemma_stripe(n, stripes, stripe, 0);
        assert forall|k: int| 0 <= k < a.len() implies a[k] == b[k] by {
            lemma_stripe(n, stripes, stripe, k);
            assert(0 <= k * stripes) by (nonlinear_arith)
                requires
                    0 <= k,
                    0 < stripes,
            ;
            let c = stripe + k * stripes;
            lemma_block(s.bytes, block_size, c);
            lemma_block_bytes(ring, s.base, s.bytes, block_size, c);
            assert forall|t: int| 0 <= t < block_size implies a[k][t] == b[k][t] by {
                if c * block_size + t < s.bytes {
                    lemma_read(ring, s.base, s.bytes, c * block_size + t);
                }
            }
            assert(a[k] =~= b[k]);
        }
        assert(a =~= b);
        assert(0 * stripes == 0) by (nonlinear_arith);
        assert(b.len() > 0);
        assert(slice_parity(s, ring, block_size, stripes)[p] == parity_block(
            b,
            block_size,
            p / stripes,
        ));
    }
}

/// The questions about slices, and about the end behind the last one, are genuine.
pub proof fn law_requests_are_genuine(src: Source, s: SliceModel, block_size: int)
    requires
        src.ok(block_size),
        block_size * 1024 <= i32::MAX,
        0 <= s.slice_no <= src.slices.len(),
        s.bytes == if s.slice_no < src.slices.len() {
            src.slices[s.slice_no as int].len() as int
        } else {
            0
        },
    ensures
        genuine(src, block_size, request(s)),
{
    let m = Reqack { slice_no: s.slice_no, bytes: s.bytes as i32, rxmit: s.rxmit_id };
    let none = Seq::<u8>::empty();
    law_reqack_round_trip(m, none);
    assert(m.encoded() + none =~= m.encoded());
    assert(m.encoded().len() == 16);
    crate::wire::lemma_u16_round_trip(CMD_REQACK, m.encoded(), 0);
}

/// What was begun for a slice of the file is the sender's: nothing yet.
proof fn lemma_placed_is_true(w: World, src: Source, no: i32)
    requires
        faithful(w, src),
        0 <= no < src.slices.len(),
        !done(w.completed, no as int),
    ensures
        w.place(no) matches Place::At(i) ==> {
            let v = w.placed(no, i as int);
            &&& i < 8
            &&& faithful(v, src)
            &&& v.slices[i as int].state == RxState::Receiving
            &&& v.slices[i as int].slice_no == no
            &&& v.pipe().queued() == w.pipe().queued()
            &&& v.next == w.next
            &&& v.block_size == w.block_size
            &&& advanced(w, v)
        },
{
    lemma_placed(w, no);
    lemma_slot(w);
    if let Place::At(i) = w.place(no) {
        let v = w.placed(no, i as int);
        if w.located(no) is None {
            assert forall|j: int| 0 <= j < 8 && v.holds(j) implies #[trigger] carries(
                v,
                src,
                j,
            ) by {
                if j != i {
                    assert(w.holds(j));
                    assert(carries(w, src, j));
                }
            }
            assert forall|j: int| 0 <= j < 8 implies #[trigger] unfinished(v, j) by {
                assert(unfinished(w, j));
            }
        }
    }
}

/// To wait for memory changes nothing of the file.
proof fn lemma_wait_is_true(w: World, src: Source, no: int)
    requires
        faithful(w, src),
    ensures
        faithful(w.wait(no).world, src),
        grew(w, w.wait(no).world, src),
        advanced(w, w.wait(no).world),
{
    let v = w.wait(no).world;
    assert(v.pipe().ok());
    lemma_accounts(w, v);
    lemma_unchanged(w, v, src);
}

/// What speaks of neither slices nor ring changes nothing of the file.
proof fn lemma_unchanged(w: World, v: World, src: Source)
    requires
        faithful(w, src),
        v.ok(),
        v.slices == w.slices,
        v.ring == w.ring,
        v.next == w.next,
        v.block_size == w.block_size,
        v.data.consumed == w.data.consumed,
        v.data.waiting == w.data.waiting,
        v.data.size == w.data.size,
        v.end matches Some(e) ==> e == src.slices.len(),
        forall|j: int| #[trigger] done(w.completed, j) ==> done(v.completed, j),
    ensures
        faithful(v, src),
        grew(w, v, src),
        advanced(w, v),
{
    assert forall|j: int| 0 <= j < 8 && v.holds(j) implies #[trigger] carries(v, src, j) by {
        assert(w.holds(j));
        assert(carries(w, src, j));
    }
    assert forall|j: int| 0 <= j < 8 implies #[trigger] unfinished(v, j) by {
        assert(unfinished(w, j));
    }
    assert(w.pipe().queued() + src.joined(w.next, w.next) =~= w.pipe().queued());
}

/// What the slices in the ring have to do with the sender, where one of them changed.
proof fn lemma_loyal(w: World, v: World, src: Source, i: int)
    requires
        faithful(w, src),
        v.ok(),
        0 <= i < 8,
        v == (World { slices: w.slices.update(i, v.slices[i]), ring: v.ring, ..w }),
        carries(v, src, i),
        forall|j: int| 0 <= j < 8 && j != i && v.holds(j) ==> #[trigger] carries(v, src, j),
    ensures
        loyal(v, src),
        forall|j: int| 0 <= j < 8 && j != i ==> #[trigger] unfinished(v, j),
{
    assert forall|j: int| 0 <= j < 8 && v.holds(j) implies #[trigger] carries(v, src, j) by {
        if j != i {
            assert(v.holds(j));
        }
    }
    assert forall|j: int| 0 <= j < 8 && j != i implies #[trigger] unfinished(v, j) by {
        assert(unfinished(w, j));
    }
}

/// A block of the file is taken in.
proof fn lemma_data_is_true(w: World, src: Source, i: int, m: DataBlock, payload: Seq<u8>)
    requires
        faithful(w, src),
        0 <= i < 8,
        w.slices[i].state == RxState::Receiving,
        w.slices[i].slice_no == m.slice_no,
        m.slice_no < src.slices.len(),
        m.bytes == src.slices[m.slice_no as int].len(),
        m.block_no < nr_blocks(m.bytes as int, w.block_size),
        payload == source_block(
            src.slices[m.slice_no as int],
            w.block_size,
            m.block_no as int,
        ),
    ensures
        ({
            let v = w.data_for(i, m, payload).world;
            &&& faithful(v, src)
            &&& grew(w, v, src)
            &&& advanced(w, v)
            &&& done(v.completed, m.slice_no as int) || (v.slices[i].state == RxState::Receiving
                && v.slices[i].slice_no == m.slice_no && v.slices[i].have.contains(
                m.block_no as int,
            ))
        }),
{
    let s = w.slices[i];
    let b = m.block_no as int;
    let source = src.slices[m.slice_no as int];
    assert(w.slot_ok(i));
    assert(w.holds(i));
    assert(carries(w, src, i));
    assert(w.pipe().queued() + src.joined(w.next, w.next) =~= w.pipe().queued());
    lemma_block(source.len() as int, w.block_size, b);
    if !s.have.contains(b) {
        let v = w.stored(i, b, m.bytes as int, payload);
        assert(payload.len() <= w.block_size);
        law_stored_blocks_are_true(s, w.ring, w.block_size, source, b);
        lemma_write_block(w.ring, s.base, w.block_size, b, payload);
        lemma_touched(w, v, i);
        lemma_others_stay(w, v, src, i);
        assert(carries(v, src, i));
        lemma_loyal(w, v, src, i);
        lemma_checked_is_true(v, src, i);
        assert(advanced(w, v));
        lemma_advanced(w, v, v.checked(i).world);
        assert(v.slices[i].have.contains(b));
    }
}

/// A parity block of the file is taken in.
proof fn lemma_fec_is_true(w: World, src: Source, i: int, m: FecBlock, payload: Seq<u8>)
    requires
        faithful(w, src),
        0 <= i < 8,
        w.slices[i].state == RxState::Receiving,
        w.slices[i].slice_no == m.slice_no,
        m.slice_no < src.slices.len(),
        m.bytes == src.slices[m.slice_no as int].len(),
        m.stripes == src.stripes,
        ({
            let source = src.slices[m.slice_no as int];
            let stripe = m.block_no as int % src.stripes;
            stripe < nr_blocks(source.len() as int, w.block_size) ==> payload == parity_block(
                stripe_of(source_blocks(source, w.block_size), src.stripes, stripe),
                w.block_size,
                m.block_no as int / src.stripes,
            )
        }),
        -32768 <= m.stripes <= 32767,
    ensures
        ({
            let v = w.kept(i, m, payload).checked(i).world;
            &&& faithful(v, src)
            &&& grew(w, v, src)
            &&& advanced(w, v)
        }),
{
    let s = w.slices[i];
    let source = src.slices[m.slice_no as int];
    let blocks = source_blocks(source, w.block_size);
    assert(w.slot_ok(i));
    assert(w.holds(i));
    assert(carries(w, src, i));
    let v = w.kept(i, m, payload);
    let r = v.slices[i];
    lemma_blocks(source.len() as int, w.block_size);
    assert(parity_true(r, w.block_size, blocks)) by {
        assert forall|k: int, t: int|
            0 <= k < r.fec_nos.len() && 0 <= t < w.block_size && r.fec_nos[k] as int % r.stripes
                < blocks.len() implies #[trigger] r.fec_blocks[k][t] == crate::fec::parity_byte(
            stripe_of(blocks, r.stripes, r.fec_nos[k] as int % r.stripes),
            r.fec_nos[k] as int / r.stripes,
            t,
            stripe_of(blocks, r.stripes, r.fec_nos[k] as int % r.stripes).len(),
        ) by {
            if k < s.fec_nos.len() {
                assert(r.fec_nos[k] == s.fec_nos[k]);
                assert(s.fec_blocks[k][t] == r.fec_blocks[k][t]);
            } else {
                assert(r.fec_blocks[k] == payload);
            }
        }
    }
    lemma_touched(w, v, i);
    lemma_others_stay(w, v, src, i);
    assert(carries(v, src, i));
    lemma_loyal(w, v, src, i);
    lemma_checked_is_true(v, src, i);
    assert(advanced(w, v));
    lemma_advanced(w, v, v.checked(i).world);
}

/// The sender's question about a slice of the file is answered.
proof fn lemma_asked_is_true(w: World, src: Source, i: int, m: Reqack)
    requires
        faithful(w, src),
        0 <= i < 8,
        w.slices[i].state == RxState::Receiving,
        w.slices[i].slice_no == m.slice_no,
        m.slice_no < src.slices.len(),
        m.bytes == src.slices[m.slice_no as int].len(),
    ensures
        ({
            let v = w.asked_for(i, m).world;
            &&& faithful(v, src)
            &&& grew(w, v, src)
            &&& advanced(w, v)
        }),
{
    let s = w.slices[i];
    assert(w.slot_ok(i));
    assert(w.holds(i));
    assert(carries(w, src, i));
    assert(w.pipe().queued() + src.joined(w.next, w.next) =~= w.pipe().queued());
    let v = w.sized(i, m.bytes as int);
    lemma_touched(w, v, i);
    lemma_others_stay(w, v, src, i);
    assert(carries(v, src, i));
    lemma_loyal(w, v, src, i);
    assert(advanced(w, v));
    if v.slices[i].all_there(w.block_size) {
        lemma_complete_is_true(v, src, i);
        lemma_advanced(w, v, v.complete(i).world);
    } else {
        assert(unfinished(v, i));
    }
}

/// Whatever packet of the sender comes, in whatever order and however often: the
/// receiver keeps to what the sender has, loses nothing, and what it hands over are
/// the sender's next slices.
pub proof fn law_packets_are_taken_in(w: World, src: Source, p: Seq<u8>)
    requires
        faithful(w, src),
        genuine(src, w.block_size, p),
    ensures
        faithful(effect_of(w, p).world, src),
        grew(w, effect_of(w, p).world, src),
        advanced(w, effect_of(w, p).world),
{
    let op = u16_at(p, 0);
    assert(w.pipe().queued() + src.joined(w.next, w.next) =~= w.pipe().queued());
    if p.len() >= 16 && proper(w, p) {
        let d = p.skip(16);
        if op == CMD_DATA {
            let m = DataBlock::of_bytes(p);
            if !done(w.completed, m.slice_no as int) {
                lemma_placed(w, m.slice_no);
                lemma_placed_is_true(w, src, m.slice_no);
                lemma_wait_is_true(w, src, m.slice_no as int);
                if let Place::At(i) = w.place(m.slice_no) {
                    let v = w.placed(m.slice_no, i as int);
                    lemma_data_is_true(v, src, i as int, m, d);
                    lemma_advanced(w, v, v.data_for(i as int, m, d).world);
                }
            }
        } else if op == CMD_FEC {
            let m = FecBlock::of_bytes(p);
            if !done(w.completed, m.slice_no as int) {
                lemma_placed(w, m.slice_no);
                lemma_placed_is_true(w, src, m.slice_no);
                lemma_wait_is_true(w, src, m.slice_no as int);
                if let Place::At(i) = w.place(m.slice_no) {
                    let v = w.placed(m.slice_no, i as int);
                    lemma_fec_is_true(v, src, i as int, m, d);
                    lemma_advanced(w, v, v.kept(i as int, m, d).checked(i as int).world);
                }
            }
        } else if op == CMD_REQACK {
            let m = Reqack::of_bytes(p);
            if !done(w.completed, m.slice_no as int) {
                if m.bytes == 0 {
                    assert(m.slice_no == src.slices.len());
                    if w.end is None {
                        let v = w.bounded(m.slice_no);
                        lemma_located(w, m.slice_no);
                        if let Some(i) = w.located(m.slice_no) {
                            assert(w.slot_ok(i));
                            assert(w.holds(i));
                            assert(carries(w, src, i));
                        }
                        lemma_bounded(w, m.slice_no);
                        lemma_unchanged(w, v, src);
                    }
                } else {
                    lemma_placed(w, m.slice_no);
                    lemma_placed_is_true(w, src, m.slice_no);
                    lemma_wait_is_true(w, src, m.slice_no as int);
                    if let Place::At(i) = w.place(m.slice_no) {
                        let v = w.placed(m.slice_no, i as int);
                        lemma_asked_is_true(v, src, i as int, m);
                        lemma_advanced(w, v, v.asked_for(i as int, m).world);
                    }
                }
            }
        }
    }
}

/// What `e` makes of `w` is consistent: complete slices stay complete, every slice
/// that is completed is reported, whatever is reported as complete is, and the end
/// is not forgotten nor put off.
pub open spec fn consistent(w: World, e: Effect) -> bool {
    &&& e.world.ok()
    &&& e.world.end_reached == w.end_reached
    &&& e.world.data.at_end == w.data.at_end
    &&& w.end matches Some(x) ==> (e.world.end matches Some(y) && y <= x)
    &&& forall|j: int| #[trigger] done(w.completed, j) ==> done(e.world.completed, j)
    &&& forall|j: i32|
        !done(w.completed, j as int) && #[trigger] done(e.world.completed, j as int)
            ==> e.answers.contains(AnswerModel::Complete { slice_no: j })
    &&& forall|k: int|
        0 <= k < e.answers.len() ==> (#[trigger] e.answers[k] matches AnswerModel::Complete {
            slice_no,
        } ==> done(e.world.completed, slice_no as int))
}

/// The state stays consistent whatever packet comes, from wherever.
pub proof fn law_state_stays_consistent(w: World, p: Seq<u8>)
    requires
        w.ok(),
    ensures
        consistent(w, effect_of(w, p)),
        effect_of(w, p).world.ended().ok(),
{
    let op = u16_at(p, 0);
    if p.len() >= 16 && proper(w, p) {
        if op == CMD_DATA {
            lemma_data_consistent(w, DataBlock::of_bytes(p), p.skip(16));
        } else if op == CMD_FEC {
            lemma_fec_consistent(w, FecBlock::of_bytes(p), p.skip(16));
        } else if op == CMD_REQACK {
            lemma_reqack_consistent(w, Reqack::of_bytes(p));
        }
    }
    let v = effect_of(w, p).world;
    lemma_accounts(v, v.ended());
}

/// A block of data keeps the state consistent.
proof fn lemma_data_consistent(w: World, m: DataBlock, d: Seq<u8>)
    requires
        w.ok(),
        slice_like(m.slice_no, m.bytes, w.block_size),
    ensures
        consistent(w, w.data_received(m, d)),
{
    if !done(w.completed, m.slice_no as int) {
        lemma_placed(w, m.slice_no);
        lemma_accounts(w, w.wait(m.slice_no as int).world);
        if let Place::At(i) = w.place(m.slice_no) {
            let v = w.placed(m.slice_no, i as int);
            let s = v.slices[i as int];
            assert(v.slot_ok(i as int));
            if m.block_no < 1024 && !s.have.contains(m.block_no as int) {
                let u = v.stored(i as int, m.block_no as int, m.bytes as int, d);
                lemma_touched(v, u, i as int);
                lemma_checked(u, i as int);
            }
        }
    }
}

/// A parity block keeps the state consistent.
proof fn lemma_fec_consistent(w: World, m: FecBlock, d: Seq<u8>)
    requires
        w.ok(),
        slice_like(m.slice_no, m.bytes, w.block_size),
        -32768 <= m.stripes <= 32767,
    ensures
        consistent(w, w.fec_received(m, d)),
{
    if !done(w.completed, m.slice_no as int) {
        lemma_placed(w, m.slice_no);
        lemma_accounts(w, w.wait(m.slice_no as int).world);
        if let Place::At(i) = w.place(m.slice_no) {
            let v = w.placed(m.slice_no, i as int);
            let u = v.kept(i as int, m, d);
            assert(v.slot_ok(i as int));
            lemma_touched(v, u, i as int);
            lemma_checked(u, i as int);
        }
    }
}

/// A question of the sender keeps the state consistent.
proof fn lemma_reqack_consistent(w: World, m: Reqack)
    requires
        w.ok(),
        done(w.completed, m.slice_no as int) || slice_like(m.slice_no, m.bytes, w.block_size),
    ensures
        consistent(w, w.reqack_received(m)),
{
    let yes = AnswerModel::Complete { slice_no: m.slice_no };
    if !done(w.completed, m.slice_no as int) {
        lemma_placed(w, m.slice_no);
        lemma_accounts(w, w.wait(m.slice_no as int).world);
        if m.bytes == 0 {
            lemma_bounded(w, m.slice_no);
            assert(seq![yes, yes][0] == yes);
        } else if let Place::At(i) = w.place(m.slice_no) {
            let v = w.placed(m.slice_no, i as int);
            let u = v.sized(i as int, m.bytes as int);
            assert(v.slot_ok(i as int));
            lemma_touched(v, u, i as int);
            lemma_complete(u, i as int);
            assert((seq![yes] + seq![yes])[0] == yes);
        }
    }
}

/// Completing a slice keeps the state consistent.
proof fn lemma_complete(w: World, i: int)
    requires
        w.ok(),
        0 <= i < 8,
        w.slices[i].state == RxState::Receiving,
        w.slices[i].bytes > 0,
    ensures
        ({
            let e = w.complete(i);
            &&& e.world.ok()
            &&& e.world.end == w.end
            &&& e.world.end_reached == w.end_reached
            &&& e.world.data.at_end == w.data.at_end
            &&& forall|j: int|
                #[trigger] done(e.world.completed, j) <==> done(w.completed, j) || j
                    == w.slices[i].slice_no
        }),
{
    assert(w.slot_ok(i));
    lemma_finished(w, i);
    lemma_settled(w.finished(i));
}

/// Looking whether a slice is complete keeps the state consistent.
proof fn lemma_checked(w: World, i: int)
    requires
        w.ok(),
        0 <= i < 8,
        w.slices[i].state == RxState::Receiving,
    ensures
        ({
            let e = w.checked(i);
            let yes = AnswerModel::Complete { slice_no: w.slices[i].slice_no };
            &&& e.world.ok()
            &&& e.world.end == w.end
            &&& e.world.end_reached == w.end_reached
            &&& e.world.data.at_end == w.data.at_end
            &&& e.answers == Seq::<AnswerModel>::empty() && e.world.completed == w.completed || (
            e.answers == seq![yes] && e.answers.contains(yes) && forall|j: int|
                #[trigger] done(e.world.completed, j) <==> done(w.completed, j) || j
                    == w.slices[i].slice_no)
        }),
{
    let s = w.slices[i];
    let yes = AnswerModel::Complete { slice_no: s.slice_no };
    assert(seq![yes][0] == yes);
    assert(w.slot_ok(i));
    if s.bytes_known && s.bytes != 0 {
        if s.all_there(w.block_size) {
            lemma_complete(w, i);
        } else if w.worth_a_try(i) {
            let v = w.recovered(i);
            lemma_recovered(s, w.ring, w.block_size, s.stripes as nat);
            lemma_recovered_below(s, w.block_size, s.stripes as nat);
            lemma_touched(w, v, i);
            if v.slices[i].all_there(w.block_size) {
                lemma_complete(v, i);
            }
        }
    }
}

/// What parity restores are blocks of the slice.
pub proof fn lemma_recovered_below(s: RxModel, block_size: int, n: nat)
    requires
        0 < block_size,
        0 <= s.bytes <= block_size * 1024,
        s.have.subset_of(numbers_below(1024)),
        n <= s.stripes,
    ensures
        s.recovered(block_size, n).have.subset_of(numbers_below(1024)),
    decreases n,
{
    if n > 0 {
        let m = (n - 1) as nat;
        lemma_recovered_below(s, block_size, m);
        lemma_recovered(s, Seq::empty(), block_size, m);
        lemma_blocks(s.bytes, block_size);
        let r = s.recovered(block_size, m);
        let q = s.recovered(block_size, n);
        assert forall|b: int| q.have.contains(b) implies numbers_below(1024).contains(b) by {
            if !r.have.contains(b) {
                let j = choose|j: int|
                    0 <= j < r.stripe_size(block_size, n - 1) && #[trigger] r.at(n - 1, j) == b;
                lemma_stripe(nr_blocks(s.bytes, block_size), s.stripes, n - 1, j);
                assert(0 <= j * s.stripes) by (nonlinear_arith)
                    requires
                        0 <= j,
                        0 <= s.stripes,
                ;
            }
        }
    }
}

/// What happens at a receiver, as far as the file goes.
pub enum Event {
    /// A packet comes.
    Packet { p: Seq<u8> },
    /// The disk takes `n` bytes.
    Write { n: int },
}

/// Whether an event can be: packets are the sender's, and the disk takes what there
/// is.
pub open spec fn possible(w: World, src: Source, e: Event) -> bool {
    match e {
        Event::Packet { p } => genuine(src, w.block_size, p),
        Event::Write { n } => 0 <= n <= w.data.waiting,
    }
}

/// The receiver after an event.
#[verifier::opaque]
pub open spec fn happened(w: World, e: Event) -> World {
    match e {
        Event::Packet { p } => effect_of(w, p).world.ended(),
        Event::Write { n } => w.written(n),
    }
}

/// The receiver after the first `k` events.
pub open spec fn course(w: World, events: Seq<Event>, k: nat) -> World
    decreases k,
{
    if k == 0 {
        w
    } else {
        happened(course(w, events, (k - 1) as nat), events[k - 1])
    }
}

/// What went to the disk in the first `k` events.
pub open spec fn on_disk(w: World, events: Seq<Event>, k: nat) -> Seq<u8>
    decreases k,
{
    if k == 0 {
        Seq::empty()
    } else {
        let v = course(w, events, (k - 1) as nat);
        on_disk(w, events, (k - 1) as nat) + match events[k - 1] {
            Event::Packet { .. } => Seq::empty(),
            Event::Write { n } => ring_read(v.ring, v.data.consumed % v.data.size, n as nat),
        }
    }
}

/// One event keeps the receiver faithful.
proof fn lemma_happened(w: World, src: Source, e: Event)
    requires
        faithful(w, src),
        possible(w, src, e),
    ensures
        ({
            let v = happened(w, e);
            &&& faithful(v, src)
            &&& advanced(w, v)
            &&& match e {
                Event::Packet { .. } => grew(w, v, src),
                Event::Write { n } => {
                    &&& v.next == w.next
                    &&& v.block_size == w.block_size
                    &&& ring_read(w.ring, w.data.consumed % w.data.size, n as nat)
                        == w.pipe().queued().take(n)
                    &&& v.pipe().queued() == w.pipe().queued().skip(n)
                },
            }
        }),
{
    reveal(happened);
    match e {
        Event::Packet { p } => {
            law_packets_are_taken_in(w, src, p);
            let v = effect_of(w, p).world;
            lemma_accounts(v, v.ended());
            lemma_unchanged(v, v.ended(), src);
            lemma_advanced(w, v, v.ended());
            assert(v.ended().pipe().queued() =~= v.pipe().queued());
        },
        Event::Write { n } => {
            let v = w.written(n);
            law_writing_spares_slices(w, n);
            law_output_is_the_front(w.pipe(), n);
            assert(v.pipe() == w.pipe().released(n));
            assert forall|j: int| 0 <= j < 8 && v.holds(j) implies #[trigger] carries(
                v,
                src,
                j,
            ) by {
                assert(w.holds(j));
                assert(carries(w, src, j));
            }
            assert forall|j: int| 0 <= j < 8 implies #[trigger] unfinished(v, j) by {
                assert(unfinished(w, j));
            }
        },
    }
}

/// Whatever packets of the sender come, lost ones resent, in any order and any of
/// them more than once, with data, parity and questions of several slices mixed, and
/// whenever the disk takes bytes in between: what went to the disk and what still
/// waits for it are the sender's slices, whole and in the order of their numbers.
pub proof fn law_file_arrives_intact(w: World, src: Source, events: Seq<Event>, k: nat)
    requires
        faithful(w, src),
        k <= events.len(),
        forall|j: nat| j < k ==> possible(#[trigger] course(w, events, j), src, events[j as int]),
    ensures
        ({
            let v = course(w, events, k);
            &&& faithful(v, src)
            &&& advanced(w, v)
            &&& w.next <= v.next <= src.slices.len()
            &&& v.block_size == w.block_size
            &&& on_disk(w, events, k) + v.pipe().queued() == w.pipe().queued() + src.joined(
                w.next,
                v.next,
            )
        }),
    decreases k,
{
    if k == 0 {
        assert(on_disk(w, events, k) + w.pipe().queued() =~= w.pipe().queued() + src.joined(
            w.next,
            w.next,
        ));
    } else {
        let m = (k - 1) as nat;
        law_file_arrives_intact(w, src, events, m);
        let v = course(w, events, m);
        let u = course(w, events, k);
        let e = events[k - 1];
        assert(possible(course(w, events, m), src, events[m as int]));
        lemma_happened(v, src, e);
        lemma_advanced(w, v, u);
        let before = on_disk(w, events, m);
        let queue = v.pipe().queued();
        match e {
            Event::Packet { .. } => {
                let more = src.joined(v.next, u.next);
                lemma_joined(src, w.next, v.next, u.next);
                assert(on_disk(w, events, k) =~= before);
                assert(before + (queue + more) =~= (before + queue) + more);
                assert((w.pipe().queued() + src.joined(w.next, v.next)) + more
                    =~= w.pipe().queued() + (src.joined(w.next, v.next) + more));
            },
            Event::Write { n } => {
                assert(queue.take(n) + queue.skip(n) =~= queue);
                assert((before + queue.take(n)) + queue.skip(n) =~= before + (queue.take(n)
                    + queue.skip(n)));
            },
        }
    }
}

/// Block `b` of slice `no` is there, or the whole slice.
pub open spec fn has_block(w: World, no: int, b: int) -> bool {
    ||| done(w.completed, no)
    ||| exists|i: int|
        0 <= i < 8 && (#[trigger] w.slices[i]).state == RxState::Receiving && w.slices[i].slice_no
            == no && w.slices[i].have.contains(b)
}

/// The packet with block `b` of slice `no` comes, and there is memory for the slice.
pub open spec fn arrives(w: World, e: Event, no: int, b: int) -> bool {
    e matches Event::Packet { p } && {
        &&& p.len() >= 16
        &&& u16_at(p, 0) == CMD_DATA
        &&& DataBlock::of_bytes(p).slice_no == no
        &&& DataBlock::of_bytes(p).block_no == b
        &&& done(w.completed, no) || w.place(no as i32) is At
    }
}

/// A block that arrived is there, and whatever was there still is.
pub proof fn law_arrived_blocks_are_kept(w: World, src: Source, e: Event, no: int, b: int)
    requires
        faithful(w, src),
        possible(w, src, e),
        has_block(w, no, b) || arrives(w, e, no, b),
    ensures
        has_block(happened(w, e), no, b),
{
    reveal(happened);
    let v = happened(w, e);
    lemma_happened(w, src, e);
    if done(w.completed, no) {
    } else if has_block(w, no, b) {
        let i = choose|i: int|
            0 <= i < 8 && (#[trigger] w.slices[i]).state == RxState::Receiving
                && w.slices[i].slice_no == no && w.slices[i].have.contains(b);
        if !done(v.completed, no) {
            assert(v.slices[i].have.contains(b));
        }
    } else if let Event::Packet { p } = e {
        let m = DataBlock::of_bytes(p);
        lemma_placed_is_true(w, src, m.slice_no);
        lemma_placed(w, m.slice_no);
        if let Place::At(i) = w.place(m.slice_no) {
            let u = w.placed(m.slice_no, i as int);
            lemma_data_is_true(u, src, i as int, m, p.skip(16));
            let x = effect_of(w, p).world;
            assert(x == u.data_for(i as int, m, p.skip(16)).world);
            if !done(v.completed, no) {
                assert(v.slices[i as int] == x.slices[i as int]);
            }
        }
    }
}

/// A slice is complete as soon as each of its blocks is there.
pub proof fn law_blocks_make_a_slice(w: World, src: Source, no: int)
    requires
        faithful(w, src),
        0 <= no < src.slices.len(),
        forall|b: int|
            0 <= b < nr_blocks(src.slices[no].len() as int, w.block_size) ==> #[trigger] has_block(
                w,
                no,
                b,
            ),
    ensures
        done(w.completed, no),
{
    let source = src.slices[no];
    let n = nr_blocks(source.len() as int, w.block_size);
    lemma_blocks(source.len() as int, w.block_size);
    assert(has_block(w, no, 0));
    if !done(w.completed, no) {
        let i = choose|i: int|
            0 <= i < 8 && (#[trigger] w.slices[i]).state == RxState::Receiving
                && w.slices[i].slice_no == no && w.slices[i].have.contains(0);
        let s = w.slices[i];
        assert(w.slot_ok(i));
        assert(w.holds(i));
        assert(carries(w, src, i));
        assert(unfinished(w, i));
        let all = vstd::set_lib::set_int_range(0, n);
        vstd::set_lib::lemma_int_range(0, n);
        assert forall|b: int| all.contains(b) implies s.have.contains(b) by {
            assert(has_block(w, no, b));
            let j = choose|j: int|
                0 <= j < 8 && (#[trigger] w.slices[j]).state == RxState::Receiving
                    && w.slices[j].slice_no == no && w.slices[j].have.contains(b);
            if j < i {
                assert(w.slices[j].slice_no != w.slices[i].slice_no);
            } else if i < j {
                assert(w.slices[i].slice_no != w.slices[j].slice_no);
            }
        }
        lemma_have_finite(s.have);
        vstd::set_lib::lemma_len_subset(all, s.have);
    }
}

/// Slices are handed over as soon as all before them are complete.
pub proof fn law_complete_slices_are_handed_over(w: World, k: int)
    requires
        w.ok(),
        forall|j: int| 0 <= j < k ==> #[trigger] done(w.completed, j),
        w.end matches Some(e) ==> k <= e,
    ensures
        w.next >= k,
{
    if w.next < k {
        assert(done(w.completed, w.next));
        assert(w.waits(w.next));
        let i = choose|i: int|
            0 <= i < 8 && (#[trigger] w.slices[i]).state == RxState::Done && w.slices[i].slice_no
                == w.next;
        assert(w.is_ready(i));
    }
}

/// The slices that a sender can have in flight all have their place: where every slice
/// up to the third before `no` is complete, slice `no` can be begun, as soon as the
/// disk has left memory for three slices.
pub proof fn law_slices_in_flight_have_their_place(w: World, no: i32)
    requires
        w.ok(),
        no >= 0,
        !done(w.completed, no as int),
        forall|j: int| 0 <= j <= no - 3 ==> #[trigger] done(w.completed, j),
        w.end matches Some(e) ==> no <= e,
        3 * w.slice_room() <= w.ring.len(),
    ensures
        w.place(no) is At || w.place(no) is NeedMemory,
        3 * w.slice_room() <= w.free.waiting ==> w.place(no) is At,
{
    let room = w.slice_room();
    let a = no - w.next;
    law_complete_slices_are_handed_over(w, no - 2);
    if no < w.next {
        assert(done(w.completed, no as int));
    }
    assert((a + 1) * room <= 3 * room) by (nonlinear_arith)
        requires
            0 <= a <= 2,
            0 <= room,
    ;
    if w.located(no) is None {
        law_there_is_a_place(w, no);
    }
}

/// Whether block `b` of slice `no` arrived in the first `k` events.
pub open spec fn arrived(w: World, events: Seq<Event>, k: nat, no: int, b: int) -> bool {
    exists|j: nat| j < k && arrives(#[trigger] course(w, events, j), events[j as int], no, b)
}

/// What arrived is there.
pub proof fn lemma_arrived(w: World, src: Source, events: Seq<Event>, k: nat, no: int, b: int)
    requires
        faithful(w, src),
        k <= events.len(),
        forall|j: nat| j < k ==> possible(#[trigger] course(w, events, j), src, events[j as int]),
        arrived(w, events, k, no, b),
    ensures
        has_block(course(w, events, k), no, b),
    decreases k,
{
    let m = (k - 1) as nat;
    let v = course(w, events, m);
    law_file_arrives_intact(w, src, events, m);
    assert(possible(course(w, events, m), src, events[m as int]));
    if arrived(w, events, m, no, b) {
        lemma_arrived(w, src, events, m, no, b);
    } else {
        let j = choose|j: nat|
            j < k && arrives(#[trigger] course(w, events, j), events[j as int], no, b);
        assert(j == m) by {
            if j < m {
                assert(arrives(course(w, events, j), events[j as int], no, b));
            }
        }
    }
    law_arrived_blocks_are_kept(v, src, events[k - 1], no, b);
}

/// Reliable delivery: once each block of each slice arrived, however often it was
/// lost before, the whole file went to the disk or waits for it, in order and with no
/// other byte.
pub proof fn law_file_arrives_whole(w: World, src: Source, events: Seq<Event>, k: nat)
    requires
        faithful(w, src),
        k <= events.len(),
        forall|j: nat| j < k ==> possible(#[trigger] course(w, events, j), src, events[j as int]),
        forall|no: int, b: int|
            w.next <= no < src.slices.len() && 0 <= b < nr_blocks(
                src.slices[no].len() as int,
                w.block_size,
            ) ==> #[trigger] arrived(w, events, k, no, b),
    ensures
        ({
            let v = course(w, events, k);
            &&& v.next == src.slices.len()
            &&& on_disk(w, events, k) + v.pipe().queued() == w.pipe().queued() + src.joined(
                w.next,
                src.slices.len() as int,
            )
        }),
{
    let v = course(w, events, k);
    law_file_arrives_intact(w, src, events, k);
    assert forall|no: int| 0 <= no < src.slices.len() implies #[trigger] done(
        v.completed,
        no,
    ) by {
        if no < w.next {
            assert(done(w.completed, no));
        } else {
            assert forall|b: int|
                0 <= b < nr_blocks(src.slices[no].len() as int, v.block_size) implies
                #[trigger] has_block(v, no, b) by {
                assert(arrived(w, events, k, no, b));
                lemma_arrived(w, src, events, k, no, b);
            }
            law_blocks_make_a_slice(v, src, no);
        }
    }
    law_complete_slices_are_handed_over(v, src.slices.len() as int);
}

/// The transfer ends once the end is known and every slice before it is complete:
/// all of them are handed over then, and the writer is told.
pub proof fn law_transfer_ends(w: World, e: int)
    requires
        w.ok(),
        w.end == Some(e),
        forall|j: int| 0 <= j < e ==> #[trigger] done(w.completed, j),
    ensures
        w.next == e,
        w.at_end(),
        w.ended().end_reached,
        !w.end_reached ==> w.ended().data.at_end,
{
    law_complete_slices_are_handed_over(w, e);
}

/// The sender's question about the end is never forgotten: with every slice handed
/// over the transfer ends with it, and before that it ends with the last slice.
pub proof fn law_end_is_remembered(w: World, src: Source, p: Seq<u8>)
    requires
        faithful(w, src),
        genuine(src, w.block_size, p),
        w.end is Some || (p.len() >= 16 && u16_at(p, 0) == CMD_REQACK && Reqack::of_bytes(
            p,
        ).slice_no == src.slices.len()),
    ensures
        ({
            let v = effect_of(w, p).world.ended();
            &&& v.end == Some(src.slices.len() as int)
            &&& v.next == src.slices.len() ==> v.end_reached
        }),
{
    law_packets_are_taken_in(w, src, p);
    law_state_stays_consistent(w, p);
    if w.end is None {
        let m = Reqack::of_bytes(p);
        lemma_located(w, m.slice_no);
        if let Some(i) = w.located(m.slice_no) {
            assert(w.slot_ok(i));
            if w.slices[i].slice_no >= w.next {
                assert(w.holds(i));
                assert(carries(w, src, i));
            }
        }
        assert(!done(w.completed, m.slice_no as int)) by {
            if done(w.completed, m.slice_no as int) {
                assert(w.waits(m.slice_no as int));
                let i = choose|i: int|
                    0 <= i < 8 && (#[trigger] w.slices[i]).state == RxState::Done
                        && w.slices[i].slice_no == m.slice_no;
                assert(w.holds(i));
                assert(carries(w, src, i));
            }
        }
        assert(proper(w, p));
    }
}

/// An incomplete file is never reported as complete: the writer is told of the end
/// only when the end marker came and every slice before it was handed over.
pub proof fn law_incomplete_file_is_never_ended(w: World, p: Seq<u8>)
    requires
        w.ok(),
        !w.data.at_end,
    ensures
        ({
            let v = effect_of(w, p).world.ended();
            v.data.at_end ==> v.end == Some(v.next) && forall|j: int|
                0 <= j < v.next ==> #[trigger] done(v.completed, j)
        }),
{
    law_state_stays_consistent(w, p);
}

/// To a question about a slice that is complete the answer is that it is there, and
/// nothing is asked for again.
pub proof fn law_delivered_slices_are_confirmed(w: World, m: Reqack)
    requires
        done(w.completed, m.slice_no as int),
    ensures
        w.reqack_received(m).answers == seq![AnswerModel::Complete { slice_no: m.slice_no }],
        w.reqack_received(m).world == w,
{
}

/// To a question about a slice of which nothing is there yet, such as one that was
/// only seen before the transfer began here, the answer is that all of it misses.
pub proof fn law_new_slices_are_asked_for_as_a_whole(w: World, m: Reqack)
    requires
        w.ok(),
        m.slice_no >= 0,
        m.bytes > 0,
        !done(w.completed, m.slice_no as int),
        w.located(m.slice_no) matches Some(i) ==> w.slices[i].have == Set::<int>::empty(),
        w.place(m.slice_no) != Place::NeedMemory,
        w.place(m.slice_no) != Place::Nowhere,
    ensures
        w.reqack_received(m).answers == seq![
            AnswerModel::Missing {
                slice_no: m.slice_no,
                rxmit: m.rxmit,
                have: Set::<int>::empty(),
            },
        ],
        w.reqack_received(m).world.completed == w.completed,
{
    let bs = w.block_size;
    let k = nr_blocks(m.bytes as int, bs);
    lemma_placed(w, m.slice_no);
    vstd::arithmetic::div_mod::lemma_div_is_ordered(bs, m.bytes + bs - 1, bs);
    vstd::arithmetic::div_mod::lemma_div_by_self(bs);
    assert(Set::<int>::empty().intersect(numbers_below(k)) =~= Set::<int>::empty());
}

/// Slices in flight together have their memory to themselves, each enough for the
/// largest slice.
pub proof fn law_slices_in_flight_are_apart(w: World, i: int, j: int, x: int, y: int)
    requires
        w.ok(),
        0 <= i < 8,
        0 <= j < 8,
        i != j,
        w.slices[i].state == RxState::Receiving,
        w.slices[j].state == RxState::Receiving,
        0 <= x < w.block_size * 1024,
        0 <= y < w.block_size * 1024,
    ensures
        (w.slices[i].base + x) % (w.ring.len() as int) != (w.slices[j].base + y) % (
        w.ring.len() as int),
{
    assert(w.slot_ok(i) && w.slot_ok(j));
    assert(spot(w.slices[i].base, x, w.ring.len() as int) != spot(
        w.slices[j].base,
        y,
        w.ring.len() as int,
    ));
}

/// A slice that is begun while another is in flight gets a place and memory of its own:
/// the two share no byte of the ring.
pub proof fn law_new_slice_has_its_own_memory(w: World, i: int, no: i32, x: int, y: int)
    requires
        w.ok(),
        0 <= i < 8,
        w.slices[i].state == RxState::Receiving,
        no >= 0,
        !done(w.completed, no as int),
        w.located(no) is None,
        w.place(no) is At,
        0 <= x < w.block_size * 1024,
        0 <= y < w.block_size * 1024,
    ensures
        ({
            let j = w.place(no)->At_0 as int;
            let v = w.opened(j, no);
            &&& 0 <= j < 8
            &&& i != j
            &&& v.ok()
            &&& v.slices[i] == w.slices[i]
            &&& v.slices[j].slice_no == no
            &&& (v.slices[i].base + x) % (w.ring.len() as int) != (v.slices[j].base + y) % (
            w.ring.len() as int)
        }),
{
    let j = w.place(no)->At_0 as int;
    lemma_placed(w, no);
    lemma_slot(w);
    law_slices_in_flight_are_apart(w.opened(j, no), i, j, x, y);
}

/// A receiver begins faithful: it knows nothing but the sizes of the slices that it
/// saw before.
pub proof fn law_receiver_begins_faithful(
    config: ClientConfig,
    block_size: int,
    fifo: Fifo,
    src: Source,
    n: nat,
)
    requires
        fifo.wf(),
        receivable(config, block_size, fifo),
        src.ok(block_size),
        config.completed_slices@.len() <= src.slices.len(),
        n <= config.late_slices@.len(),
        forall|k: int|
            0 <= k < config.late_slices@.len() && (#[trigger] config.late_slices@[k]).1 != 0
                && slice_like(config.late_slices@[k].0, config.late_slices@[k].1, block_size) ==> {
                &&& config.late_slices@[k].0 < src.slices.len()
                &&& config.late_slices@[k].1 == src.slices[config.late_slices@[k].0 as int].len()
            },
    ensures
        faithful(first_world(config, block_size, fifo).seeded(config.late_slices@, n), src),
        first_world(config, block_size, fifo).seeded(config.late_slices@, n).block_size
            == block_size,
    decreases n,
{
    let w = first_world(config, block_size, fifo);
    let late = config.late_slices@;
    if n == 0 {
        lemma_first_world(config, block_size, fifo);
        assert forall|i: int| 0 <= i < 8 implies #[trigger] unfinished(w, i) by {
            assert(w.slices[i] == idle_slice());
        }
        assert forall|i: int| 0 <= i < 8 && w.holds(i) implies #[trigger] carries(w, src, i) by {
            assert(w.slices[i] == idle_slice());
        }
    } else {
        let m = (n - 1) as nat;
        law_receiver_begins_faithful(config, block_size, fifo, src, m);
        let v = w.seeded(late, m);
        let (no, bytes, _) = late[n - 1];
        if bytes != 0 && slice_like(no, bytes, block_size) && !done(v.completed, no as int) {
            lemma_placed(v, no);
            lemma_placed_is_true(v, src, no);
            lemma_wait_is_true(v, src, no as int);
            if let Place::At(i) = v.place(no) {
                let u = v.placed(no, i as int);
                let x = u.sized(i as int, bytes as int);
                assert(u.slot_ok(i as int));
                assert(u.holds(i as int));
                assert(carries(u, src, i as int));
                lemma_seeded_slices(w, late, m);
                lemma_touched(u, x, i as int);
                lemma_others_stay(u, x, src, i as int);
                assert(carries(x, src, i as int));
                lemma_loyal(u, x, src, i as int);
                lemma_blocks(bytes as int, block_size);
                assert(u.slices[i as int].have =~= Set::<int>::empty());
                assert(unfinished(x, i as int));
            }
        }
    }
}

/// Of the slices seen before nothing is there.
proof fn lemma_seeded_slices(w: World, list: Seq<(i32, i32, i32)>, n: nat)
    requires
        w.slices == Seq::new(8, |i: int| idle_slice()),
    ensures
        w.seeded(list, n).slices.len() == 8,
        forall|i: int|
            0 <= i < 8 ==> (#[trigger] w.seeded(list, n).slices[i]).stripes == 0 && w.seeded(
                list,
                n,
            ).slices[i].have == Set::<int>::empty(),
    decreases n,
{
    if n > 0 {
        lemma_seeded_slices(w, list, (n - 1) as nat);
        let v = w.seeded(list, (n - 1) as nat);
        lemma_located(v, list[n - 1].0);
        lemma_slot(v);
    }
}

} // verus!
