//! Losses are made good: the sender is told what misses, and sends just that again; and
//! what parity can restore is restored.

use crate::answers::IncomingMsg;
use crate::bitmap::{bits_of, numbers_below};
use crate::fifo::ring_read;
use crate::incoming::{
    done, effect_of, lemma_finished, lemma_located_at, lemma_placed, lemma_settled, lemma_touched,
    slice_like, AnswerModel, Place, World,
};
use crate::netsender::{lemma_slice_at, SenderModel};
use crate::protocol::{DataBlock, FecBlock, Reqack, CMD_DATA, CMD_FEC, CMD_REQACK};
use crate::recvslice::{lemma_recovered, RxModel, RxState};
use crate::senddata::slice_at;
use crate::sendslice::{
    data_packet, fits, law_resent_blocks_are_wanted, law_wanted_blocks_are_resent_twice,
    lemma_block, lemma_blocks, lemma_stripe, nr_blocks, repair_packets, slice_packets, SliceModel,
};
use crate::transfer::{
    arrived, arrives, carries, course, faithful, genuine, has_block,
    law_blocks_make_a_slice, law_data_packets_are_genuine, law_file_arrives_intact,
    law_packets_are_taken_in, lemma_arrived, lemma_have_finite, possible, Event, Source,
};
use crate::wire::u16_at;
use vstd::arithmetic::div_mod::{lemma_fundamental_div_mod, lemma_mod_bound};
use vstd::prelude::*;

verus! {

/// The blocks of a slice are those that begin before its end.
proof fn lemma_block_count(bytes: int, block_size: int, b: int)
    requires
        0 < block_size,
        0 <= bytes <= block_size * 1024,
        0 <= b,
    ensures
        b * block_size < bytes <==> b < nr_blocks(bytes, block_size),
{
    lemma_blocks(bytes, block_size);
    let n = nr_blocks(bytes, block_size);
    if b < n {
        lemma_block(bytes, block_size, b);
    } else {
        assert(b * block_size >= n * block_size) by (nonlinear_arith)
            requires
                b >= n,
                block_size > 0,
        ;
    }
}

/// To a question about a slice that is coming in, the answer tells of each block whether
/// it is there: block `b` is reported as there if and only if it is one of the slice and
/// arrived or was restored. The answer is about this slice and this round. With a block
/// missing, and none beyond the end of the slice, this is the answer, and the slice is
/// not reported as complete.
pub proof fn law_answers_tell_what_is_there(w: World, p: Seq<u8>, i: int, b: int)
    requires
        w.ok(),
        p.len() >= 16,
        u16_at(p, 0) == CMD_REQACK,
        slice_like(Reqack::of_bytes(p).slice_no, Reqack::of_bytes(p).bytes, w.block_size),
        Reqack::of_bytes(p).bytes > 0,
        0 <= i < 8,
        w.slices[i].state == RxState::Receiving,
        w.slices[i].slice_no == Reqack::of_bytes(p).slice_no,
        0 <= b,
    ensures
        ({
            let m = Reqack::of_bytes(p);
            let have = w.slices[i].have;
            let e = effect_of(w, p);
            &&& e.answers.len() > 0
            &&& e.answers[0] matches AnswerModel::Missing { slice_no, rxmit, have: told } ==> {
                &&& e.answers.len() == 1
                &&& slice_no == m.slice_no
                &&& rxmit == m.rxmit
                &&& told.contains(b) <==> have.contains(b) && b * w.block_size < m.bytes
                &&& e.world.slices[i].have == have
                &&& e.world.slices[i].state == RxState::Receiving
                &&& e.world.slices[i].slice_no == m.slice_no
            }
            &&& e.answers[0] matches AnswerModel::Complete { slice_no } ==> slice_no == m.slice_no
            &&& !have.contains(b) && b * w.block_size < m.bytes && (forall|c: int| #[trigger]
                have.contains(c) ==> c * w.block_size < m.bytes) ==> e.answers[0] is Missing
        }),
{
    let m = Reqack::of_bytes(p);
    let s = w.slices[i];
    let bs = w.block_size;
    assert(w.slot_ok(i));
    lemma_located_at(w, i);
    lemma_placed(w, m.slice_no);
    assert(w.place(m.slice_no) == Place::At(i as usize));
    lemma_block_count(m.bytes as int, bs, b);
    let n = nr_blocks(m.bytes as int, bs);
    lemma_blocks(m.bytes as int, bs);
    if !s.have.contains(b) && b * bs < m.bytes && (forall|c: int| #[trigger]
        s.have.contains(c) ==> c * bs < m.bytes) {
        let all = numbers_below(n);
        vstd::set_lib::lemma_int_range(0, n);
        assert(s.have.subset_of(all.remove(b))) by {
            assert forall|c: int| s.have.contains(c) implies all.remove(b).contains(c) by {
                assert(numbers_below(1024).contains(c));
                lemma_block_count(m.bytes as int, bs, c);
            }
        }
        vstd::set_lib::lemma_len_subset(s.have, all.remove(b));
    }
}

/// Packets as they come in.
pub open spec fn deliveries(packets: Seq<Seq<u8>>) -> Seq<Event> {
    Seq::new(packets.len(), |k: int| Event::Packet { p: packets[k] })
}

/// Packet `p` carries block `b` of slice `no`.
pub open spec fn brings(p: Seq<u8>, no: int, b: int) -> bool {
    &&& p.len() >= 16
    &&& u16_at(p, 0) == CMD_DATA
    &&& DataBlock::of_bytes(p).slice_no == no
    &&& DataBlock::of_bytes(p).block_no == b
}

/// The receiver has a place for slice `no`, or has the slice.
pub open spec fn welcomes(w: World, no: int) -> bool {
    done(w.completed, no) || w.place(no as i32) is At
}

/// A slice of which a block is there has a place.
proof fn lemma_has_place(w: World, no: int, b: int)
    requires
        w.ok(),
        0 <= no <= i32::MAX,
        has_block(w, no, b),
    ensures
        welcomes(w, no),
{
    if !done(w.completed, no) {
        let i = choose|i: int|
            0 <= i < 8 && (#[trigger] w.slices[i]).state == RxState::Receiving
                && w.slices[i].slice_no == no && w.slices[i].have.contains(b);
        lemma_located_at(w, i);
    }
}

/// While blocks of one slice come in, the slice has its place.
proof fn lemma_welcome(w: World, src: Source, no: int, packets: Seq<Seq<u8>>, k: nat)
    requires
        faithful(w, src),
        0 <= no < src.slices.len(),
        welcomes(w, no),
        k <= packets.len(),
        forall|j: int|
            0 <= j < packets.len() ==> genuine(src, w.block_size, #[trigger] packets[j]) && (exists|
                b: int,
            | brings(packets[j], no, b)),
    ensures
        faithful(course(w, deliveries(packets), k), src),
        course(w, deliveries(packets), k).block_size == w.block_size,
        welcomes(course(w, deliveries(packets), k), no),
        forall|j: nat|
            j < k ==> possible(
                #[trigger] course(w, deliveries(packets), j),
                src,
                deliveries(packets)[j as int],
            ),
    decreases k,
{
    let events = deliveries(packets);
    if k > 0 {
        let m = (k - 1) as nat;
        lemma_welcome(w, src, no, packets, m);
        let v = course(w, events, m);
        assert(genuine(src, w.block_size, packets[m as int]));
        assert(possible(v, src, events[m as int]));
        assert forall|j: nat| j < k implies possible(
            #[trigger] course(w, events, j),
            src,
            events[j as int],
        ) by {
            if j == m {
            }
        }
        law_file_arrives_intact(w, src, events, k);
        let b = choose|b: int| brings(packets[m as int], no, b);
        assert(arrives(course(w, events, m), events[m as int], no, b));
        assert(arrived(w, events, k, no, b));
        lemma_arrived(w, src, events, k, no, b);
        lemma_has_place(course(w, events, k), no, b);
    } else {
        law_file_arrives_intact(w, src, events, 0);
    }
}

/// Where each block of a slice is there or comes in, the slice is complete in the end.
proof fn lemma_blocks_come_in(w: World, src: Source, no: int, packets: Seq<Seq<u8>>)
    requires
        faithful(w, src),
        0 <= no < src.slices.len(),
        welcomes(w, no),
        forall|j: int|
            0 <= j < packets.len() ==> genuine(src, w.block_size, #[trigger] packets[j]) && (exists|
                b: int,
            | brings(packets[j], no, b)),
        forall|b: int|
            0 <= b < nr_blocks(src.slices[no].len() as int, w.block_size) && !(#[trigger] has_block(
                w,
                no,
                b,
            )) ==> exists|j: int| 0 <= j < packets.len() && brings(#[trigger] packets[j], no, b),
    ensures
        done(course(w, deliveries(packets), packets.len()).completed, no),
{
    let events = deliveries(packets);
    let k = packets.len();
    lemma_welcome(w, src, no, packets, k);
    law_file_arrives_intact(w, src, events, k);
    let v = course(w, events, k);
    assert forall|b: int| 0 <= b < nr_blocks(src.slices[no].len() as int, v.block_size) implies
        #[trigger] has_block(v, no, b) by {
        if has_block(w, no, b) {
            lemma_block_stays(w, src, no, b, events, k);
        } else {
            let j = choose|j: int| 0 <= j < packets.len() && brings(#[trigger] packets[j], no, b);
            lemma_welcome(w, src, no, packets, j as nat);
            assert(arrives(course(w, events, j as nat), events[j], no, b));
            assert(arrived(w, events, k, no, b));
            lemma_arrived(w, src, events, k, no, b);
        }
    }
    law_blocks_make_a_slice(v, src, no);
}

/// What is there stays.
proof fn lemma_block_stays(w: World, src: Source, no: int, b: int, events: Seq<Event>, k: nat)
    requires
        faithful(w, src),
        has_block(w, no, b),
        k <= events.len(),
        forall|j: nat| j < k ==> possible(#[trigger] course(w, events, j), src, events[j as int]),
    ensures
        has_block(course(w, events, k), no, b),
{
    law_file_arrives_intact(w, src, events, k);
    let v = course(w, events, k);
    if !done(w.completed, no) {
        let i = choose|i: int|
            0 <= i < 8 && (#[trigger] w.slices[i]).state == RxState::Receiving
                && w.slices[i].slice_no == no && w.slices[i].have.contains(b);
        assert(w.slices[i].state == RxState::Receiving);
        if !done(v.completed, no) {
            assert(v.slices[i].have.contains(b));
        }
    }
}

/// A slice that is sent without loss is complete: its packets, as they are sent first,
/// are enough, in whatever state the receiver is, as long as it has a place for it.
pub proof fn law_a_slice_without_loss_is_delivered(
    w: World,
    src: Source,
    s: SliceModel,
    ring: Seq<u8>,
)
    requires
        faithful(w, src),
        fits(s.base, s.bytes, w.block_size, ring.len() as int),
        0 <= s.slice_no < src.slices.len(),
        src.slices[s.slice_no as int] == ring_read(ring, s.base, s.bytes as nat),
        welcomes(w, s.slice_no as int),
    ensures
        ({
            let packets = slice_packets(s, ring, w.block_size);
            done(course(w, deliveries(packets), packets.len()).completed, s.slice_no as int)
        }),
{
    let packets = slice_packets(s, ring, w.block_size);
    let no = s.slice_no as int;
    let bs = w.block_size;
    lemma_blocks(s.bytes, bs);
    assert forall|b: int| 0 <= b < nr_blocks(s.bytes, bs) implies brings(
        #[trigger] packets[b],
        no,
        b,
    ) && genuine(src, bs, packets[b]) by {
        lemma_block(s.bytes, bs, b);
        crate::delivery::law_data_packet_tells_all(s, ring, bs, b);
        law_data_packets_are_genuine(src, s, ring, bs, b);
    }
    assert forall|j: int| 0 <= j < packets.len() implies genuine(src, bs, #[trigger] packets[j])
        && (exists|b: int| brings(packets[j], no, b)) by {
        assert(brings(packets[j], no, j));
    }
    assert forall|b: int|
        0 <= b < nr_blocks(src.slices[no].len() as int, bs) && !(#[trigger] has_block(
            w,
            no,
            b,
        )) implies exists|j: int| 0 <= j < packets.len() && brings(#[trigger] packets[j], no, b) by {
        assert(brings(packets[b], no, b));
    }
    lemma_blocks_come_in(w, src, no, packets);
}

/// One round makes losses good: the receiver answers the sender's question, the sender
/// hears the answer, and if what it then sends again comes through, the slice is
/// complete. This holds whatever misses, and for whichever slice.
pub proof fn law_a_round_makes_losses_good(
    w: World,
    src: Source,
    p: Seq<u8>,
    m: SenderModel,
    k: int,
    ring: Seq<u8>,
    cl_no: i32,
    map: [u8; 128],
    rxmit: i32,
)
    requires
        faithful(w, src),
        p.len() >= 16,
        u16_at(p, 0) == CMD_REQACK,
        genuine(src, w.block_size, p),
        0 <= Reqack::of_bytes(p).slice_no < src.slices.len(),
        welcomes(w, Reqack::of_bytes(p).slice_no as int),
        // the sender holds the slice, and is in a new round for it
        slice_at(m.slices, Reqack::of_bytes(p).slice_no) == Some(k),
        fits(m.slices[k].base, m.slices[k].bytes, w.block_size, ring.len() as int),
        src.slices[m.slices[k].slice_no as int] == ring_read(
            ring,
            m.slices[k].base,
            m.slices[k].bytes as nat,
        ),
        m.slices[k].xmitted == Set::<int>::empty(),
        0 <= cl_no < 1024,
        // what it hears is what the receiver answered
        effect_of(w, p).answers.len() > 0 && (effect_of(
            w,
            p,
        ).answers[0] matches AnswerModel::Missing { have, .. } ==> bits_of(map@) == have),
    ensures
        ({
            let no = Reqack::of_bytes(p).slice_no;
            let v = effect_of(w, p).world;
            let n = m.after(IncomingMsg::Retransmit { slice_no: no, cl_no, map, rxmit });
            let s = n.slices[k];
            let packets = repair_packets(
                s,
                ring,
                w.block_size,
                nr_blocks(s.bytes, w.block_size) as nat,
            );
            &&& s.need_rxmit
            &&& done(course(v, deliveries(packets), packets.len()).completed, no as int)
        }),
{
    let q = Reqack::of_bytes(p);
    let no = q.slice_no as int;
    let bs = w.block_size;
    let v = effect_of(w, p).world;
    let n = m.after(IncomingMsg::Retransmit { slice_no: q.slice_no, cl_no, map, rxmit });
    lemma_slice_at(m.slices, q.slice_no);
    let s = n.slices[k];
    let source = src.slices[no];
    law_packets_are_taken_in(w, src, p);
    lemma_blocks(source.len() as int, bs);
    let count = nr_blocks(s.bytes, bs);
    let packets = repair_packets(s, ring, bs, count as nat);
    assert forall|j: int| 0 <= j < packets.len() implies genuine(src, bs, #[trigger] packets[j])
        && (exists|b: int| brings(packets[j], no, b)) by {
        law_resent_blocks_are_wanted(s, ring, bs, count as nat, j);
        let b = choose|b: int|
            0 <= b < count && #[trigger] crate::sendslice::wanted(s, b) && packets[j]
                == data_packet(s, ring, bs, b);
        lemma_block(s.bytes, bs, b);
        crate::delivery::law_data_packet_tells_all(s, ring, bs, b);
        law_data_packets_are_genuine(src, s, ring, bs, b);
        assert(brings(packets[j], no, b));
    }
    lemma_after_question(w, src, p);
    assert forall|b: int| 0 <= b < count && !(#[trigger] has_block(v, no, b)) implies exists|j: int|
        0 <= j < packets.len() && brings(#[trigger] packets[j], no, b) by {
        lemma_told(w, src, p, b);
        assert(crate::sendslice::wanted(s, b));
        law_wanted_blocks_are_resent_twice(s, ring, bs, count as nat, b);
        let d = data_packet(s, ring, bs, b);
        let j = choose|j: int|
            0 <= j < packets.len() - 1 && (#[trigger] packets[j]) == d && packets[j + 1] == d;
        lemma_block(s.bytes, bs, b);
        crate::delivery::law_data_packet_tells_all(s, ring, bs, b);
        assert(brings(packets[j], no, b));
    }
    lemma_blocks_come_in(v, src, no, packets);
}

/// After a question about a slice with a place, the slice has its place.
proof fn lemma_after_question(w: World, src: Source, p: Seq<u8>)
    requires
        faithful(w, src),
        p.len() >= 16,
        u16_at(p, 0) == CMD_REQACK,
        genuine(src, w.block_size, p),
        0 <= Reqack::of_bytes(p).slice_no < src.slices.len(),
        welcomes(w, Reqack::of_bytes(p).slice_no as int),
    ensures
        welcomes(effect_of(w, p).world, Reqack::of_bytes(p).slice_no as int),
        !done(effect_of(w, p).world.completed, Reqack::of_bytes(p).slice_no as int) ==> exists|i: int|
            {
                &&& 0 <= i < 8
                &&& #[trigger] effect_of(w, p).world.slices[i].state == RxState::Receiving
                &&& effect_of(w, p).world.slices[i].slice_no == Reqack::of_bytes(p).slice_no
                &&& effect_of(w, p).answers[0] == (AnswerModel::Missing {
                    slice_no: Reqack::of_bytes(p).slice_no,
                    rxmit: Reqack::of_bytes(p).rxmit,
                    have: effect_of(w, p).world.slices[i].have.intersect(
                        numbers_below(nr_blocks(Reqack::of_bytes(p).bytes as int, w.block_size)),
                    ),
                })
            },
{
    let q = Reqack::of_bytes(p);
    let no = q.slice_no as int;
    let v = effect_of(w, p).world;
    law_packets_are_taken_in(w, src, p);
    if !done(w.completed, no) {
        lemma_placed(w, q.slice_no);
        if let Place::At(i) = w.place(q.slice_no) {
            let u = w.placed(q.slice_no, i as int);
            let x = u.sized(i as int, q.bytes as int);
            assert(u.slot_ok(i as int));
            lemma_touched(u, x, i as int);
            if x.slices[i as int].all_there(w.block_size) {
                lemma_finished(x, i as int);
                lemma_settled(x.finished(i as int));
            } else {
                assert(v == x);
                lemma_located_at(v, i as int);
                assert(v.slices[i as int].state == RxState::Receiving);
            }
        }
    }
}

/// A block that is not there after the question is one that the answer does not tell of.
proof fn lemma_told(w: World, src: Source, p: Seq<u8>, b: int)
    requires
        faithful(w, src),
        p.len() >= 16,
        u16_at(p, 0) == CMD_REQACK,
        genuine(src, w.block_size, p),
        0 <= Reqack::of_bytes(p).slice_no < src.slices.len(),
        welcomes(w, Reqack::of_bytes(p).slice_no as int),
        !has_block(effect_of(w, p).world, Reqack::of_bytes(p).slice_no as int, b),
    ensures
        effect_of(w, p).answers[0] matches AnswerModel::Missing { have, .. } && !have.contains(b),
{
    lemma_after_question(w, src, p);
    let q = Reqack::of_bytes(p);
    let v = effect_of(w, p).world;
    let i = choose|i: int|
        {
            &&& 0 <= i < 8
            &&& #[trigger] v.slices[i].state == RxState::Receiving
            &&& v.slices[i].slice_no == q.slice_no
            &&& effect_of(w, p).answers[0] == (AnswerModel::Missing {
                slice_no: q.slice_no,
                rxmit: q.rxmit,
                have: v.slices[i].have.intersect(
                    numbers_below(nr_blocks(q.bytes as int, w.block_size)),
                ),
            })
        };
    assert(!v.slices[i].have.contains(b));
}

/// The blocks of stripe `stripe` that miss.
pub open spec fn missing_in(s: RxModel, block_size: int, stripe: int) -> Set<int> {
    Set::new(
        |b: int|
            0 <= b && b * block_size < s.bytes && b % s.stripes == stripe && !s.have.contains(b),
    )
}

/// The parity blocks that came for stripe `stripe`: whole blocks, with one of the 128
/// rows that there are.
pub open spec fn parity_in(s: RxModel, block_size: int, stripe: int) -> Set<int> {
    Set::new(
        |k: int|
            {
                &&& 0 <= k < s.fec_nos.len()
                &&& s.fec_nos[k] as int % s.stripes == stripe
                &&& s.fec_nos[k] < 128 * s.stripes
                &&& s.fec_blocks[k].len() >= block_size
            },
    )
}

/// There is enough parity: for each stripe as many parity blocks came as blocks of it
/// miss, none of them twice where any block misses; and no stripe has more than 128
/// blocks.
pub open spec fn enough_parity(s: RxModel, block_size: int) -> bool {
    &&& s.stripes > 0
    &&& s.bytes <= 128 * s.stripes * block_size
    &&& forall|stripe: int|
        0 <= stripe < s.stripes ==> (#[trigger] missing_in(s, block_size, stripe)).len()
            <= parity_in(s, block_size, stripe).len()
    &&& forall|stripe: int|
        0 <= stripe < s.stripes && (#[trigger] missing_in(s, block_size, stripe)).len() > 0
            ==> no_repeats(s, stripe)
}

/// No parity block of stripe `stripe` came twice.
pub open spec fn no_repeats(s: RxModel, stripe: int) -> bool {
    forall|j: int, k: int|
        0 <= j < k < s.fec_nos.len() && s.fec_nos[j] as int % s.stripes == stripe ==> (
        #[trigger] s.fec_nos[j]) != (#[trigger] s.fec_nos[k])
}

/// A number below 128 rows of stripes has a row below 128.
proof fn lemma_row(no: int, stripes: int)
    requires
        0 < stripes,
        0 <= no,
    ensures
        no < 128 * stripes <==> no / stripes < 128,
        no == stripes * (no / stripes) + no % stripes,
        0 <= no % stripes < stripes,
        0 <= no / stripes,
{
    lemma_fundamental_div_mod(no, stripes);
    lemma_mod_bound(no, stripes);
    vstd::arithmetic::div_mod::lemma_div_pos_is_pos(no, stripes);
    let q = no / stripes;
    assert(no < 128 * stripes <==> q < 128) by (nonlinear_arith)
        requires
            no == stripes * q + no % stripes,
            0 <= no % stripes < stripes,
    ;
}

/// The blocks of stripe `stripe`, among its first `n`, that miss.
spec fn missing_first(s: RxModel, stripe: int, n: nat) -> Set<int> {
    Set::new(
        |b: int| !s.have.contains(b) && exists|j: int| 0 <= j < n && #[trigger] s.at(stripe, j) == b,
    )
}

/// As many places are lost as blocks miss.
proof fn lemma_lost_count(s: RxModel, stripe: int, n: nat)
    requires
        s.stripes > 0,
    ensures
        missing_first(s, stripe, n).finite(),
        missing_first(s, stripe, n).len() == s.lost(stripe, n).len(),
    decreases n,
{
    if n == 0 {
        assert(missing_first(s, stripe, 0) =~= Set::<int>::empty());
    } else {
        let m = (n - 1) as nat;
        lemma_lost_count(s, stripe, m);
        let b = s.at(stripe, n - 1);
        let before = missing_first(s, stripe, m);
        let all = missing_first(s, stripe, n);
        assert forall|j: int| 0 <= j < m implies #[trigger] s.at(stripe, j) != b by {
            assert(j * s.stripes < (n - 1) * s.stripes) by (nonlinear_arith)
                requires
                    j < n - 1,
                    s.stripes > 0,
            ;
        }
        assert(!before.contains(b));
        assert forall|x: int| all.contains(x) <==> before.contains(x) || (x == b
            && !s.have.contains(b)) by {
            if all.contains(x) {
                let j = choose|j: int| 0 <= j < n && #[trigger] s.at(stripe, j) == x;
                if j < m {
                    assert(s.at(stripe, j) == x);
                }
            }
            if before.contains(x) {
                let j = choose|j: int| 0 <= j < m && #[trigger] s.at(stripe, j) == x;
                assert(s.at(stripe, j) == x);
            }
            if x == b {
                assert(s.at(stripe, n - 1) == x);
            }
        }
        if s.have.contains(b) {
            assert(all =~= before);
        } else {
            assert(all =~= before.insert(b));
        }
    }
}

/// The parity blocks of use for stripe `stripe`, among the first `n` that came.
spec fn parity_first(s: RxModel, block_size: int, stripe: int, n: int) -> Set<int> {
    Set::new(|k: int| 0 <= k < n && parity_in(s, block_size, stripe).contains(k))
}

/// Parity block `k` is one of stripe `stripe`, of row `row`.
spec fn of_row(s: RxModel, stripe: int, k: int, row: int) -> bool {
    &&& s.fec_nos[k] as int % s.stripes == stripe
    &&& s.fec_nos[k] as int / s.stripes == row
    &&& row < 128
}

/// One of the first `n` parity blocks is of stripe `stripe` and row `row`.
spec fn has_row(s: RxModel, stripe: int, n: int, row: int) -> bool {
    exists|k: int| 0 <= k < n && of_row(s, stripe, k, row)
}

/// There are as many rows as parity blocks of use, and no row twice.
proof fn lemma_row_count(s: RxModel, block_size: int, stripe: int, n: nat)
    requires
        s.paired(),
        s.stripes > 0,
        n <= s.fec_nos.len(),
        no_repeats(s, stripe),
    ensures
        parity_first(s, block_size, stripe, n as int).finite(),
        parity_first(s, block_size, stripe, n as int).len() == s.parity_rows(
            block_size,
            stripe,
            n,
        ).len(),
        s.parity_rows(block_size, stripe, n).no_duplicates(),
        forall|a: int|
            0 <= a < s.parity_rows(block_size, stripe, n).len() ==> has_row(
                s,
                stripe,
                n as int,
                (#[trigger] s.parity_rows(block_size, stripe, n)[a]) as int,
            ),
    decreases n,
{
    if n == 0 {
        assert(parity_first(s, block_size, stripe, 0) =~= Set::<int>::empty());
    } else {
        let m = (n - 1) as nat;
        lemma_row_count(s, block_size, stripe, m);
        let before = parity_first(s, block_size, stripe, m as int);
        let all = parity_first(s, block_size, stripe, n as int);
        let no = s.fec_nos[n - 1] as int;
        let head = s.parity_rows(block_size, stripe, m);
        let rows = s.parity_rows(block_size, stripe, n);
        lemma_row(no, s.stripes);
        if s.serves(block_size, stripe, n - 1) {
            assert(all =~= before.insert(n - 1));
            let row = (no / s.stripes) as u32;
            assert(rows == head.push(row));
            assert(row == no / s.stripes);
            assert forall|a: int| 0 <= a < head.len() implies head[a] != row by {
                if head[a] == row {
                    assert(has_row(s, stripe, m as int, head[a] as int));
                    let k = choose|k: int| 0 <= k < m && of_row(s, stripe, k, head[a] as int);
                    lemma_row(s.fec_nos[k] as int, s.stripes);
                    assert(s.fec_nos[k] == s.fec_nos[n - 1]);
                }
            }
            assert forall|a: int| 0 <= a < rows.len() implies has_row(
                s,
                stripe,
                n as int,
                (#[trigger] rows[a]) as int,
            ) by {
                if a < head.len() {
                    assert(rows[a] == head[a]);
                    let k = choose|k: int| 0 <= k < m && of_row(s, stripe, k, head[a] as int);
                    assert(of_row(s, stripe, k, rows[a] as int));
                } else {
                    assert(of_row(s, stripe, n - 1, rows[a] as int));
                }
            }
        } else {
            assert(all =~= before);
            assert(rows == head);
            assert forall|a: int| 0 <= a < rows.len() implies has_row(
                s,
                stripe,
                n as int,
                (#[trigger] rows[a]) as int,
            ) by {
                let k = choose|k: int| 0 <= k < m && of_row(s, stripe, k, head[a] as int);
                assert(of_row(s, stripe, k, rows[a] as int));
            }
        }
    }
}

/// Block `b` stands at place `b / stripes` of stripe `b % stripes`.
proof fn lemma_at(s: RxModel, block_size: int, stripe: int, j: int, b: int)
    requires
        0 < block_size,
        0 <= s.bytes <= block_size * 1024,
        0 <= stripe < s.stripes,
    ensures
        0 <= j < s.stripe_size(block_size, stripe) ==> {
            &&& 0 <= s.at(stripe, j) < nr_blocks(s.bytes, block_size)
            &&& s.at(stripe, j) % s.stripes == stripe
        },
        0 <= b < nr_blocks(s.bytes, block_size) && b % s.stripes == stripe ==> {
            &&& 0 <= b / s.stripes < s.stripe_size(block_size, stripe)
            &&& s.at(stripe, b / s.stripes) == b
        },
{
    lemma_blocks(s.bytes, block_size);
    let n = nr_blocks(s.bytes, block_size);
    if 0 <= j {
        lemma_stripe(n, s.stripes, stripe, j);
        assert(0 <= j * s.stripes) by (nonlinear_arith)
            requires
                0 <= j,
                0 < s.stripes,
        ;
        vstd::arithmetic::div_mod::lemma_mod_multiples_vanish(j, stripe, s.stripes);
        assert(s.stripes * j + stripe == stripe + j * s.stripes) by (nonlinear_arith);
        vstd::arithmetic::div_mod::lemma_small_mod(stripe as nat, s.stripes as nat);
    }
    if 0 <= b < n && b % s.stripes == stripe {
        lemma_row(b, s.stripes);
        let q = b / s.stripes;
        assert(q * s.stripes == s.stripes * q) by (nonlinear_arith);
        lemma_stripe(n, s.stripes, stripe, q);
    }
}

/// With enough parity, the blocks of the first `n` stripes are there after these were
/// repaired, and those of the others are as before.
proof fn lemma_stripes_restored(s: RxModel, block_size: int, n: nat)
    requires
        0 < block_size,
        0 <= s.bytes <= block_size * 1024,
        s.paired(),
        enough_parity(s, block_size),
        n <= s.stripes,
    ensures
        forall|b: int|
            0 <= b < nr_blocks(s.bytes, block_size) && b % s.stripes < n
                ==> #[trigger] s.recovered(block_size, n).have.contains(b),
        forall|b: int|
            b % s.stripes >= n ==> (#[trigger] s.recovered(block_size, n).have.contains(b)
                <==> s.have.contains(b)),
    decreases n,
{
    if n == 0 {
        assert forall|b: int| 0 <= b < nr_blocks(s.bytes, block_size) && b % s.stripes < 0 implies
            #[trigger] s.recovered(block_size, 0).have.contains(b) by {
            lemma_mod_bound(b, s.stripes);
        }
    } else {
        let m = (n - 1) as nat;
        let t = n - 1;
        lemma_stripes_restored(s, block_size, m);
        lemma_recovered(s, Seq::empty(), block_size, m);
        let r = s.recovered(block_size, m);
        let q = s.recovered(block_size, n);
        let size = r.stripe_size(block_size, t);
        let lost = r.lost(t, size);
        let total = s.fec_nos.len();
        let rows = r.parity_rows(block_size, t, total);
        lemma_blocks(s.bytes, block_size);
        // no more are lost than miss
        lemma_lost_count(r, t, size);
        let mine = missing_first(r, t, size);
        let theirs = missing_in(s, block_size, t);
        assert forall|b: int| mine.contains(b) implies theirs.contains(b) by {
            let j = choose|j: int| 0 <= j < size && #[trigger] r.at(t, j) == b;
            lemma_at(r, block_size, t, j, b);
            lemma_block_count(s.bytes, block_size, b);
        }
        assert(theirs.subset_of(numbers_below(1024))) by {
            assert forall|b: int| theirs.contains(b) implies numbers_below(1024).contains(b) by {
                lemma_block_count(s.bytes, block_size, b);
            }
        }
        vstd::set_lib::lemma_int_range(0, 1024);
        vstd::set_lib::lemma_set_subset_finite(numbers_below(1024), theirs);
        vstd::set_lib::lemma_len_subset(mine, theirs);
        // and there are as many rows as came
        if lost.len() > 0 {
            assert(no_repeats(s, t));
            assert(no_repeats(r, t));
            lemma_row_count(r, block_size, t, total);
            let came = parity_in(s, block_size, t);
            assert(parity_first(r, block_size, t, total as int) =~= came);
            assert(lost.len() <= rows.len());
        }
        // no stripe is too long
        assert(size <= 128) by {
            assert(nr_blocks(s.bytes, block_size) <= 128 * s.stripes) by {
                let c = 128 * s.stripes;
                lemma_block_count(s.bytes, block_size, c);
            }
            lemma_stripe(nr_blocks(s.bytes, block_size), s.stripes, t, 0);
        }
        assert(lost.len() > 0 ==> rows.take(lost.len() as int).no_duplicates()) by {
            assert forall|i: int, j: int|
                0 <= i < lost.len() && 0 <= j < lost.len() && i != j implies rows.take(
                lost.len() as int,
            )[i] != rows.take(lost.len() as int)[j] by {
                assert(rows[i] != rows[j]);
            }
        }
        assert forall|b: int|
            0 <= b < nr_blocks(s.bytes, block_size) && b % s.stripes < n implies
            #[trigger] q.have.contains(b) by {
            if b % s.stripes == t {
                lemma_at(r, block_size, t, 0, b);
                assert(r.at(t, b / s.stripes) == b);
                if lost.len() == 0 {
                    if !r.have.contains(b) {
                        assert(mine.contains(b));
                        assert(mine =~= Set::<int>::empty());
                    }
                } else {
                    assert(r.repairable(block_size, t));
                }
            } else {
                assert(r.have.contains(b));
            }
        }
        assert forall|b: int| b % s.stripes >= n implies (#[trigger] q.have.contains(b)
            <==> s.have.contains(b)) by {
            assert(r.have.contains(b) <==> s.have.contains(b));
            if q.have.contains(b) && !r.have.contains(b) {
                let j = choose|j: int| 0 <= j < size && #[trigger] r.at(t, j) == b;
                lemma_at(r, block_size, t, j, b);
            }
        }
    }
}

/// The blocks of the first `n` stripes that miss.
spec fn missing_below(s: RxModel, block_size: int, n: int) -> Set<int> {
    Set::new(
        |b: int| 0 <= b && b * block_size < s.bytes && b % s.stripes < n && !s.have.contains(b),
    )
}

/// The parity blocks that came for the first `n` stripes.
spec fn parity_below(s: RxModel, block_size: int, n: int) -> Set<int> {
    Set::new(
        |k: int|
            {
                &&& 0 <= k < s.fec_nos.len()
                &&& s.fec_nos[k] as int % s.stripes < n
                &&& s.fec_nos[k] < 128 * s.stripes
                &&& s.fec_blocks[k].len() >= block_size
            },
    )
}

/// With enough parity, altogether as many parity blocks came as blocks miss.
proof fn lemma_parity_total(s: RxModel, block_size: int, n: nat)
    requires
        0 < block_size,
        0 <= s.bytes <= block_size * 1024,
        enough_parity(s, block_size),
        n <= s.stripes,
    ensures
        missing_below(s, block_size, n as int).finite(),
        parity_below(s, block_size, n as int).finite(),
        missing_below(s, block_size, n as int).len() <= parity_below(s, block_size, n as int).len(),
    decreases n,
{
    if n == 0 {
        assert(missing_below(s, block_size, 0) =~= Set::<int>::empty()) by {
            assert forall|b: int| !missing_below(s, block_size, 0).contains(b) by {
                lemma_mod_bound(b, s.stripes);
            }
        }
        assert(parity_below(s, block_size, 0) =~= Set::<int>::empty()) by {
            assert forall|k: int| !parity_below(s, block_size, 0).contains(k) by {
                lemma_mod_bound(s.fec_nos[k] as int, s.stripes);
            }
        }
    } else {
        let t = n - 1;
        lemma_parity_total(s, block_size, t as nat);
        let a = missing_below(s, block_size, t);
        let b = missing_in(s, block_size, t);
        let c = parity_below(s, block_size, t);
        let d = parity_in(s, block_size, t);
        assert(b.subset_of(numbers_below(1024))) by {
            assert forall|x: int| b.contains(x) implies numbers_below(1024).contains(x) by {
                lemma_block_count(s.bytes, block_size, x);
                lemma_blocks(s.bytes, block_size);
            }
        }
        vstd::set_lib::lemma_int_range(0, 1024);
        vstd::set_lib::lemma_set_subset_finite(numbers_below(1024), b);
        let len = s.fec_nos.len() as int;
        vstd::set_lib::lemma_int_range(0, len);
        assert(d.subset_of(numbers_below(len)));
        vstd::set_lib::lemma_set_subset_finite(numbers_below(len), d);
        assert(missing_below(s, block_size, n as int) =~= a.union(b));
        assert(parity_below(s, block_size, n as int) =~= c.union(d));
        vstd::set_lib::lemma_set_disjoint_lens(a, b);
        vstd::set_lib::lemma_set_disjoint_lens(c, d);
    }
}

/// With enough parity a slice of known size is complete as soon as it is looked at, and
/// the sender is told.
pub proof fn law_enough_parity_completes_a_slice(w: World, i: int)
    requires
        w.ok(),
        0 <= i < 8,
        w.slices[i].state == RxState::Receiving,
        w.slices[i].bytes_known,
        w.slices[i].bytes > 0,
        enough_parity(w.slices[i], w.block_size),
    ensures
        w.checked(i).answers == seq![
            AnswerModel::Complete { slice_no: w.slices[i].slice_no },
        ],
        done(w.checked(i).world.completed, w.slices[i].slice_no as int),
{
    let s = w.slices[i];
    let bs = w.block_size;
    assert(w.slot_ok(i));
    lemma_blocks(s.bytes, bs);
    let n = nr_blocks(s.bytes, bs);
    let all = numbers_below(n);
    vstd::set_lib::lemma_int_range(0, n);
    vstd::set_lib::lemma_int_range(0, 1024);
    vstd::set_lib::lemma_set_subset_finite(numbers_below(1024), s.have);
    if s.all_there(bs) {
        lemma_finished(w, i);
        lemma_settled(w.finished(i));
    } else {
        lemma_parity_total(s, bs, s.stripes as nat);
        let miss = missing_below(s, bs, s.stripes);
        let came = parity_below(s, bs, s.stripes);
        let len = s.fec_nos.len() as int;
        vstd::set_lib::lemma_int_range(0, len);
        assert(came.subset_of(numbers_below(len)));
        vstd::set_lib::lemma_len_subset(came, numbers_below(len));
        assert(all.subset_of(miss.union(s.have))) by {
            assert forall|b: int| all.contains(b) implies miss.union(s.have).contains(b) by {
                lemma_block_count(s.bytes, bs, b);
                lemma_mod_bound(b, s.stripes);
            }
        }
        vstd::set_lib::lemma_len_union(miss, s.have);
        vstd::set_lib::lemma_len_subset(all, miss.union(s.have));
        assert(w.worth_a_try(i));
        let v = w.recovered(i);
        lemma_recovered(s, w.ring, bs, s.stripes as nat);
        lemma_stripes_restored(s, bs, s.stripes as nat);
        let r = v.slices[i];
        crate::transfer::lemma_recovered_below(s, bs, s.stripes as nat);
        vstd::set_lib::lemma_set_subset_finite(numbers_below(1024), r.have);
        assert(all.subset_of(r.have)) by {
            assert forall|b: int| all.contains(b) implies r.have.contains(b) by {
                lemma_mod_bound(b, s.stripes);
            }
        }
        vstd::set_lib::lemma_len_subset(all, r.have);
        lemma_touched(w, v, i);
        lemma_finished(v, i);
        lemma_settled(v.finished(i));
    }
}

/// A slice with one more parity block, as a packet brings it.
pub open spec fn with_parity(s: RxModel, m: FecBlock, payload: Seq<u8>) -> RxModel {
    RxModel {
        bytes: if s.bytes_known {
            s.bytes
        } else {
            m.bytes as int
        },
        bytes_known: true,
        stripes: m.stripes as int,
        fec_nos: s.fec_nos.push(m.block_no as u32),
        fec_blocks: s.fec_blocks.push(payload),
        ..s
    }
}

/// A slice with one more block, as a packet brings it.
pub open spec fn with_block(s: RxModel, m: DataBlock) -> RxModel {
    RxModel {
        bytes: m.bytes as int,
        bytes_known: true,
        have: s.have.insert(m.block_no as int),
        ..s
    }
}

/// A parity block that comes in is kept until its slice is complete; and where it makes
/// the parity enough, the slice is complete with it, and the sender is told.
pub proof fn law_parity_is_put_to_use(w: World, i: int, p: Seq<u8>)
    requires
        w.ok(),
        0 <= i < 8,
        w.slices[i].state == RxState::Receiving,
        p.len() >= 16,
        u16_at(p, 0) == CMD_FEC,
        w.slices[i].slice_no == FecBlock::of_bytes(p).slice_no,
        0 < FecBlock::of_bytes(p).bytes <= w.block_size * 1024,
        w.slices[i].bytes_known ==> w.slices[i].bytes > 0,
        FecBlock::of_bytes(p).stripes > 0,
    ensures
        ({
            let m = FecBlock::of_bytes(p);
            let s = with_parity(w.slices[i], m, p.skip(16));
            let e = effect_of(w, p);
            &&& enough_parity(s, w.block_size) ==> {
                &&& e.answers == seq![AnswerModel::Complete { slice_no: m.slice_no }]
                &&& done(e.world.completed, m.slice_no as int)
            }
            &&& done(e.world.completed, m.slice_no as int) || {
                let r = e.world.slices[i];
                &&& r.state == RxState::Receiving
                &&& r.slice_no == m.slice_no
                &&& r.fec_nos == s.fec_nos
                &&& r.fec_blocks == s.fec_blocks
                &&& r.stripes == m.stripes
                &&& r.bytes == s.bytes
                &&& s.have.subset_of(r.have)
            }
        }),
{
    let m = FecBlock::of_bytes(p);
    assert(w.slot_ok(i));
    lemma_located_at(w, i);
    lemma_placed(w, m.slice_no);
    assert(w.place(m.slice_no) == Place::At(i as usize));
    let v = w.kept(i, m, p.skip(16));
    assert(v.slices[i] == with_parity(w.slices[i], m, p.skip(16)));
    lemma_touched(w, v, i);
    if enough_parity(v.slices[i], w.block_size) {
        law_enough_parity_completes_a_slice(v, i);
    }
    lemma_looked_at(v, i);
}

/// A block that comes in while the parity is enough for the others completes its slice,
/// and the sender is told.
pub proof fn law_a_block_may_be_the_last_one_needed(w: World, i: int, p: Seq<u8>)
    requires
        w.ok(),
        0 <= i < 8,
        w.slices[i].state == RxState::Receiving,
        p.len() >= 16,
        u16_at(p, 0) == CMD_DATA,
        w.slices[i].slice_no == DataBlock::of_bytes(p).slice_no,
        0 < DataBlock::of_bytes(p).bytes <= w.block_size * 1024,
        DataBlock::of_bytes(p).block_no < 1024,
        !w.slices[i].have.contains(DataBlock::of_bytes(p).block_no as int),
        enough_parity(with_block(w.slices[i], DataBlock::of_bytes(p)), w.block_size),
    ensures
        effect_of(w, p).answers == seq![
            AnswerModel::Complete { slice_no: DataBlock::of_bytes(p).slice_no },
        ],
        done(effect_of(w, p).world.completed, DataBlock::of_bytes(p).slice_no as int),
{
    let m = DataBlock::of_bytes(p);
    assert(w.slot_ok(i));
    lemma_located_at(w, i);
    lemma_placed(w, m.slice_no);
    assert(w.place(m.slice_no) == Place::At(i as usize));
    let v = w.stored(i, m.block_no as int, m.bytes as int, p.skip(16));
    assert(v.slices[i] == with_block(w.slices[i], m));
    lemma_touched(w, v, i);
    law_enough_parity_completes_a_slice(v, i);
}

/// To look at a slice takes nothing of it away.
proof fn lemma_looked_at(w: World, i: int)
    requires
        w.ok(),
        0 <= i < 8,
        w.slices[i].state == RxState::Receiving,
        w.slices[i].bytes > 0,
    ensures
        done(w.checked(i).world.completed, w.slices[i].slice_no as int) || w.checked(
            i,
        ).world.slices[i] == (RxModel { have: w.checked(i).world.slices[i].have, ..w.slices[i] })
            && w.slices[i].have.subset_of(w.checked(i).world.slices[i].have),
{
    let s = w.slices[i];
    let bs = w.block_size;
    assert(w.slot_ok(i));
    if s.bytes_known {
        if s.all_there(bs) {
            lemma_finished(w, i);
            lemma_settled(w.finished(i));
        } else if w.worth_a_try(i) {
            let v = w.recovered(i);
            lemma_recovered(s, w.ring, bs, s.stripes as nat);
            if v.slices[i].all_there(bs) {
                crate::transfer::lemma_recovered_below(s, bs, s.stripes as nat);
                lemma_touched(w, v, i);
                lemma_finished(v, i);
                lemma_settled(v.finished(i));
            }
        }
    }
}

/// A slice of which each block is there when the sender asks about it is complete from
/// then on, and that is confirmed twice.
pub proof fn law_a_complete_slice_is_confirmed(w: World, m: Reqack, i: int)
    requires
        w.ok(),
        m.slice_no >= 0,
        0 < m.bytes <= w.block_size * 1024,
        0 <= i < 8,
        w.slices[i].state == RxState::Receiving,
        w.slices[i].slice_no == m.slice_no,
        forall|b: int|
            0 <= b && b * w.block_size < m.bytes ==> #[trigger] w.slices[i].have.contains(b),
    ensures
        ({
            let yes = AnswerModel::Complete { slice_no: m.slice_no };
            let e = w.reqack_received(m);
            &&& e.answers == seq![yes, yes]
            &&& done(e.world.completed, m.slice_no as int)
            &&& !e.need_memory
        }),
{
    let s = w.slices[i];
    let n = nr_blocks(m.bytes as int, w.block_size);
    let v = w.sized(i, m.bytes as int);
    assert(w.slot_ok(i));
    lemma_located_at(w, i);
    lemma_blocks(m.bytes as int, w.block_size);
    let all = vstd::set_lib::set_int_range(0, n);
    vstd::set_lib::lemma_int_range(0, n);
    assert forall|b: int| all.contains(b) implies s.have.contains(b) by {
        lemma_block(m.bytes as int, w.block_size, b);
        assert(b * w.block_size < m.bytes);
    }
    lemma_have_finite(s.have);
    vstd::set_lib::lemma_len_subset(all, s.have);
    lemma_touched(w, v, i);
    lemma_finished(v, i);
    lemma_settled(v.finished(i));
}

} // verus!
