//! Sender and receiver together: whatever the network does to packets, what a receiver
//! writes is the front of the file that the sender reads.

use crate::fifo::ring_read;
use crate::incoming::World;
use crate::netsender::{parity_packets, slice_ok, Choice};
use crate::outgoing::{
    begun_by, course, happened, launched, law_file_is_sent_whole, lemma_choice, lemma_event_course,
    possible, read_in, sliced, Event, Outgoing,
};
use crate::protocol::{CMD_DATA, CMD_FEC, CMD_REQACK};
use crate::senddata::{flagged, free_slice_at, request, FLAG_ASYNC, FLAG_FEC};
use crate::sendslice::{
    data_packet, fec_packet, law_resent_blocks_are_wanted, lemma_blocks, nr_blocks, repair_packets,
    slice_packets, SliceModel,
};
use crate::transfer::{
    faithful, genuine, law_data_packets_are_genuine, law_file_arrives_intact,
    law_parity_packets_are_genuine, law_requests_are_genuine, on_disk, Source,
};
use crate::wire::u16_at;
use vstd::prelude::*;

verus! {

/// The slice that the sender would begin next, with `bytes` bytes.
pub open spec fn next_slice(o: Outgoing, bytes: int) -> SliceModel {
    o.sender.fresh(
        free_slice_at(o.sender.slices)->0,
        o.pipe.data.consumed % o.pipe.data.size,
        bytes,
        o.pipe.ring,
    )
}

/// The packets that the sender sends at an event.
pub open spec fn sent_by(o: Outgoing, e: Event) -> Seq<Seq<u8>> {
    let c = o.sender.config;
    let bs = c.block_size as int;
    match e {
        Event::Step => match o.sender.choice() {
            Choice::Retransmit(k) => repair_packets(
                o.sender.pending_slice(k as int),
                o.pipe.ring,
                bs,
                nr_blocks(o.sender.pending_slice(k as int).bytes, bs) as nat,
            ),
            Choice::Ask(k) => seq![request(o.sender.next_round(k as int))],
            Choice::NewSlice => match o.next_bytes() {
                Some(bytes) => slice_packets(next_slice(o, bytes), o.pipe.ring, bs)
                    + parity_packets(c, next_slice(o, bytes)) + seq![request(next_slice(o, bytes))],
                None => Seq::empty(),
            },
            _ => Seq::empty(),
        },
        Event::Silence => seq![request(o.sender.next_round(0))],
        _ => Seq::empty(),
    }
}

/// A sender at the beginning of a file, with settings that the packets can carry;
/// receivers answer.
pub open spec fn begins(o: Outgoing) -> bool {
    let c = o.sender.config;
    &&& o.ok()
    &&& o.sender.pending.len() == 0
    &&& o.sender.slice_no == 0
    &&& !o.sender.at_end
    &&& !flagged(c.flags, FLAG_ASYNC)
    &&& flagged(c.flags, FLAG_FEC) ==> 0 < c.fec_stripes <= 32767 && c.fec_stripes
        * c.fec_redundancy <= 65536
}

/// Every event of the first `m` can be.
pub open spec fn all_possible(o: Outgoing, sends: Seq<Event>, m: nat) -> bool {
    &&& m <= sends.len()
    &&& forall|j: nat| j < m ==> possible(#[trigger] course(o, sends, j), sends[j as int])
}

/// A list without the empty slice at its end.
pub open spec fn filled(list: Seq<Seq<u8>>) -> Seq<Seq<u8>> {
    if list.len() > 0 && list.last().len() == 0 {
        list.drop_last()
    } else {
        list
    }
}

/// The file as the sender cut it in the first `m` events.
pub open spec fn source_at(o: Outgoing, sends: Seq<Event>, m: nat) -> Source {
    Source {
        slices: filled(launched(o, sends, m)),
        stripes: if flagged(o.sender.config.flags, FLAG_FEC) {
            o.sender.config.fec_stripes as int
        } else {
            1
        },
    }
}

/// Slices are numbered as they are launched, and only the last can be empty.
proof fn lemma_numbers(o: Outgoing, sends: Seq<Event>, k: nat)
    requires
        begins(o),
        all_possible(o, sends, k),
    ensures
        ({
            let v = course(o, sends, k);
            let all = launched(o, sends, k);
            &&& v.ok()
            &&& v.sender.slice_no == all.len()
            &&& v.sender.config.flags == o.sender.config.flags
            &&& v.sender.config.block_size == o.sender.config.block_size
            &&& v.sender.config.fec_stripes == o.sender.config.fec_stripes
            &&& v.sender.config.fec_redundancy == o.sender.config.fec_redundancy
            &&& forall|j: int|
                0 <= j < all.len() ==> (#[trigger] all[j]).len() <= o.sender.config.block_size
                    * 1024
            &&& forall|j: int|
                0 <= j < all.len() && (#[trigger] all[j]).len() == 0 ==> v.sender.at_end && j
                    == all.len() - 1
        }),
    decreases k,
{
    law_file_is_sent_whole(o, sends, k);
    if k == 0 {
        assert(launched(o, sends, 0) =~= Seq::<Seq<u8>>::empty());
    } else {
        let m = (k - 1) as nat;
        assert(all_possible(o, sends, m));
        lemma_numbers(o, sends, m);
        let v = course(o, sends, m);
        let e = sends[k - 1];
        assert(possible(course(o, sends, m), sends[m as int]));
        lemma_event_course(v, e);
        assert(course(o, sends, k) == happened(v, e));
        let before = launched(o, sends, m);
        let all = launched(o, sends, k);
        if let Some(bytes) = begun_by(v, e) {
            assert(all == before.push(bytes));
            assert forall|j: int| 0 <= j < all.len() implies (#[trigger] all[j]).len()
                <= o.sender.config.block_size * 1024 && (all[j].len() == 0 ==> j == all.len()
                - 1) by {
                if j < before.len() {
                    assert(all[j] == before[j]);
                }
            }
        } else {
            assert(all == before);
        }
    }
}

/// What was launched stays launched, and after the end nothing is.
proof fn lemma_prefix(o: Outgoing, sends: Seq<Event>, k: nat, m: nat)
    requires
        begins(o),
        all_possible(o, sends, m),
        k <= m,
    ensures
        launched(o, sends, k).len() <= launched(o, sends, m).len(),
        forall|j: int|
            0 <= j < launched(o, sends, k).len() ==> #[trigger] launched(o, sends, m)[j]
                == launched(o, sends, k)[j],
        course(o, sends, k).sender.at_end ==> course(o, sends, m).sender.at_end && launched(
            o,
            sends,
            m,
        ) == launched(o, sends, k),
    decreases m,
{
    if k < m {
        let l = (m - 1) as nat;
        assert(all_possible(o, sends, l));
        lemma_prefix(o, sends, k, l);
        lemma_numbers(o, sends, l);
        let v = course(o, sends, l);
        assert(possible(course(o, sends, l), sends[l as int]));
        lemma_event_course(v, sends[m - 1]);
        assert(course(o, sends, m) == happened(v, sends[m - 1]));
        assert forall|j: int| 0 <= j < launched(o, sends, k).len() implies #[trigger] launched(
            o,
            sends,
            m,
        )[j] == launched(o, sends, k)[j] by {
            assert(launched(o, sends, l)[j] == launched(o, sends, k)[j]);
        }
    }
}

/// A slice in flight is one of the file, or its end.
proof fn lemma_slice_in_file(o: Outgoing, sends: Seq<Event>, k: nat, m: nat, i: int)
    requires
        begins(o),
        all_possible(o, sends, m),
        k <= m,
        0 <= i < course(o, sends, k).sender.pending.len(),
    ensures
        ({
            let v = course(o, sends, k);
            let s = v.sender.pending_slice(i);
            let src = source_at(o, sends, m);
            &&& v.ok()
            &&& src.ok(o.sender.config.block_size as int)
            &&& slice_ok(v.sender.config, s, v.pipe.ring.len() as int)
            &&& v.sender.config.block_size == o.sender.config.block_size
            &&& s.bytes > 0 ==> 0 <= s.slice_no < src.slices.len() && src.slices[s.slice_no as int]
                == ring_read(v.pipe.ring, s.base, s.bytes as nat)
            &&& s.bytes == 0 ==> s.slice_no == src.slices.len()
        }),
{
    let v = course(o, sends, k);
    let s = v.sender.pending_slice(i);
    let all = launched(o, sends, k);
    let more = launched(o, sends, m);
    lemma_slice_in_log(o, sends, k, i);
    lemma_numbers(o, sends, m);
    lemma_prefix(o, sends, k, m);
    lemma_source_ok(o, sends, m);
    let no = s.slice_no as int;
    assert(more[no] == all[no]);
}

/// A slice in flight is one of those launched, with the bytes that it was begun with.
proof fn lemma_slice_in_log(o: Outgoing, sends: Seq<Event>, k: nat, i: int)
    requires
        begins(o),
        all_possible(o, sends, k),
        0 <= i < course(o, sends, k).sender.pending.len(),
    ensures
        ({
            let v = course(o, sends, k);
            let s = v.sender.pending_slice(i);
            let all = launched(o, sends, k);
            &&& v.ok()
            &&& slice_ok(v.sender.config, s, v.pipe.ring.len() as int)
            &&& v.sender.config.block_size == o.sender.config.block_size
            &&& 0 <= s.slice_no < all.len()
            &&& all[s.slice_no as int] == ring_read(v.pipe.ring, s.base, s.bytes as nat)
            &&& s.bytes == 0 ==> s.slice_no == all.len() - 1 && v.sender.at_end
            &&& 0 <= s.bytes
        }),
{
    let v = course(o, sends, k);
    let s = v.sender.pending_slice(i);
    let all = launched(o, sends, k);
    law_file_is_sent_whole(o, sends, k);
    lemma_numbers(o, sends, k);
    assert(v.in_order(i));
    assert(v.sender.pending[i] < 8);
    assert(slice_ok(v.sender.config, s, v.pipe.ring.len() as int));
    let len = v.sender.pending.len();
    assert(v.contents()[i] == all.skip(all.len() - len)[i]);
    assert(all[s.slice_no as int] == v.content(i));
    assert(all[s.slice_no as int].len() == s.bytes);
}

/// The file as the sender cut it is one that can be sent.
proof fn lemma_source_ok(o: Outgoing, sends: Seq<Event>, m: nat)
    requires
        begins(o),
        all_possible(o, sends, m),
    ensures
        source_at(o, sends, m).ok(o.sender.config.block_size as int),
{
    lemma_numbers(o, sends, m);
    let all = launched(o, sends, m);
    let src = source_at(o, sends, m);
    let v = course(o, sends, m);
    assert(v.sender.slice_no <= i32::MAX);
    assert forall|k: int| 0 <= k < src.slices.len() implies 0 < (#[trigger] src.slices[k]).len()
        <= o.sender.config.block_size * 1024 by {
        assert(src.slices[k] == all[k]);
    }
}

/// The request about a slice in flight is genuine, in whatever round.
proof fn lemma_request_is_genuine(
    o: Outgoing,
    sends: Seq<Event>,
    k: nat,
    m: nat,
    i: int,
    s: SliceModel,
)
    requires
        begins(o),
        all_possible(o, sends, m),
        k <= m,
        0 <= i < course(o, sends, k).sender.pending.len(),
        s.slice_no == course(o, sends, k).sender.pending_slice(i).slice_no,
        s.bytes == course(o, sends, k).sender.pending_slice(i).bytes,
    ensures
        genuine(source_at(o, sends, m), o.sender.config.block_size as int, request(s)),
{
    lemma_slice_in_file(o, sends, k, m, i);
    law_requests_are_genuine(
        source_at(o, sends, m),
        s,
        o.sender.config.block_size as int,
    );
}

/// Whatever the sender sends, first or again, is genuine: it carries the file.
pub proof fn law_sender_is_genuine(o: Outgoing, sends: Seq<Event>, k: nat, m: nat, p: Seq<u8>)
    requires
        begins(o),
        all_possible(o, sends, m),
        k < m,
        sent_by(course(o, sends, k), sends[k as int]).contains(p),
    ensures
        genuine(source_at(o, sends, m), o.sender.config.block_size as int, p),
{
    let v = course(o, sends, k);
    let e = sends[k as int];
    let src = source_at(o, sends, m);
    let bs = o.sender.config.block_size as int;
    let n = v.pipe.ring.len() as int;
    assert(all_possible(o, sends, k));
    lemma_numbers(o, sends, k);
    assert(possible(course(o, sends, k), sends[k as int]));
    lemma_choice(v.sender, n);
    let packets = sent_by(v, e);
    let j = choose|j: int| 0 <= j < packets.len() && packets[j] == p;
    match e {
        Event::Step => match v.sender.choice() {
            Choice::Retransmit(i) => {
                let s = v.sender.pending_slice(i as int);
                lemma_slice_in_file(o, sends, k, m, i as int);
                lemma_blocks(s.bytes, bs);
                let blocks = nr_blocks(s.bytes, bs) as nat;
                law_resent_blocks_are_wanted(s, v.pipe.ring, bs, blocks, j);
                let b = choose|b: int|
                    0 <= b < blocks && #[trigger] crate::sendslice::wanted(s, b) && packets[j]
                        == data_packet(s, v.pipe.ring, bs, b);
                law_data_packets_are_genuine(src, s, v.pipe.ring, bs, b);
            },
            Choice::Ask(i) => {
                lemma_request_is_genuine(
                    o,
                    sends,
                    k,
                    m,
                    i as int,
                    v.sender.next_round(i as int),
                );
            },
            Choice::NewSlice => {
                lemma_first_packets(o, sends, k, m, j);
            },
            _ => {},
        },
        Event::Silence => {
            lemma_request_is_genuine(o, sends, k, m, 0, v.sender.next_round(0));
        },
        _ => {},
    }
}

/// The packets of a new slice are genuine.
#[verifier::rlimit(40)]
proof fn lemma_first_packets(o: Outgoing, sends: Seq<Event>, k: nat, m: nat, j: int)
    requires
        begins(o),
        all_possible(o, sends, m),
        k < m,
        sends[k as int] is Step,
        course(o, sends, k).sender.choice() == Choice::NewSlice,
        0 <= j < sent_by(course(o, sends, k), sends[k as int]).len(),
    ensures
        genuine(
            source_at(o, sends, m),
            o.sender.config.block_size as int,
            sent_by(course(o, sends, k), sends[k as int])[j],
        ),
{
    let v = course(o, sends, k);
    let u = course(o, sends, (k + 1) as nat);
    let e = sends[k as int];
    let src = source_at(o, sends, m);
    let c = v.sender.config;
    let bs = c.block_size as int;
    assert(all_possible(o, sends, k));
    assert(all_possible(o, sends, (k + 1) as nat));
    lemma_numbers(o, sends, k);
    lemma_numbers(o, sends, (k + 1) as nat);
    assert(possible(course(o, sends, k), sends[k as int]));
    assert(u == happened(v, e));
    reveal(happened);
    let bytes = v.next_bytes()->0;
    let i = v.sender.pending.len() as int;
    let s = next_slice(v, bytes);
    crate::netsender::lemma_free_slice(v.sender, v.pipe.ring.len() as int);
    assert(u.sender.pending.len() == i + 1);
    assert(u.sender.pending_slice(i) == s);
    assert(u.pipe.ring == v.pipe.ring);
    lemma_slice_in_file(o, sends, (k + 1) as nat, m, i);
    lemma_blocks(s.bytes, bs);
    let data = slice_packets(s, v.pipe.ring, bs);
    let parity = parity_packets(c, s);
    let packets = sent_by(v, e);
    if j < data.len() {
        assert(packets[j] == data_packet(s, v.pipe.ring, bs, j));
        law_data_packets_are_genuine(src, s, v.pipe.ring, bs, j);
    } else if j < data.len() + parity.len() {
        let q = j - data.len();
        assert(packets[j] == fec_packet(s, c.fec_stripes as int, q));
        assert(u.in_order(i));
        assert(u.sender.slices[u.sender.pending[i] as int].fec.len() == c.fec_stripes
            * c.fec_redundancy);
        law_parity_packets_are_genuine(src, s, v.pipe.ring, bs, q);
    } else {
        assert(packets[j] == request(s));
        lemma_request_is_genuine(o, sends, (k + 1) as nat, m, i, s);
    }
}

/// The slices of the file, one behind the other, are what was taken from the front of
/// the data.
proof fn lemma_file(o: Outgoing, sends: Seq<Event>, m: nat)
    requires
        begins(o),
        all_possible(o, sends, m),
    ensures
        source_at(o, sends, m).joined(0, source_at(o, sends, m).slices.len() as int) == sliced(
            o,
            sends,
            m,
        ),
    decreases m,
{
    let src = source_at(o, sends, m);
    let all = launched(o, sends, m);
    lemma_numbers(o, sends, m);
    if m == 0 {
        assert(all =~= Seq::<Seq<u8>>::empty());
    } else {
        let l = (m - 1) as nat;
        assert(all_possible(o, sends, l));
        lemma_file(o, sends, l);
        lemma_numbers(o, sends, l);
        let v = course(o, sends, l);
        let e = sends[m - 1];
        assert(possible(course(o, sends, l), sends[l as int]));
        lemma_event_course(v, e);
        let before = launched(o, sends, l);
        let old = source_at(o, sends, l);
        if let Some(bytes) = begun_by(v, e) {
            assert(all == before.push(bytes));
            assert(old.slices == before) by {
                if before.len() > 0 && before.last().len() == 0 {
                    assert(before[before.len() - 1].len() == 0);
                }
            }
            if bytes.len() == 0 {
                assert(all.drop_last() =~= before);
                assert(bytes =~= Seq::<u8>::empty());
                assert(sliced(o, sends, m) =~= sliced(o, sends, l));
            } else {
                lemma_joined_prefix(old, src, before.len() as int);
                assert(src.slices[before.len() as int] == bytes);
            }
        } else {
            assert(all == before);
            assert(sliced(o, sends, m) =~= sliced(o, sends, l));
        }
    }
}

/// Slices that are the same in two files are joined to the same bytes.
proof fn lemma_joined_prefix(a: Source, b: Source, k: int)
    requires
        0 <= k <= a.slices.len(),
        k <= b.slices.len(),
        forall|j: int| 0 <= j < k ==> #[trigger] a.slices[j] == b.slices[j],
    ensures
        a.joined(0, k) == b.joined(0, k),
    decreases k,
{
    if k > 0 {
        lemma_joined_prefix(a, b, k - 1);
        assert(a.slices[k - 1] == b.slices[k - 1]);
    }
}

/// The first slices of a file are its front.
proof fn lemma_front(src: Source, a: int, b: int)
    requires
        0 <= a <= b,
    ensures
        src.joined(0, a).is_prefix_of(src.joined(0, b)),
    decreases b - a,
{
    if a < b {
        lemma_front(src, a, b - 1);
        let x = src.joined(0, a);
        let y = src.joined(0, b - 1);
        let z = src.joined(0, b);
        assert(x =~= y.subrange(0, x.len() as int));
        assert(y =~= z.subrange(0, y.len() as int));
        assert(x =~= z.subrange(0, x.len() as int));
    } else {
        assert(src.joined(0, a) =~= src.joined(0, b).subrange(0, src.joined(0, a).len() as int));
    }
}

/// Packet `p` was sent in the first `m` events.
pub open spec fn was_sent(o: Outgoing, sends: Seq<Event>, m: nat, p: Seq<u8>) -> bool {
    exists|k: nat| k < m && #[trigger] sent_by(course(o, sends, k), sends[k as int]).contains(p)
}

/// Packet `p` has nothing to do with a transfer.
pub open spec fn is_other(p: Seq<u8>) -> bool {
    p.len() < 16 || (u16_at(p, 0) != CMD_DATA && u16_at(p, 0) != CMD_FEC && u16_at(p, 0)
        != CMD_REQACK)
}

/// What a receiver meets: packets that the sender sent, each as often and as late as
/// the network likes, or others; and the disk takes what there is.
pub open spec fn met(
    o: Outgoing,
    sends: Seq<Event>,
    m: nat,
    w: World,
    e: crate::transfer::Event,
) -> bool {
    match e {
        crate::transfer::Event::Packet { p } => is_other(p) || was_sent(o, sends, m, p),
        crate::transfer::Event::Write { n } => 0 <= n <= w.data.waiting,
    }
}

/// The promise of a transfer: whatever packets of the sender are lost, repeated or
/// delayed, and whatever participants answer, what a receiver wrote and has ready for
/// its disk is at any time the front of the file that the sender read: its first
/// slices, whole and in order. The receiver begins with nothing, or with slices that it
/// saw before.
pub proof fn law_receivers_get_the_file(
    o: Outgoing,
    sends: Seq<Event>,
    m: nat,
    w: World,
    events: Seq<crate::transfer::Event>,
    k: nat,
)
    requires
        begins(o),
        all_possible(o, sends, m),
        faithful(w, source_at(o, sends, m)),
        w.next == 0,
        w.data.waiting == 0,
        w.block_size == o.sender.config.block_size,
        k <= events.len(),
        forall|j: nat|
            j < k ==> met(
                o,
                sends,
                m,
                #[trigger] crate::transfer::course(w, events, j),
                events[j as int],
            ),
    ensures
        ({
            let src = source_at(o, sends, m);
            let v = crate::transfer::course(w, events, k);
            let got = on_disk(w, events, k) + v.pipe().queued();
            let file = o.pipe.queued() + read_in(sends, m);
            &&& faithful(v, src)
            &&& got == src.joined(0, v.next)
            &&& got.is_prefix_of(file)
            &&& v.next == src.slices.len() && course(o, sends, m).pipe.data.waiting == 0 ==> got
                == file
        }),
{
    let src = source_at(o, sends, m);
    lemma_met(o, sends, m, w, events, k);
    law_file_arrives_intact(w, src, events, k);
    let v = crate::transfer::course(w, events, k);
    let got = on_disk(w, events, k) + v.pipe().queued();
    assert(w.pipe().queued() =~= Seq::<u8>::empty());
    assert(got =~= src.joined(0, v.next));
    law_file_is_sent_whole(o, sends, m);
    lemma_file(o, sends, m);
    lemma_front(src, v.next, src.slices.len() as int);
    let u = course(o, sends, m);
    let file = o.pipe.queued() + read_in(sends, m);
    let cut = sliced(o, sends, m);
    assert(file == cut + u.pipe.queued());
    assert(got =~= cut.subrange(0, got.len() as int));
    assert(got =~= file.subrange(0, got.len() as int));
    if v.next == src.slices.len() && u.pipe.data.waiting == 0 {
        assert(got =~= file);
    }
}

/// What a receiver meets is the sender's.
proof fn lemma_met(
    o: Outgoing,
    sends: Seq<Event>,
    m: nat,
    w: World,
    events: Seq<crate::transfer::Event>,
    k: nat,
)
    requires
        begins(o),
        all_possible(o, sends, m),
        w.block_size == o.sender.config.block_size,
        faithful(w, source_at(o, sends, m)),
        k <= events.len(),
        forall|j: nat|
            j < k ==> met(
                o,
                sends,
                m,
                #[trigger] crate::transfer::course(w, events, j),
                events[j as int],
            ),
    ensures
        forall|j: nat|
            j < k ==> crate::transfer::possible(
                #[trigger] crate::transfer::course(w, events, j),
                source_at(o, sends, m),
                events[j as int],
            ),
    decreases k,
{
    if k > 0 {
        let l = (k - 1) as nat;
        let v = crate::transfer::course(w, events, l);
        lemma_met(o, sends, m, w, events, l);
        lemma_same_blocks(w, source_at(o, sends, m), events, l);
        assert(met(o, sends, m, crate::transfer::course(w, events, l), events[l as int]));
        lemma_met_one(o, sends, m, v, events[l as int]);
    }
}

/// Blocks keep their size.
proof fn lemma_same_blocks(
    w: World,
    src: Source,
    events: Seq<crate::transfer::Event>,
    k: nat,
)
    requires
        faithful(w, src),
        k <= events.len(),
        forall|j: nat|
            j < k ==> crate::transfer::possible(
                #[trigger] crate::transfer::course(w, events, j),
                src,
                events[j as int],
            ),
    ensures
        crate::transfer::course(w, events, k).block_size == w.block_size,
{
    law_file_arrives_intact(w, src, events, k);
}

/// One thing that a receiver meets is the sender's.
proof fn lemma_met_one(
    o: Outgoing,
    sends: Seq<Event>,
    m: nat,
    v: World,
    e: crate::transfer::Event,
)
    requires
        begins(o),
        all_possible(o, sends, m),
        v.block_size == o.sender.config.block_size,
        met(o, sends, m, v, e),
    ensures
        crate::transfer::possible(v, source_at(o, sends, m), e),
{
    if let crate::transfer::Event::Packet { p } = e {
        if !is_other(p) {
            let i = choose|i: nat|
                i < m && #[trigger] sent_by(course(o, sends, i), sends[i as int]).contains(p);
            law_sender_is_genuine(o, sends, i, m, p);
        }
    }
}

} // verus!
