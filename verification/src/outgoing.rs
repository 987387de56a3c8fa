//! A sender and its ring: the slices in flight, the data that follows them and free
//! memory lie in this order, and slices in flight keep their bytes.

use crate::answers::IncomingMsg;
use crate::delivery::law_packets_carry_the_source;
use crate::diskio::{law_input_is_queued, Pipe};
use crate::fifo::{lemma_apart, lemma_onward, lemma_round, ring_place, ring_read, spot, Fifo};
use crate::netsender::{
    law_slices_take_what_there_is, lemma_after, lemma_free_slice, lemma_released, lemma_resent,
    lemma_slice_at, lemma_slice_bytes, lemma_started, lemma_times, lemma_without, slice_ok, Choice,
    NetSender, SenderModel,
};
use crate::produconsum::{lemma_halved, wrapped};
use crate::senddata::{flagged, free_slice_at, is_first, max_in_flight, FLAG_ASYNC, FLAG_FEC};
use crate::sendslice::{
    fits, lemma_blocks, lemma_stripe, nr_blocks, slice_parity, stripe_blocks, SliceModel,
    SliceState,
};
use vstd::arithmetic::div_mod::{lemma_mod_bound, lemma_small_mod};
use vstd::prelude::*;

verus! {

/// A sender and its ring.
#[verifier::ext_equal]
pub struct Outgoing {
    pub sender: SenderModel,
    pub pipe: Pipe,
}

/// A sender and its ring, as they are.
pub open spec fn outgoing(s: NetSender, fifo: Fifo) -> Outgoing {
    Outgoing {
        sender: s@,
        pipe: Pipe { ring: fifo.buffer@, free: fifo.free_mem_queue@, data: fifo.data@ },
    }
}

impl Outgoing {
    /// How many bytes the oldest `k` slices have.
    pub open spec fn flown(self, k: nat) -> int
        decreases k,
    {
        if k == 0 {
            0
        } else {
            self.flown((k - 1) as nat) + self.sender.pending_slice(k - 1).bytes
        }
    }

    /// How many bytes are in flight.
    pub open spec fn flight(self) -> int {
        self.flown(self.sender.pending.len())
    }

    /// Pending slice `k` lies behind those before it, and the last of them before
    /// the data that is not yet sent.
    pub open spec fn in_line(self, k: int) -> bool {
        self.sender.pending_slice(k).bytes > 0 ==> self.sender.pending_slice(k).base == spot(
            self.pipe.data.consumed,
            self.flown(k as nat) - self.flight(),
            self.pipe.ring.len() as int,
        )
    }

    /// Pending slice `k` has the next number after those before it; one without data
    /// is the end; and its parity is that of its bytes.
    pub open spec fn in_order(self, k: int) -> bool {
        let s = self.sender.pending_slice(k);
        let c = self.sender.config;
        &&& s.slice_no == self.sender.slice_no - self.sender.pending.len() + k
        &&& s.bytes == 0 ==> self.sender.at_end
        &&& flagged(c.flags, FLAG_FEC) && s.bytes > 0 ==> s.fec == slice_parity(
            s,
            self.pipe.ring,
            c.block_size as int,
            c.fec_stripes as int,
        )
    }

    /// Slices in flight, data and free memory lie one behind the other, and none of
    /// them in another; and the slices are numbered in this order.
    pub open spec fn ok(self) -> bool {
        &&& self.sender.ok(self.pipe.ring.len() as int)
        &&& self.pipe.ok()
        &&& self.flight() + self.pipe.data.waiting + self.pipe.free.waiting
            <= self.pipe.ring.len()
        &&& forall|k: int| 0 <= k < self.sender.pending.len() ==> #[trigger] self.in_line(k)
        &&& forall|k: int| 0 <= k < self.sender.pending.len() ==> #[trigger] self.in_order(k)
    }

    /// The bytes of pending slice `k`.
    pub open spec fn content(self, k: int) -> Seq<u8> {
        ring_read(
            self.pipe.ring,
            self.sender.pending_slice(k).base,
            self.sender.pending_slice(k).bytes as nat,
        )
    }

    /// The bytes of the pending slices, the oldest first.
    pub open spec fn contents(self) -> Seq<Seq<u8>> {
        Seq::new(self.sender.pending.len(), |k: int| self.content(k))
    }

    /// Whether a slice of `bytes` bytes counts as acknowledged at once.
    pub open spec fn direct(self, bytes: int) -> bool {
        flagged(self.sender.config.flags, FLAG_ASYNC) && bytes != 0
    }

    /// How many bytes the next slice would have, if there is data for it.
    pub open spec fn next_bytes(self) -> Option<int> {
        match self.pipe.data.share(10 * self.sender.config.block_size, false) {
            Some(n) => Some(self.sender.slice_bytes(n)),
            None => None,
        }
    }

    /// After the next slice was begun, if there is data for it.
    pub open spec fn begun(self) -> Outgoing {
        let got = self.pipe.data.share(10 * self.sender.config.block_size, false);
        match self.next_bytes() {
            None => Outgoing {
                pipe: Pipe { data: self.pipe.data.asked(None), ..self.pipe },
                ..self
            },
            Some(bytes) => Outgoing {
                sender: self.sender.started(
                    free_slice_at(self.sender.slices)->0,
                    self.pipe.data.consumed % self.pipe.data.size,
                    bytes,
                    self.pipe.ring,
                ),
                pipe: Pipe {
                    data: self.pipe.data.asked(got).with_consumed(bytes),
                    free: if self.direct(bytes) {
                        self.pipe.free.with_produced(bytes)
                    } else {
                        self.pipe.free
                    },
                    ..self.pipe
                },
            },
        }
    }

    /// After what is to be done next was done.
    pub open spec fn stepped(self) -> Outgoing {
        match self.sender.choice() {
            Choice::Release => Outgoing {
                sender: self.sender.released(),
                pipe: Pipe {
                    free: self.pipe.free.with_produced(self.sender.pending_slice(0).bytes),
                    ..self.pipe
                },
            },
            Choice::Retransmit(k) => Outgoing {
                sender: self.sender.retransmitted(k as int),
                ..self
            },
            Choice::Ask(k) => Outgoing { sender: self.sender.asked_again(k as int), ..self },
            Choice::NewSlice => self.begun(),
            Choice::Finish => self,
            Choice::Wait => self,
        }
    }

    /// After `bytes` were read from the file.
    pub open spec fn stored(self, bytes: Seq<u8>) -> Outgoing {
        Outgoing { pipe: self.pipe.stored(bytes), ..self }
    }
}

/// A sender that has begun no slice yet is in line with its ring.
pub proof fn law_sender_begins_in_line(o: Outgoing)
    requires
        o.sender.ok(o.pipe.ring.len() as int),
        o.pipe.ok(),
        o.sender.pending.len() == 0,
    ensures
        o.ok(),
        o.contents() == Seq::<Seq<u8>>::empty(),
{
    assert(o.flight() == 0);
    assert(o.contents() =~= Seq::<Seq<u8>>::empty());
}

/// More slices have no fewer bytes.
proof fn lemma_flown(o: Outgoing, j: nat, k: nat)
    requires
        o.sender.ok(o.pipe.ring.len() as int),
        j <= k <= o.sender.pending.len(),
    ensures
        0 <= o.flown(j) <= o.flown(k),
    decreases k,
{
    if k > 0 {
        assert(o.sender.pending[k - 1] < 8);
        assert(slice_ok(
            o.sender.config,
            o.sender.pending_slice(k - 1),
            o.pipe.ring.len() as int,
        ));
        if j < k {
            lemma_flown(o, j, (k - 1) as nat);
        } else {
            lemma_flown(o, (j - 1) as nat, (k - 1) as nat);
        }
    }
}

/// Slices of the same sizes have flown as far.
proof fn lemma_same_flown(o: Outgoing, v: Outgoing, k: nat)
    requires
        k <= o.sender.pending.len(),
        k <= v.sender.pending.len(),
        forall|j: int|
            0 <= j < k ==> #[trigger] v.sender.pending_slice(j).bytes == o.sender.pending_slice(
                j,
            ).bytes,
    ensures
        v.flown(k) == o.flown(k),
    decreases k,
{
    if k > 0 {
        lemma_same_flown(o, v, (k - 1) as nat);
        assert(v.sender.pending_slice(k - 1).bytes == o.sender.pending_slice(k - 1).bytes);
    }
}

/// Two slices are the same as far as their data goes.
pub open spec fn same_data(a: SliceModel, b: SliceModel) -> bool {
    &&& a.base == b.base
    &&& a.bytes == b.bytes
    &&& a.slice_no == b.slice_no
    &&& a.fec == b.fec
}

/// Two senders are as far with the file.
pub open spec fn same_course(a: SenderModel, b: SenderModel) -> bool {
    &&& a.slice_no == b.slice_no
    &&& a.at_end == b.at_end
    &&& a.config.flags == b.config.flags
    &&& a.config.block_size == b.config.block_size
    &&& a.config.fec_stripes == b.config.fec_stripes
    &&& a.config.fec_redundancy == b.config.fec_redundancy
}

/// What moves no slice and no account leaves everything where it is.
proof fn lemma_same_place(o: Outgoing, v: Outgoing)
    requires
        o.ok(),
        v.sender.ok(o.pipe.ring.len() as int),
        v.sender.pending == o.sender.pending,
        v.sender.slices.len() == o.sender.slices.len(),
        forall|i: int|
            0 <= i < o.sender.slices.len() ==> same_data(
                #[trigger] v.sender.slices[i],
                o.sender.slices[i],
            ),
        same_course(v.sender, o.sender),
        v.pipe.ring == o.pipe.ring,
        v.pipe.free == o.pipe.free,
        v.pipe.data.size == o.pipe.data.size,
        v.pipe.data.consumed == o.pipe.data.consumed,
        v.pipe.data.waiting == o.pipe.data.waiting,
    ensures
        v.ok(),
        v.contents() == o.contents(),
{
    assert forall|j: int| 0 <= j < o.sender.pending.len() implies same_data(
        #[trigger] v.sender.pending_slice(j),
        o.sender.pending_slice(j),
    ) by {
        assert(o.sender.pending[j] < 8);
        assert(same_data(
            v.sender.slices[o.sender.pending[j] as int],
            o.sender.slices[o.sender.pending[j] as int],
        ));
    }
    assert forall|k: int| 0 <= k < v.sender.pending.len() implies #[trigger] v.in_order(k) by {
        assert(o.in_order(k));
        let s = v.sender.pending_slice(k);
        let r = o.sender.pending_slice(k);
        assert(same_data(s, r));
        lemma_same_parity(
            s,
            r,
            o.pipe.ring,
            o.pipe.ring,
            o.sender.config.block_size as int,
            o.sender.config.fec_stripes as int,
        );
    }
    lemma_same_flown(o, v, o.sender.pending.len());
    assert forall|k: int| 0 <= k < v.sender.pending.len() implies #[trigger] v.in_line(k) by {
        assert(o.in_line(k));
        lemma_same_flown(o, v, k as nat);
        assert(v.sender.pending_slice(k).bytes == o.sender.pending_slice(k).bytes);
    }
    assert forall|k: int| 0 <= k < o.sender.pending.len() implies v.contents()[k]
        == o.contents()[k] by {
        assert(v.sender.pending_slice(k).bytes == o.sender.pending_slice(k).bytes);
    }
    assert(v.contents() =~= o.contents());
}

/// Slices with the same bytes have the same parity.
proof fn lemma_same_parity(
    s: SliceModel,
    r: SliceModel,
    ring: Seq<u8>,
    other: Seq<u8>,
    block_size: int,
    stripes: int,
)
    requires
        s.base == r.base,
        s.bytes == r.bytes,
        s.fec == r.fec,
        other.len() == ring.len(),
        other == ring || (fits(s.base, s.bytes, block_size, ring.len() as int) && 0 < stripes
            && ring_read(ring, s.base, s.bytes as nat) == ring_read(
            other,
            s.base,
            s.bytes as nat,
        )),
    ensures
        slice_parity(s, ring, block_size, stripes) == slice_parity(r, other, block_size, stripes),
{
    let a = slice_parity(s, ring, block_size, stripes);
    let b = slice_parity(r, other, block_size, stripes);
    assert forall|p: int| 0 <= p < s.fec.len() implies a[p] == b[p] by {
        if other != ring {
            let stripe = p % stripes;
            let n = nr_blocks(s.bytes, block_size);
            lemma_mod_bound(p, stripes);
            lemma_blocks(s.bytes, block_size);
            let x = stripe_blocks(ring, s.base, s.bytes, block_size, stripes, stripe);
            let y = stripe_blocks(other, s.base, s.bytes, block_size, stripes, stripe);
            assert forall|k: int| 0 <= k < x.len() implies x[k] == y[k] by {
                lemma_stripe(n, stripes, stripe, k);
                assert(0 <= k * stripes) by (nonlinear_arith)
                    requires
                        0 <= k,
                        0 < stripes,
                ;
                let c = stripe + k * stripes;
                law_packets_carry_the_source(ring, s.base, s.bytes, block_size, c);
                law_packets_carry_the_source(other, s.base, s.bytes, block_size, c);
                assert(x[k] =~= y[k]);
            }
            assert(x =~= y);
        }
    }
    assert(a =~= b);
}

/// The sender chose one of its pending slices.
pub proof fn lemma_choice(m: SenderModel, ring: int)
    requires
        m.ok(ring),
    ensures
        match m.choice() {
            Choice::Release => m.pending.len() > 0,
            Choice::Retransmit(k) => k < m.pending.len(),
            Choice::Ask(k) => k < m.pending.len(),
            Choice::NewSlice => m.pending.len() < max_in_flight(m.config.flags),
            _ => true,
        },
{
    let lossy = Seq::new(m.pending.len(), |k: int| m.lossy(k));
    let undecided = Seq::new(m.pending.len(), |k: int| m.undecided(k));
    if exists|i: int| is_first(lossy, i) {
        let i = choose|i: int| is_first(lossy, i);
        assert(is_first(lossy, i));
    }
    if exists|i: int| is_first(undecided, i) {
        let i = choose|i: int| is_first(undecided, i);
        assert(is_first(undecided, i));
    }
}

/// Freeing the oldest slice frees its memory and leaves the others in flight.
proof fn lemma_release(o: Outgoing)
    requires
        o.ok(),
        o.sender.choice() == Choice::Release,
    ensures
        o.stepped().ok(),
        o.stepped().contents() == o.contents().skip(1),
        o.stepped().pipe.queued() == o.pipe.queued(),
        o.pipe.free.refusal(o.sender.pending_slice(0).bytes) is None,
{
    let v = o.stepped();
    let n = o.pipe.ring.len() as int;
    let b = o.sender.pending_slice(0).bytes;
    let len = o.sender.pending.len();
    assert(o.sender.pending[0] < 8);
    lemma_released(o.sender, n);
    lemma_flown(o, 1, len);
    assert(o.flown(1) == b) by {
        assert(o.flown(0) == 0);
    }
    lemma_halved(o.pipe.free.waiting + b, n);
    assert forall|k: int| 0 <= k < len - 1 implies #[trigger] v.sender.pending_slice(k)
        == o.sender.pending_slice(k + 1) by {
        assert(v.sender.pending[k] == o.sender.pending[k + 1]);
        assert(o.sender.pending[0] != o.sender.pending[k + 1]);
        assert(o.sender.pending[k + 1] < 8);
    }
    assert forall|k: nat| k <= len - 1 implies #[trigger] v.flown(k) == o.flown(k + 1) - b by {
        lemma_shifted(o, v, k);
    }
    assert forall|k: int| 0 <= k < len - 1 implies #[trigger] v.in_line(k) by {
        assert(o.in_line(k + 1));
        assert(v.sender.pending_slice(k) == o.sender.pending_slice(k + 1));
        assert(v.flown(k as nat) == o.flown((k + 1) as nat) - b);
        assert(v.flown((len - 1) as nat) == o.flown(len) - b);
    }
    assert(v.flown((len - 1) as nat) == o.flown(len) - b);
    assert forall|k: int| 0 <= k < len - 1 implies #[trigger] v.in_order(k) by {
        assert(o.in_order(k + 1));
        assert(v.sender.pending_slice(k) == o.sender.pending_slice(k + 1));
    }
    assert forall|k: int| 0 <= k < len - 1 implies v.contents()[k] == o.contents().skip(1)[k] by {
        assert(v.sender.pending_slice(k) == o.sender.pending_slice(k + 1));
    }
    assert(v.contents() =~= o.contents().skip(1));
}

/// Without the oldest slice the others have flown that much less.
proof fn lemma_shifted(o: Outgoing, v: Outgoing, k: nat)
    requires
        o.sender.pending.len() > 0,
        k < o.sender.pending.len(),
        forall|j: int|
            0 <= j < o.sender.pending.len() - 1 ==> #[trigger] v.sender.pending_slice(j)
                == o.sender.pending_slice(j + 1),
    ensures
        v.flown(k) == o.flown(k + 1) - o.sender.pending_slice(0).bytes,
    decreases k,
{
    if k == 0 {
        assert(o.flown(0) == 0);
        assert(o.flown(1) == o.flown(0) + o.sender.pending_slice(0).bytes);
    } else {
        lemma_shifted(o, v, (k - 1) as nat);
        assert(v.sender.pending_slice(k - 1) == o.sender.pending_slice(k as int));
        assert(o.flown(k + 1) == o.flown(k) + o.sender.pending_slice(k as int).bytes);
    }
}

/// A new slice is the front of what was read from the file and not yet sent, and
/// joins those in flight.
proof fn lemma_begin(o: Outgoing)
    requires
        o.ok(),
        o.sender.choice() == Choice::NewSlice,
        o.sender.slice_no < i32::MAX,
    ensures
        ({
            let v = o.begun();
            &&& v.ok()
            &&& match o.next_bytes() {
                None => v.contents() == o.contents() && v.pipe.queued() == o.pipe.queued(),
                Some(b) => {
                    &&& 0 <= b <= o.pipe.data.waiting
                    &&& v.contents() == if o.direct(b) {
                        o.contents()
                    } else {
                        o.contents().push(o.pipe.queued().take(b))
                    }
                    &&& v.pipe.queued() == o.pipe.queued().skip(b)
                    &&& o.direct(b) ==> o.pipe.free.refusal(b) is None
                },
            }
        }),
{
    let v = o.begun();
    let n = o.pipe.ring.len() as int;
    let len = o.sender.pending.len();
    let c = o.pipe.data.consumed;
    lemma_choice(o.sender, n);
    match o.next_bytes() {
        None => {
            lemma_same_place(o, v);
            assert(v.pipe.queued() =~= o.pipe.queued());
        },
        Some(b) => {
            let waiting = o.pipe.data.waiting;
            lemma_slice_bytes(o.sender, waiting, n);
            lemma_free_slice(o.sender, n);
            lemma_flown(o, 0, len);
            let i = free_slice_at(o.sender.slices)->0;
            let base = c % n;
            lemma_mod_bound(c, n);
            lemma_started(o.sender, n, i, base, b, o.pipe.ring);
            lemma_halved(c + b, n);
            lemma_halved(waiting - b, n);
            lemma_halved(o.pipe.free.waiting + b, n);
            lemma_onward(c + b, waiting - b, 0, n);
            lemma_onward(wrapped(c + b, n), waiting - b, 0, n);
            assert(c + b + (waiting - b) == c + waiting);
            assert(v.pipe.ok());
            assert forall|k: int| 0 <= k < len implies #[trigger] v.sender.pending_slice(k)
                == o.sender.pending_slice(k) by {
                assert(o.sender.pending[k] < 8);
                assert(o.sender.pending_slice(k).state == SliceState::Xmitted);
                assert(v.sender.pending[k] == o.sender.pending[k]);
            }
            lemma_same_flown(o, v, len);
            if o.direct(b) {
                lemma_all_empty(o, len);
                assert(len == 0) by {
                    if len > 0 {
                        assert(o.in_order(0));
                        assert(o.sender.pending[0] < 8);
                        assert(slice_ok(o.sender.config, o.sender.pending_slice(0), n));
                    }
                }
                assert forall|k: int| 0 <= k < v.sender.pending.len() implies #[trigger] v.in_line(
                    k,
                ) by {
                    assert(v.sender.pending_slice(k) == o.sender.pending_slice(k));
                    assert(o.sender.pending[k] < 8);
                    assert(slice_ok(o.sender.config, o.sender.pending_slice(k), n));
                }
                assert(v.contents() =~= o.contents()) by {
                    assert forall|k: int| 0 <= k < len implies v.contents()[k]
                        == o.contents()[k] by {
                        assert(v.sender.pending_slice(k) == o.sender.pending_slice(k));
                    }
                }
            } else {
                assert(v.sender.pending_slice(len as int).bytes == b);
                assert(v.sender.pending_slice(len as int).base == base);
                assert(v.flown(len + 1) == v.flown(len) + b);
                assert(v.flight() == o.flight() + b);
                assert forall|k: int| 0 <= k < v.sender.pending.len() implies #[trigger] v.in_line(
                    k,
                ) by {
                    lemma_onward(c + b, v.flown(k as nat) - v.flight(), 0, n);
                    lemma_onward(v.pipe.data.consumed, v.flown(k as nat) - v.flight(), 0, n);
                    if k < len {
                        assert(o.in_line(k));
                        assert(v.sender.pending_slice(k) == o.sender.pending_slice(k));
                        lemma_same_flown(o, v, k as nat);
                        assert(c + b + (v.flown(k as nat) - v.flight()) == c + (o.flown(k as nat)
                            - o.flight()));
                    } else {
                        assert(c + b + (v.flown(len) - v.flight()) == c);
                    }
                }
                assert forall|k: int| 0 <= k < v.sender.pending.len() implies #[trigger] v.in_order(
                    k,
                ) by {
                    if k < len {
                        assert(o.in_order(k));
                        assert(v.sender.pending_slice(k) == o.sender.pending_slice(k));
                    } else {
                        lemma_fresh_parity(o.sender, i, base, b, o.pipe.ring);
                    }
                }
                let all = o.contents().push(o.pipe.queued().take(b));
                assert forall|k: int| 0 <= k < len + 1 implies v.contents()[k] == all[k] by {
                    if k < len {
                        assert(v.sender.pending_slice(k) == o.sender.pending_slice(k));
                    } else {
                        assert(ring_read(o.pipe.ring, base, b as nat)
                            =~= o.pipe.queued().take(b));
                    }
                }
                assert(v.contents() =~= all);
            }
            assert forall|q: int| 0 <= q < waiting - b implies v.pipe.queued()[q]
                == o.pipe.queued()[b + q] by {
                lemma_round(c, b + q, n);
                lemma_round(v.pipe.data.consumed, q, n);
                lemma_onward(c + b, q, 0, n);
                lemma_onward(v.pipe.data.consumed, q, 0, n);
                assert(c + b + q == c + (b + q));
            }
            assert(v.pipe.queued() =~= o.pipe.queued().skip(b));
        },
    }
}

/// A new slice has the parity of its bytes.
proof fn lemma_fresh_parity(m: SenderModel, i: int, base: int, bytes: int, ring: Seq<u8>)
    ensures
        flagged(m.config.flags, FLAG_FEC) && bytes > 0 ==> m.fresh(i, base, bytes, ring).fec
            == slice_parity(
            m.fresh(i, base, bytes, ring),
            ring,
            m.config.block_size as int,
            m.config.fec_stripes as int,
        ),
{
    let s = m.fresh(i, base, bytes, ring);
    let c = m.config;
    if flagged(c.flags, FLAG_FEC) && bytes > 0 {
        let p = slice_parity(s, ring, c.block_size as int, c.fec_stripes as int);
        assert(s.fec =~= p);
    }
}

/// Where slices count as acknowledged at once, none with data is in flight.
proof fn lemma_all_empty(o: Outgoing, k: nat)
    requires
        o.ok(),
        flagged(o.sender.config.flags, FLAG_ASYNC),
        k <= o.sender.pending.len(),
    ensures
        o.flown(k) == 0,
    decreases k,
{
    if k > 0 {
        lemma_all_empty(o, (k - 1) as nat);
        assert(o.sender.pending[k - 1] < 8);
        assert(slice_ok(
            o.sender.config,
            o.sender.pending_slice(k - 1),
            o.pipe.ring.len() as int,
        ));
    }
}

/// Whatever the sender does next: slices in flight stay where they are and keep their
/// bytes, but for the oldest when everybody has it; and a new slice is the front of
/// what was read from the file.
pub proof fn law_steps_keep_slices(o: Outgoing)
    requires
        o.ok(),
        o.sender.can_count(),
    ensures
        ({
            let v = o.stepped();
            &&& v.ok()
            &&& match o.sender.choice() {
                Choice::Release => {
                    &&& v.contents() == o.contents().skip(1)
                    &&& v.pipe.queued() == o.pipe.queued()
                    &&& o.sender.complete(0)
                    &&& o.pipe.free.refusal(o.sender.pending_slice(0).bytes) is None
                },
                Choice::NewSlice => match o.next_bytes() {
                    None => v.contents() == o.contents() && v.pipe.queued() == o.pipe.queued(),
                    Some(b) => {
                        &&& 0 <= b <= o.pipe.data.waiting
                        &&& v.contents() == if o.direct(b) {
                            o.contents()
                        } else {
                            o.contents().push(o.pipe.queued().take(b))
                        }
                        &&& v.pipe.queued() == o.pipe.queued().skip(b)
                        &&& o.direct(b) ==> o.pipe.free.refusal(b) is None
                    },
                },
                _ => v.contents() == o.contents() && v.pipe == o.pipe,
            }
        }),
{
    let n = o.pipe.ring.len() as int;
    let v = o.stepped();
    lemma_choice(o.sender, n);
    match o.sender.choice() {
        Choice::Release => {
            lemma_release(o);
        },
        Choice::Retransmit(k) => {
            assert(o.sender.pending[k as int] < 8);
            lemma_resent(o.sender, v.sender, n, k as int);
            lemma_same_place(o, v);
        },
        Choice::Ask(k) => {
            assert(o.sender.pending[k as int] < 8);
            assert(o.sender.pending_slice(k as int).rxmit_id < i32::MAX);
            lemma_resent(o.sender, v.sender, n, k as int);
            lemma_same_place(o, v);
        },
        Choice::NewSlice => {
            lemma_begin(o);
        },
        _ => {},
    }
}

/// Data does not lie about: a sender that may begin a slice begins one as soon as ten
/// blocks wait, and once the file was read to its end whatever waits; and the slice has
/// data if any waits. After the last byte the end is sent.
pub proof fn law_the_sender_gets_to_the_end(o: Outgoing)
    requires
        o.ok(),
        !flagged(o.sender.config.flags, FLAG_ASYNC),
        o.sender.choice() == Choice::NewSlice,
        o.sender.config.slice_size > 0,
        o.sender.slice_no < i32::MAX,
    ensures
        ({
            let v = o.stepped();
            let n = o.sender.pending.len() as int;
            let waiting = o.pipe.data.waiting;
            let enough = waiting >= 10 * o.sender.config.block_size || o.pipe.data.at_end;
            &&& !enough ==> v.sender == o.sender
            &&& enough ==> {
                &&& v.sender.pending.len() == n + 1
                &&& v.sender.pending_slice(n).slice_no == o.sender.slice_no
                &&& v.sender.slice_no == o.sender.slice_no + 1
                &&& v.sender.pending_slice(n).state == SliceState::Xmitted
                &&& v.sender.pending_slice(n).ready == Set::<int>::empty()
                &&& v.sender.pending_slice(n).rxmit_id == 0
                &&& waiting > 0 ==> v.sender.pending_slice(n).bytes > 0 && !v.sender.at_end
                &&& waiting == 0 ==> v.sender.pending_slice(n).bytes == 0 && v.sender.at_end
                &&& v.pipe.data.waiting == waiting - v.sender.pending_slice(n).bytes
            }
        }),
{
    let n = o.pipe.ring.len() as int;
    let waiting = o.pipe.data.waiting;
    lemma_choice(o.sender, n);
    lemma_free_slice(o.sender, n);
    law_slices_take_what_there_is(o.sender, n, waiting);
    if let Some(b) = o.next_bytes() {
        lemma_halved(waiting - b, n);
    }
}

/// Reading more of the file into the ring spares the slices in flight: what is sent
/// again is what was sent before.
pub proof fn law_reading_spares_slices(o: Outgoing, bytes: Seq<u8>)
    requires
        o.ok(),
        bytes.len() <= o.pipe.free.waiting,
    ensures
        o.stored(bytes).ok(),
        o.stored(bytes).contents() == o.contents(),
        o.stored(bytes).pipe.queued() == o.pipe.queued() + bytes,
{
    let n = o.pipe.ring.len() as int;
    let len = bytes.len() as int;
    let p = o.pipe;
    let v = o.stored(bytes);
    law_input_is_queued(p, bytes);
    lemma_halved(p.free.waiting - len, n);
    lemma_halved(p.data.waiting + len, n);
    lemma_same_flown(o, v, o.sender.pending.len());
    assert forall|k: int| 0 <= k < v.sender.pending.len() implies #[trigger] v.in_line(k) by {
        assert(o.in_line(k));
        lemma_same_flown(o, v, k as nat);
    }
    assert forall|k: int| 0 <= k < o.sender.pending.len() implies v.contents()[k]
        == o.contents()[k] by {
        lemma_content_stays(o, bytes, k);
    }
    assert(v.contents() =~= o.contents());
    assert forall|k: int| 0 <= k < v.sender.pending.len() implies #[trigger] v.in_order(k) by {
        let s = o.sender.pending_slice(k);
        let c = o.sender.config;
        assert(o.in_order(k));
        assert(o.sender.pending[k] < 8);
        assert(slice_ok(c, s, n));
        lemma_content_stays(o, bytes, k);
        if flagged(c.flags, FLAG_FEC) && s.bytes > 0 {
            lemma_blocks(s.bytes, c.block_size as int);
            lemma_same_parity(
                s,
                s,
                o.pipe.ring,
                v.pipe.ring,
                c.block_size as int,
                c.fec_stripes as int,
            );
        }
    }
}

/// Reading more of the file spares pending slice `k`.
proof fn lemma_content_stays(o: Outgoing, bytes: Seq<u8>, k: int)
    requires
        o.ok(),
        bytes.len() <= o.pipe.free.waiting,
        0 <= k < o.sender.pending.len(),
    ensures
        o.stored(bytes).content(k) == o.content(k),
{
    let n = o.pipe.ring.len() as int;
    let len = bytes.len() as int;
    let p = o.pipe;
    let v = o.stored(bytes);
    let s = o.sender.pending_slice(k);
    let from = o.flown(k as nat) - o.flight();
    let c = p.data.consumed;
    let at = p.free.consumed % n;
    assert(o.sender.pending[k] < 8);
    assert(slice_ok(o.sender.config, s, n));
    assert(o.in_line(k));
    lemma_flown(o, (k + 1) as nat, o.sender.pending.len());
    lemma_flown(o, 0, k as nat);
    assert(o.flown((k + 1) as nat) == o.flown(k as nat) + s.bytes);
    lemma_mod_bound(p.free.consumed, n);
    assert forall|x: int| 0 <= x < s.bytes implies v.content(k)[x] == o.content(k)[x] by {
        lemma_round(s.base, x, n);
        lemma_small_mod(s.base as nat, n as nat);
        lemma_onward(c, from, x, n);
        let place = ring_place(s.base + x, n);
        assert(place == spot(c, from + x, n));
        if at <= place < at + len || place + n < at + len {
            let t = if at <= place {
                place - at
            } else {
                place + n - at
            };
            lemma_round(p.free.consumed, t, n);
            assert(place == spot(p.free.consumed, t, n));
            lemma_onward(p.free.consumed, t, 0, n);
            lemma_onward(c, p.data.waiting, t, n);
            lemma_apart(c, from + x, p.data.waiting + t, n);
        }
    }
    assert(v.content(k) =~= o.content(k));
}

/// What happens at a sender, as far as the file goes.
pub enum Event {
    /// Bytes are read from the file.
    Read { bytes: Seq<u8> },
    /// The sender does what is to be done next.
    Step,
    /// An answer comes.
    Answer { msg: IncomingMsg },
    /// No answer comes in time.
    Silence,
    /// Time passes: what is remembered of times changes.
    Clock { last_reply_us: u64, wait_average: u64, nr_waited: u32 },
}

/// Whether an event can be.
pub open spec fn possible(o: Outgoing, e: Event) -> bool {
    match e {
        Event::Read { bytes } => bytes.len() <= o.pipe.free.waiting,
        Event::Step => o.sender.can_count(),
        Event::Answer { msg } => true,
        Event::Silence => o.sender.pending.len() > 0 && o.sender.pending_slice(0).rxmit_id
            < i32::MAX,
        Event::Clock { nr_waited, .. } => nr_waited <= 5,
    }
}

/// The sender and its ring after an event.
#[verifier::opaque]
pub open spec fn happened(o: Outgoing, e: Event) -> Outgoing {
    match e {
        Event::Read { bytes } => o.stored(bytes),
        Event::Step => o.stepped(),
        Event::Answer { msg } => Outgoing { sender: o.sender.after(msg), ..o },
        Event::Silence => Outgoing { sender: o.sender.timed_out(), ..o },
        Event::Clock { last_reply_us, wait_average, nr_waited } => Outgoing {
            sender: SenderModel { last_reply_us, wait_average, nr_waited, ..o.sender },
            ..o
        },
    }
}

/// The sender and its ring after the first `k` events.
pub open spec fn course(o: Outgoing, events: Seq<Event>, k: nat) -> Outgoing
    decreases k,
{
    if k == 0 {
        o
    } else {
        happened(course(o, events, (k - 1) as nat), events[k - 1])
    }
}

/// What an event reads from the file.
pub open spec fn read_by(e: Event) -> Seq<u8> {
    match e {
        Event::Read { bytes } => bytes,
        _ => Seq::empty(),
    }
}

/// What was read from the file in the first `k` events.
pub open spec fn read_in(events: Seq<Event>, k: nat) -> Seq<u8>
    decreases k,
{
    if k == 0 {
        Seq::empty()
    } else {
        read_in(events, (k - 1) as nat) + read_by(events[k - 1])
    }
}

/// The bytes of the slice that an event begins, as they are then in the ring.
pub open spec fn begun_by(o: Outgoing, e: Event) -> Option<Seq<u8>> {
    match (e, o.sender.choice(), o.next_bytes()) {
        (Event::Step, Choice::NewSlice, Some(b)) => Some(
            ring_read(o.pipe.ring, o.pipe.data.consumed % o.pipe.data.size, b as nat),
        ),
        _ => None,
    }
}

/// The bytes of all slices begun in the first `k` events, one behind the other.
pub open spec fn sliced(o: Outgoing, events: Seq<Event>, k: nat) -> Seq<u8>
    decreases k,
{
    if k == 0 {
        Seq::empty()
    } else {
        let v = course(o, events, (k - 1) as nat);
        sliced(o, events, (k - 1) as nat) + match begun_by(v, events[k - 1]) {
            Some(bytes) => bytes,
            None => Seq::empty(),
        }
    }
}

/// The slices that were put into flight in the first `k` events, each with the bytes
/// that it was begun with.
pub open spec fn launched(o: Outgoing, events: Seq<Event>, k: nat) -> Seq<Seq<u8>>
    decreases k,
{
    if k == 0 {
        o.contents()
    } else {
        let v = course(o, events, (k - 1) as nat);
        let before = launched(o, events, (k - 1) as nat);
        match begun_by(v, events[k - 1]) {
            Some(bytes) => if v.direct(bytes.len() as int) {
                before
            } else {
                before.push(bytes)
            },
            None => before,
        }
    }
}

/// One event keeps slices in flight.
pub proof fn lemma_happened(o: Outgoing, e: Event)
    requires
        o.ok(),
        possible(o, e),
    ensures
        ({
            let v = happened(o, e);
            &&& v.ok()
            &&& match begun_by(o, e) {
                Some(bytes) => {
                    &&& read_by(e) == Seq::<u8>::empty()
                    &&& bytes + v.pipe.queued() == o.pipe.queued()
                    &&& v.contents() == if o.direct(bytes.len() as int) {
                        o.contents()
                    } else {
                        o.contents().push(bytes)
                    }
                },
                None => {
                    &&& v.pipe.queued() == o.pipe.queued() + read_by(e)
                    &&& v.contents() == o.contents() || (e is Step && o.contents().len() > 0
                        && v.contents() == o.contents().skip(1))
                },
            }
        }),
{
    reveal(happened);
    let n = o.pipe.ring.len() as int;
    let v = happened(o, e);
    assert(o.pipe.queued() + Seq::<u8>::empty() =~= o.pipe.queued());
    match e {
        Event::Read { bytes } => {
            law_reading_spares_slices(o, bytes);
        },
        Event::Step => {
            law_steps_keep_slices(o);
            lemma_choice(o.sender, n);
            if let Some(bytes) = begun_by(o, e) {
                let b = o.next_bytes()->0;
                assert(bytes =~= o.pipe.queued().take(b));
                assert(bytes + o.pipe.queued().skip(b) =~= o.pipe.queued());
            }
        },
        Event::Answer { msg } => {
            lemma_after(o.sender, msg, n);
            lemma_after_place(o.sender, msg);
            lemma_same_place(o, v);
        },
        Event::Silence => {
            lemma_silence(o.sender, n);
            lemma_same_place(o, v);
        },
        Event::Clock { .. } => {
            lemma_times(o.sender, v.sender, n);
            lemma_same_place(o, v);
        },
    }
}

/// How far an event brings the sender: a slice that it begins has the next number,
/// and after one without data there is no other.
pub proof fn lemma_event_course(o: Outgoing, e: Event)
    requires
        o.ok(),
        possible(o, e),
    ensures
        ({
            let v = happened(o, e);
            let c = o.sender.config;
            &&& v.sender.config.flags == c.flags
            &&& v.sender.config.block_size == c.block_size
            &&& v.sender.config.fec_stripes == c.fec_stripes
            &&& v.sender.config.fec_redundancy == c.fec_redundancy
            &&& match begun_by(o, e) {
                Some(bytes) => {
                    &&& !o.sender.at_end
                    &&& bytes.len() <= c.block_size * 1024
                    &&& v.sender.slice_no == o.sender.slice_no + 1
                    &&& !o.direct(bytes.len() as int) ==> v.sender.at_end == (bytes.len() == 0)
                },
                None => {
                    &&& v.sender.slice_no == o.sender.slice_no
                    &&& v.sender.at_end == o.sender.at_end
                },
            }
        }),
{
    reveal(happened);
    let n = o.pipe.ring.len() as int;
    match e {
        Event::Read { .. } => {},
        Event::Step => {
            lemma_choice(o.sender, n);
            if o.sender.choice() == Choice::NewSlice {
                lemma_slice_bytes(o.sender, o.pipe.data.waiting, n);
            }
        },
        Event::Answer { msg } => {
            lemma_after_place(o.sender, msg);
        },
        Event::Silence => {
            lemma_silence(o.sender, n);
        },
        Event::Clock { .. } => {},
    }
}

/// An answer moves no slice.
proof fn lemma_after_place(m: SenderModel, msg: IncomingMsg)
    ensures
        m.after(msg).pending == m.pending,
        m.after(msg).slices.len() == m.slices.len(),
        forall|i: int|
            0 <= i < m.slices.len() ==> same_data(
                #[trigger] m.after(msg).slices[i],
                m.slices[i],
            ),
        same_course(m.after(msg), m),
{
    match msg {
        IncomingMsg::Complete { slice_no, .. } => {
            lemma_slice_at(m.slices, slice_no);
        },
        IncomingMsg::Retransmit { slice_no, .. } => {
            lemma_slice_at(m.slices, slice_no);
        },
        _ => {},
    }
}

/// Silence moves no slice.
proof fn lemma_silence(m: SenderModel, ring: int)
    requires
        m.ok(ring),
        m.pending.len() > 0,
        m.pending_slice(0).rxmit_id < i32::MAX,
    ensures
        m.timed_out().ok(ring),
        m.timed_out().pending == m.pending,
        m.timed_out().slices.len() == m.slices.len(),
        forall|i: int|
            0 <= i < m.slices.len() ==> same_data(
                #[trigger] m.timed_out().slices[i],
                m.slices[i],
            ),
        same_course(m.timed_out(), m),
{
    let a = SenderModel {
        nr_waited: if m.nr_waited == 5 {
            0
        } else {
            (m.nr_waited + 1) as u32
        },
        ..m
    };
    let gone = m.hopeless(m.pending_slice(0));
    let b = a.without(gone);
    lemma_times(m, a, ring);
    lemma_without(a, gone, ring);
    assert(m.pending[0] < 8);
    assert(b.pending_slice(0).rxmit_id == m.pending_slice(0).rxmit_id);
    lemma_resent(b, b.asked_again(0), ring, 0);
}

/// What is held are the last of a list, and stays so when the list grows at its end
/// or the first that is held is given up.
proof fn lemma_log(
    all: Seq<Seq<u8>>,
    held: Seq<Seq<u8>>,
    more: Seq<Seq<u8>>,
    now: Seq<Seq<u8>>,
    bytes: Seq<u8>,
)
    requires
        held.len() <= all.len(),
        held == all.skip(all.len() - held.len()),
        (now == held && more == all) || (held.len() > 0 && now == held.skip(1) && more == all) || (
        now == held.push(bytes) && more == all.push(bytes)),
    ensures
        now.len() <= more.len(),
        now == more.skip(more.len() - now.len()),
{
    assert(now =~= more.skip(more.len() - now.len()));
}

/// What is begun leaves the queue at its front, and what is read joins it at its end.
proof fn lemma_sum(
    before: Seq<u8>,
    queue: Seq<u8>,
    start: Seq<u8>,
    read: Seq<u8>,
    bytes: Seq<u8>,
    rest: Seq<u8>,
    r: Seq<u8>,
)
    requires
        before + queue == start + read,
        bytes + rest == queue + r,
    ensures
        (before + bytes) + rest == start + (read + r),
{
    assert((before + bytes) + rest =~= before + (bytes + rest));
    assert(before + (queue + r) =~= (before + queue) + r);
    assert((start + read) + r =~= start + (read + r));
}

/// Whatever happens, in whatever order: the slices, one behind the other, and what is
/// not yet sent are the file as far as it was read; and the slices in flight are the
/// last of those launched, each with the very bytes that it was begun with, so that
/// what is sent again is what was sent first.
pub proof fn law_file_is_sent_whole(o: Outgoing, events: Seq<Event>, k: nat)
    requires
        o.ok(),
        k <= events.len(),
        forall|j: nat| j < k ==> possible(#[trigger] course(o, events, j), events[j as int]),
    ensures
        ({
            let v = course(o, events, k);
            let all = launched(o, events, k);
            &&& v.ok()
            &&& sliced(o, events, k) + v.pipe.queued() == o.pipe.queued() + read_in(events, k)
            &&& v.sender.pending.len() <= all.len()
            &&& v.contents() == all.skip(all.len() - v.sender.pending.len())
        }),
    decreases k,
{
    if k == 0 {
        assert(sliced(o, events, k) + o.pipe.queued() =~= o.pipe.queued() + read_in(events, k));
        assert(o.contents().skip(0) =~= o.contents());
    } else {
        let m = (k - 1) as nat;
        law_file_is_sent_whole(o, events, m);
        let v = course(o, events, m);
        let u = course(o, events, k);
        let e = events[k - 1];
        assert(possible(course(o, events, m), events[m as int]));
        lemma_happened(v, e);
        let none = Seq::<u8>::empty();
        let bytes = match begun_by(v, e) {
            Some(bytes) => bytes,
            None => none,
        };
        assert(v.pipe.queued() + none =~= v.pipe.queued());
        assert(none + u.pipe.queued() =~= u.pipe.queued());
        lemma_sum(
            sliced(o, events, m),
            v.pipe.queued(),
            o.pipe.queued(),
            read_in(events, m),
            bytes,
            u.pipe.queued(),
            read_by(e),
        );
        lemma_log(
            launched(o, events, m),
            v.contents(),
            launched(o, events, k),
            u.contents(),
            bytes,
        );
        assert(u.contents().len() == u.sender.pending.len());
        assert(v.contents().len() == v.sender.pending.len());
    }
}

} // verus!
