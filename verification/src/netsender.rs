//! The sender of a transfer as a state machine: it is told what receivers
//! answered and how long it waited, and says what to send.

use crate::addr::SocketAddrV4;
use crate::answers::IncomingMsg;
use crate::bitmap::{bits_of, numbers_below};
use crate::fec::{fec_init, FecTables};
use crate::fifo::Fifo;
use crate::matrix::rows;
use crate::outgoing::{law_steps_keep_slices, outgoing};
use crate::participants::{answered, members, ClientDesc, ParticipantsDb};
use crate::produconsum::ProduceError;
use crate::protocol::{
    address_field, connect_reply_bytes, ip4_into_16, law_fec_block_round_trip, ConnectReply,
    FecBlock, CAP_LATE_JOIN,
};
use crate::senddata::{
    ack_slice, asked, capabilities_for, config_ok, find_free_slice, find_slice, first_true, flagged,
    free_slice_at, grown, init_slice_size, is_first, lemma_first_true, max_in_flight, models,
    parity_fits, request, send_reqack, sender_capabilities, shrunk, slice_at, with_first_slice_size,
    Discovery, NetConfig, Round, FLAG_ASYNC, FLAG_FEC, FLAG_NOTSN, FLAG_SN, NR_SLICES,
};
use crate::sendslice::{
    fec_encode_slice, fec_packet, fits, lemma_blocks, lemma_inside, nr_blocks, pack_fec_blocks,
    pack_slice, repair_packets, repaired, rexmit_slice, slice_packets, slice_parity, wanted, Slice,
    SliceModel, SliceState,
};
use crate::statistics::{Bandwidth, SenderStats};
use crate::wire::u16_at;
use vstd::prelude::*;

verus! {

/// The state of a sender.
pub struct NetSender {
    pub config: NetConfig,
    pub db: ParticipantsDb,
    pub slices: Vec<Slice>,
    /// The slices that are sent and not acknowledged, the oldest first.
    pub pending: Vec<usize>,
    /// The number of the next slice.
    pub slice_no: i32,
    pub at_end: bool,
    pub first_slice_acked: bool,
    /// When late joiners were last replied to.
    pub last_reply_us: u64,
    /// How long answers take on average, in microseconds.
    pub wait_average: u64,
    /// How often in a row no answer came in time.
    pub nr_waited: u32,
    pub tables: FecTables,
}

/// What there is to know of a sender.
#[verifier::ext_equal]
pub struct SenderModel {
    pub config: NetConfig,
    pub table: Seq<ClientDesc>,
    pub slices: Seq<SliceModel>,
    pub pending: Seq<usize>,
    pub slice_no: i32,
    pub at_end: bool,
    pub first_slice_acked: bool,
    pub last_reply_us: u64,
    pub wait_average: u64,
    pub nr_waited: u32,
}

impl View for NetSender {
    type V = SenderModel;

    open spec fn view(&self) -> SenderModel {
        SenderModel {
            config: self.config,
            table: self.db@,
            slices: models(self.slices@),
            pending: self.pending@,
            slice_no: self.slice_no,
            at_end: self.at_end,
            first_slice_acked: self.first_slice_acked,
            last_reply_us: self.last_reply_us,
            wait_average: self.wait_average,
            nr_waited: self.nr_waited,
        }
    }
}

/// A slice that the settings allow, in a ring of `ring` bytes.
pub open spec fn slice_ok(c: NetConfig, s: SliceModel, ring: int) -> bool {
    &&& fits(s.base, s.bytes, c.block_size as int, ring)
    &&& s.rxmit_id >= 0
    &&& flagged(c.flags, FLAG_FEC) ==> nr_blocks(s.bytes, c.block_size as int) <= 128
        * c.fec_stripes
    &&& flagged(c.flags, FLAG_ASYNC) ==> s.bytes == 0
}

/// A slice as it is sent first, with `bytes` bytes from `base` on; `fec` is what
/// its parity blocks hold before.
pub open spec fn fresh_slice(
    c: NetConfig,
    fec: Seq<Seq<u8>>,
    slice_no: i32,
    base: int,
    bytes: int,
    ring: Seq<u8>,
) -> SliceModel {
    let s = SliceModel {
        base,
        slice_no,
        bytes,
        state: SliceState::Xmitted,
        rxmit: Set::empty(),
        xmitted: Set::empty(),
        rxmit_id: 0,
        ready: Set::empty(),
        answered: Set::empty(),
        need_rxmit: false,
        last_good: 0,
        fec,
    };
    if flagged(c.flags, FLAG_FEC) && bytes > 0 {
        SliceModel { fec: slice_parity(s, ring, c.block_size as int, c.fec_stripes as int), ..s }
    } else {
        s
    }
}

/// The packets that carry the parity of a slice; there are none without data.
pub open spec fn parity_packets(c: NetConfig, s: SliceModel) -> Seq<Seq<u8>> {
    if flagged(c.flags, FLAG_FEC) && s.bytes > 0 {
        Seq::new(s.fec.len(), |p: int| fec_packet(s, c.fec_stripes as int, p))
    } else {
        Seq::empty()
    }
}

impl SenderModel {
    /// The participants.
    pub open spec fn participants(self) -> Set<int> {
        members(self.table)
    }

    /// Slice number `k` of those that are pending.
    pub open spec fn pending_slice(self, k: int) -> SliceModel {
        self.slices[self.pending[k] as int]
    }

    /// Only participants count as having a slice; exactly the pending ones are in
    /// use; and no more are pending than may be.
    pub open spec fn ok(self, ring: int) -> bool {
        &&& config_ok(self.config)
        &&& self.table.len() == 1024
        &&& self.slices.len() == 8
        &&& self.slice_no >= 0
        &&& self.config.block_size * 1024 <= ring <= usize::MAX / 2
        &&& self.pending.len() <= max_in_flight(self.config.flags)
        &&& forall|k: int|
            #![trigger self.pending[k]]
            0 <= k < self.pending.len() ==> {
                &&& self.pending[k] < 8
                &&& self.pending_slice(k).state == SliceState::Xmitted
                &&& slice_ok(self.config, self.pending_slice(k), ring)
            }
        &&& forall|j: int, k: int|
            0 <= j < k < self.pending.len() ==> self.pending[j] != self.pending[k]
        &&& forall|i: int|
            #![trigger self.slices[i]]
            0 <= i < 8 ==> {
                &&& self.slices[i].ready.subset_of(self.participants())
                &&& self.slices[i].state == SliceState::Free || self.pending.contains(i as usize)
                &&& flagged(self.config.flags, FLAG_FEC) ==> self.slices[i].fec.len()
                    == self.config.fec_stripes * self.config.fec_redundancy
            }
        &&& self.nr_waited <= 5
    }

    /// There are numbers left for the next slice and for the next rounds.
    pub open spec fn can_count(self) -> bool {
        &&& self.slice_no < i32::MAX
        &&& forall|k: int|
            0 <= k < self.pending.len() ==> (#[trigger] self.pending_slice(k)).rxmit_id < i32::MAX
    }

    /// Every participant has pending slice `k`.
    pub open spec fn complete(self, k: int) -> bool {
        self.pending_slice(k).ready.len() >= self.participants().len()
    }

    /// Every participant has answered about pending slice `k` in this round.
    pub open spec fn heard(self, k: int) -> bool {
        self.participants().subset_of(self.pending_slice(k).answered)
    }

    /// Somebody misses blocks of pending slice `k`.
    pub open spec fn lossy(self, k: int) -> bool {
        self.pending_slice(k).need_rxmit && !self.complete(k)
    }

    /// Every participant has answered about pending slice `k`, and not every one has
    /// it.
    pub open spec fn undecided(self, k: int) -> bool {
        self.heard(k) && !self.complete(k)
    }

    /// The first pending slice that somebody misses blocks of.
    pub open spec fn first_lossy(self) -> Option<int> {
        first_true(Seq::new(self.pending.len(), |k: int| self.lossy(k)))
    }

    /// The first pending slice about which every participant has answered and that
    /// not every one has.
    pub open spec fn first_undecided(self) -> Option<int> {
        first_true(Seq::new(self.pending.len(), |k: int| self.undecided(k)))
    }

    /// Whether late joiners are to be replied to.
    pub open spec fn reply_due(self, now: u64) -> bool {
        !self.first_slice_acked && now - self.last_reply_us >= 1_000_000
    }

    /// What to do next: to free the oldest slice comes first, if everybody has it; to
    /// send again what somebody misses second; and a new slice last. A slice that
    /// everybody has waits for those before it, for memory is given back in order.
    pub open spec fn choice(self) -> Choice {
        if self.pending.len() > 0 && self.complete(0) {
            Choice::Release
        } else {
            match (self.first_lossy(), self.first_undecided()) {
                (Some(k), _) => Choice::Retransmit(k as usize),
                (None, Some(k)) => Choice::Ask(k as usize),
                (None, None) => if self.pending.len() < max_in_flight(self.config.flags)
                    && !self.at_end {
                    Choice::NewSlice
                } else if (self.at_end && self.pending.len() == 0) || flagged(
                    self.config.flags,
                    FLAG_ASYNC,
                ) {
                    Choice::Finish
                } else {
                    Choice::Wait
                },
            }
        }
    }

    /// After the oldest slice was acknowledged by all and freed.
    pub open spec fn released(self) -> SenderModel {
        let i = self.pending[0] as int;
        SenderModel {
            config: grown(self.config),
            slices: self.slices.update(
                i,
                SliceModel { state: SliceState::Free, ..self.slices[i] },
            ),
            pending: self.pending.remove(0),
            first_slice_acked: true,
            ..self
        }
    }

    /// After the wanted blocks of pending slice `k` were sent again.
    pub open spec fn retransmitted(self, k: int) -> SenderModel {
        let i = self.pending[k] as int;
        SenderModel {
            slices: self.slices.update(
                i,
                repaired(self.slices[i], self.config.block_size as int),
            ),
            ..self
        }
    }

    /// Pending slice `k` at the start of its next round.
    pub open spec fn next_round(self, k: int) -> SliceModel {
        SliceModel {
            rxmit_id: (self.pending_slice(k).rxmit_id + 1) as i32,
            ..self.pending_slice(k)
        }
    }

    /// After another round was started for pending slice `k`.
    pub open spec fn asked_again(self, k: int) -> SenderModel {
        SenderModel {
            config: shrunk(self.config, self.next_round(k)),
            slices: self.slices.update(self.pending[k] as int, asked(self.next_round(k))),
            ..self
        }
    }

    /// How many bytes the next slice takes of `available`: as many blocks as a
    /// slice has, and whole blocks if it has more than one.
    pub open spec fn slice_bytes(self, available: int) -> int {
        let bs = self.config.block_size as int;
        let most = bs * self.config.slice_size;
        let n = if available > most {
            most
        } else {
            available
        };
        if n > bs {
            n - n % bs
        } else {
            n
        }
    }

    /// The next slice, with `bytes` bytes from `base` on, as it is sent first.
    pub open spec fn fresh(self, i: int, base: int, bytes: int, ring: Seq<u8>) -> SliceModel {
        fresh_slice(self.config, self.slices[i].fec, self.slice_no, base, bytes, ring)
    }

    /// After the next slice went out in place `i`. Where receivers do not
    /// answer, its place is free again.
    pub open spec fn started(self, i: int, base: int, bytes: int, ring: Seq<u8>) -> SenderModel {
        let s = self.fresh(i, base, bytes, ring);
        if flagged(self.config.flags, FLAG_ASYNC) && bytes != 0 {
            SenderModel {
                config: grown(self.config),
                slices: self.slices.update(i, SliceModel { state: SliceState::Free, ..s }),
                slice_no: (self.slice_no + 1) as i32,
                first_slice_acked: true,
                ..self
            }
        } else {
            SenderModel {
                slices: self.slices.update(i, s),
                pending: self.pending.push(i as usize),
                slice_no: (self.slice_no + 1) as i32,
                at_end: bytes == 0,
                ..self
            }
        }
    }

    /// After participants `gone` left: nothing counts them any more.
    pub open spec fn without(self, gone: Set<int>) -> SenderModel {
        SenderModel {
            table: Seq::new(
                self.table.len(),
                |i: int|
                    if gone.contains(i) {
                        ClientDesc { used: false, ..self.table[i] }
                    } else {
                        self.table[i]
                    },
            ),
            slices: Seq::new(
                self.slices.len(),
                |i: int|
                    SliceModel {
                        ready: self.slices[i].ready.difference(gone),
                        answered: self.slices[i].answered.difference(gone),
                        ..self.slices[i]
                    },
            ),
            ..self
        }
    }

    /// After an answer of participant `cl_no` about slice `slice_no` was noted
    /// in the table.
    pub open spec fn noted(self, cl_no: int, slice_no: i32) -> SenderModel {
        SenderModel {
            table: self.table.update(
                cl_no,
                match slice_at(self.slices, slice_no) {
                    Some(i) => answered(
                        self.table[cl_no],
                        Some(slice_no),
                        self.slices[i].rxmit_id,
                    ),
                    None => answered(self.table[cl_no], None, 0),
                },
            ),
            ..self
        }
    }

    /// After an answer was heard. Who takes part no more cannot have a slice
    /// acknowledged; but whoever asks for blocks of a pending slice gets them, however
    /// old the request.
    pub open spec fn after(self, msg: IncomingMsg) -> SenderModel {
        match msg {
            IncomingMsg::Complete { slice_no, cl_no } => if !self.participants().contains(
                cl_no as int,
            ) {
                self
            } else {
                match slice_at(self.slices, slice_no) {
                    Some(i) => SenderModel {
                        slices: self.slices.update(
                            i,
                            SliceModel {
                                ready: self.slices[i].ready.insert(cl_no as int),
                                answered: self.slices[i].answered.insert(cl_no as int),
                                ..self.slices[i]
                            },
                        ),
                        ..self.noted(cl_no as int, slice_no)
                    },
                    None => self.noted(cl_no as int, slice_no),
                }
            },
            IncomingMsg::Retransmit { slice_no, cl_no, map, rxmit } => if !(0 <= cl_no < 1024) {
                self
            } else {
                match slice_at(self.slices, slice_no) {
                    Some(i) => SenderModel {
                        slices: self.slices.update(
                            i,
                            SliceModel {
                                rxmit: self.slices[i].rxmit.union(
                                    numbers_below(1024).difference(bits_of(map@)),
                                ),
                                need_rxmit: true,
                                answered: self.slices[i].answered.insert(cl_no as int),
                                ..self.slices[i]
                            },
                        ),
                        ..self.noted(cl_no as int, slice_no)
                    },
                    None => self.noted(cl_no as int, slice_no),
                }
            },
            IncomingMsg::Disconnect { cl_no } => if !self.participants().contains(cl_no as int) {
                self
            } else {
                self.without(set![cl_no as int])
            },
        }
    }

    /// How long to wait for an answer, in microseconds.
    pub open spec fn patience(self) -> int {
        let t = self.wait_average * 11 / 10;
        let more = if self.pending.len() > 0 && self.pending_slice(0).rxmit_id > 10 {
            t + 1_000_000
        } else {
            t
        };
        if more < 200 {
            200
        } else {
            more
        }
    }

    /// The round from which participant `i`'s patience counts for slice `s`: the
    /// one in which it first answered about it, else the first of all.
    pub open spec fn patience_from(self, i: int, s: SliceModel) -> int {
        match self.table[i].first_answered_round {
            Some((no, round)) => if no == s.slice_no {
                round as int
            } else {
                0
            },
            None => 0,
        }
    }

    /// The participants to be dropped when no answer about slice `s` came in
    /// time: those who do not have it and used up their rounds.
    pub open spec fn hopeless(self, s: SliceModel) -> Set<int> {
        Set::new(
            |i: int|
                {
                    &&& s.rxmit_id > self.config.retries_until_drop
                    &&& self.participants().contains(i)
                    &&& !s.ready.contains(i)
                    &&& s.rxmit_id - self.patience_from(i, s) > self.config.retries_until_drop
                },
        )
    }

    /// After no answer came in time.
    pub open spec fn timed_out(self) -> SenderModel {
        let m = SenderModel {
            nr_waited: if self.nr_waited == 5 {
                0
            } else {
                (self.nr_waited + 1) as u32
            },
            ..self
        }.without(self.hopeless(self.pending_slice(0)));
        if self.pending_slice(0).rxmit_id > self.config.retries_until_drop
            && m.participants().len() == 0 {
            m
        } else {
            m.asked_again(0)
        }
    }
}

/// The numbers below `n` that are in `s`, in order.
pub open spec fn in_order(s: Set<int>, n: nat) -> Seq<usize>
    decreases n,
{
    if n == 0 {
        Seq::empty()
    } else if s.contains(n - 1) {
        in_order(s, (n - 1) as nat).push((n - 1) as usize)
    } else {
        in_order(s, (n - 1) as nat)
    }
}

/// The list holds what the set holds.
pub proof fn lemma_in_order(s: Set<int>, n: nat)
    requires
        n <= usize::MAX,
    ensures
        forall|i: int|
            #![trigger s.contains(i)]
            0 <= i < n && s.contains(i) <==> in_order(s, n).contains(i as usize) && 0 <= i < n,
        forall|k: int|
            0 <= k < in_order(s, n).len() ==> (#[trigger] in_order(s, n)[k]) < n && s.contains(
                in_order(s, n)[k] as int,
            ),
    decreases n,
{
    if n > 0 {
        let m = (n - 1) as nat;
        lemma_in_order(s, m);
        let head = in_order(s, m);
        let all = in_order(s, n);
        assert forall|i: int|
            #![trigger s.contains(i)]
            0 <= i < n && s.contains(i) <==> all.contains(i as usize) && 0 <= i < n by {
            if 0 <= i < n {
                if head.contains(i as usize) {
                    let k = choose|k: int| 0 <= k < head.len() && head[k] == i as usize;
                    assert(all[k] == i as usize);
                }
                if all.contains(i as usize) {
                    let k = choose|k: int| 0 <= k < all.len() && all[k] == i as usize;
                    if k < head.len() {
                        assert(head[k] == i as usize);
                    }
                }
                if i == n - 1 && s.contains(i) {
                    assert(all[head.len() as int] == i as usize);
                }
            }
        }
        assert forall|k: int| 0 <= k < all.len() implies (#[trigger] all[k]) < n && s.contains(
            all[k] as int,
        ) by {
            if k < head.len() {
                assert(all[k] == head[k]);
            }
        }
    }
}

/// What a sender shows that gets no answers.
pub struct Report {
    pub not_answered: Vec<usize>,
    pub not_ready: Vec<usize>,
    pub nr_answered: usize,
    pub nr_ready: usize,
    pub nr_participants: usize,
    /// The average time to an answer, in milliseconds.
    pub wait_ms: u64,
}

/// What comes of getting no answer in time.
pub struct Silence {
    /// After every sixth time.
    pub report: Option<Report>,
    /// The participants that were dropped.
    pub dropped: Vec<usize>,
    /// The request for answers; `None` if nobody is left to answer.
    pub request: Option<[u8; 16]>,
}

/// What to do next; the number tells a pending slice.
#[derive(Debug, Clone, Copy, PartialEq, Eq, Structural)]
pub enum Choice {
    /// To free the oldest slice.
    Release,
    Retransmit(usize),
    Ask(usize),
    NewSlice,
    Finish,
    Wait,
}

/// What a step of the sender asks for.
pub enum Action {
    /// Nothing: a slice of `bytes` bytes was acknowledged by all.
    Released { bytes: usize, bandwidth: Option<Bandwidth> },
    /// To send blocks again.
    Resend(Vec<Vec<u8>>),
    /// To send a request for answers.
    Ask([u8; 16]),
    /// To send a slice, or to wait for data.
    Start(Start),
    /// To stop.
    Finish,
    /// To wait for an answer.
    Wait,
}

/// What starting the next slice brings.
pub enum Start {
    /// There is not enough data yet.
    WaitForData,
    /// A slice goes out: its data, its parity, and its first round.
    Sent { data: Vec<Vec<u8>>, parity: Vec<Vec<u8>>, round: Round },
}

/// What starting the next slice does: without enough data nothing, else the
/// slice takes the first free place and goes out.
pub open spec fn starts(
    before: NetSender,
    after: NetSender,
    fifo_before: Fifo,
    fifo_after: Fifo,
    stats_before: SenderStats,
    stats_after: SenderStats,
    now: u64,
    r: Result<Start, ProduceError>,
) -> bool {
    match fifo_before.data@.share(10 * before.config.block_size, false) {
        None => {
            &&& r matches Ok(Start::WaitForData)
            &&& after == before
            &&& fifo_after.free_mem_queue == fifo_before.free_mem_queue
            &&& fifo_after.data@ == fifo_before.data@.asked(None)
            &&& stats_after == stats_before
        },
        Some(available) => {
            let m = before@;
            let ring = fifo_before.buffer@;
            let i = free_slice_at(m.slices)->0;
            let base = fifo_before.data@.consumed % fifo_before.data@.size;
            let bytes = m.slice_bytes(available);
            let s = m.fresh(i, base, bytes, ring);
            let direct = flagged(m.config.flags, FLAG_ASYNC) && bytes != 0;
            let refusal = if direct {
                fifo_before.free_mem_queue@.refusal(bytes)
            } else {
                None
            };
            match refusal {
                Some(e) => r matches Err(f) && e == f,
                None => {
                    &&& r matches Ok(Start::Sent { data, parity, round }) && {
                        &&& rows(data@) == slice_packets(
                            s,
                            ring,
                            m.config.block_size as int,
                        )
                        &&& rows(parity@) == parity_packets(m.config, s)
                        &&& match round {
                            Round::Acked(b) => direct && b == stats_before.bandwidth(
                                bytes as u64,
                                now,
                            ),
                            Round::Request(packet) => !direct && packet@ == request(s),
                        }
                    }
                    &&& after.wf(fifo_after.data_buf_size as int)
                    &&& after@ == m.started(i, base, bytes, ring)
                    &&& fifo_after.data@ == fifo_before.data@.asked(
                        Some(available),
                    ).with_consumed(bytes)
                    &&& fifo_after.free_mem_queue@ == if direct {
                        fifo_before.free_mem_queue@.with_produced(bytes)
                    } else {
                        fifo_before.free_mem_queue@
                    }
                    &&& stats_after == if direct {
                        stats_before.acknowledged(bytes as u64, now)
                    } else {
                        stats_before
                    }
                },
            }
        },
    }
}

/// Whether the settings are within the bounds of the protocol, for a ring of `ring`
/// bytes: a slice fits into the ring and has no more than 1024 blocks, and there are
/// no more than 128 rows of parity.
pub open spec fn sendable(c: NetConfig, ring: int) -> bool {
    &&& 0 < c.block_size
    &&& c.block_size * 1024 <= i32::MAX
    &&& c.block_size * 1024 <= ring <= usize::MAX / 2
    &&& c.max_slice_size <= 1024
    &&& parity_fits(c)
    &&& flagged(c.flags, FLAG_FEC) ==> {
        &&& c.fec_redundancy <= 128
        &&& c.fec_stripes * c.fec_redundancy * c.block_size <= u32::MAX
    }
}

/// Whether the settings are within the bounds of the protocol.
pub fn can_send(c: &NetConfig, ring: usize) -> (r: bool)
    ensures
        r == sendable(*c, ring as int),
{
    if c.block_size == 0 || c.block_size > 2_097_151 || c.max_slice_size > 1024 {
        return false;
    }
    if ring > usize::MAX / 2 || (ring as u64) < c.block_size as u64 * 1024 {
        return false;
    }
    if c.flags & FLAG_FEC == 0 {
        return true;
    }
    if c.fec_stripes > u32::MAX / 128 {
        return false;
    }
    if c.default_slice_size == 0 && c.fec_stripesize.checked_mul(c.fec_stripes).is_none() {
        return false;
    }
    if c.fec_redundancy > 128 {
        return false;
    }
    match c.fec_stripes.checked_mul(c.fec_redundancy) {
        Some(rows) => rows.checked_mul(c.block_size).is_some(),
        None => {
            assert(c.fec_stripes * c.fec_redundancy <= c.fec_stripes * c.fec_redundancy
                * c.block_size) by (nonlinear_arith)
                requires
                    c.block_size >= 1,
                    c.fec_stripes >= 0,
                    c.fec_redundancy >= 0,
            ;
            false
        },
    }
}

/// There is always a slice that is not in use.
pub proof fn lemma_free_slice(m: SenderModel, ring: int)
    requires
        m.ok(ring),
    ensures
        free_slice_at(m.slices) matches Some(i) && 0 <= i < 8 && m.slices[i].state
            == SliceState::Free,
{
    let marks = Seq::new(m.slices.len(), |i: int| m.slices[i].state == SliceState::Free);
    assert(exists|i: int| 0 <= i < 4 && m.slices[i].state == SliceState::Free) by {
        if m.slices[0].state != SliceState::Free && m.slices[1].state != SliceState::Free
            && m.slices[2].state != SliceState::Free && m.slices[3].state != SliceState::Free {
            assert(m.pending.contains(0));
            assert(m.pending.contains(1));
            assert(m.pending.contains(2));
            assert(m.pending.contains(3));
        }
    }
    let i = if marks[0] {
        0int
    } else if marks[1] {
        1
    } else if marks[2] {
        2
    } else {
        3
    };
    assert(is_first(marks, i));
    lemma_first_true(marks, i);
}

/// A slice holds no more blocks than the settings allow.
pub proof fn lemma_slice_bytes(m: SenderModel, available: int, ring: int)
    requires
        m.ok(ring),
        available >= 0,
    ensures
        0 <= m.slice_bytes(available) <= available,
        m.slice_bytes(available) <= m.config.block_size * m.config.slice_size,
        m.slice_bytes(available) <= m.config.block_size * 1024,
        nr_blocks(m.slice_bytes(available), m.config.block_size as int) <= m.config.slice_size,
{
    let bs = m.config.block_size as int;
    let n = m.slice_bytes(available);
    let size = m.config.slice_size as int;
    let most = if available > bs * size {
        bs * size
    } else {
        available
    };
    assert(0 <= bs * size <= bs * 1024) by (nonlinear_arith)
        requires
            0 < bs,
            0 <= size <= 1024,
    ;
    vstd::arithmetic::div_mod::lemma_mod_bound(most, bs);
    lemma_blocks(n, bs);
    let k = nr_blocks(n, bs);
    if k > size {
        assert(k * bs >= bs * size + bs) by (nonlinear_arith)
            requires
                k >= size + 1,
                bs > 0,
        ;
    }
}

/// Fills a slice and packs its data and its parity.
fn prepare_slice(
    slice: &mut Slice,
    tables: &FecTables,
    config: &NetConfig,
    ring: &Vec<u8>,
    base: usize,
    slice_no: i32,
    bytes: usize,
) -> (r: (Vec<Vec<u8>>, Vec<Vec<u8>>))
    requires
        config_ok(*config),
        fits(base as int, bytes as int, config.block_size as int, ring@.len() as int),
        flagged(config.flags, FLAG_FEC) ==> {
            &&& old(slice)@.fec.len() == config.fec_stripes * config.fec_redundancy
            &&& nr_blocks(bytes as int, config.block_size as int) <= 128 * config.fec_stripes
        },
    ensures
        final(slice).wf(),
        final(slice)@ == fresh_slice(
            *config,
            old(slice)@.fec,
            slice_no,
            base as int,
            bytes as int,
            ring@,
        ),
        rows(r.0@) == slice_packets(final(slice)@, ring@, config.block_size as int),
        rows(r.1@) == parity_packets(*config, final(slice)@),
{
    let block_size: usize = config.block_size as usize;
    let fec: bool = config.flags & FLAG_FEC != 0 && bytes > 0;
    let ghost before = slice@;
    let ghost goal = fresh_slice(
        *config,
        before.fec,
        slice_no,
        base as int,
        bytes as int,
        ring@,
    );
    slice.restart(base, slice_no, bytes);
    slice.state = SliceState::Xmitted;
    if fec {
        assert(slice@.fec.len() == slice.fec_data@.len());
        proof {
            lemma_blocks(bytes as int, block_size as int);
        }
        fec_encode_slice(
            tables,
            slice,
            ring,
            block_size,
            config.fec_stripes as usize,
            config.fec_redundancy as usize,
        );
    }
    assert(slice@ =~= goal);
    let data: Vec<Vec<u8>> = pack_slice(slice, ring, block_size);
    let parity: Vec<Vec<u8>> = if fec {
        assert(slice@.fec.len() == slice.fec_data@.len());
        pack_fec_blocks(slice, config.fec_stripes as usize)
    } else {
        Vec::new()
    };
    assert(rows(parity@) =~= parity_packets(*config, slice@));
    (data, parity)
}

/// A sender that sent its next slice is consistent.
pub proof fn lemma_started(m: SenderModel, ring: int, i: int, base: int, bytes: int, content: Seq<u8>)
    requires
        m.ok(ring),
        0 <= i < 8,
        m.slices[i].state == SliceState::Free,
        m.pending.len() < max_in_flight(m.config.flags),
        m.slice_no < i32::MAX,
        fits(base, bytes, m.config.block_size as int, ring),
        nr_blocks(bytes, m.config.block_size as int) <= m.config.slice_size,
    ensures
        m.started(i, base, bytes, content).ok(ring),
{
    let n = m.started(i, base, bytes, content);
    let s = m.fresh(i, base, bytes, content);
    assert forall|j: int| 0 <= j < 8 implies {
        &&& (#[trigger] n.slices[j]).ready.subset_of(n.participants())
        &&& n.slices[j].state == SliceState::Free || n.pending.contains(j as usize)
        &&& flagged(n.config.flags, FLAG_FEC) ==> n.slices[j].fec.len() == n.config.fec_stripes
            * n.config.fec_redundancy
    } by {
        assert(m.slices[j].ready.subset_of(m.participants()));
        if j == i {
            if n.slices[j].state != SliceState::Free {
                assert(n.pending[m.pending.len() as int] == i as usize);
            }
        } else if m.slices[j].state != SliceState::Free {
            let k = choose|k: int| 0 <= k < m.pending.len() && m.pending[k] == j as usize;
            assert(n.pending[k] == j as usize);
        }
    }
    assert forall|k: int| 0 <= k < n.pending.len() implies {
        &&& (#[trigger] n.pending[k]) < 8
        &&& n.pending_slice(k).state == SliceState::Xmitted
        &&& slice_ok(n.config, n.pending_slice(k), ring)
    } by {
        if k < m.pending.len() {
            assert(n.pending[k] == m.pending[k]);
            assert(m.pending_slice(k).state == SliceState::Xmitted);
        }
    }
    assert forall|j: int, k: int| 0 <= j < k < n.pending.len() implies n.pending[j]
        != n.pending[k] by {
        assert(m.pending_slice(j).state == SliceState::Xmitted);
    }
}

/// A sender that freed its oldest slice is consistent.
pub proof fn lemma_released(m: SenderModel, ring: int)
    requires
        m.ok(ring),
        m.pending.len() > 0,
    ensures
        m.released().ok(ring),
{
    let n = m.released();
    let i = m.pending[0];
    assert(n.participants() =~= m.participants());
    assert forall|j: int| 0 <= j < 8 implies {
        &&& (#[trigger] n.slices[j]).ready.subset_of(n.participants())
        &&& n.slices[j].state == SliceState::Free || n.pending.contains(j as usize)
        &&& flagged(n.config.flags, FLAG_FEC) ==> n.slices[j].fec.len() == n.config.fec_stripes
            * n.config.fec_redundancy
    } by {
        assert(m.slices[j].ready.subset_of(m.participants()));
        if j != i && m.slices[j].state != SliceState::Free {
            let k = choose|k: int| 0 <= k < m.pending.len() && m.pending[k] == j as usize;
            assert(n.pending[k - 1] == j as usize);
        }
    }
    assert forall|k: int| 0 <= k < n.pending.len() implies {
        &&& (#[trigger] n.pending[k]) < 8
        &&& n.pending_slice(k).state == SliceState::Xmitted
        &&& slice_ok(n.config, n.pending_slice(k), ring)
    } by {
        assert(n.pending[k] == m.pending[k + 1]);
        assert(m.pending[0] != m.pending[k + 1]);
        assert(m.pending_slice(k + 1).state == SliceState::Xmitted);
    }
}

/// A sender whose slices went into another round, or were sent again, is consistent.
pub proof fn lemma_resent(m: SenderModel, n: SenderModel, ring: int, k: int)
    requires
        m.ok(ring),
        0 <= k < m.pending.len(),
        n == m.retransmitted(k) || (n == m.asked_again(k) && m.pending_slice(k).rxmit_id
            < i32::MAX),
    ensures
        n.ok(ring),
{
    let i = m.pending[k] as int;
    assert(n.participants() =~= m.participants());
    assert(m.pending[k] < 8);
    assert(slice_ok(m.config, m.pending_slice(k), ring));
    lemma_blocks(m.pending_slice(k).bytes, m.config.block_size as int);
    assert(config_ok(n.config));
    assert forall|j: int| 0 <= j < 8 implies {
        &&& (#[trigger] n.slices[j]).ready.subset_of(n.participants())
        &&& n.slices[j].state == SliceState::Free || n.pending.contains(j as usize)
        &&& flagged(n.config.flags, FLAG_FEC) ==> n.slices[j].fec.len() == n.config.fec_stripes
            * n.config.fec_redundancy
    } by {
        assert(m.slices[j].ready.subset_of(m.participants()));
    }
    assert forall|j: int| 0 <= j < n.pending.len() implies {
        &&& (#[trigger] n.pending[j]) < 8
        &&& n.pending_slice(j).state == SliceState::Xmitted
        &&& slice_ok(n.config, n.pending_slice(j), ring)
    } by {
        assert(n.pending[j] == m.pending[j]);
        assert(m.pending_slice(j).state == SliceState::Xmitted);
    }
}

/// A sender that some participants left is consistent.
pub proof fn lemma_without(m: SenderModel, gone: Set<int>, ring: int)
    requires
        m.ok(ring),
    ensures
        m.without(gone).ok(ring),
        m.without(gone).participants() == m.participants().difference(gone),
{
    let n = m.without(gone);
    assert(n.participants() =~= m.participants().difference(gone));
    assert forall|j: int| 0 <= j < 8 implies {
        &&& (#[trigger] n.slices[j]).ready.subset_of(n.participants())
        &&& n.slices[j].state == SliceState::Free || n.pending.contains(j as usize)
        &&& flagged(n.config.flags, FLAG_FEC) ==> n.slices[j].fec.len() == n.config.fec_stripes
            * n.config.fec_redundancy
    } by {
        assert(m.slices[j].ready.subset_of(m.participants()));
    }
    assert forall|k: int| 0 <= k < n.pending.len() implies {
        &&& (#[trigger] n.pending[k]) < 8
        &&& n.pending_slice(k).state == SliceState::Xmitted
        &&& slice_ok(n.config, n.pending_slice(k), ring)
    } by {
        assert(m.pending[k] < 8);
    }
}

/// A sender that noted an answer is consistent.
pub proof fn lemma_after(m: SenderModel, msg: IncomingMsg, ring: int)
    requires
        m.ok(ring),
    ensures
        m.after(msg).ok(ring),
{
    let n = m.after(msg);
    match msg {
        IncomingMsg::Disconnect { cl_no } => {
            lemma_without(m, set![cl_no as int], ring);
        },
        IncomingMsg::Complete { slice_no, cl_no }
        | IncomingMsg::Retransmit { slice_no, cl_no, .. } => {
            assert(n.participants() =~= m.participants());
            lemma_slice_at(m.slices, slice_no);
            assert forall|j: int| 0 <= j < 8 implies {
                &&& (#[trigger] n.slices[j]).ready.subset_of(n.participants())
                        &&& n.slices[j].state == SliceState::Free || n.pending.contains(j as usize)
                &&& flagged(n.config.flags, FLAG_FEC) ==> n.slices[j].fec.len()
                    == n.config.fec_stripes * n.config.fec_redundancy
            } by {
                assert(m.slices[j].ready.subset_of(m.participants()));
            }
            assert forall|k: int| 0 <= k < n.pending.len() implies {
                &&& (#[trigger] n.pending[k]) < 8
                &&& n.pending_slice(k).state == SliceState::Xmitted
                &&& slice_ok(n.config, n.pending_slice(k), ring)
            } by {
                assert(m.pending[k] < 8);
                assert(m.pending_slice(k).state == SliceState::Xmitted);
            }
        },
    }
}

/// A slice that is found is one of those in use.
pub proof fn lemma_slice_at(slices: Seq<SliceModel>, slice_no: i32)
    ensures
        slice_at(slices, slice_no) matches Some(i) ==> 0 <= i < slices.len() && slices[i].state
            != SliceState::Free && slices[i].slice_no == slice_no,
{
    let marks = Seq::new(
        slices.len(),
        |i: int| slices[i].state != SliceState::Free && slices[i].slice_no == slice_no,
    );
    if exists|i: int| is_first(marks, i) {
        let i = choose|i: int| is_first(marks, i);
        assert(is_first(marks, i));
    }
}

/// Whether `msg` is the first word of a participant that it has its slice.
pub open spec fn newly_ready(m: SenderModel, msg: IncomingMsg) -> bool {
    match msg {
        IncomingMsg::Complete { slice_no, cl_no } => {
            &&& m.participants().contains(cl_no as int)
            &&& slice_at(m.slices, slice_no) matches Some(i) && !m.slices[i].ready.contains(
                cl_no as int,
            )
        },
        _ => false,
    }
}

/// Who sent `msg`.
pub open spec fn sender_of(msg: IncomingMsg) -> i32 {
    match msg {
        IncomingMsg::Complete { slice_no, cl_no } => cl_no,
        IncomingMsg::Retransmit { slice_no, cl_no, map, rxmit } => cl_no,
        IncomingMsg::Disconnect { cl_no } => cl_no,
    }
}

/// Who left in two steps left.
proof fn lemma_without_twice(m: SenderModel, a: Set<int>, b: Set<int>)
    ensures
        m.without(a).without(b) == m.without(a.union(b)),
{
    let l = m.without(a).without(b);
    let r = m.without(a.union(b));
    assert(l.table =~= r.table);
    assert forall|i: int| 0 <= i < m.slices.len() implies #[trigger] l.slices[i] == r.slices[i] by {
        assert(l.slices[i].ready =~= r.slices[i].ready);
        assert(l.slices[i].answered =~= r.slices[i].answered);
    }
    assert(l.slices =~= r.slices);
}

/// If nobody left all is as it was.
proof fn lemma_without_none(m: SenderModel)
    ensures
        m.without(Set::empty()) == m,
{
    let r = m.without(Set::empty());
    assert(r.table =~= m.table);
    assert forall|i: int| 0 <= i < m.slices.len() implies #[trigger] r.slices[i] == m.slices[i] by {
        assert(r.slices[i].ready =~= m.slices[i].ready);
        assert(r.slices[i].answered =~= m.slices[i].answered);
    }
    assert(r.slices =~= m.slices);
}

impl NetSender {
    /// The counts are right and the state is consistent.
    pub open spec fn wf(&self, ring: int) -> bool {
        &&& self.db.wf()
        &&& forall|i: int| 0 <= i < self.slices@.len() ==> (#[trigger] self.slices@[i]).wf()
        &&& self@.ok(ring)
    }

    /// Whether everybody has pending slice `k`.
    fn is_complete(&self, k: usize) -> (r: bool)
        requires
            exists|ring: int| self.wf(ring),
            k < self.pending@.len(),
        ensures
            r == self@.complete(k as int),
    {
        let i: usize = self.pending[k];
        assert(self@.pending[k as int] == i);
        assert(self.slices@[i as int].wf());
        assert(self@.slices[i as int] == self.slices@[i as int]@);
        self.slices[i].nr_ready >= self.db.nr_participants()
    }

    /// Whether everybody has answered about pending slice `k`.
    fn is_heard(&self, k: usize) -> (r: bool)
        requires
            exists|ring: int| self.wf(ring),
            k < self.pending@.len(),
        ensures
            r == self@.heard(k as int),
    {
        let i: usize = self.pending[k];
        assert(self@.pending[k as int] == i);
        assert(self@.slices[i as int] == self.slices@[i as int]@);
        proof {
            self.db.lemma_wf();
        }
        let mut cl: usize = 0;
        while cl < 1024
            invariant
                cl <= 1024,
                self.db.wf(),
                i < self.slices@.len(),
                self@.pending_slice(k as int) == self.slices@[i as int]@,
                forall|c: int|
                    0 <= c < cl && self@.participants().contains(c) ==> self@.pending_slice(
                        k as int,
                    ).answered.contains(c),
            decreases 1024 - cl,
        {
            if self.db.is_participant_valid(cl) && !self.slices[i].answered_set.contains(cl) {
                assert(self@.participants().contains(cl as int));
                return false;
            }
            cl += 1;
        }
        true
    }

    /// The first pending slice about which everybody has answered and that not
    /// everybody has.
    fn find_undecided(&self) -> (r: Option<usize>)
        requires
            exists|ring: int| self.wf(ring),
        ensures
            match r {
                Some(k) => self@.first_undecided() == Some(k as int) && k < self.pending@.len()
                    && self@.undecided(k as int),
                None => self@.first_undecided() is None,
            },
    {
        let ghost marks = Seq::new(self@.pending.len(), |k: int| self@.undecided(k));
        let mut k: usize = 0;
        while k < self.pending.len()
            invariant
                k <= self.pending@.len(),
                exists|ring: int| self.wf(ring),
                marks == Seq::new(self@.pending.len(), |k: int| self@.undecided(k)),
                forall|j: int| 0 <= j < k ==> !(#[trigger] marks[j]),
            decreases self.pending@.len() - k,
        {
            let i: usize = self.pending[k];
            assert(self@.pending[k as int] == i);
            assert(self@.slices[i as int] == self.slices@[i as int]@);
            if self.is_heard(k) && !self.is_complete(k) {
                assert(marks[k as int]);
                assert(is_first(marks, k as int));
                proof {
                    lemma_first_true(marks, k as int);
                }
                return Some(k);
            }
            assert(!marks[k as int]);
            k += 1;
        }
        None
    }

    /// The first pending slice that somebody misses blocks of.
    fn find_lossy(&self) -> (r: Option<usize>)
        requires
            exists|ring: int| self.wf(ring),
        ensures
            match r {
                Some(k) => self@.first_lossy() == Some(k as int) && k < self.pending@.len()
                    && self@.lossy(k as int),
                None => self@.first_lossy() is None,
            },
    {
        let ghost marks = Seq::new(self@.pending.len(), |k: int| self@.lossy(k));
        let mut k: usize = 0;
        while k < self.pending.len()
            invariant
                k <= self.pending@.len(),
                exists|ring: int| self.wf(ring),
                marks == Seq::new(self@.pending.len(), |k: int| self@.lossy(k)),
                forall|j: int| 0 <= j < k ==> !(#[trigger] marks[j]),
            decreases self.pending@.len() - k,
        {
            let i: usize = self.pending[k];
            assert(self@.pending[k as int] == i);
            assert(self@.slices[i as int] == self.slices@[i as int]@);
            if self.slices[i].need_rxmit && !self.is_complete(k) {
                assert(marks[k as int]);
                assert(is_first(marks, k as int));
                proof {
                    lemma_first_true(marks, k as int);
                }
                return Some(k);
            }
            assert(!marks[k as int]);
            k += 1;
        }
        None
    }

    /// What to do next.
    pub fn choose_step(&self) -> (r: Choice)
        requires
            exists|ring: int| self.wf(ring),
        ensures
            r == self@.choice(),
            match r {
                Choice::Release => self.pending@.len() > 0 && self@.complete(0),
                Choice::Retransmit(k) => k < self.pending@.len() && self@.lossy(k as int),
                Choice::Ask(k) => k < self.pending@.len() && self@.undecided(k as int),
                Choice::NewSlice => self.pending@.len() < max_in_flight(self.config.flags)
                    && !self.at_end,
                Choice::Finish => true,
                Choice::Wait => self.pending@.len() > 0,
            },
    {
        if self.pending.len() > 0 && self.is_complete(0) {
            return Choice::Release;
        }
        if let Some(k) = self.find_lossy() {
            return Choice::Retransmit(k);
        }
        if let Some(k) = self.find_undecided() {
            return Choice::Ask(k);
        }
        let limit: usize = if self.config.flags & FLAG_NOTSN != 0 || self.config.flags & FLAG_SN
            == 0 {
            1
        } else {
            3
        };
        if self.pending.len() < limit && !self.at_end {
            Choice::NewSlice
        } else if (self.at_end && self.pending.len() == 0) || self.config.flags & FLAG_ASYNC != 0 {
            Choice::Finish
        } else {
            Choice::Wait
        }
    }

    /// Frees the oldest slice, which everybody has: how many bytes it had, and the
    /// bandwidth to report if there is one.
    pub fn release(&mut self, fifo: &mut Fifo, stats: &mut SenderStats, now: u64) -> (r:
        Result<(usize, Option<Bandwidth>), ProduceError>)
        requires
            old(self).wf(old(fifo).data_buf_size as int),
            old(fifo).wf(),
            old(self).pending@.len() > 0,
            old(self)@.complete(0),
            old(stats).has_room(old(self)@.pending_slice(0).bytes),
        ensures
            final(fifo).wf(),
            final(fifo).buffer == old(fifo).buffer,
            final(fifo).data_buf_size == old(fifo).data_buf_size,
            final(fifo).data == old(fifo).data,
            match old(fifo).free_mem_queue@.refusal(old(self)@.pending_slice(0).bytes) {
                Some(e) => r == Err::<(usize, Option<Bandwidth>), ProduceError>(e),
                None => {
                    let bytes = old(self)@.pending_slice(0).bytes;
                    &&& r == Ok::<(usize, Option<Bandwidth>), ProduceError>(
                        (bytes as usize, old(stats).bandwidth(bytes as u64, now)),
                    )
                    &&& final(self).wf(final(fifo).data_buf_size as int)
                    &&& final(self)@ == old(self)@.released()
                    &&& final(fifo).free_mem_queue@ == old(
                        fifo,
                    ).free_mem_queue@.with_produced(bytes)
                    &&& *final(stats) == old(stats).acknowledged(bytes as u64, now)
                },
            },
    {
        let ghost before = self@;
        let ghost ring = fifo.data_buf_size as int;
        let i: usize = self.pending[0];
        assert(before.pending[0] == i);
        assert(self.slices@[i as int].wf());
        assert(before.slices[i as int] == self.slices@[i as int]@);
        let bytes: usize = self.slices[i].bytes;
        let bandwidth = match ack_slice(
            &mut self.slices[i],
            &mut self.config,
            &mut fifo.free_mem_queue,
            stats,
            now,
        ) {
            Ok(b) => b,
            Err(e) => {
                return Err(e);
            },
        };
        self.slices[i].state = SliceState::Free;
        self.first_slice_acked = true;
        let _ = self.pending.remove(0);
        proof {
            let goal = before.released();
            assert(self@.slices =~= goal.slices);
            assert(self@ =~= goal);
            lemma_released(before, ring);
        }
        Ok((bytes, bandwidth))
    }

    /// Sends the wanted blocks of pending slice `k` again.
    pub fn retransmit(&mut self, k: usize, fifo: &Fifo, stats: &mut SenderStats) -> (r: Vec<Vec<u8>>)
        requires
            old(self).wf(fifo.data_buf_size as int),
            fifo.wf(),
            k < old(self).pending@.len(),
            old(stats).retransmissions + 2048 <= u64::MAX,
        ensures
            final(self).wf(fifo.data_buf_size as int),
            final(self)@ == old(self)@.retransmitted(k as int),
            ({
                let s = old(self)@.pending_slice(k as int);
                let bs = old(self).config.block_size as int;
                rows(r@) == repair_packets(s, fifo.buffer@, bs, nr_blocks(s.bytes, bs) as nat)
            }),
            *final(stats) == (SenderStats {
                retransmissions: (old(stats).retransmissions + r@.len()) as u64,
                ..*old(stats)
            }),
    {
        let ghost before = self@;
        let ghost ring = fifo.data_buf_size as int;
        let i: usize = self.pending[k];
        assert(before.pending[k as int] == i);
        assert(self.slices@[i as int].wf());
        assert(before.slices[i as int] == self.slices@[i as int]@);
        let block_size: usize = self.config.block_size as usize;
        let packets: Vec<Vec<u8>> = rexmit_slice(&mut self.slices[i], &fifo.buffer, block_size);
        stats.add_retransmissions(packets.len() as u32);
        proof {
            let goal = before.retransmitted(k as int);
            assert(self@.slices =~= goal.slices);
            assert(self@ =~= goal);
            lemma_resent(before, goal, ring, k as int);
        }
        packets
    }

    /// Starts another round for pending slice `k`: the request for answers.
    pub fn ask_again(&mut self, k: usize, fifo: &mut Fifo, stats: &mut SenderStats, now: u64) -> (r:
        [u8; 16])
        requires
            old(self).wf(old(fifo).data_buf_size as int),
            old(fifo).wf(),
            k < old(self).pending@.len(),
            old(self)@.pending_slice(k as int).rxmit_id < i32::MAX,
            old(stats).has_room(old(self)@.pending_slice(k as int).bytes),
        ensures
            final(self).wf(old(fifo).data_buf_size as int),
            final(self)@ == old(self)@.asked_again(k as int),
            r@ == request(old(self)@.next_round(k as int)),
            *final(fifo) == *old(fifo),
            *final(stats) == *old(stats),
    {
        let ghost before = self@;
        let ghost ring = fifo.data_buf_size as int;
        let i: usize = self.pending[k];
        assert(before.pending[k as int] == i);
        assert(self.slices@[i as int].wf());
        assert(before.slices[i as int] == self.slices@[i as int]@);
        self.slices[i].rxmit_id = self.slices[i].rxmit_id + 1;
        assert(self.slices@[i as int]@ == before.next_round(k as int));
        let round = send_reqack(
            &mut self.slices[i],
            &mut self.config,
            &mut fifo.free_mem_queue,
            stats,
            now,
        );
        proof {
            let goal = before.asked_again(k as int);
            assert(self@.slices =~= goal.slices);
            assert(self@ =~= goal);
            lemma_resent(before, goal, ring, k as int);
        }
        match round {
            Ok(Round::Request(packet)) => packet,
            _ => [0u8; 16],
        }
    }

    /// Sends the next slice, if there is data for it.
    #[verifier::rlimit(60)]
    pub fn new_slice(&mut self, fifo: &mut Fifo, stats: &mut SenderStats, now: u64) -> (r: Result<
        Start,
        ProduceError,
    >)
        requires
            old(self).wf(old(fifo).data_buf_size as int),
            old(fifo).wf(),
            old(self).pending@.len() < max_in_flight(old(self).config.flags),
            !old(self).at_end,
            old(self).slice_no < i32::MAX,
            old(stats).has_room(old(self).config.block_size * 1024),
        ensures
            final(fifo).wf(),
            final(fifo).buffer == old(fifo).buffer,
            final(fifo).data_buf_size == old(fifo).data_buf_size,
            starts(
                *old(self),
                *final(self),
                *old(fifo),
                *final(fifo),
                *old(stats),
                *final(stats),
                now,
                r,
            ),
    {
        let ghost m = self@;
        let ghost ring = fifo.data_buf_size as int;
        let ghost content = fifo.buffer@;
        let ghost account = fifo.data@;
        proof {
            lemma_free_slice(m, ring);
            fifo.data.lemma_wf();
        }
        let pos: usize = match find_free_slice(&self.slices) {
            Some(p) => p,
            None => {
                return Ok(Start::WaitForData);
            },
        };
        let block_size: usize = self.config.block_size as usize;
        let base: usize = fifo.data.get_consumer_position();
        let available: usize = match fifo.data.consume(10 * block_size) {
            Some(n) => n,
            None => {
                return Ok(Start::WaitForData);
            },
        };
        proof {
            lemma_slice_bytes(m, available as int, ring);
            assert(self.config.block_size * self.config.slice_size <= self.config.block_size * 1024)
                by (nonlinear_arith)
                requires
                    0 < self.config.block_size,
                    self.config.slice_size <= 1024,
            ;
        }
        let most: usize = (self.config.block_size * self.config.slice_size) as usize;
        let mut bytes: usize = available;
        if bytes > most {
            bytes = most;
        }
        if bytes > block_size {
            bytes = bytes - bytes % block_size;
        }
        assert(bytes == m.slice_bytes(available as int));
        let _ = fifo.data.consumed(bytes);
        let slice_no: i32 = self.slice_no;
        self.slice_no = self.slice_no + 1;
        let ghost s = m.fresh(pos as int, base as int, bytes as int, content);
        assert(m.slices[pos as int].fec == self.slices@[pos as int]@.fec);
        let (data, parity) = prepare_slice(
            &mut self.slices[pos],
            &self.tables,
            &self.config,
            &fifo.buffer,
            base,
            slice_no,
            bytes,
        );
        assert(self.slices@[pos as int]@ == s);
        let round = match send_reqack(
            &mut self.slices[pos],
            &mut self.config,
            &mut fifo.free_mem_queue,
            stats,
            now,
        ) {
            Ok(round) => round,
            Err(e) => {
                return Err(e);
            },
        };
        match round {
            Round::Acked(_) => {
                self.first_slice_acked = true;
                self.slices[pos].state = SliceState::Free;
            },
            Round::Request(_) => {
                self.pending.push(pos);
                self.at_end = bytes == 0;
            },
        }
        proof {
            let goal = m.started(pos as int, base as int, bytes as int, content);
            assert(asked(s) =~= s);
            assert(self@.slices =~= goal.slices);
            assert(self@ =~= goal);
            lemma_started(m, ring, pos as int, base as int, bytes as int, content);
        }
        Ok(Start::Sent { data, parity, round })
    }

    /// Counts participant `cl` no more.
    fn forget(&mut self, cl: usize)
        requires
            exists|ring: int| old(self).wf(ring),
            cl < 1024,
        ensures
            forall|ring: int| old(self).wf(ring) ==> final(self).wf(ring),
            final(self)@ == old(self)@.without(set![cl as int]),
    {
        let ghost before = *self;
        let ghost m = self@;
        let ghost gone = set![cl as int];
        let mut i: usize = 0;
        while i < self.slices.len()
            invariant
                i <= self.slices@.len(),
                self.slices@.len() == before.slices@.len(),
                m == before@,
                cl < 1024,
                forall|j: int| 0 <= j < before.slices@.len() ==> (#[trigger] before.slices@[j]).wf(),
                forall|j: int| 0 <= j < self.slices@.len() ==> (#[trigger] self.slices@[j]).wf(),
                forall|j: int|
                    i <= j < self.slices@.len() ==> #[trigger] self.slices@[j]
                        == before.slices@[j],
                forall|j: int|
                    0 <= j < i ==> (#[trigger] self.slices@[j])@ == (SliceModel {
                        ready: before.slices@[j]@.ready.remove(cl as int),
                        answered: before.slices@[j]@.answered.remove(cl as int),
                        ..before.slices@[j]@
                    }),
                self.db == before.db,
                self@ == (SenderModel { slices: models(self.slices@), ..m }),
                self.config == before.config,
            decreases self.slices@.len() - i,
        {
            assert(self.slices@[i as int].wf());
            self.slices[i].forget(cl);
            i += 1;
        }
        let _ = self.db.remove_participant(cl);
        proof {
            let goal = m.without(gone);
            assert forall|j: int| 0 <= j < 8 implies #[trigger] models(self.slices@)[j]
                == goal.slices[j] by {
                assert(self.slices@[j]@ == (SliceModel {
                    ready: before.slices@[j]@.ready.remove(cl as int),
                    answered: before.slices@[j]@.answered.remove(cl as int),
                    ..before.slices@[j]@
                }));
                assert(before.slices@[j]@.ready.remove(cl as int)
                    =~= before.slices@[j]@.ready.difference(gone));
                assert(before.slices@[j]@.answered.remove(cl as int)
                    =~= before.slices@[j]@.answered.difference(gone));
            }
            before.db.lemma_wf();
            assert(self@.slices =~= goal.slices);
            assert(self@.table =~= goal.table);
            assert(self@ =~= goal);
            assert forall|ring: int| before.wf(ring) implies self.wf(ring) by {
                lemma_without(m, gone, ring);
            }
        }
    }

    /// Takes in an answer. Who left or was dropped can acknowledge nothing any more,
    /// but its requests for blocks of a pending slice still count.
    pub fn handle_next_message(&mut self, msg: IncomingMsg, stats: &mut SenderStats)
        requires
            exists|ring: int| old(self).wf(ring),
        ensures
            forall|ring: int| old(self).wf(ring) ==> final(self).wf(ring),
            final(self)@ == old(self)@.after(msg),
            *final(stats) == if newly_ready(old(self)@, msg) {
                SenderStats { cl_no: sender_of(msg), ..*old(stats) }
            } else {
                *old(stats)
            },
    {
        let ghost before = *self;
        let ghost m = self@;
        proof {
            self.db.lemma_wf();
            assert forall|ring: int| before.wf(ring) implies m.after(msg).ok(ring) by {
                lemma_after(m, msg, ring);
            }
        }
        let cl_no: i32 = match msg {
            IncomingMsg::Complete { cl_no, .. } => cl_no,
            IncomingMsg::Retransmit { cl_no, .. } => cl_no,
            IncomingMsg::Disconnect { cl_no } => cl_no,
        };
        if cl_no < 0 || cl_no >= 1024 {
            return ;
        }
        let cl: usize = cl_no as usize;
        let takes_part: bool = self.db.is_participant_valid(cl);
        match msg {
            IncomingMsg::Complete { slice_no, .. } => {
                if !takes_part {
                    return ;
                }
                match find_slice(&self.slices, slice_no) {
                    Some(i) => {
                        assert(self.slices@[i as int].wf());
                        assert(m.slices[i as int] == self.slices@[i as int]@);
                        let round: i32 = self.slices[i].rxmit_id;
                        self.db.mark_answered(cl, Some(slice_no), round);
                        if self.slices[i].set_ready(cl) {
                            stats.set_answered(cl_no);
                        }
                        self.slices[i].set_answered(cl);
                        assert(self@.slices =~= m.after(msg).slices);
                    },
                    None => {
                        self.db.mark_answered(cl, None, 0);
                    },
                }
                assert(self@ =~= m.after(msg));
            },
            IncomingMsg::Retransmit { slice_no, map, .. } => {
                match find_slice(&self.slices, slice_no) {
                    Some(i) => {
                        assert(self.slices@[i as int].wf());
                        assert(m.slices[i as int] == self.slices@[i as int]@);
                        let round: i32 = self.slices[i].rxmit_id;
                        self.db.mark_answered(cl, Some(slice_no), round);
                        self.slices[i].rxmit_map.add_missing(&map);
                        self.slices[i].need_rxmit = true;
                        self.slices[i].set_answered(cl);
                        assert(self@.slices =~= m.after(msg).slices);
                    },
                    None => {
                        self.db.mark_answered(cl, None, 0);
                    },
                }
                assert(self@ =~= m.after(msg));
            },
            IncomingMsg::Disconnect { .. } => {
                if takes_part {
                    self.forget(cl);
                }
            },
        }
    }

    /// The participants to be dropped, in order.
    fn find_hopeless(&self) -> (r: Vec<usize>)
        requires
            exists|ring: int| self.wf(ring),
            self.pending@.len() > 0,
        ensures
            r@ == in_order(self@.hopeless(self@.pending_slice(0)), 1024),
    {
        let i: usize = self.pending[0];
        assert(self@.pending[0] == i);
        assert(self@.slices[i as int] == self.slices@[i as int]@);
        let ghost s = self@.pending_slice(0);
        let ghost set = self@.hopeless(s);
        let slice_no: i32 = self.slices[i].slice_no;
        let rounds: i64 = self.slices[i].rxmit_id as i64;
        let limit: i64 = self.config.retries_until_drop as i64;
        let mut r: Vec<usize> = Vec::new();
        let mut cl: usize = 0;
        proof {
            self.db.lemma_wf();
        }
        while cl < 1024
            invariant
                cl <= 1024,
                self.db.wf(),
                self@.table.len() == 1024,
                i < self.slices@.len(),
                s == self.slices@[i as int]@,
                s.slice_no == slice_no,
                rounds == s.rxmit_id,
                limit == self.config.retries_until_drop,
                set == self@.hopeless(s),
                r@ == in_order(set, cl as nat),
            decreases 1024 - cl,
        {
            let mut hopeless: bool = false;
            if rounds > limit && self.db.is_participant_valid(cl) && !self.slices[i].ready_set.contains(
                cl,
            ) {
                let from: i64 = match self.db.first_answered_round(cl) {
                    Some((no, round)) => if no == slice_no {
                        round as i64
                    } else {
                        0
                    },
                    None => 0,
                };
                assert(from == self@.patience_from(cl as int, s));
                hopeless = rounds - from > limit;
            }
            assert(hopeless == set.contains(cl as int));
            if hopeless {
                r.push(cl);
            }
            cl += 1;
        }
        r
    }

    /// What a sender shows that gets no answers.
    fn report(&self) -> (r: Report)
        requires
            exists|ring: int| self.wf(ring),
            self.pending@.len() > 0,
        ensures
            r.not_answered@ == in_order(
                self@.participants().difference(self@.pending_slice(0).answered),
                1024,
            ),
            r.not_ready@ == in_order(
                self@.participants().difference(self@.pending_slice(0).ready),
                1024,
            ),
            r.nr_answered == self@.pending_slice(0).answered.len(),
            r.nr_ready == self@.pending_slice(0).ready.len(),
            r.nr_participants == self@.participants().len(),
            r.wait_ms == self.wait_average / 1000,
    {
        let i: usize = self.pending[0];
        assert(self@.pending[0] == i);
        assert(self.slices@[i as int].wf());
        assert(self@.slices[i as int] == self.slices@[i as int]@);
        let not_answered: Vec<usize> = self.db.select_by_bit(
            self.slices[i].answered_set.bytes.as_slice(),
            false,
        );
        let not_ready: Vec<usize> = self.db.select_by_bit(
            self.slices[i].ready_set.bytes.as_slice(),
            false,
        );
        proof {
            self.db.lemma_wf();
            lemma_unset(self@.table, self.slices@[i as int].answered_set.bytes@, 1024);
            lemma_unset(self@.table, self.slices@[i as int].ready_set.bytes@, 1024);
        }
        Report {
            not_answered,
            not_ready,
            nr_answered: self.slices[i].nr_answered,
            nr_ready: self.slices[i].nr_ready,
            nr_participants: self.db.nr_participants(),
            wait_ms: self.wait_average / 1000,
        }
    }

    /// No answer came in time: hopeless participants are dropped, and if anybody
    /// is left the oldest slice goes into another round.
    pub fn on_timeout(&mut self, fifo: &mut Fifo, stats: &mut SenderStats, now: u64) -> (r: Silence)
        requires
            old(self).wf(old(fifo).data_buf_size as int),
            old(fifo).wf(),
            old(self).pending@.len() > 0,
            old(self)@.pending_slice(0).rxmit_id < i32::MAX,
            old(stats).has_room(old(self)@.pending_slice(0).bytes),
        ensures
            final(self).wf(old(fifo).data_buf_size as int),
            final(self)@ == old(self)@.timed_out(),
            *final(fifo) == *old(fifo),
            *final(stats) == *old(stats),
            r.dropped@ == in_order(old(self)@.hopeless(old(self)@.pending_slice(0)), 1024),
            (r.report is Some) == (old(self).nr_waited == 5),
            r.report matches Some(p) ==> {
                let s = old(self)@.pending_slice(0);
                let all = old(self)@.participants();
                &&& p.not_answered@ == in_order(all.difference(s.answered), 1024)
                &&& p.not_ready@ == in_order(all.difference(s.ready), 1024)
                &&& p.nr_answered == s.answered.len()
                &&& p.nr_ready == s.ready.len()
                &&& p.nr_participants == all.len()
                &&& p.wait_ms == old(self).wait_average / 1000
            },
            match r.request {
                Some(packet) => packet@ == request(old(self)@.next_round(0)),
                None => true,
            },
            (r.request is None) == (old(self)@.pending_slice(0).rxmit_id
                > old(self).config.retries_until_drop && final(self)@.participants().len() == 0),
    {
        let ghost ring = fifo.data_buf_size as int;
        let ghost m = self@;
        let ghost s = m.pending_slice(0);
        let report: Option<Report> = if self.nr_waited == 5 {
            let p = self.report();
            self.nr_waited = 0;
            Some(p)
        } else {
            self.nr_waited = self.nr_waited + 1;
            None
        };
        let ghost m1 = self@;
        assert(m1.slices =~= m.slices);
        assert(self.wf(ring)) by {
            lemma_times(m, m1, ring);
        }
        let dropped: Vec<usize> = self.find_hopeless();
        let ghost gone = m.hopeless(s);
        assert(m1.hopeless(m1.pending_slice(0)) =~= gone);
        let i: usize = self.pending[0];
        assert(m.pending[0] == i);
        let over: bool = self.slices[i].rxmit_id > self.config.retries_until_drop;
        proof {
            lemma_in_order(gone, 1024);
            lemma_without_none(m1);
            self.db.lemma_wf();
        }
        let mut n: usize = 0;
        assert(taken(dropped@, 0) =~= Set::<int>::empty());
        while n < dropped.len()
            invariant
                n <= dropped@.len(),
                self.wf(ring),
                self@ == m1.without(taken(dropped@, n as int)),
                forall|k: int| 0 <= k < dropped@.len() ==> (#[trigger] dropped@[k]) < 1024,
            decreases dropped@.len() - n,
        {
            let cl: usize = dropped[n];
            self.forget(cl);
            proof {
                lemma_without_twice(m1, taken(dropped@, n as int), set![cl as int]);
                assert(taken(dropped@, n + 1) =~= taken(dropped@, n as int).union(
                    set![cl as int],
                ));
            }
            n += 1;
        }
        proof {
            assert forall|j: int| taken(dropped@, dropped@.len() as int).contains(j)
                == gone.contains(j) by {
                if gone.contains(j) {
                    assert(m.participants().contains(j));
                    assert(dropped@.contains(j as usize));
                }
            }
            assert(taken(dropped@, dropped@.len() as int) =~= gone);
        }
        let ghost m2 = self@;
        assert(m2.pending_slice(0).rxmit_id == s.rxmit_id);
        if over && self.db.nr_participants() == 0 {
            return Silence { report, dropped, request: None };
        }
        let packet = self.ask_again(0, fifo, stats, now);
        assert(request(m2.next_round(0)) == request(m.next_round(0)));
        Silence { report, dropped, request: Some(packet) }
    }

    /// Whether the counters, and those of the figures, have room for one more step.
    pub fn may_step(&self, stats: &SenderStats) -> (r: bool)
        requires
            exists|ring: int| self.wf(ring),
        ensures
            r <==> self@.can_count() && stats.has_room(self.config.block_size * 1024)
                && stats.retransmissions + 2048 <= u64::MAX,
    {
        let mut k: usize = 0;
        while k < self.pending.len()
            invariant
                k <= self.pending@.len(),
                exists|ring: int| self.wf(ring),
                forall|j: int|
                    0 <= j < k ==> (#[trigger] self@.pending_slice(j)).rxmit_id < i32::MAX,
            decreases self.pending@.len() - k,
        {
            let i: usize = self.pending[k];
            assert(self@.pending[k as int] == i);
            assert(self@.slices[i as int] == self.slices@[i as int]@);
            assert(self@.pending_slice(k as int) == self.slices@[i as int]@);
            if self.slices[i].rxmit_id == i32::MAX {
                return false;
            }
            k += 1;
        }
        self.slice_no < i32::MAX && stats.fits(self.config.block_size as u64 * 1024)
            && stats.retransmissions <= u64::MAX - 2048
    }

    /// A sender about to begin, with the slice size to begin with.
    pub fn new(config: NetConfig, db: ParticipantsDb, ring: usize, now: u64) -> (r: Self)
        requires
            db.wf(),
            sendable(config, ring as int),
        ensures
            r.wf(ring as int),
            r@ == (SenderModel {
                config: with_first_slice_size(config),
                table: db@,
                slices: Seq::new(8, |i: int| unused_slice(config)),
                pending: Seq::empty(),
                slice_no: 0,
                at_end: false,
                first_slice_acked: false,
                last_reply_us: now,
                wait_average: 10_000,
                nr_waited: 0,
            }),
    {
        let mut config = config;
        init_slice_size(&mut config);
        let block_size: usize = config.block_size as usize;
        proof {
            assert(config.fec_stripes * config.fec_redundancy <= config.fec_stripes
                * config.fec_redundancy * config.block_size) by (nonlinear_arith)
                requires
                    config.block_size >= 1,
                    config.fec_stripes >= 0,
                    config.fec_redundancy >= 0,
            ;
        }
        let nr_fec: usize = if config.flags & FLAG_FEC != 0 {
            (config.fec_stripes * config.fec_redundancy) as usize
        } else {
            0
        };
        let mut slices: Vec<Slice> = Vec::new();
        let mut i: usize = 0;
        while i < NR_SLICES
            invariant
                i <= 8,
                slices@.len() == i,
                block_size == config.block_size,
                nr_fec == if flagged(config.flags, FLAG_FEC) {
                    config.fec_stripes * config.fec_redundancy
                } else {
                    0
                },
                forall|k: int| 0 <= k < i ==> (#[trigger] slices@[k]).wf(),
                forall|k: int| 0 <= k < i ==> (#[trigger] slices@[k])@ == unused_slice(config),
            decreases 8 - i,
        {
            slices.push(Slice::new(nr_fec, block_size));
            assert(slices@[i as int]@ =~= unused_slice(config));
            i += 1;
        }
        let r = NetSender {
            config,
            db,
            slices,
            pending: Vec::new(),
            slice_no: 0,
            at_end: false,
            first_slice_acked: false,
            last_reply_us: now,
            wait_average: 10_000,
            nr_waited: 0,
            tables: fec_init(),
        };
        proof {
            assert forall|k: int| 0 <= k < 8 implies #[trigger] r@.slices[k] == unused_slice(
                config,
            ) by {
                assert(r.slices@[k]@ == unused_slice(config));
            }
            db.lemma_wf();
            assert(r@.slices =~= Seq::new(8, |i: int| unused_slice(config)));
        }
        r
    }

    /// The replies to participants that registered and never answered, if it is
    /// time for them: until the first slice is acknowledged they can still catch
    /// up.
    pub fn late_replies(&mut self, now: u64) -> (r: Vec<(SocketAddrV4, [u8; 32])>)
        requires
            exists|ring: int| old(self).wf(ring),
        ensures
            forall|ring: int| old(self).wf(ring) ==> final(self).wf(ring),
            if old(self)@.reply_due(now) {
                let list = in_order(silent_joiners(old(self)@.table), 1024);
                &&& final(self)@ == (SenderModel { last_reply_us: now, ..old(self)@ })
                &&& r@.len() == list.len()
                &&& forall|k: int|
                    0 <= k < r@.len() ==> {
                        &&& (#[trigger] r@[k]).0 == old(self)@.table[list[k] as int].addr
                        &&& r@[k].1@ == reply_to(old(self).config, list[k] as i32)
                    }
            } else {
                &&& final(self)@ == old(self)@
                &&& r@.len() == 0
            },
    {
        let mut r: Vec<(SocketAddrV4, [u8; 32])> = Vec::new();
        if self.first_slice_acked || now < self.last_reply_us || now - self.last_reply_us
            < 1_000_000 {
            return r;
        }
        let ghost before = *self;
        self.last_reply_us = now;
        assert(self@.slices =~= before@.slices);
        assert forall|ring: int| before.wf(ring) implies self.wf(ring) by {
            lemma_replied(before@, now, ring);
        }
        let ghost set = silent_joiners(self@.table);
        proof {
            self.db.lemma_wf();
        }
        let mut i: usize = 0;
        while i < 1024
            invariant
                i <= 1024,
                self.db.wf(),
                self@.table.len() == 1024,
                self.config.block_size <= i32::MAX,
                set == silent_joiners(self@.table),
                r@.len() == in_order(set, i as nat).len(),
                forall|k: int|
                    0 <= k < r@.len() ==> {
                        &&& (#[trigger] r@[k]).0 == self@.table[in_order(
                            set,
                            i as nat,
                        )[k] as int].addr
                        &&& r@[k].1@ == reply_to(self.config, in_order(set, i as nat)[k] as i32)
                    },
            decreases 1024 - i,
        {
            let ghost head = in_order(set, i as nat);
            let ghost sent = r@;
            if self.db.is_participant_valid(i) && !self.db.ever_answered(i)
                && self.db.get_participant_capabilities(i) & CAP_LATE_JOIN != 0 {
                assert(set.contains(i as int));
                if let Some(addr) = self.db.get_participant_ip(i) {
                    let reply = ConnectReply {
                        cl_nr: i as i32,
                        block_size: self.config.block_size as i32,
                        capabilities: sender_capabilities(self.config.flags),
                        mcast: ip4_into_16(self.config.data_mcast_addr.ip),
                    };
                    r.push((*addr, reply.pack()));
                }
            }
            i += 1;
            assert forall|k: int| 0 <= k < r@.len() implies {
                &&& (#[trigger] r@[k]).0 == self@.table[in_order(set, i as nat)[k] as int].addr
                &&& r@[k].1@ == reply_to(self.config, in_order(set, i as nat)[k] as i32)
            } by {
                if k < sent.len() {
                    assert(r@[k] == sent[k]);
                    assert(in_order(set, i as nat)[k] == head[k]);
                }
            }
        }
        r
    }

    /// How long to wait for an answer, in microseconds: a tenth more than the
    /// average; after ten rounds a second more; and never less than 200.
    pub fn wait_timeout_us(&self) -> (r: u64)
        requires
            exists|ring: int| self.wf(ring),
            self.wait_average <= 0x1000_0000_0000_0000,
        ensures
            r == self@.patience(),
    {
        let mut t: u64 = self.wait_average * 11 / 10;
        if self.pending.len() > 0 {
            let i: usize = self.pending[0];
            assert(self@.pending[0] == i);
            assert(self@.slices[i as int] == self.slices@[i as int]@);
            if self.slices[i].rxmit_id > 10 {
                t = t + 1_000_000;
            }
        }
        if t < 200 {
            200
        } else {
            t
        }
    }

    /// An answer came after `elapsed` microseconds.
    pub fn answered_after(&mut self, elapsed: u64)
        requires
            exists|ring: int| old(self).wf(ring),
            old(self).wait_average * 10 + elapsed + 9 <= u64::MAX,
        ensures
            forall|ring: int| old(self).wf(ring) ==> final(self).wf(ring),
            final(self)@ == (SenderModel {
                wait_average: next_average(
                    old(self).wait_average as int,
                    elapsed as int,
                    old(self).nr_waited > 0,
                ) as u64,
                nr_waited: 0,
                ..old(self)@
            }),
    {
        let ghost before = *self;
        let mut e: u64 = elapsed;
        if self.nr_waited > 0 {
            e = e + self.wait_average;
        }
        self.wait_average = (self.wait_average * 9 + e + 9) / 10;
        self.nr_waited = 0;
        assert(self@.slices =~= before@.slices);
        assert forall|ring: int| before.wf(ring) implies self.wf(ring) by {
            lemma_waited(before@, self.wait_average, ring);
        }
    }

    /// Does what is to be done next. While slices, data and free memory lie in line
    /// in the ring, there is always room for what is given back.
    pub fn step(&mut self, fifo: &mut Fifo, stats: &mut SenderStats, now: u64) -> (r: Result<
        Action,
        ProduceError,
    >)
        requires
            old(self).wf(old(fifo).data_buf_size as int),
            old(fifo).wf(),
            old(self)@.can_count(),
            old(stats).has_room(old(self).config.block_size * 1024),
            old(stats).retransmissions + 2048 <= u64::MAX,
        ensures
            final(fifo).wf(),
            r is Ok ==> final(self).wf(final(fifo).data_buf_size as int),
            r is Ok ==> outgoing(*final(self), *final(fifo)) == outgoing(
                *old(self),
                *old(fifo),
            ).stepped(),
            outgoing(*old(self), *old(fifo)).ok() ==> r is Ok,
            final(fifo).buffer == old(fifo).buffer,
            final(fifo).data_buf_size == old(fifo).data_buf_size,
            match old(self)@.choice() {
                Choice::Release => {
                    let bytes = old(self)@.pending_slice(0).bytes;
                    match old(fifo).free_mem_queue@.refusal(bytes) {
                        Some(e) => r matches Err(f) && e == f,
                        None => {
                            &&& r == Ok::<Action, ProduceError>(
                                Action::Released {
                                    bytes: bytes as usize,
                                    bandwidth: old(stats).bandwidth(bytes as u64, now),
                                },
                            )
                            &&& final(self)@ == old(self)@.released()
                            &&& final(fifo).free_mem_queue@ == old(
                                fifo,
                            ).free_mem_queue@.with_produced(bytes)
                            &&& final(fifo).data == old(fifo).data
                            &&& *final(stats) == old(stats).acknowledged(bytes as u64, now)
                        },
                    }
                },
                Choice::Retransmit(k) => {
                    let s = old(self)@.pending_slice(k as int);
                    let bs = old(self).config.block_size as int;
                    &&& r matches Ok(Action::Resend(packets)) && {
                        &&& rows(packets@) == repair_packets(
                            s,
                            old(fifo).buffer@,
                            bs,
                            nr_blocks(s.bytes, bs) as nat,
                        )
                        &&& *final(stats) == (SenderStats {
                            retransmissions: (old(stats).retransmissions + packets@.len()) as u64,
                            ..*old(stats)
                        })
                    }
                    &&& final(self)@ == old(self)@.retransmitted(k as int)
                    &&& *final(fifo) == *old(fifo)
                },
                Choice::Ask(k) => {
                    &&& r matches Ok(Action::Ask(packet)) && packet@ == request(
                        old(self)@.next_round(k as int),
                    )
                    &&& final(self)@ == old(self)@.asked_again(k as int)
                    &&& *final(fifo) == *old(fifo)
                    &&& *final(stats) == *old(stats)
                },
                Choice::NewSlice => starts(
                    *old(self),
                    *final(self),
                    *old(fifo),
                    *final(fifo),
                    *old(stats),
                    *final(stats),
                    now,
                    match r {
                        Ok(Action::Start(start)) => Ok(start),
                        Ok(_) => Ok(Start::WaitForData),
                        Err(e) => Err(e),
                    },
                ) && (r is Ok ==> r->Ok_0 is Start),
                Choice::Finish => {
                    &&& r matches Ok(Action::Finish)
                    &&& *final(self) == *old(self)
                    &&& *final(fifo) == *old(fifo)
                    &&& *final(stats) == *old(stats)
                },
                Choice::Wait => {
                    &&& r matches Ok(Action::Wait)
                    &&& *final(self) == *old(self)
                    &&& *final(fifo) == *old(fifo)
                    &&& *final(stats) == *old(stats)
                },
            },
    {
        let ghost o = outgoing(*self, *fifo);
        proof {
            if o.ok() {
                law_steps_keep_slices(o);
            }
        }
        let r: Result<Action, ProduceError> = match self.choose_step() {
            Choice::Release => {
                assert(self@.pending[0] < 8);
                assert(slice_ok(
                    self.config,
                    self@.pending_slice(0),
                    fifo.data_buf_size as int,
                ));
                match self.release(fifo, stats, now) {
                    Ok((bytes, bandwidth)) => Ok(Action::Released { bytes, bandwidth }),
                    Err(e) => Err(e),
                }
            },
            Choice::Retransmit(k) => Ok(Action::Resend(self.retransmit(k, fifo, stats))),
            Choice::Ask(k) => {
                assert(slice_ok(
                    self.config,
                    self@.pending_slice(k as int),
                    fifo.data_buf_size as int,
                ));
                Ok(Action::Ask(self.ask_again(k, fifo, stats, now)))
            },
            Choice::NewSlice => match self.new_slice(fifo, stats, now) {
                Ok(start) => Ok(Action::Start(start)),
                Err(e) => Err(e),
            },
            Choice::Finish => Ok(Action::Finish),
            Choice::Wait => Ok(Action::Wait),
        };
        proof {
            if r is Ok {
                assert(outgoing(*self, *fifo) =~= o.stepped());
            }
        }
        r
    }
}

/// The average time to an answer after one more, over about ten; if the one
/// before was waited for in vain, the average so far is added to the time.
pub open spec fn next_average(average: int, elapsed: int, waited: bool) -> int {
    let e = if waited {
        elapsed + average
    } else {
        elapsed
    };
    (average * 9 + e + 9) / 10
}

/// A slice before its first use.
pub open spec fn unused_slice(c: NetConfig) -> SliceModel {
    SliceModel {
        base: 0,
        slice_no: 0,
        bytes: 0,
        state: SliceState::Free,
        rxmit: Set::empty(),
        xmitted: Set::empty(),
        rxmit_id: 0,
        ready: Set::empty(),
        answered: Set::empty(),
        need_rxmit: false,
        last_good: 0,
        fec: Seq::new(
            if flagged(c.flags, FLAG_FEC) {
                (c.fec_stripes * c.fec_redundancy) as nat
            } else {
                0
            },
            |p: int| Seq::new(c.block_size as nat, |b: int| 0u8),
        ),
    }
}

/// The participants that can join late and never answered.
pub open spec fn silent_joiners(table: Seq<ClientDesc>) -> Set<int> {
    Set::new(
        |i: int|
            {
                &&& members(table).contains(i)
                &&& !table[i].ever_answered
                &&& table[i].capabilities & CAP_LATE_JOIN != 0
            },
    )
}

/// The reply to participant `cl_nr`. It names what the sender can do, as every
/// reply does, whatever the participants have in common.
pub open spec fn reply_to(c: NetConfig, cl_nr: i32) -> Seq<u8> {
    connect_reply_bytes(
        cl_nr,
        c.block_size as i32,
        capabilities_for(c.flags),
        address_field(c.data_mcast_addr.ip),
    )
}

/// Times play no role in whether a sender is consistent.
proof fn lemma_replied(m: SenderModel, now: u64, ring: int)
    requires
        m.ok(ring),
    ensures
        (SenderModel { last_reply_us: now, ..m }).ok(ring),
{
    lemma_times(m, SenderModel { last_reply_us: now, ..m }, ring);
}

/// Times play no role in whether a sender is consistent.
proof fn lemma_waited(m: SenderModel, average: u64, ring: int)
    requires
        m.ok(ring),
    ensures
        (SenderModel { wait_average: average, nr_waited: 0, ..m }).ok(ring),
{
    lemma_times(m, SenderModel { wait_average: average, nr_waited: 0, ..m }, ring);
}

/// Times play no role in whether a sender is consistent.
pub proof fn lemma_times(m: SenderModel, n: SenderModel, ring: int)
    requires
        m.ok(ring),
        n.config == m.config,
        n.table == m.table,
        n.slices == m.slices,
        n.pending == m.pending,
        n.slice_no == m.slice_no,
        n.nr_waited <= 5,
    ensures
        n.ok(ring),
{
    assert forall|j: int| 0 <= j < 8 implies {
        &&& (#[trigger] n.slices[j]).ready.subset_of(n.participants())
        &&& n.slices[j].state == SliceState::Free || n.pending.contains(j as usize)
        &&& flagged(n.config.flags, FLAG_FEC) ==> n.slices[j].fec.len() == n.config.fec_stripes
            * n.config.fec_redundancy
    } by {
        assert(m.slices[j].ready.subset_of(m.participants()));
    }
    assert forall|k: int| 0 <= k < n.pending.len() implies {
        &&& (#[trigger] n.pending[k]) < 8
        &&& n.pending_slice(k).state == SliceState::Xmitted
        &&& slice_ok(n.config, n.pending_slice(k), ring)
    } by {
        assert(m.pending[k] < 8);
    }
}

/// The first `n` numbers of a list.
pub open spec fn taken(list: Seq<usize>, n: int) -> Set<int> {
    Set::new(|i: int| exists|k: int| 0 <= k < n && #[trigger] list[k] == i)
}

/// The participants whose bit is not set are those not in the set.
proof fn lemma_unset(table: Seq<ClientDesc>, map: Seq<u8>, n: nat)
    requires
        n <= table.len(),
        n <= 1024,
    ensures
        crate::participants::selected(table, map, false, n) == in_order(
            members(table).difference(bits_of(map)),
            n,
        ),
    decreases n,
{
    if n > 0 {
        lemma_unset(table, map, (n - 1) as nat);
    }
}

/// A slice is freed only once every participant has it, and only as the oldest.
pub proof fn law_freed_only_when_all_have_it(m: SenderModel, ring: int)
    requires
        m.ok(ring),
        m.choice() == Choice::Release,
    ensures
        m.pending.len() > 0,
        m.participants().subset_of(m.pending_slice(0).ready),
{
    let s = m.pending_slice(0);
    assert(m.pending[0] < 8);
    assert(m.slices[m.pending[0] as int].ready.subset_of(m.participants()));
    crate::participants::lemma_members_finite(m.table);
    assert forall|i: int| m.participants().contains(i) implies s.ready.contains(i) by {
        if !s.ready.contains(i) {
            assert(s.ready.subset_of(m.participants().remove(i)));
            vstd::set_lib::lemma_len_subset(s.ready, m.participants().remove(i));
        }
    }
}

/// A pending slice is complete exactly if every participant has it.
pub proof fn lemma_complete(m: SenderModel, ring: int, k: int)
    requires
        m.ok(ring),
        0 <= k < m.pending.len(),
    ensures
        m.complete(k) <==> m.participants().subset_of(m.pending_slice(k).ready),
{
    let s = m.pending_slice(k);
    assert(m.pending[k] < 8);
    assert(m.slices[m.pending[k] as int].ready.subset_of(m.participants()));
    crate::participants::lemma_members_finite(m.table);
    vstd::set_lib::lemma_set_subset_finite(m.participants(), s.ready);
    if m.complete(k) {
        assert forall|i: int| m.participants().contains(i) implies s.ready.contains(i) by {
            if !s.ready.contains(i) {
                assert(s.ready.subset_of(m.participants().remove(i)));
                vstd::set_lib::lemma_len_subset(s.ready, m.participants().remove(i));
            }
        }
    }
    if m.participants().subset_of(s.ready) {
        vstd::set_lib::lemma_len_subset(m.participants(), s.ready);
    }
}

/// Somebody does not have pending slice `k`.
pub open spec fn awaited(m: SenderModel, k: int) -> bool {
    exists|i: int| m.participants().contains(i) && !m.pending_slice(k).ready.contains(i)
}

/// A slice is awaited exactly if it is not complete.
proof fn lemma_awaited(m: SenderModel, ring: int, k: int)
    requires
        m.ok(ring),
        0 <= k < m.pending.len(),
    ensures
        awaited(m, k) <==> !m.complete(k),
{
    lemma_complete(m, ring, k);
    if !m.complete(k) {
        let i = choose|i: int|
            m.participants().contains(i) && !m.pending_slice(k).ready.contains(i);
        assert(awaited(m, k));
    }
}

/// Where the first of a list is none, none is.
proof fn lemma_none_first(marks: Seq<bool>, k: int)
    requires
        first_true(marks) is None,
        0 <= k < marks.len(),
    ensures
        !marks[k],
    decreases k,
{
    if marks[k] {
        assert forall|j: int| 0 <= j < k implies !(#[trigger] marks[j]) by {
            lemma_none_first(marks, j);
        }
        assert(is_first(marks, k));
    }
}

/// What the sender does next serves its receivers. An oldest slice that everybody has is
/// freed at once. Otherwise, if anybody misses blocks of a slice that not everybody has,
/// such blocks are sent again, of the oldest such slice. Otherwise, if everybody has
/// answered about a slice that not everybody has, they are asked anew. Otherwise a new
/// slice is begun, if one more may be under way and the end was not sent. The transfer
/// is over exactly when the end was sent and nothing is pending.
pub proof fn law_the_sender_serves_its_receivers(m: SenderModel, ring: int, k: int)
    requires
        m.ok(ring),
        !flagged(m.config.flags, FLAG_ASYNC),
    ensures
        m.pending.len() > 0 && !awaited(m, 0) <==> m.choice() == Choice::Release,
        0 <= k < m.pending.len() && awaited(m, 0) && awaited(m, k) && m.pending_slice(k).need_rxmit
            ==> (m.choice() matches Choice::Retransmit(j) && j <= k),
        m.choice() matches Choice::Retransmit(j) ==> {
            &&& j < m.pending.len()
            &&& awaited(m, j as int)
            &&& m.pending_slice(j as int).need_rxmit
        },
        m.choice() matches Choice::Ask(j) ==> {
            &&& j < m.pending.len()
            &&& awaited(m, j as int)
            &&& m.participants().subset_of(m.pending_slice(j as int).answered)
        },
        0 <= k < m.pending.len() && awaited(m, 0) && awaited(m, k) && m.participants().subset_of(
            m.pending_slice(k).answered,
        ) ==> m.choice() is Retransmit || m.choice() is Ask,
        m.choice() == Choice::NewSlice ==> !m.at_end && m.pending.len() < max_in_flight(
            m.config.flags,
        ),
        !m.at_end && m.pending.len() == 0 ==> m.choice() == Choice::NewSlice,
        m.choice() == Choice::Wait ==> m.pending.len() > 0 && (m.at_end || m.pending.len()
            == max_in_flight(m.config.flags)),
        m.choice() == Choice::Finish <==> m.at_end && m.pending.len() == 0,
{
    let lossy = Seq::new(m.pending.len(), |k: int| m.lossy(k));
    let undecided = Seq::new(m.pending.len(), |k: int| m.undecided(k));
    assert(m.pending.len() <= 3);
    if m.pending.len() > 0 {
        lemma_awaited(m, ring, 0);
    }
    if 0 <= k < m.pending.len() {
        lemma_awaited(m, ring, k);
        if m.first_lossy() is None {
            lemma_none_first(lossy, k);
            assert(lossy[k] == m.lossy(k));
        }
        if m.first_undecided() is None {
            lemma_none_first(undecided, k);
            assert(undecided[k] == m.undecided(k));
        }
    }
    if let Some(j) = m.first_lossy() {
        let i = choose|i: int| is_first(lossy, i);
        assert(exists|i: int| is_first(lossy, i));
        assert(is_first(lossy, i));
        assert(i == j);
        assert(lossy[j] == m.lossy(j));
        lemma_awaited(m, ring, j);
        if 0 <= k < j {
            assert(!lossy[k]);
        }
    }
    if let Some(j) = m.first_undecided() {
        let i = choose|i: int| is_first(undecided, i);
        assert(exists|i: int| is_first(undecided, i));
        assert(is_first(undecided, i));
        assert(i == j);
        assert(undecided[j] == m.undecided(j));
        lemma_awaited(m, ring, j);
    }
}

/// The others go on: where everybody who does not have the oldest slice has used up its
/// rounds, a wait in vain drops them, and the slice is freed next.
pub proof fn law_the_others_go_on(m: SenderModel, ring: int)
    requires
        m.ok(ring),
        !flagged(m.config.flags, FLAG_ASYNC),
        m.pending.len() > 0,
        m.pending_slice(0).rxmit_id < i32::MAX,
        forall|i: int| #[trigger]
            m.participants().contains(i) && !m.pending_slice(0).ready.contains(i) ==> {
                &&& m.pending_slice(0).rxmit_id > m.config.retries_until_drop
                &&& match m.table[i].first_answered_round {
                    Some((no, first)) => no == m.pending_slice(0).slice_no
                        ==> m.pending_slice(0).rxmit_id - first > m.config.retries_until_drop,
                    None => true,
                }
            },
    ensures
        m.timed_out().choice() == Choice::Release,
{
    let v = m.timed_out();
    let s = m.pending_slice(0);
    let gone = m.hopeless(s);
    law_silence_begins_the_next_round(m, ring);
    assert(m.pending[0] < 8);
    assert(v.pending_slice(0).ready == s.ready.difference(gone));
    assert(v.config.flags == m.config.flags);
    assert forall|i: int| v.participants().contains(i) implies v.pending_slice(0).ready.contains(
        i,
    ) by {
        assert(m.participants().contains(i));
        law_dead_participants_are_dropped(m, ring, i);
    }
    law_the_sender_serves_its_receivers(v, ring, 0);
}

/// A new slice takes what there is, up to the size of a slice, and ends with a whole
/// block unless there is less than one. So data is never left lying.
pub proof fn law_slices_take_what_there_is(m: SenderModel, ring: int, available: int)
    requires
        m.ok(ring),
        m.config.slice_size > 0,
        available >= 0,
    ensures
        ({
            let bs = m.config.block_size as int;
            let n = m.slice_bytes(available);
            &&& 0 <= n <= available
            &&& n <= bs * m.config.slice_size
            &&& available > 0 ==> n > 0
            &&& available <= bs ==> n == available
            &&& available > bs ==> n % bs == 0 && (available - n < bs || n == bs
                * m.config.slice_size)
        }),
{
    let bs = m.config.block_size as int;
    let size = m.config.slice_size as int;
    lemma_slice_bytes(m, available, ring);
    let most = bs * size;
    assert(most >= bs) by (nonlinear_arith)
        requires
            most == bs * size,
            size >= 1,
            bs >= 1,
    ;
    let n = if available > most {
        most
    } else {
        available
    };
    vstd::arithmetic::div_mod::lemma_mod_bound(n, bs);
    vstd::arithmetic::div_mod::lemma_fundamental_div_mod(n, bs);
    assert(size * bs == most) by (nonlinear_arith)
        requires
            most == bs * size,
    ;
    vstd::arithmetic::div_mod::lemma_mod_multiples_basic(size, bs);
    let q = n / bs;
    vstd::arithmetic::div_mod::lemma_mod_multiples_basic(q, bs);
    assert(bs * q == q * bs) by (nonlinear_arith);
}

/// Freeing the oldest slice leaves the others pending, as they are and in their order,
/// and gives its place back.
pub proof fn law_freeing_leaves_the_others(m: SenderModel, ring: int, k: int)
    requires
        m.ok(ring),
        0 < k < m.pending.len(),
    ensures
        m.released().pending.len() == m.pending.len() - 1,
        m.released().pending_slice(k - 1) == m.pending_slice(k),
        m.released().slices[m.pending[0] as int].state == SliceState::Free,
        m.released().table == m.table,
        m.released().at_end == m.at_end,
        m.released().slice_no == m.slice_no,
{
    assert(m.pending[k] < 8 && m.pending[0] < 8);
    assert(m.pending[0] != m.pending[k]);
    assert(m.released().pending[k - 1] == m.pending[k]);
}

/// How long to wait for an answer: about a tenth more than answers take on average, a
/// second more from the eleventh round on, and never less than 200 microseconds.
pub proof fn law_patience(m: SenderModel, ring: int)
    requires
        m.ok(ring),
    ensures
        m.patience() >= 200,
        m.patience() * 10 > m.wait_average * 11 - 10,
        m.pending.len() > 0 && m.pending_slice(0).rxmit_id > 10 ==> m.patience() * 10
            > m.wait_average * 11 + 10_000_000 - 10,
        m.pending.len() > 0 && m.pending_slice(0).rxmit_id > 10 ==> m.patience() * 10
            <= m.wait_average * 11 + 10_000_000,
        m.pending.len() == 0 || m.pending_slice(0).rxmit_id <= 10 ==> m.patience() == 200
            || m.patience() * 10 <= m.wait_average * 11,
{
}

/// The average moves a tenth of the way to the time that an answer took, rounded up; a
/// wait in vain before it counts as the average so far.
pub proof fn law_the_average_follows(average: int, elapsed: int, waited: bool)
    requires
        0 <= average,
        0 <= elapsed,
    ensures
        ({
            let took = if waited {
                elapsed + average
            } else {
                elapsed
            };
            let next = next_average(average, elapsed, waited);
            &&& 0 <= 10 * (next - average) - (took - average) < 10
            &&& took == average ==> next == average
        }),
{
}

/// A participant that can join late is replied to until it first answers, and who never
/// can is not.
pub proof fn law_late_joiners_are_replied_to(
    m: SenderModel,
    i: int,
    slice_no: i32,
    map: [u8; 128],
    rxmit: i32,
)
    requires
        m.table.len() == 1024,
        m.participants().contains(i),
    ensures
        silent_joiners(m.table).contains(i) ==> !m.table[i].ever_answered,
        !m.table[i].ever_answered && m.table[i].capabilities & 0x40 != 0 ==> silent_joiners(
            m.table,
        ).contains(i),
        m.table[i].capabilities & 0x40 == 0 ==> !silent_joiners(m.table).contains(i),
        !silent_joiners(
            m.after(IncomingMsg::Complete { slice_no, cl_no: i as i32 }).table,
        ).contains(i),
        !silent_joiners(
            m.after(
                IncomingMsg::Retransmit { slice_no, cl_no: i as i32, map, rxmit },
            ).table,
        ).contains(i),
{
}

/// Replies are repeated once a second, from the start until the first slice is freed.
pub proof fn law_replies_are_repeated(m: SenderModel, now: u64, later: u64)
    requires
        now <= later,
    ensures
        m.reply_due(now) ==> !m.first_slice_acked && now >= m.last_reply_us + 1_000_000,
        !m.first_slice_acked && now >= m.last_reply_us + 1_000_000 ==> m.reply_due(now),
        (SenderModel { last_reply_us: now, ..m }).reply_due(later) ==> later >= now + 1_000_000,
        m.pending.len() > 0 ==> !m.released().reply_due(later),
{
}

/// With as many slices pending as may be, none is started before one is freed:
/// the pipeline stalls while a participant does not answer.
pub proof fn law_pipeline_is_bounded(m: SenderModel, ring: int)
    requires
        m.ok(ring),
    ensures
        m.pending.len() <= max_in_flight(m.config.flags) <= 3,
        m.pending.len() == max_in_flight(m.config.flags) ==> m.choice() != Choice::NewSlice,
{
}

/// An acknowledgement counts: with it, its sender has the slice, and nobody else's
/// acknowledgement and no other slice changes. If it was the last that missed for the
/// oldest slice, that slice is freed next.
pub proof fn law_acknowledgements_count(m: SenderModel, ring: int, k: int, cl_no: i32, j: int)
    requires
        m.ok(ring),
        !flagged(m.config.flags, FLAG_ASYNC),
        0 <= k < m.pending.len(),
        0 <= j < m.pending.len(),
        m.participants().contains(cl_no as int),
        slice_at(m.slices, m.pending_slice(k).slice_no) == Some(m.pending[k] as int),
    ensures
        ({
            let n = m.after(
                IncomingMsg::Complete { slice_no: m.pending_slice(k).slice_no, cl_no },
            );
            &&& n.pending == m.pending
            &&& n.participants() == m.participants()
            &&& forall|i: int|
                n.pending_slice(k).ready.contains(i) <==> m.pending_slice(k).ready.contains(i) || i
                    == cl_no
            &&& forall|i: int|
                n.pending_slice(k).answered.contains(i) <==> m.pending_slice(k).answered.contains(i)
                    || i == cl_no
            &&& n.pending_slice(k).rxmit == m.pending_slice(k).rxmit
            &&& j != k ==> n.pending_slice(j) == m.pending_slice(j)
            &&& k == 0 && (forall|i: int|
                m.participants().contains(i) && i != cl_no ==> m.pending_slice(0).ready.contains(i))
                ==> n.choice() == Choice::Release
        }),
{
    let msg = IncomingMsg::Complete { slice_no: m.pending_slice(k).slice_no, cl_no };
    let n = m.after(msg);
    assert(n.participants() =~= m.participants());
    assert(m.pending[k] < 8 && m.pending[j] < 8);
    if j != k {
        if j < k {
            assert(m.pending[j] != m.pending[k]);
        } else {
            assert(m.pending[k] != m.pending[j]);
        }
    }
    lemma_after(m, msg, ring);
    law_the_sender_serves_its_receivers(n, ring, 0);
}

/// Who leaves takes part no more, and nobody else is touched.
pub proof fn law_leaving(m: SenderModel, cl_no: i32, i: int)
    requires
        m.table.len() == 1024,
        m.participants().contains(cl_no as int),
    ensures
        ({
            let n = m.after(IncomingMsg::Disconnect { cl_no });
            &&& n.participants().contains(i) <==> m.participants().contains(i) && i != cl_no
            &&& n.pending == m.pending
            &&& 0 <= i < 1024 && i != cl_no ==> n.table[i] == m.table[i]
            &&& n.slices.len() == m.slices.len()
            &&& forall|k: int|
                0 <= k < m.slices.len() ==> {
                    &&& (#[trigger] n.slices[k]).ready.contains(i) <==> m.slices[k].ready.contains(i)
                        && i != cl_no
                    &&& n.slices[k].answered.contains(i) <==> m.slices[k].answered.contains(i) && i
                        != cl_no
                    &&& n.slices[k].rxmit == m.slices[k].rxmit
                    &&& n.slices[k].need_rxmit == m.slices[k].need_rxmit
                    &&& n.slices[k].state == m.slices[k].state
                }
        }),
{
}

/// When a round is begun, nobody who has the slice need answer again and everybody else
/// must; what was asked for in the round before, and what was sent, no longer counts.
pub proof fn law_a_round_begins_anew(m: SenderModel, ring: int, k: int, i: int)
    requires
        m.ok(ring),
        0 <= k < m.pending.len(),
        m.pending_slice(k).rxmit_id < i32::MAX,
    ensures
        ({
            let s = m.pending_slice(k);
            let r = m.asked_again(k).pending_slice(k);
            &&& r.answered.contains(i) <==> s.ready.contains(i)
            &&& r.ready.contains(i) <==> s.ready.contains(i)
            &&& !r.rxmit.contains(i)
            &&& !r.xmitted.contains(i)
            &&& !r.need_rxmit
            &&& r.last_good == 0
            &&& r.rxmit_id == s.rxmit_id + 1
            &&& r.slice_no == s.slice_no && r.bytes == s.bytes && r.base == s.base
        }),
{
}

/// Where receivers do not answer nobody is waited for: slices go out until the end, and
/// with the end sent the transfer is over.
pub proof fn law_without_answers_nobody_is_waited_for(m: SenderModel, ring: int)
    requires
        m.ok(ring),
        flagged(m.config.flags, FLAG_ASYNC),
    ensures
        m.choice() != Choice::Wait,
        m.pending.len() == 0 ==> m.choice() == if m.at_end {
            Choice::Finish
        } else {
            Choice::NewSlice
        },
        m.choice() == Choice::Finish ==> m.at_end || m.pending.len() >= 1,
{
    let lossy = Seq::new(m.pending.len(), |k: int| m.lossy(k));
    let undecided = Seq::new(m.pending.len(), |k: int| m.undecided(k));
    if m.pending.len() == 0 {
        if let Some(j) = m.first_lossy() {
            let i = choose|i: int| is_first(lossy, i);
            assert(is_first(lossy, i));
        }
        if let Some(j) = m.first_undecided() {
            let i = choose|i: int| is_first(undecided, i);
            assert(is_first(undecided, i));
        }
    }
}

/// To hear of a completed slice twice is to hear of it once.
pub proof fn law_completion_is_idempotent(m: SenderModel, ring: int, slice_no: i32, cl_no: i32)
    requires
        m.ok(ring),
    ensures
        ({
            let msg = IncomingMsg::Complete { slice_no, cl_no };
            m.after(msg).after(msg) == m.after(msg)
        }),
{
    let msg = IncomingMsg::Complete { slice_no, cl_no };
    let n = m.after(msg);
    let o = n.after(msg);
    if m.participants().contains(cl_no as int) {
        lemma_slice_at(m.slices, slice_no);
        assert(n.participants() =~= m.participants());
        match slice_at(m.slices, slice_no) {
            Some(i) => {
                let marks = Seq::new(
                    m.slices.len(),
                    |i: int|
                        m.slices[i].state != SliceState::Free && m.slices[i].slice_no == slice_no,
                );
                let marks_after = Seq::new(
                    n.slices.len(),
                    |i: int|
                        n.slices[i].state != SliceState::Free && n.slices[i].slice_no == slice_no,
                );
                assert(marks =~= marks_after);
                assert(slice_at(n.slices, slice_no) == Some(i));
                assert(o.table =~= n.table);
                assert(o.slices[i].ready =~= n.slices[i].ready);
                assert(o.slices[i].answered =~= n.slices[i].answered);
                assert(o.slices =~= n.slices);
            },
            None => {
                assert(o.table =~= n.table);
            },
        }
    }
}

/// A request to send again, however old and whether its sender still takes part or
/// not, is applied to its slice if that is pending: the blocks that miss are wanted,
/// and its sender counts as having answered. It takes nothing away: no slice loses a
/// wanted block, and nobody's acknowledgement of any slice changes.
pub proof fn law_requests_only_add(
    m: SenderModel,
    slice_no: i32,
    cl_no: i32,
    map: [u8; 128],
    rxmit: i32,
    i: int,
)
    requires
        m.table.len() == 1024,
        0 <= i < m.slices.len(),
    ensures
        ({
            let n = m.after(IncomingMsg::Retransmit { slice_no, cl_no, map, rxmit });
            &&& 0 <= cl_no < 1024 && slice_at(m.slices, slice_no) == Some(i) ==> {
                &&& n.slices[i].rxmit == m.slices[i].rxmit.union(
                    numbers_below(1024).difference(bits_of(map@)),
                )
                &&& n.slices[i].need_rxmit
                &&& n.slices[i].answered == m.slices[i].answered.insert(cl_no as int)
            }
            &&& n.slices.len() == m.slices.len()
            &&& m.slices[i].rxmit.subset_of(n.slices[i].rxmit)
            &&& n.slices[i].ready == m.slices[i].ready
            &&& n.slices[i].xmitted == m.slices[i].xmitted
            &&& n.pending == m.pending
            &&& n.participants() == m.participants()
        }),
{
    let n = m.after(IncomingMsg::Retransmit { slice_no, cl_no, map, rxmit });
    lemma_slice_at(m.slices, slice_no);
    assert(n.participants() =~= m.participants());
}

/// Asked in a new round, one receiver's request makes the sender want exactly the
/// blocks that this receiver misses.
pub proof fn law_request_wants_what_is_missing(
    m: SenderModel,
    slice_no: i32,
    cl_no: i32,
    map: [u8; 128],
    rxmit: i32,
    b: int,
)
    requires
        0 <= cl_no < 1024,
        slice_at(m.slices, slice_no) matches Some(i) && m.slices[i].rxmit == Set::<int>::empty()
            && m.slices[i].xmitted == Set::<int>::empty(),
        0 <= b < 1024,
    ensures
        ({
            let n = m.after(IncomingMsg::Retransmit { slice_no, cl_no, map, rxmit });
            let i = slice_at(m.slices, slice_no)->0;
            n.slices[i].need_rxmit && (wanted(n.slices[i], b) <==> !bits_of(map@).contains(b))
        }),
{
    lemma_slice_at(m.slices, slice_no);
}

/// Who first answered about a slice in round `r` is kept until it has used up its
/// rounds counted from there; who has the slice is not dropped for it at all.
pub proof fn law_drop_budget(m: SenderModel, i: int, s: SliceModel)
    requires
        m.hopeless(s).contains(i),
    ensures
        !s.ready.contains(i),
        s.rxmit_id > m.config.retries_until_drop,
        m.table[i].first_answered_round matches Some((no, r)) ==> (no == s.slice_no ==> s.rxmit_id
            > m.config.retries_until_drop + r),
{
}

/// Who does not have the oldest slice takes part no more after a wait in vain, once
/// the slice's rounds are more than those granted, altogether and counted from the
/// round in which this participant first answered about it; whatever it answered about
/// other slices. Everybody else stays.
pub proof fn law_dead_participants_are_dropped(m: SenderModel, ring: int, i: int)
    requires
        m.ok(ring),
        m.pending.len() > 0,
        m.participants().contains(i),
    ensures
        ({
            let s = m.pending_slice(0);
            let granted = m.config.retries_until_drop;
            let used_up = s.rxmit_id > granted && match m.table[i].first_answered_round {
                Some((no, first)) => no == s.slice_no ==> s.rxmit_id - first > granted,
                None => true,
            };
            m.timed_out().participants().contains(i) <==> s.ready.contains(i) || !used_up
        }),
{
    let s = m.pending_slice(0);
    let gone = m.hopeless(s);
    let a = SenderModel {
        nr_waited: if m.nr_waited == 5 {
            0
        } else {
            (m.nr_waited + 1) as u32
        },
        ..m
    };
    lemma_times(m, a, ring);
    lemma_without(a, gone, ring);
    assert(m.timed_out().participants() =~= a.without(gone).participants());
}

/// The sender after `k` waits in vain.
pub open spec fn after_silence(m: SenderModel, k: nat) -> SenderModel
    decreases k,
{
    if k == 0 {
        m
    } else {
        after_silence(m, (k - 1) as nat).timed_out()
    }
}

/// A wait in vain brings the oldest slice into its next round, unless nobody is left.
pub proof fn law_silence_begins_the_next_round(m: SenderModel, ring: int)
    requires
        m.ok(ring),
        m.pending.len() > 0,
        m.pending_slice(0).rxmit_id < i32::MAX,
    ensures
        m.timed_out().ok(ring),
        m.timed_out().pending == m.pending,
        m.timed_out().config.retries_until_drop == m.config.retries_until_drop,
        m.timed_out().pending_slice(0).slice_no == m.pending_slice(0).slice_no,
        m.timed_out().pending_slice(0).rxmit_id <= m.pending_slice(0).rxmit_id + 1,
        m.timed_out().participants().len() > 0 ==> m.timed_out().pending_slice(0).rxmit_id
            == m.pending_slice(0).rxmit_id + 1,
        m.timed_out().pending_slice(0).rxmit_id == m.pending_slice(0).rxmit_id
            <==> m.timed_out().participants().len() == 0 && m.pending_slice(0).rxmit_id
            > m.config.retries_until_drop,
        m.timed_out().pending_slice(0).ready.subset_of(m.pending_slice(0).ready),
        m.timed_out().participants().subset_of(m.participants()),
        forall|i: int|
            0 <= i < 1024 ==> (#[trigger] m.timed_out().table[i]).first_answered_round
                == m.table[i].first_answered_round,
{
    let s = m.pending_slice(0);
    let gone = m.hopeless(s);
    let a = SenderModel {
        nr_waited: if m.nr_waited == 5 {
            0
        } else {
            (m.nr_waited + 1) as u32
        },
        ..m
    };
    let b = a.without(gone);
    lemma_times(m, a, ring);
    lemma_without(a, gone, ring);
    assert(m.pending[0] < 8);
    assert(b.pending_slice(0).rxmit_id == s.rxmit_id);
    lemma_resent(b, b.asked_again(0), ring, 0);
    assert(m.timed_out().participants() =~= b.participants());
    crate::participants::lemma_members_finite(b.table);
}

/// Whoever never again answers is dropped in the end: after as many waits in vain as
/// the rounds granted, counted from its first answer about the oldest slice, it takes
/// part no more.
pub proof fn law_the_dead_are_dropped_in_the_end(m: SenderModel, ring: int, i: int, first: int, k: nat)
    requires
        m.ok(ring),
        m.pending.len() > 0,
        m.participants().contains(i),
        !m.pending_slice(0).ready.contains(i),
        first == match m.table[i].first_answered_round {
            Some((no, r)) => if no == m.pending_slice(0).slice_no {
                r as int
            } else {
                0
            },
            None => 0,
        },
        0 <= first,
        m.pending_slice(0).rxmit_id + k <= i32::MAX,
        m.pending_slice(0).rxmit_id + k > m.config.retries_until_drop + first + 1,
        k > 0,
    ensures
        !after_silence(m, k).participants().contains(i),
{
    let j = (k - 1) as nat;
    lemma_silence_goes_on(m, ring, i, j);
    let v = after_silence(m, j);
    if v.participants().contains(i) {
        law_dead_participants_are_dropped(v, ring, i);
        assert(v.pending_slice(0).slice_no == m.pending_slice(0).slice_no);
    } else {
        law_silence_begins_the_next_round(v, ring);
    }
}

/// As long as a participant is there, waits in vain bring round after round.
proof fn lemma_silence_goes_on(m: SenderModel, ring: int, i: int, k: nat)
    requires
        m.ok(ring),
        m.pending.len() > 0,
        !m.pending_slice(0).ready.contains(i),
        m.pending_slice(0).rxmit_id + k < i32::MAX,
        m.participants().contains(i),
    ensures
        ({
            let v = after_silence(m, k);
            &&& v.ok(ring)
            &&& v.pending == m.pending
            &&& v.pending.len() > 0
            &&& v.config.retries_until_drop == m.config.retries_until_drop
            &&& v.pending_slice(0).slice_no == m.pending_slice(0).slice_no
            &&& !v.pending_slice(0).ready.contains(i)
            &&& v.pending_slice(0).rxmit_id <= m.pending_slice(0).rxmit_id + k
            &&& v.participants().contains(i) ==> {
                &&& v.pending_slice(0).rxmit_id == m.pending_slice(0).rxmit_id + k
                &&& v.table[i].first_answered_round == m.table[i].first_answered_round
            }
        }),
    decreases k,
{
    if k > 0 {
        let j = (k - 1) as nat;
        lemma_silence_goes_on(m, ring, i, j);
        let v = after_silence(m, j);
        law_silence_begins_the_next_round(v, ring);
        let u = v.timed_out();
        crate::participants::lemma_members_finite(u.table);
        if u.participants().contains(i) {
            if u.participants().len() == 0 {
                assert(u.participants() =~= Set::<int>::empty());
            }
            assert(v.participants().contains(i));
            assert(0 <= i < 1024);
            assert(u.table[i].first_answered_round == v.table[i].first_answered_round);
        }
    }
}

/// Who leaves is waited for no more: the others alone decide when a slice is
/// complete.
pub proof fn law_leavers_do_not_stall(m: SenderModel, ring: int, cl_no: i32, k: int)
    requires
        m.ok(ring),
        m.participants().contains(cl_no as int),
        0 <= k < m.pending.len(),
        m.participants().remove(cl_no as int).subset_of(m.pending_slice(k).ready),
    ensures
        m.after(IncomingMsg::Disconnect { cl_no }).complete(k),
{
    let n = m.after(IncomingMsg::Disconnect { cl_no });
    let gone = set![cl_no as int];
    lemma_without(m, gone, ring);
    crate::participants::lemma_members_finite(n.table);
    crate::participants::lemma_members_finite(m.table);
    assert(m.pending[k] < 8);
    assert(m.slices[m.pending[k] as int].ready.subset_of(m.participants()));
    assert(n.participants() =~= m.participants().remove(cl_no as int));
    assert(n.pending_slice(k).ready =~= m.pending_slice(k).ready.remove(cl_no as int));
    vstd::set_lib::lemma_len_subset(m.pending_slice(k).ready, m.participants());
    vstd::set_lib::lemma_len_subset(n.participants(), n.pending_slice(k).ready);
}

/// A slice is begun once there is data for ten blocks, or the last of the data, or the
/// end; before that data is waited for, and nothing else changes.
pub proof fn law_slices_wait_for_data(
    before: NetSender,
    after: NetSender,
    fifo_before: Fifo,
    fifo_after: Fifo,
    stats_before: SenderStats,
    stats_after: SenderStats,
    now: u64,
    r: Result<Start, ProduceError>,
)
    requires
        starts(before, after, fifo_before, fifo_after, stats_before, stats_after, now, r),
    ensures
        ({
            let d = fifo_before.data@;
            let waits = d.waiting < 10 * before.config.block_size && !d.at_end;
            &&& waits <==> (r matches Ok(Start::WaitForData))
            &&& waits ==> {
                &&& after == before
                &&& stats_after == stats_before
                &&& fifo_after.free_mem_queue == fifo_before.free_mem_queue
                &&& fifo_after.data@.waiting == d.waiting
                &&& fifo_after.data@.consumed == d.consumed
                &&& fifo_after.data@.consumer_waiting
            }
        }),
{
}

/// An answer is noted: whoever gave it has answered, and the round counts in which it
/// first answered about this slice; nothing is noted of anybody else.
pub proof fn law_answers_are_noted(
    m: SenderModel,
    ring: int,
    k: int,
    cl_no: i32,
    map: [u8; 128],
    rxmit: i32,
    i: int,
)
    requires
        m.ok(ring),
        0 <= k < m.pending.len(),
        m.participants().contains(cl_no as int),
        slice_at(m.slices, m.pending_slice(k).slice_no) == Some(m.pending[k] as int),
        0 <= i < 1024,
    ensures
        ({
            let s = m.pending_slice(k);
            let slice_no = s.slice_no;
            let a = m.after(IncomingMsg::Complete { slice_no, cl_no });
            let b = m.after(IncomingMsg::Retransmit { slice_no, cl_no, map, rxmit });
            let c = cl_no as int;
            let round = match m.table[c].first_answered_round {
                Some((no, first)) => if no == slice_no {
                    first
                } else {
                    s.rxmit_id
                },
                None => s.rxmit_id,
            };
            &&& a.table == b.table
            &&& a.table[c].ever_answered
            &&& a.table[c].first_answered_round == Some((slice_no, round))
            &&& i != cl_no ==> a.table[i] == m.table[i]
            &&& a.table[c].used && a.table[c].addr == m.table[c].addr
        }),
{
    assert(m.table.len() == 1024);
}

/// The size of slices follows success and loss. With each slice that everybody has, and
/// with each that goes out where nobody answers, it grows by a quarter up to the highest,
/// where that is still tried; a round in which only the blocks up to some one came
/// through makes it smaller.
pub proof fn law_the_size_follows(m: SenderModel, i: int, base: int, bytes: int, ring: Seq<u8>, k: int)
    requires
        m.config.slice_size <= m.config.max_slice_size <= 1024,
        0 <= k < m.pending.len(),
        0 < m.config.block_size,
        0 <= m.pending_slice(k).rxmit_id < i32::MAX,
        0 <= m.pending_slice(k).bytes <= m.config.block_size * 1024,
        0 <= m.pending_slice(k).last_good <= 1024,
    ensures
        ({
            let c = m.config;
            let quarter = c.slice_size + c.slice_size as int / 4;
            let tried = !flagged(c.flags, FLAG_SN) && c.discovery == Discovery::Doubling;
            let larger = if !tried {
                c.slice_size as int
            } else if quarter < c.max_slice_size {
                quarter
            } else {
                c.max_slice_size as int
            };
            let direct = flagged(c.flags, FLAG_ASYNC) && bytes != 0;
            let good = m.pending_slice(k).last_good;
            let v = m.asked_again(k).config;
            let lost = 0 < good && good * c.block_size < m.pending_slice(k).bytes;
            &&& m.released().config.slice_size == larger
            &&& direct ==> m.started(i, base, bytes, ring).config.slice_size == larger
            &&& !direct ==> m.started(i, base, bytes, ring).config == c
            &&& !lost || flagged(c.flags, FLAG_ASYNC) ==> v == c
            &&& lost && !flagged(c.flags, FLAG_ASYNC) ==> {
                &&& v.discovery == Discovery::Reducing
                &&& v.slice_size >= 32 && v.slice_size >= good && 2 * v.slice_size + 1 >= c.slice_size
                &&& v.slice_size == 32 || v.slice_size == good || v.slice_size == c.slice_size as int
                    / 2
            }
        }),
{
    let s = m.pending_slice(k);
    lemma_inside(s.bytes, m.config.block_size as int, s.last_good);
}

/// With parity every parity block of a slice with data goes out, each once and in order,
/// and tells of its slice; without parity, or without data, none does.
pub proof fn law_parity_goes_out(c: NetConfig, s: SliceModel, p: int)
    requires
        0 <= c.fec_stripes <= i16::MAX,
    ensures
        ({
            let list = parity_packets(c, s);
            &&& list.len() == if flagged(c.flags, FLAG_FEC) && s.bytes > 0 {
                s.fec.len()
            } else {
                0
            }
            &&& 0 <= p < list.len() ==> {
                let m = FecBlock::of_bytes(list[p]);
                &&& u16_at(list[p], 0) == 9
                &&& m.slice_no == s.slice_no
                &&& m.block_no == p % 0x1_0000
                &&& m.stripes == c.fec_stripes
                &&& m.bytes == s.bytes as i32
                &&& list[p].skip(16) == s.fec[p]
            }
        }),
{
    let list = parity_packets(c, s);
    if 0 <= p < list.len() {
        let m = FecBlock {
            stripes: c.fec_stripes as i32,
            slice_no: s.slice_no,
            block_no: (p % 65536) as u16,
            bytes: s.bytes as i32,
        };
        law_fec_block_round_trip(m, s.fec[p]);
        assert(list[p] == m.encoded() + s.fec[p]);
        assert(list[p].skip(16) =~= s.fec[p]);
    }
}

/// A slice begins in its first round: nobody has it, nobody has answered about it and
/// nothing of it is missed. Each has the next number; and where nobody answers, the wait
/// for the first answer is over with the first slice.
pub proof fn law_slices_begin(m: SenderModel, i: int, base: int, bytes: int, ring: Seq<u8>, j: int)
    requires
        0 <= i < m.slices.len(),
        m.slice_no < i32::MAX,
    ensures
        ({
            let v = m.started(i, base, bytes, ring);
            let s = v.slices[i];
            let direct = flagged(m.config.flags, FLAG_ASYNC) && bytes != 0;
            &&& s.rxmit_id == 0
            &&& !s.ready.contains(j) && !s.answered.contains(j) && !s.rxmit.contains(j)
            &&& !s.need_rxmit && s.last_good == 0 && !s.xmitted.contains(j)
            &&& s.slice_no == m.slice_no && s.bytes == bytes && s.base == base
            &&& v.slice_no == m.slice_no + 1
            &&& direct ==> v.first_slice_acked && s.state == SliceState::Free && v.pending
                == m.pending && v.at_end == m.at_end
            &&& !direct ==> v.first_slice_acked == m.first_slice_acked && s.state
                != SliceState::Free && v.pending == m.pending.push(i as usize) && (v.at_end <==> bytes
                == 0)
            &&& 0 <= j < m.slices.len() && j != i ==> v.slices[j] == m.slices[j]
            &&& v.table == m.table
        }),
{
}

/// An acknowledgement is the first of its kind exactly if with it its sender has a slice
/// that it did not have before.
pub proof fn law_first_acknowledgements(m: SenderModel, msg: IncomingMsg, ring: int)
    requires
        m.ok(ring),
    ensures
        newly_ready(m, msg) <==> exists|i: int|
            {
                &&& 0 <= i < m.slices.len()
                &&& !(#[trigger] m.slices[i]).ready.contains(sender_of(msg) as int)
                &&& m.after(msg).slices[i].ready.contains(sender_of(msg) as int)
            },
{
    let v = m.after(msg);
    let cl = sender_of(msg) as int;
    match msg {
        IncomingMsg::Complete { slice_no, cl_no } => {
            lemma_slice_at(m.slices, slice_no);
            if newly_ready(m, msg) {
                let i = slice_at(m.slices, slice_no)->0;
                assert(!m.slices[i].ready.contains(cl));
                assert(v.slices[i].ready.contains(cl));
            }
        },
        IncomingMsg::Retransmit { slice_no, cl_no, map, rxmit } => {
            lemma_slice_at(m.slices, slice_no);
        },
        IncomingMsg::Disconnect { cl_no } => {},
    }
}

} // verus!
