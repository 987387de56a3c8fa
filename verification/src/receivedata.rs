//! Receiving a file: blocks go into slices, slices into the ring, and the
//! sender is told what is there and what misses.

use crate::addr::{Ipv4Addr, SocketAddrV4};
use crate::bitmap::{bits_of, lemma_bits_finite, numbers_below, BitMap};
use crate::diskio::Pipe;
use crate::fec::{fec_init, FecTables};
use crate::fifo::Fifo;
use crate::incoming::{
    done, effect_of, idle_slice, lemma_accounts, lemma_bounded, lemma_farthest, lemma_finished,
    lemma_handed, lemma_lanes_apart, lemma_located, lemma_opened, lemma_placed, lemma_ready,
    lemma_settled, lemma_slot, lemma_touched, marked, missing_before, proper, slice_like,
    AnswerModel, Effect, Place, World,
};
use crate::matrix::lemma_rows_push;
use crate::netsender::{in_order, lemma_in_order};
use crate::produconsum::lemma_halved;
use crate::protocol::{
    pack_disconnect, ConnectReq, DataBlock, FecBlock, OkMsg, Reqack, Retransmit, CMD_CONNECT_REPLY,
    CMD_DATA, CMD_DISCONNECT, CMD_FEC, CMD_HELLO, CMD_HELLO_NEW, CMD_HELLO_STREAMING, CMD_REQACK,
    DATA_BLOCK_SIZE, FEC_BLOCK_SIZE, RECEIVER_CAPABILITIES, REQACK_SIZE,
};
use crate::recvslice::{lemma_recovered, RxModel, RxSlice, RxState};
use crate::senddata::{is_first, lemma_first_true};
use crate::sendslice::{count_blocks, fits, lemma_blocks};
use crate::wire::{be16, i32_at, read_u16, u16_at};
use vstd::prelude::*;

verus! {

/// How many slices the receiver can hold.
pub const NR_SLICES: usize = 8;

/// How often a receiver that fails tells the sender.
pub const DISCONNECT_RETRIES: u32 = 5;

/// What a receiver knows of its transfer.
pub struct ClientConfig {
    pub server_addr: SocketAddrV4,
    /// Where the sender listens for those who do not know its address.
    pub control_addr: SocketAddrV4,
    pub client_number: i32,
    pub is_started: bool,
    pub sender_is_newgen: bool,
    /// How long to go on answering after the last slice, in milliseconds.
    pub exit_wait_ms: u64,
    /// The slices that are complete.
    pub completed_slices: Vec<bool>,
    /// The end was seen while an earlier slice missed.
    pub end_marker_seen: bool,
    /// How long to wait for a packet, in seconds; zero is for ever.
    pub receive_timeout_secs: u64,
    /// The slices seen before the transfer began here: number, bytes, round.
    pub late_slices: Vec<(i32, i32, i32)>,
}

/// A receiver.
pub struct NetReceiver {
    pub slices: Vec<RxSlice>,
    pub config: ClientConfig,
    pub block_size: u32,
    /// The number of the next slice for the writer.
    pub next_no: usize,
    /// The number of the slice that marks the end of the file.
    pub end_no: Option<usize>,
    pub end_reached: bool,
    /// When the last packet came.
    pub last_activity_us: u64,
    /// When to stop, once the end is reached.
    pub drain_deadline_us: Option<u64>,
    pub tables: FecTables,
}

/// What a receiver tells the sender.
pub enum Answer {
    Complete(OkMsg),
    Missing(Retransmit),
}

impl View for Answer {
    type V = AnswerModel;

    open spec fn view(&self) -> AnswerModel {
        match self {
            Answer::Complete(m) => AnswerModel::Complete { slice_no: m.slice_no },
            Answer::Missing(m) => AnswerModel::Missing {
                slice_no: m.slice_no,
                rxmit: m.rxmit,
                have: bits_of(m.map@),
            },
        }
    }
}

/// What the answers of a list say.
pub open spec fn said(answers: Seq<Answer>) -> Seq<AnswerModel> {
    Seq::new(answers.len(), |i: int| answers[i]@)
}

/// The models of slices.
pub open spec fn models(slices: Seq<RxSlice>) -> Seq<RxModel> {
    Seq::new(slices.len(), |i: int| slices[i]@)
}

/// A number of the machine as a number.
pub open spec fn number_of(n: Option<usize>) -> Option<int> {
    match n {
        Some(n) => Some(n as int),
        None => None,
    }
}

impl NetReceiver {
    /// The receiver and its ring.
    pub open spec fn world(&self, fifo: Fifo) -> World {
        World {
            block_size: self.block_size as int,
            slices: models(self.slices@),
            completed: self.config.completed_slices@,
            next: self.next_no as int,
            end: number_of(self.end_no),
            end_marker_seen: self.config.end_marker_seen,
            end_reached: self.end_reached,
            ring: fifo.buffer@,
            free: fifo.free_mem_queue@,
            data: fifo.data@,
        }
    }

    /// The counts are those of the slices.
    pub open spec fn counted(&self) -> bool {
        forall|i: int| 0 <= i < self.slices@.len() ==> (#[trigger] self.slices@[i]).wf()
    }

    /// The counts are right and the state is consistent.
    pub open spec fn wf(&self, fifo: Fifo) -> bool {
        &&& fifo.wf()
        &&& self.counted()
        &&& self.world(fifo).ok()
    }

    /// The place of slice `slice_no`.
    pub fn find_slice(&self, slice_no: i32, fifo: &Fifo) -> (r: Option<usize>)
        requires
            self.wf(*fifo),
        ensures
            match r {
                Some(i) => {
                    &&& self.world(*fifo).located(slice_no) == Some(i as int)
                    &&& i < 8
                    &&& self.slices@[i as int].slice_no == slice_no
                    &&& self.slices@[i as int].state != RxState::Free
                },
                None => {
                    &&& self.world(*fifo).located(slice_no) is None
                    &&& forall|i: int|
                        0 <= i < 8 ==> (#[trigger] self.world(*fifo).slices[i]).state
                            == RxState::Free || self.world(*fifo).slices[i].slice_no != slice_no
                },
            },
    {
        let ghost w = self.world(*fifo);
        let ghost marks = Seq::new(
            w.slices.len(),
            |i: int| w.slices[i].slice_no == slice_no && w.slices[i].state != RxState::Free,
        );
        let mut i: usize = 0;
        while i < self.slices.len()
            invariant
                i <= self.slices@.len(),
                w == self.world(*fifo),
                marks == Seq::new(
                    w.slices.len(),
                    |i: int| w.slices[i].slice_no == slice_no && w.slices[i].state != RxState::Free,
                ),
                w.slices.len() == 8,
                forall|k: int| 0 <= k < i ==> !(#[trigger] marks[k]),
            decreases self.slices@.len() - i,
        {
            assert(w.slices[i as int] == self.slices@[i as int]@);
            if self.slices[i].slice_no == slice_no && self.slices[i].state != RxState::Free {
                assert(is_first(marks, i as int));
                proof {
                    lemma_first_true(marks, i as int);
                }
                return Some(i);
            }
            assert(!marks[i as int]);
            i += 1;
        }
        assert forall|i: int| 0 <= i < 8 implies (#[trigger] w.slices[i]).state == RxState::Free
            || w.slices[i].slice_no != slice_no by {
            assert(!marks[i]);
        }
        None
    }

    /// The place for a new slice.
    fn find_slot(&self, fifo: &Fifo) -> (r: Option<usize>)
        requires
            self.wf(*fifo),
        ensures
            match r {
                Some(i) => self.world(*fifo).slot() == Some(i as int) && i < 8,
                None => self.world(*fifo).slot() is None,
            },
    {
        let ghost w = self.world(*fifo);
        let ghost unused = Seq::new(w.slices.len(), |i: int| w.slices[i].state == RxState::Free);
        let ghost over = Seq::new(
            w.slices.len(),
            |i: int| w.slices[i].state == RxState::Done && w.slices[i].slice_no < w.next,
        );
        let mut first: Option<usize> = None;
        let mut i: usize = 0;
        while i < self.slices.len()
            invariant
                i <= self.slices@.len(),
                w == self.world(*fifo),
                w.sound(),
                unused == Seq::new(w.slices.len(), |i: int| w.slices[i].state == RxState::Free),
                over == Seq::new(
                    w.slices.len(),
                    |i: int| w.slices[i].state == RxState::Done && w.slices[i].slice_no < w.next,
                ),
                forall|k: int| 0 <= k < i ==> !(#[trigger] unused[k]),
                match first {
                    Some(f) => f < i && is_first(over, f as int),
                    None => forall|k: int| 0 <= k < i ==> !(#[trigger] over[k]),
                },
            decreases self.slices@.len() - i,
        {
            assert(w.slices[i as int] == self.slices@[i as int]@);
            assert(w.slot_ok(i as int));
            if self.slices[i].state == RxState::Free {
                assert(is_first(unused, i as int));
                proof {
                    lemma_first_true(unused, i as int);
                }
                return Some(i);
            }
            assert(!unused[i as int]);
            if first.is_none() {
                if self.slices[i].state == RxState::Done && (self.slices[i].slice_no as usize)
                    < self.next_no {
                    assert(is_first(over, i as int));
                    first = Some(i);
                } else {
                    assert(!over[i as int]);
                }
            }
            i += 1;
        }
        proof {
            if let Some(f) = first {
                lemma_first_true(over, f as int);
            }
        }
        first
    }

    /// The place of the slice whose turn it is to be handed over.
    fn find_ready(&self, fifo: &Fifo) -> (r: Option<usize>)
        requires
            self.world(*fifo).sound(),
        ensures
            match r {
                Some(i) => i < 8 && self.world(*fifo).is_ready(i as int),
                None => forall|i: int| 0 <= i < 8 ==> !(#[trigger] self.world(*fifo).is_ready(i)),
            },
    {
        let ghost w = self.world(*fifo);
        let mut i: usize = 0;
        while i < self.slices.len()
            invariant
                i <= self.slices@.len(),
                w == self.world(*fifo),
                w.sound(),
                forall|k: int| 0 <= k < i ==> !(#[trigger] w.is_ready(k)),
            decreases self.slices@.len() - i,
        {
            assert(w.slices[i as int] == self.slices@[i as int]@);
            assert(w.slot_ok(i as int));
            if self.slices[i].state == RxState::Done && self.slices[i].slice_no as usize
                == self.next_no {
                return Some(i);
            }
            i += 1;
        }
        None
    }

    /// How far the slices in the ring reach.
    fn find_farthest(&self, fifo: &Fifo) -> (r: usize)
        requires
            self.world(*fifo).sound(),
            self.world(*fifo).slice_room() <= self.world(*fifo).free.waiting,
        ensures
            r == self.world(*fifo).farthest(8),
    {
        let ghost w = self.world(*fifo);
        let mut far: usize = 0;
        let mut i: usize = 0;
        while i < self.slices.len()
            invariant
                i <= self.slices@.len(),
                w == self.world(*fifo),
                w.sound(),
                w.slice_room() <= w.free.waiting,
                far == w.farthest(i as nat),
            decreases self.slices@.len() - i,
        {
            assert(w.slices[i as int] == self.slices@[i as int]@);
            assert(w.slot_ok(i as int));
            proof {
                lemma_farthest(w, i as nat);
                assert(w.farthest((i + 1) as nat) == {
                    let s = w.slices[i as int];
                    if s.state != RxState::Free && s.slice_no - w.next > far {
                        s.slice_no - w.next
                    } else {
                        far as int
                    }
                });
            }
            if self.slices[i].state != RxState::Free && self.slices[i].slice_no as usize
                > self.next_no + far {
                far = self.slices[i].slice_no as usize - self.next_no;
            }
            i += 1;
        }
        far
    }

    /// Hands the slice in place `i` over, whose turn it is, and moves the others up.
    fn hand_over(&mut self, i: usize, fifo: &mut Fifo)
        requires
            old(fifo).wf(),
            old(self).counted(),
            old(self).world(*old(fifo)).sound(),
            i < 8,
            old(self).world(*old(fifo)).is_ready(i as int),
        ensures
            final(fifo).wf(),
            final(self).counted(),
            final(self).world(*final(fifo)) == old(self).world(*old(fifo)).handed(i as int),
            same_setup(*old(self), *final(self)),
            final(self).config == old(self).config,
            final(fifo).data_buf_size == old(fifo).data_buf_size,
    {
        let ghost w = self.world(*fifo);
        let ghost before = *self;
        let ghost goal = w.handed(i as int);
        let size: usize = fifo.data_buf_size;
        proof {
            lemma_ready(w, i as int);
            lemma_farthest(w, 8);
            assert(w.slices[i as int] == self.slices@[i as int]@);
            fifo.free_mem_queue.lemma_wf();
        }
        let room: usize = self.block_size as usize * 1024;
        let bytes: usize = self.slices[i].bytes;
        let gap: usize = room - bytes;
        let far: usize = self.find_farthest(fifo);
        proof {
            lemma_halved(w.free.consumed + bytes, size as int);
            vstd::arithmetic::mul::lemma_mul_nonnegative(far as int, room as int);
        }
        let _ = fifo.free_mem_queue.consumed(bytes);
        let to: usize = fifo.free_mem_queue.get_consumer_position();
        fifo.move_back(to, gap, far * room);
        let _ = fifo.data.produce(bytes);
        let mut j: usize = 0;
        while j < self.slices.len()
            invariant
                j <= self.slices@.len(),
                self.slices@.len() == 8,
                before.slices@.len() == 8,
                w == before.world(*old(fifo)),
                w.sound(),
                size == w.ring.len(),
                gap == w.slice_room() - w.slices[i as int].bytes,
                gap <= size,
                2 * size <= usize::MAX,
                i < 8,
                goal == w.handed(i as int),
                before.counted(),
                self.counted(),
                *self == (NetReceiver { slices: self.slices, ..before }),
                forall|k: int| j <= k < 8 ==> #[trigger] self.slices@[k] == before.slices@[k],
                forall|k: int| 0 <= k < j ==> (#[trigger] self.slices@[k])@ == goal.slices[k],
            decreases self.slices@.len() - j,
        {
            assert(w.slices[j as int] == before.slices@[j as int]@);
            assert(w.slot_ok(j as int));
            assert(self.slices@[j as int].wf());
            if self.slices[j].state != RxState::Free && self.slices[j].slice_no as usize
                > self.next_no {
                let base: usize = self.slices[j].base;
                proof {
                    vstd::arithmetic::div_mod::lemma_mod_multiples_vanish(
                        1,
                        base - gap,
                        size as int,
                    );
                }
                self.slices[j].base = (base + (size - gap)) % size;
            }
            assert(self.slices@[j as int]@ == goal.slices[j as int]);
            j += 1;
        }
        self.next_no = self.next_no + 1;
        proof {
            let v = self.world(*fifo);
            assert(v.slices =~= goal.slices);
            assert(v =~= goal);
        }
    }

    /// Hands over every slice whose turn it is.
    fn settle(&mut self, fifo: &mut Fifo)
        requires
            old(fifo).wf(),
            old(self).counted(),
            old(self).world(*old(fifo)).sound(),
        ensures
            final(self).wf(*final(fifo)),
            final(self).world(*final(fifo)) == old(self).world(*old(fifo)).settled(),
            same_setup(*old(self), *final(self)),
            final(self).config == old(self).config,
            final(fifo).data_buf_size == old(fifo).data_buf_size,
    {
        let ghost goal = self.world(*fifo).settled();
        loop
            invariant
                fifo.wf(),
                self.counted(),
                self.world(*fifo).sound(),
                self.world(*fifo).settled() == goal,
                same_setup(*old(self), *self),
                self.config == old(self).config,
                fifo.data_buf_size == old(fifo).data_buf_size,
            ensures
                forall|i: int| 0 <= i < 8 ==> !(#[trigger] self.world(*fifo).is_ready(i)),
            decreases i32::MAX + 1 - self.next_no,
        {
            let ghost w = self.world(*fifo);
            match self.find_ready(fifo) {
                Some(i) => {
                    proof {
                        lemma_ready(w, i as int);
                        lemma_handed(w, i as int);
                        let k = choose|k: int| 0 <= k < 8 && w.is_ready(k);
                        assert(k == i);
                    }
                    self.hand_over(i, fifo);
                },
                None => {
                    break;
                },
            }
        }
        proof {
            lemma_lanes_apart(self.world(*fifo));
        }
    }

    /// Completes the slice in place `i`: whatever can be handed over is, and the
    /// sender is told.
    fn complete_slice(&mut self, i: usize, fifo: &mut Fifo) -> (r: Outcome)
        requires
            old(self).wf(*old(fifo)),
            i < 8,
            old(self).slices@[i as int].state == RxState::Receiving,
            old(self).slices@[i as int].bytes > 0,
        ensures
            done_as(
                *old(self),
                *final(self),
                *old(fifo),
                *final(fifo),
                old(self).world(*old(fifo)).complete(i as int),
                old(self).slices@[i as int].slice_no,
                r,
            ),
    {
        let ghost w = self.world(*fifo);
        let ghost goal = w.finished(i as int);
        assert(w.slices[i as int] == self.slices@[i as int]@);
        assert(w.slot_ok(i as int));
        let slice_no: i32 = self.slices[i].slice_no;
        assert(self.slices@[i as int].wf());
        self.slices[i].state = RxState::Done;
        self.mark_complete(slice_no as usize);
        proof {
            lemma_finished(w, i as int);
            assert(self.world(*fifo).slices =~= goal.slices);
            assert(self.world(*fifo) =~= goal);
            lemma_settled(goal);
        }
        self.settle(fifo);
        let mut answers: Vec<Answer> = Vec::new();
        answers.push(Answer::Complete(OkMsg { slice_no }));
        assert(said(answers@) =~= seq![AnswerModel::Complete { slice_no }]);
        Outcome { answers, missing: None }
    }

    /// Notes that slice `no` is complete.
    fn mark_complete(&mut self, no: usize)
        requires
            no <= i32::MAX,
        ensures
            final(self).config.completed_slices@ == marked(
                old(self).config.completed_slices@,
                no as int,
            ),
            *final(self) == (NetReceiver {
                config: ClientConfig {
                    completed_slices: final(self).config.completed_slices,
                    ..old(self).config
                },
                ..*old(self)
            }),
    {
        let ghost before = *self;
        let ghost completed = self.config.completed_slices@;
        while self.config.completed_slices.len() <= no
            invariant
                no <= i32::MAX,
                completed.len() <= self.config.completed_slices@.len(),
                self.config.completed_slices@.len() <= no + 1 || self.config.completed_slices@
                    == completed,
                forall|j: int|
                    0 <= j < self.config.completed_slices@.len()
                        ==> #[trigger] self.config.completed_slices@[j] == done(completed, j),
                *self == (NetReceiver {
                    config: ClientConfig {
                        completed_slices: self.config.completed_slices,
                        ..before.config
                    },
                    ..before
                }),
            decreases no + 1 - self.config.completed_slices@.len(),
        {
            self.config.completed_slices.push(false);
        }
        self.config.completed_slices.set(no, true);
        assert(self.config.completed_slices@ =~= marked(completed, no as int));
    }

    /// Notes that slice `slice_no` has no data: it marks the end of the file.
    fn end_asked(&mut self, slice_no: i32, fifo: &Fifo) -> (r: Outcome)
        requires
            old(self).wf(*fifo),
            slice_no >= 0,
            !done(old(self).config.completed_slices@, slice_no as int),
        ensures
            forall|m: Reqack|
                m.slice_no == slice_no ==> done_as(
                    *old(self),
                    *final(self),
                    *fifo,
                    *fifo,
                    #[trigger] old(self).world(*fifo).end_asked(m),
                    slice_no,
                    r,
                ),
    {
        let ghost w = self.world(*fifo);
        let no: usize = slice_no as usize;
        proof {
            lemma_located(w, slice_no);
            lemma_bounded(w, slice_no);
        }
        if let Some(i) = self.find_slice(slice_no, fifo) {
            self.slices.set(i, RxSlice::new());
        }
        self.mark_complete(no);
        self.end_no = match self.end_no {
            Some(e) => if e < no {
                Some(e)
            } else {
                Some(no)
            },
            None => Some(no),
        };
        let list: Vec<usize> = self.find_missing(no);
        let ghost gaps = missing_before(self.config.completed_slices@, no as int);
        proof {
            lemma_in_order(gaps, no as nat);
            if gaps != Set::<int>::empty() {
                assert(exists|j: int| gaps.contains(j)) by {
                    if !(exists|j: int| gaps.contains(j)) {
                        assert(gaps =~= Set::<int>::empty());
                    }
                }
                let j = choose|j: int| gaps.contains(j);
                assert(list@.contains(j as usize));
            }
            if list@.len() > 0 {
                assert(gaps.contains(list@[0] as int));
            }
        }
        let mut missing: Option<Vec<usize>> = None;
        if list.len() > 0 && !self.config.end_marker_seen {
            self.config.end_marker_seen = true;
            missing = Some(list);
        }
        proof {
            let goal = w.bounded(slice_no);
            assert(self.world(*fifo).slices =~= goal.slices);
            assert(self.world(*fifo) =~= goal);
        }
        let mut answers: Vec<Answer> = Vec::new();
        answers.push(Answer::Complete(OkMsg { slice_no }));
        answers.push(Answer::Complete(OkMsg { slice_no }));
        assert(said(answers@) =~= seq![
            AnswerModel::Complete { slice_no },
            AnswerModel::Complete { slice_no },
        ]);
        Outcome { answers, missing }
    }

    /// The slices before `no` that are not complete.
    fn find_missing(&self, no: usize) -> (r: Vec<usize>)
        ensures
            r@ == in_order(
                missing_before(self.config.completed_slices@, no as int),
                no as nat,
            ),
    {
        let ghost set = missing_before(self.config.completed_slices@, no as int);
        let mut r: Vec<usize> = Vec::new();
        let mut j: usize = 0;
        while j < no
            invariant
                j <= no,
                set == missing_before(self.config.completed_slices@, no as int),
                r@ == in_order(set, j as nat),
            decreases no - j,
        {
            let there: bool = j < self.config.completed_slices.len()
                && self.config.completed_slices[j];
            assert(there <==> !set.contains(j as int));
            if !there {
                r.push(j);
            }
            j += 1;
        }
        r
    }

    /// Restores by parity what can be restored of the slice in place `i`, and
    /// completes it if nothing misses any more.
    fn try_fec_recover(&mut self, i: usize, fifo: &mut Fifo) -> (r: Outcome)
        requires
            old(self).wf(*old(fifo)),
            i < 8,
            old(self).slices@[i as int].state == RxState::Receiving,
            old(self).slices@[i as int].bytes > 0,
        ensures
            ({
                let w = old(self).world(*old(fifo)).recovered(i as int);
                done_as(
                    *old(self),
                    *final(self),
                    *old(fifo),
                    *final(fifo),
                    if w.slices[i as int].all_there(w.block_size) {
                        w.complete(i as int)
                    } else {
                        w.idle()
                    },
                    old(self).slices@[i as int].slice_no,
                    r,
                )
            }),
    {
        let ghost w = self.world(*fifo);
        let ghost s = w.slices[i as int];
        assert(s == self.slices@[i as int]@);
        assert(w.slot_ok(i as int));
        assert(self.slices@[i as int].wf());
        let block_size: usize = self.block_size as usize;
        self.slices[i].recover(&self.tables, fifo, block_size);
        let ghost v = self.world(*fifo);
        proof {
            lemma_recovered(s, w.ring, w.block_size, s.stripes as nat);
            assert(v =~= w.recovered(i as int));
            lemma_bits_finite(self.slices@[i as int].have.bytes@);
            lemma_touched(w, v, i as int);
            lemma_blocks(s.bytes, w.block_size);
        }
        assert(self.slices@[i as int].wf());
        let n: usize = count_blocks(self.slices[i].bytes, block_size);
        if self.slices[i].data_blocks_transferred >= n {
            self.complete_slice(i, fifo)
        } else {
            nothing()
        }
    }

    /// Completes the slice in place `i` if all of it is there or can be restored.
    fn check_slice_complete(&mut self, i: usize, fifo: &mut Fifo) -> (r: Outcome)
        requires
            old(self).wf(*old(fifo)),
            i < 8,
            old(self).slices@[i as int].state == RxState::Receiving,
        ensures
            done_as(
                *old(self),
                *final(self),
                *old(fifo),
                *final(fifo),
                old(self).world(*old(fifo)).checked(i as int),
                old(self).slices@[i as int].slice_no,
                r,
            ),
    {
        let ghost w = self.world(*fifo);
        let ghost s = w.slices[i as int];
        assert(s == self.slices@[i as int]@);
        assert(w.slot_ok(i as int));
        assert(self.slices@[i as int].wf());
        proof {
            lemma_blocks(s.bytes, w.block_size);
        }
        if self.slices[i].bytes_known && self.slices[i].bytes != 0 {
            let n: usize = count_blocks(self.slices[i].bytes, self.block_size as usize);
            let there: usize = self.slices[i].data_blocks_transferred;
            if there >= n {
                return self.complete_slice(i, fifo);
            }
            let parity: usize = self.slices[i].fec_blocks.len();
            assert(parity == s.fec_blocks.len());
            if self.slices[i].fec_stripes > 0 && parity > 0 && parity >= n - there {
                return self.try_fec_recover(i, fifo);
            }
        }
        nothing()
    }

    /// The place of slice `slice_no`, a new one if it has none.
    fn place_slice(&mut self, slice_no: i32, fifo: &mut Fifo) -> (r: Place)
        requires
            old(self).wf(*old(fifo)),
            slice_no >= 0,
            !done(old(self).config.completed_slices@, slice_no as int),
        ensures
            final(self).wf(*final(fifo)),
            final(self).config == old(self).config,
            same_setup(*old(self), *final(self)),
            final(fifo).data_buf_size == old(fifo).data_buf_size,
            r == old(self).world(*old(fifo)).place(slice_no),
            match r {
                Place::At(i) => {
                    let v = final(self).world(*final(fifo));
                    &&& i < 8
                    &&& v == old(self).world(*old(fifo)).placed(slice_no, i as int)
                    &&& v.slices[i as int].state == RxState::Receiving
                    &&& v.slices[i as int].slice_no == slice_no
                },
                Place::NeedMemory => final(self).world(*final(fifo)) == old(self).world(
                    *old(fifo),
                ).wait(slice_no as int).world,
                _ => final(self).world(*final(fifo)) == old(self).world(*old(fifo)),
            },
    {
        proof {
            lemma_placed(self.world(*fifo), slice_no);
        }
        match self.find_slice(slice_no, fifo) {
            Some(i) => Place::At(i),
            None => self.new_slice(slice_no, fifo),
        }
    }

    /// Begins slice `slice_no`: where it is, or why it cannot be begun yet. It gets
    /// memory for the largest slice, of which no slice in flight has a part.
    pub fn new_slice(&mut self, slice_no: i32, fifo: &mut Fifo) -> (r: Place)
        requires
            old(self).wf(*old(fifo)),
            slice_no >= 0,
            !done(old(self).config.completed_slices@, slice_no as int),
            old(self).world(*old(fifo)).located(slice_no) is None,
        ensures
            final(self).wf(*final(fifo)),
            final(self).config == old(self).config,
            same_setup(*old(self), *final(self)),
            final(fifo).data_buf_size == old(fifo).data_buf_size,
            r == old(self).world(*old(fifo)).place(slice_no),
            match r {
                Place::At(j) => {
                    &&& j < 8
                    &&& final(self).world(*final(fifo)) == old(self).world(*old(fifo)).opened(
                        j as int,
                        slice_no,
                    )
                    &&& final(self).slices@[j as int].state == RxState::Receiving
                    &&& final(self).slices@[j as int].slice_no == slice_no
                    &&& forall|i: int|
                        0 <= i < 8 && old(self).slices@[i].state == RxState::Receiving ==> i != j
                            && #[trigger] final(self).world(*final(fifo)).clear_of(i, j as int)
                },
                Place::NeedMemory => final(self).world(*final(fifo)) == old(self).world(
                    *old(fifo),
                ).wait(slice_no as int).world,
                _ => final(self).world(*final(fifo)) == old(self).world(*old(fifo)),
            },
    {
        let ghost w = self.world(*fifo);
        let ghost no = slice_no as int;
        proof {
            lemma_placed(w, slice_no);
            lemma_slot(w);
            if slice_no < self.next_no {
                assert(done(w.completed, no));
            }
        }
        let i: usize = match self.find_slot(fifo) {
            Some(i) => i,
            None => {
                return Place::Nowhere;
            },
        };
        let ahead: usize = slice_no as usize - self.next_no;
        if ahead >= NR_SLICES {
            return Place::TooFar;
        }
        let room: usize = self.block_size as usize * 1024;
        proof {
            assert(ahead * room <= 7 * room && 0 <= ahead * room) by (nonlinear_arith)
                requires
                    0 <= ahead <= 7,
                    0 <= room,
            ;
            assert((ahead + 1) * room == ahead * room + room) by (nonlinear_arith);
            fifo.free_mem_queue.lemma_wf();
        }
        let need: u64 = (ahead as u64 + 1) * room as u64;
        if need > fifo.data_buf_size as u64 {
            return Place::TooFar;
        }
        let need: usize = need as usize;
        let there: bool = match fifo.free_mem_queue.consume(need) {
            Some(n) => n >= need,
            None => false,
        };
        if !there {
            proof {
                let v = self.world(*fifo);
                assert(v =~= w.wait(no).world);
                lemma_accounts(w, v);
            }
            return Place::NeedMemory;
        }
        let base: usize = (fifo.free_mem_queue.get_consumer_position() + ahead * room)
            % fifo.data_buf_size;
        proof {
            crate::fifo::lemma_onward(w.free.consumed, ahead * room, 0, w.ring.len() as int);
            lemma_opened(w, i as int, slice_no);
        }
        self.slices[i].open(slice_no, base);
        proof {
            let v = self.world(*fifo);
            assert(v.slices =~= w.opened(i as int, slice_no).slices);
            assert(v =~= w.opened(i as int, slice_no));
            assert forall|k: int|
                0 <= k < 8 && old(self).slices@[k].state == RxState::Receiving implies k != i
                && #[trigger] v.clear_of(k, i as int) by {
                assert(w.slices[k] == old(self).slices@[k]@);
                assert(w.slot_ok(k) && v.slot_ok(i as int));
                assert(v.holds(k) && v.holds(i as int));
            }
        }
        Place::At(i)
    }

    /// Takes in a block of data; `None` if there has to be more free memory
    /// first.
    fn process_data_block(
        &mut self,
        fifo: &mut Fifo,
        m: DataBlock,
        payload: &[u8],
    ) -> (r: Option<Outcome>)
        requires
            old(self).wf(*old(fifo)),
            slice_like(m.slice_no, m.bytes, old(self).block_size as int),
        ensures
            handled(
                *old(self),
                *final(self),
                *old(fifo),
                *final(fifo),
                old(self).world(*old(fifo)).data_received(m, payload@),
                m.slice_no,
                r,
            ),
    {
        let ghost before = self.world(*fifo);
        if self.is_complete(m.slice_no) {
            return Some(nothing());
        }
        proof {
            lemma_placed(before, m.slice_no);
        }
        let i: usize = match self.place_slice(m.slice_no, fifo) {
            Place::At(i) => i,
            Place::NeedMemory => {
                return None;
            },
            _ => {
                return Some(nothing());
            },
        };
        let ghost w = self.world(*fifo);
        let ghost s = w.slices[i as int];
        assert(s == self.slices@[i as int]@);
        assert(self.slices@[i as int].wf());
        assert(w.slot_ok(i as int));
        let block_no: usize = m.block_no as usize;
        if block_no >= 1024 || self.slices[i].have.contains(block_no) {
            return Some(nothing());
        }
        let block_size: usize = self.block_size as usize;
        proof {
            assert(block_no * block_size <= 1023 * block_size) by (nonlinear_arith)
                requires
                    block_no <= 1023,
            ;
        }
        if m.bytes != 0 {
            self.slices[i].bytes = m.bytes as usize;
            self.slices[i].bytes_known = true;
        }
        let data_start: usize = (self.slices[i].base + block_no * block_size) % fifo.data_buf_size;
        if payload.len() > block_size {
            let cut: &[u8] = vstd::slice::slice_subrange(payload, 0, block_size);
            assert(cut@ =~= payload@.take(block_size as int));
            fifo.write_at(data_start, cut);
        } else {
            fifo.write_at(data_start, payload);
        }
        self.slices[i].add_block(block_no);
        proof {
            let v = self.world(*fifo);
            assert(v =~= w.stored(i as int, block_no as int, m.bytes as int, payload@));
            lemma_bits_finite(self.slices@[i as int].have.bytes@);
            lemma_touched(w, v, i as int);
        }
        Some(self.check_slice_complete(i, fifo))
    }

    /// Takes in a parity block; `None` if there has to be more free memory first.
    fn process_fec_block(
        &mut self,
        fifo: &mut Fifo,
        m: FecBlock,
        payload: &[u8],
    ) -> (r: Option<Outcome>)
        requires
            old(self).wf(*old(fifo)),
            slice_like(m.slice_no, m.bytes, old(self).block_size as int),
            -32768 <= m.stripes <= 32767,
        ensures
            handled(
                *old(self),
                *final(self),
                *old(fifo),
                *final(fifo),
                old(self).world(*old(fifo)).fec_received(m, payload@),
                m.slice_no,
                r,
            ),
    {
        let ghost before = self.world(*fifo);
        if self.is_complete(m.slice_no) {
            return Some(nothing());
        }
        proof {
            lemma_placed(before, m.slice_no);
        }
        let i: usize = match self.place_slice(m.slice_no, fifo) {
            Place::At(i) => i,
            Place::NeedMemory => {
                return None;
            },
            _ => {
                return Some(nothing());
            },
        };
        let ghost w = self.world(*fifo);
        let ghost s = w.slices[i as int];
        assert(s == self.slices@[i as int]@);
        assert(self.slices@[i as int].wf());
        if m.bytes != 0 && !self.slices[i].bytes_known {
            self.slices[i].bytes = m.bytes as usize;
            self.slices[i].bytes_known = true;
        }
        if m.stripes > 0 {
            self.slices[i].fec_stripes = m.stripes as usize;
        }
        let block: Vec<u8> = vstd::slice::slice_to_vec(payload);
        proof {
            lemma_rows_push(self.slices@[i as int].fec_blocks@, block);
        }
        self.slices[i].fec_block_nos.push(m.block_no as u32);
        self.slices[i].fec_blocks.push(block);
        proof {
            let v = self.world(*fifo);
            assert(v.slices[i as int] =~= w.kept(i as int, m, payload@).slices[i as int]);
            assert(v =~= w.kept(i as int, m, payload@));
            assert(w.slot_ok(i as int));
            lemma_bits_finite(self.slices@[i as int].have.bytes@);
            lemma_touched(w, v, i as int);
        }
        Some(self.check_slice_complete(i, fifo))
    }

    /// Answers the sender's question about a slice; `None` if there has to be
    /// more free memory first.
    fn process_reqack(&mut self, fifo: &mut Fifo, m: Reqack) -> (r: Option<Outcome>)
        requires
            old(self).wf(*old(fifo)),
            done(old(self).config.completed_slices@, m.slice_no as int) || slice_like(
                m.slice_no,
                m.bytes,
                old(self).block_size as int,
            ),
        ensures
            handled(
                *old(self),
                *final(self),
                *old(fifo),
                *final(fifo),
                old(self).world(*old(fifo)).reqack_received(m),
                m.slice_no,
                r,
            ),
    {
        if self.is_complete(m.slice_no) {
            return Some(confirmation(m.slice_no));
        }
        if m.bytes == 0 {
            return Some(self.end_asked(m.slice_no, fifo));
        }
        let ghost before = self.world(*fifo);
        proof {
            lemma_placed(before, m.slice_no);
        }
        let i: usize = match self.place_slice(m.slice_no, fifo) {
            Place::At(i) => i,
            Place::NeedMemory => {
                return None;
            },
            Place::Nowhere => {
                return Some(nothing());
            },
            Place::TooFar => {
                let answers: Vec<Answer> = vec![
                    Answer::Missing(
                        Retransmit {
                            slice_no: m.slice_no,
                            rxmit: m.rxmit,
                            map: BitMap::empty().bytes,
                        },
                    ),
                ];
                assert(said(answers@) =~= seq![
                    AnswerModel::Missing {
                        slice_no: m.slice_no,
                        rxmit: m.rxmit,
                        have: Set::empty(),
                    },
                ]);
                return Some(Outcome { answers, missing: None });
            },
        };
        let ghost w = self.world(*fifo);
        let ghost s = w.slices[i as int];
        assert(s == self.slices@[i as int]@);
        assert(self.slices@[i as int].wf());
        self.slices[i].bytes = m.bytes as usize;
        self.slices[i].bytes_known = true;
        let ghost v = self.world(*fifo);
        proof {
            assert(v =~= w.sized(i as int, m.bytes as int));
            assert(w.slot_ok(i as int));
            lemma_bits_finite(self.slices@[i as int].have.bytes@);
            lemma_touched(w, v, i as int);
            lemma_blocks(m.bytes as int, w.block_size);
        }
        assert(self.slices@[i as int].wf());
        let n: usize = count_blocks(self.slices[i].bytes, self.block_size as usize);
        if self.slices[i].data_blocks_transferred >= n {
            let Outcome { answers: more, missing } = self.complete_slice(i, fifo);
            let ghost said_more = said(more@);
            let mut more = more;
            let mut answers: Vec<Answer> = Vec::new();
            answers.push(Answer::Complete(OkMsg { slice_no: m.slice_no }));
            answers.append(&mut more);
            assert(said(answers@) =~= seq![AnswerModel::Complete { slice_no: m.slice_no }]
                + said_more);
            Some(Outcome { answers, missing })
        } else {
            let mut map = BitMap::empty();
            let mut b: usize = 0;
            let ghost have = v.slices[i as int].have;
            assert(map@ =~= have.intersect(numbers_below(0)));
            while b < n
                invariant
                    b <= n <= 1024,
                    i < self.slices@.len(),
                    have == self.slices@[i as int].have@,
                    map@ == have.intersect(numbers_below(b as int)),
                decreases n - b,
            {
                if self.slices[i].have.contains(b) {
                    map.insert(b);
                }
                b += 1;
                assert(map@ =~= have.intersect(numbers_below(b as int)));
            }
            let mut answers: Vec<Answer> = Vec::new();
            answers.push(
                Answer::Missing(
                    Retransmit { slice_no: m.slice_no, rxmit: m.rxmit, map: map.bytes },
                ),
            );
            assert(said(answers@) =~= seq![
                AnswerModel::Missing {
                    slice_no: m.slice_no,
                    rxmit: m.rxmit,
                    have: have.intersect(numbers_below(n as int)),
                },
            ]);
            Some(Outcome { answers, missing: None })
        }
    }

    /// Whether a packet keeps to the protocol; nothing comes of one that does not.
    pub fn accepts(&self, packet: &[u8], fifo: &Fifo) -> (r: bool)
        requires
            self.wf(*fifo),
        ensures
            r == proper(self.world(*fifo), packet@),
    {
        let ghost w = self.world(*fifo);
        if packet.len() < 4 {
            return true;
        }
        let opcode: u16 = read_u16(packet, 0);
        if opcode == CMD_DATA && packet.len() >= DATA_BLOCK_SIZE {
            let m = DataBlock::unpack(packet);
            self.fits_slice(m.slice_no, m.bytes)
        } else if opcode == CMD_REQACK && packet.len() >= REQACK_SIZE {
            let m = Reqack::unpack(packet);
            self.is_complete(m.slice_no) || self.fits_slice(m.slice_no, m.bytes)
        } else if opcode == CMD_FEC && packet.len() >= FEC_BLOCK_SIZE {
            let m = FecBlock::unpack(packet);
            self.fits_slice(m.slice_no, m.bytes)
        } else {
            true
        }
    }

    /// Whether `bytes` bytes can be slice `slice_no`.
    fn fits_slice(&self, slice_no: i32, bytes: i32) -> (r: bool)
        requires
            self.block_size * 1024 <= i32::MAX,
        ensures
            r == slice_like(slice_no, bytes, self.block_size as int),
    {
        slice_no >= 0 && bytes >= 0 && bytes as usize <= self.block_size as usize * 1024
    }

    /// Whether slice `slice_no` is complete.
    pub fn is_complete(&self, slice_no: i32) -> (r: bool)
        ensures
            r == done(self.config.completed_slices@, slice_no as int),
    {
        slice_no >= 0 && (slice_no as usize) < self.config.completed_slices.len()
            && self.config.completed_slices[slice_no as usize]
    }

    /// Hands a packet to whom it concerns.
    fn dispatch(&mut self, packet: &[u8], fifo: &mut Fifo) -> (r: Option<Outcome>)
        requires
            old(self).wf(*old(fifo)),
        ensures
            handled(
                *old(self),
                *final(self),
                *old(fifo),
                *final(fifo),
                effect_of(old(self).world(*old(fifo)), packet@),
                i32_at(packet@, 4),
                r,
            ),
    {
        let ghost w = self.world(*fifo);
        if packet.len() < 16 || !self.accepts(packet, fifo) {
            return Some(nothing());
        }
        let opcode: u16 = read_u16(packet, 0);
        let payload: &[u8] = vstd::slice::slice_subrange(packet, 16, packet.len());
        assert(payload@ =~= packet@.skip(16));
        if opcode == CMD_DATA {
            let m = DataBlock::unpack(packet);
            self.process_data_block(fifo, m, payload)
        } else if opcode == CMD_FEC {
            let m = FecBlock::unpack(packet);
            self.process_fec_block(fifo, m, payload)
        } else if opcode == CMD_REQACK {
            let m = Reqack::unpack(packet);
            self.process_reqack(fifo, m)
        } else {
            Some(nothing())
        }
    }

    /// Takes in a packet; `None` if there has to be more free memory first, and the
    /// packet has to be handed in again.
    pub fn receive(&mut self, packet: &[u8], fifo: &mut Fifo, now: u64) -> (r: Option<Received>)
        requires
            old(self).wf(*old(fifo)),
            now + 1000 * old(self).config.exit_wait_ms <= u64::MAX,
        ensures
            ({
                let w = old(self).world(*old(fifo));
                let e = effect_of(w, packet@);
                let v = e.world.ended();
                match r {
                    None => {
                        &&& e.need_memory
                        &&& final(self).wf(*final(fifo))
                        &&& final(self).world(*final(fifo)) == e.world
                        &&& final(fifo).data_buf_size == old(fifo).data_buf_size
                        &&& final(self).config.is_started
                        &&& same_place(*old(self), *final(self))
                        &&& final(self).drain_deadline_us == old(self).drain_deadline_us
                    },
                    Some(o) => {
                        &&& !e.need_memory
                        &&& final(self).wf(*final(fifo))
                        &&& final(self).world(*final(fifo)) == v
                        &&& final(fifo).data_buf_size == old(fifo).data_buf_size
                        &&& said(o.answers@) == e.answers
                        &&& match o.missing {
                            Some(list) => {
                                &&& !w.end_marker_seen
                                &&& v.end_marker_seen
                                &&& list@ == in_order(
                                    missing_before(v.completed, i32_at(packet@, 4) as int),
                                    i32_at(packet@, 4) as nat,
                                )
                            },
                            None => v.end_marker_seen == w.end_marker_seen,
                        }
                        &&& o.unexpected == unexpected_in(packet@)
                        &&& o.transfer == is_transfer(packet@)
                        &&& final(self).config.is_started == (old(self).config.is_started
                            || is_transfer(packet@))
                        &&& same_place(*old(self), *final(self))
                        &&& final(self).drain_deadline_us == if v.end_reached && !w.end_reached {
                            Some((now + 1000 * old(self).config.exit_wait_ms) as u64)
                        } else {
                            old(self).drain_deadline_us
                        }
                    },
                }
            }),
    {
        let ghost w = self.world(*fifo);
        let mut unexpected: Option<u16> = None;
        let mut transfer: bool = false;
        if packet.len() >= 4 {
            let opcode: u16 = read_u16(packet, 0);
            if opcode == CMD_DATA || opcode == CMD_FEC || opcode == CMD_REQACK {
                transfer = packet.len() >= 16;
            } else if opcode != CMD_HELLO_NEW && opcode != CMD_HELLO_STREAMING && opcode
                != CMD_HELLO && opcode != CMD_CONNECT_REPLY {
                unexpected = Some(opcode);
            }
        }
        if transfer {
            self.config.is_started = true;
        }
        assert(self.world(*fifo) =~= w);
        let outcome: Outcome = match self.dispatch(packet, fifo) {
            Some(o) => o,
            None => {
                return None;
            },
        };
        let ghost v = effect_of(w, packet@).world;
        assert(self.world(*fifo) == v);
        let at_end: bool = match self.end_no {
            Some(e) => e == self.next_no,
            None => false,
        };
        if !self.end_reached && at_end {
            self.end_reached = true;
            let _ = fifo.data.produce_end();
            self.drain_deadline_us = Some(now + 1000 * self.config.exit_wait_ms);
            proof {
                assert(self.world(*fifo).slices =~= v.slices);
                assert(self.world(*fifo) =~= v.ended());
                lemma_accounts(v, v.ended());
            }
        }
        let Outcome { answers, missing } = outcome;
        Some(Received { answers, missing, unexpected, transfer })
    }

    /// A receiver about to begin. The slices seen before count as begun, so that
    /// all their blocks are asked for.
    pub fn new(config: ClientConfig, block_size: u32, fifo: &mut Fifo, now: u64) -> (r: Self)
        requires
            old(fifo).wf(),
            receivable(config, block_size as int, *old(fifo)),
        ensures
            r.wf(*final(fifo)),
            final(fifo).data_buf_size == old(fifo).data_buf_size,
            r.world(*final(fifo)) == first_world(config, block_size as int, *old(fifo)).seeded(
                config.late_slices@,
                config.late_slices@.len(),
            ),
            r.config == config,
            r.block_size == block_size,
            r.last_activity_us == now,
            r.drain_deadline_us is None,
    {
        let mut slices: Vec<RxSlice> = Vec::new();
        let mut i: usize = 0;
        while i < NR_SLICES
            invariant
                i <= 8,
                slices@.len() == i,
                forall|k: int| 0 <= k < i ==> (#[trigger] slices@[k]).wf(),
                forall|k: int| 0 <= k < i ==> (#[trigger] slices@[k])@ == idle_slice(),
            decreases 8 - i,
        {
            slices.push(RxSlice::new());
            i += 1;
        }
        let ghost late = config.late_slices@;
        let next_no: usize = config.completed_slices.len();
        let mut r = NetReceiver {
            slices,
            config,
            block_size,
            next_no,
            end_no: None,
            end_reached: false,
            last_activity_us: now,
            drain_deadline_us: None,
            tables: fec_init(),
        };
        let ghost w = first_world(config, block_size as int, *fifo);
        proof {
            assert forall|k: int| 0 <= k < 8 implies #[trigger] r.world(*fifo).slices[k]
                == idle_slice() by {
                assert(r.slices@[k]@ == idle_slice());
            }
            assert(r.world(*fifo).slices =~= w.slices);
            assert(r.world(*fifo) =~= w);
            lemma_first_world(config, block_size as int, *fifo);
        }
        let mut n: usize = 0;
        while n < r.config.late_slices.len()
            invariant
                n <= late.len(),
                late == r.config.late_slices@,
                r.config == config,
                r.block_size == block_size,
                r.last_activity_us == now,
                r.drain_deadline_us is None,
                r.wf(*fifo),
                fifo.data_buf_size == old(fifo).data_buf_size,
                r.world(*fifo) == w.seeded(late, n as nat),
            decreases late.len() - n,
        {
            let (slice_no, bytes, _) = r.config.late_slices[n];
            if bytes != 0 && r.fits_slice(slice_no, bytes) && !r.is_complete(slice_no) {
                let ghost v = r.world(*fifo);
                proof {
                    lemma_placed(v, slice_no);
                }
                match r.place_slice(slice_no, fifo) {
                    Place::At(i) => {
                        let ghost u = r.world(*fifo);
                        assert(u.slices[i as int] == r.slices@[i as int]@);
                        assert(u.slot_ok(i as int));
                        assert(r.slices@[i as int].wf());
                        r.slices[i].bytes = bytes as usize;
                        r.slices[i].bytes_known = true;
                        proof {
                            assert(r.world(*fifo).slices =~= u.sized(
                                i as int,
                                bytes as int,
                            ).slices);
                            assert(r.world(*fifo) =~= u.sized(i as int, bytes as int));
                            lemma_blocks(bytes as int, block_size as int);
                            lemma_touched(u, r.world(*fifo), i as int);
                        }
                    },
                    _ => {},
                }
            }
            n += 1;
            assert(r.world(*fifo) == w.seeded(late, n as nat));
        }
        r
    }

    /// A packet of the sender came.
    pub fn heard(&mut self, now: u64)
        requires
            now + 1000 * old(self).config.exit_wait_ms <= u64::MAX,
        ensures
            final(self).last_activity_us == now,
            final(self).drain_deadline_us == if old(self).end_reached {
                Some((now + 1000 * old(self).config.exit_wait_ms) as u64)
            } else {
                old(self).drain_deadline_us
            },
            forall|fifo: Fifo| old(self).wf(fifo) ==> final(self).wf(fifo),
            forall|fifo: Fifo| #[trigger] final(self).world(fifo) == old(self).world(fifo),
            final(self).config == old(self).config,
            final(self).block_size == old(self).block_size,
    {
        self.last_activity_us = now;
        if self.end_reached {
            self.drain_deadline_us = Some(now + 1000 * self.config.exit_wait_ms);
        }
    }

    /// Whether to stop at `now`.
    pub open spec fn over(&self, now: u64) -> bool {
        self.drain_deadline_us matches Some(d) && now >= d
    }

    /// Whether the sender was silent for too long at `now`.
    pub open spec fn left_alone(&self, now: u64) -> bool {
        &&& self.config.receive_timeout_secs > 0
        &&& self.config.is_started
        &&& now - self.last_activity_us >= self.config.receive_timeout_secs * 1_000_000
    }

    /// Whether to stop: the end is reached, and the time to answer is over.
    pub fn is_finished(&self, now: u64) -> (r: bool)
        ensures
            r <==> (self.drain_deadline_us matches Some(d) && now >= d),
            r == self.over(now),
    {
        match self.drain_deadline_us {
            Some(d) => now >= d,
            None => false,
        }
    }

    /// Whether to give up: the transfer is under way, and the sender was silent
    /// for too long.
    pub fn is_timed_out(&self, now: u64) -> (r: bool)
        ensures
            r <==> self.config.receive_timeout_secs > 0 && self.config.is_started && now
                - self.last_activity_us >= self.config.receive_timeout_secs * 1_000_000,
            r == self.left_alone(now),
    {
        if self.config.receive_timeout_secs == 0 || !self.config.is_started || now
            < self.last_activity_us {
            return false;
        }
        let silent: u64 = now - self.last_activity_us;
        silent as u128 >= self.config.receive_timeout_secs as u128 * 1_000_000
    }
}

/// A receiver before its first packet, and its ring.
pub open spec fn first_world(config: ClientConfig, block_size: int, fifo: Fifo) -> World {
    World {
        block_size,
        slices: Seq::new(8, |i: int| idle_slice()),
        completed: config.completed_slices@,
        next: config.completed_slices@.len() as int,
        end: None,
        end_marker_seen: config.end_marker_seen,
        end_reached: false,
        ring: fifo.buffer@,
        free: fifo.free_mem_queue@,
        data: fifo.data@,
    }
}

/// Whether a transfer in blocks of `block_size` bytes can begin: a slice fits into
/// the ring, whose free memory begins where its data ends; and the slices that are
/// complete come before all others.
pub open spec fn receivable(config: ClientConfig, block_size: int, fifo: Fifo) -> bool {
    &&& 0 < block_size
    &&& block_size * 1024 <= i32::MAX
    &&& block_size * 1024 <= fifo.data_buf_size
    &&& Pipe { ring: fifo.buffer@, free: fifo.free_mem_queue@, data: fifo.data@ }.ok()
    &&& config.completed_slices@.len() <= i32::MAX
    &&& forall|k: int|
        0 <= k < config.completed_slices@.len() ==> #[trigger] config.completed_slices@[k]
}

/// A receiver before its first packet is consistent.
pub proof fn lemma_first_world(config: ClientConfig, block_size: int, fifo: Fifo)
    requires
        fifo.wf(),
        receivable(config, block_size, fifo),
    ensures
        first_world(config, block_size, fifo).ok(),
{
    let w = first_world(config, block_size, fifo);
    fifo.data.lemma_wf();
    lemma_blocks(0, block_size);
    assert forall|i: int| 0 <= i < 8 implies #[trigger] w.slot_ok(i) by {
        assert(w.slices[i] == idle_slice());
    }
    assert forall|i: int| 0 <= i < 8 implies !(#[trigger] w.is_ready(i)) by {
        assert(w.slices[i] == idle_slice());
    }
    assert forall|i: int, j: int|
        0 <= i < j < 8 && (#[trigger] w.slices[i]).state != RxState::Free && (
        #[trigger] w.slices[j]).state != RxState::Free implies w.slices[i].slice_no
        != w.slices[j].slice_no by {
        assert(w.slices[i] == idle_slice());
    }
    lemma_lanes_apart(w);
}

/// Whether a transfer can begin.
pub fn can_receive(config: &ClientConfig, block_size: u32, fifo: &Fifo) -> (r: bool)
    requires
        fifo.wf(),
    ensures
        r == receivable(*config, block_size as int, *fifo),
{
    let most: u64 = block_size as u64 * 1024;
    if block_size == 0 || most > i32::MAX as u64 || most > fifo.data_buf_size as u64 {
        return false;
    }
    let size: usize = fifo.data_buf_size;
    let free: usize = fifo.free_mem_queue.get_waiting();
    let filled: usize = fifo.data.get_waiting();
    proof {
        fifo.free_mem_queue.lemma_wf();
        fifo.data.lemma_wf();
    }
    if free > size || filled > size - free || fifo.free_mem_queue.get_consumer_position()
        != fifo.data.get_producer_position() {
        return false;
    }
    if config.completed_slices.len() > 0x7fff_ffff {
        return false;
    }
    let mut j: usize = 0;
    while j < config.completed_slices.len()
        invariant
            j <= config.completed_slices@.len(),
            forall|k: int| 0 <= k < j ==> #[trigger] config.completed_slices@[k],
        decreases config.completed_slices@.len() - j,
    {
        if !config.completed_slices[j] {
            return false;
        }
        j += 1;
    }
    true
}

/// The request to take part: what the receiver can do, and its buffer.
pub fn connect_req_packet(rcvbuf: u32) -> (r: [u8; 12])
    ensures
        r@ == (ConnectReq { capabilities: RECEIVER_CAPABILITIES, rcvbuf }).encoded(),
{
    let msg = ConnectReq { capabilities: RECEIVER_CAPABILITIES, rcvbuf };
    msg.pack()
}

/// Whom a receiver that leaves tells.
pub open spec fn farewell_addresses(server: SocketAddrV4, control: SocketAddrV4) -> Seq<
    SocketAddrV4,
> {
    let first = if server.ip != Ipv4Addr::zero() {
        seq![server]
    } else {
        Seq::empty()
    };
    if control.ip != Ipv4Addr::zero() && control != server {
        first.push(control)
    } else {
        first
    }
}

/// How a receiver that leaves says so.
pub struct Farewell {
    pub packet: [u8; 4],
    /// Whom it tells: the sender, and where the sender listens for others.
    pub addresses: Vec<SocketAddrV4>,
    /// How often it tells them.
    pub rounds: u32,
}

/// How to leave. At the end of a transfer one word is enough; after a failure the
/// word is repeated, for it can be lost.
pub fn farewell(config: &ClientConfig, exit_status: i32) -> (r: Farewell)
    ensures
        r.packet@ == be16(CMD_DISCONNECT) + be16(0),
        r.addresses@ == farewell_addresses(config.server_addr, config.control_addr),
        r.rounds == if exit_status == 0 {
            1
        } else {
            DISCONNECT_RETRIES
        },
{
    let mut addresses: Vec<SocketAddrV4> = Vec::new();
    if !config.server_addr.ip.is_unspecified() {
        addresses.push(config.server_addr);
    }
    if !config.control_addr.ip.is_unspecified() && config.control_addr != config.server_addr {
        addresses.push(config.control_addr);
    }
    assert(addresses@ =~= farewell_addresses(config.server_addr, config.control_addr));
    let rounds: u32 = if exit_status == 0 {
        1
    } else {
        DISCONNECT_RETRIES
    };
    Farewell { packet: pack_disconnect(), addresses, rounds }
}

/// What comes of a packet.
pub struct Received {
    /// What the sender is told.
    pub answers: Vec<Answer>,
    /// The slices that miss, when the end of the file is there before them.
    pub missing: Option<Vec<usize>>,
    /// The code of a message that has no place in a transfer.
    pub unexpected: Option<u16>,
    /// The packet is part of the transfer.
    pub transfer: bool,
}

/// Whether a packet is part of a transfer.
pub open spec fn is_transfer(p: Seq<u8>) -> bool {
    p.len() >= 16 && (u16_at(p, 0) == CMD_DATA || u16_at(p, 0) == CMD_FEC || u16_at(p, 0)
        == CMD_REQACK)
}

/// The code of a message that has no place in a transfer.
pub open spec fn unexpected_in(p: Seq<u8>) -> Option<u16> {
    let op = u16_at(p, 0);
    if p.len() < 4 || op == CMD_DATA || op == CMD_FEC || op == CMD_REQACK || op == CMD_HELLO_NEW
        || op == CMD_HELLO_STREAMING || op == CMD_HELLO || op == CMD_CONNECT_REPLY {
        None
    } else {
        Some(op)
    }
}

/// Whatever packets do not change.
pub open spec fn same_place(a: NetReceiver, b: NetReceiver) -> bool {
    &&& b.block_size == a.block_size
    &&& b.tables == a.tables
    &&& b.last_activity_us == a.last_activity_us
    &&& b.config == (ClientConfig {
        completed_slices: b.config.completed_slices,
        end_marker_seen: b.config.end_marker_seen,
        is_started: b.config.is_started,
        ..a.config
    })
}

/// Nothing to tell.
fn nothing() -> (r: Outcome)
    ensures
        said(r.answers@) == Seq::<AnswerModel>::empty(),
        r.missing is None,
{
    let answers: Vec<Answer> = Vec::new();
    assert(said(answers@) =~= Seq::<AnswerModel>::empty());
    Outcome { answers, missing: None }
}

/// Slice `slice_no` is there.
fn confirmation(slice_no: i32) -> (r: Outcome)
    ensures
        said(r.answers@) == seq![AnswerModel::Complete { slice_no }],
        r.missing is None,
{
    let mut answers: Vec<Answer> = Vec::new();
    answers.push(Answer::Complete(OkMsg { slice_no }));
    assert(said(answers@) =~= seq![AnswerModel::Complete { slice_no }]);
    Outcome { answers, missing: None }
}

/// The receiver did what `e` says, or waits for memory as it says.
pub open spec fn handled(
    before: NetReceiver,
    after: NetReceiver,
    fifo_before: Fifo,
    fifo_after: Fifo,
    e: Effect,
    slice_no: i32,
    r: Option<Outcome>,
) -> bool {
    match r {
        None => {
            &&& e.need_memory
            &&& after.wf(fifo_after)
            &&& after.world(fifo_after) == e.world
            &&& same_setup(before, after)
            &&& fifo_after.data_buf_size == fifo_before.data_buf_size
        },
        Some(o) => done_as(before, after, fifo_before, fifo_after, e, slice_no, o),
    }
}

/// What a receiver does after a message.
pub struct Outcome {
    /// What the sender is told.
    pub answers: Vec<Answer>,
    /// The slices that miss, when the end of the file is there before them.
    pub missing: Option<Vec<usize>>,
}

/// Whatever a message does not concern stays.
pub open spec fn same_setup(a: NetReceiver, b: NetReceiver) -> bool {
    &&& b.block_size == a.block_size
    &&& b.tables == a.tables
    &&& b.last_activity_us == a.last_activity_us
    &&& b.drain_deadline_us == a.drain_deadline_us
    &&& b.end_reached == a.end_reached
    &&& b.config == (ClientConfig {
        completed_slices: b.config.completed_slices,
        end_marker_seen: b.config.end_marker_seen,
        ..a.config
    })
}

/// The receiver did what `e` says: the state and the answers are those, and what
/// misses is told when the end is seen too early.
pub open spec fn done_as(
    before: NetReceiver,
    after: NetReceiver,
    fifo_before: Fifo,
    fifo_after: Fifo,
    e: Effect,
    slice_no: i32,
    o: Outcome,
) -> bool {
    &&& !e.need_memory
    &&& said(o.answers@) == e.answers
    &&& match o.missing {
        Some(list) => {
            &&& !before.config.end_marker_seen
            &&& e.world.end_marker_seen
            &&& list@ == in_order(
                missing_before(e.world.completed, slice_no as int),
                slice_no as nat,
            )
        },
        None => e.world.end_marker_seen == before.config.end_marker_seen,
    }
    &&& after.wf(fifo_after)
    &&& after.world(fifo_after) == e.world
    &&& same_setup(before, after)
    &&& fifo_after.data_buf_size == fifo_before.data_buf_size
}

/// A receiver goes on answering for as long as it was told to, counted from the last
/// packet, and then stops; before the end is reached it does not stop. It gives up only
/// during a transfer, where it was told how long the sender may be silent, and exactly
/// when that time is over.
pub proof fn law_when_a_receiver_stops(r: NetReceiver, heard: u64, now: u64)
    requires
        heard + 1000 * r.config.exit_wait_ms <= u64::MAX,
    ensures
        r.drain_deadline_us is None ==> !r.over(now),
        r.drain_deadline_us == Some((heard + 1000 * r.config.exit_wait_ms) as u64) ==> (r.over(now)
            <==> now >= heard + 1000 * r.config.exit_wait_ms),
        r.last_activity_us == heard ==> (r.left_alone(now) <==> r.config.is_started
            && r.config.receive_timeout_secs >= 1 && now >= heard + r.config.receive_timeout_secs
            * 1_000_000),
        r.config.receive_timeout_secs == 0 ==> !r.left_alone(now),
        !r.config.is_started ==> !r.left_alone(now),
{
}

/// Whoever leaves tells the sender where it is known, and the address at which senders
/// listen for others where that is another; and nobody else, and nobody twice.
pub proof fn law_whom_a_leaver_tells(server: SocketAddrV4, control: SocketAddrV4, a: SocketAddrV4)
    ensures
        ({
            let list = farewell_addresses(server, control);
            &&& list.contains(a) <==> (a == server || a == control) && a.ip != Ipv4Addr::zero()
            &&& list.no_duplicates()
            &&& server.ip != Ipv4Addr::zero() ==> list.len() > 0 && list[0] == server
        }),
{
    let list = farewell_addresses(server, control);
    if server.ip != Ipv4Addr::zero() {
        assert(list[0] == server);
    }
    if control.ip != Ipv4Addr::zero() && control != server {
        assert(list[list.len() - 1] == control);
    }
}

/// Which packets of a sender count as its data, and which are unexpected: those of kinds
/// that senders do not send.
pub proof fn law_kinds_of_packets(p: Seq<u8>)
    ensures
        is_transfer(p) ==> unexpected_in(p) is None,
        is_transfer(p) <==> p.len() >= 16 && (u16_at(p, 0) == 8 || u16_at(p, 0) == 9 || u16_at(p, 0)
            == 6),
        p.len() < 4 ==> unexpected_in(p) is None,
        p.len() >= 4 ==> (unexpected_in(p) is None <==> 6 <= u16_at(p, 0) <= 11 || u16_at(p, 0)
            == 0x0500),
        unexpected_in(p) matches Some(op) ==> op == u16_at(p, 0),
{
}

} // verus!
