//! What comes of the packets of a transfer: slices fill their stretches of the
//! ring, are handed over in the order of their numbers, and the sender is told what
//! is there and what misses.
//!
//! The ring holds the data that waits for the writer, and free memory behind it.
//! Free memory is cut into stretches, each long enough for the largest slice: the
//! next slice for the writer has the first, the slice after that the second, and so
//! on. When a slice is handed over, the stretches behind it move up to its end.

use crate::bitmap::numbers_below;
use crate::diskio::{law_input_is_queued, law_output_is_the_front, Pipe};
use crate::fifo::{lemma_apart, lemma_onward, ring_moved, ring_read, ring_write, spot};
use crate::produconsum::{lemma_halved, Account};
use crate::protocol::{
    DataBlock, FecBlock, Reqack, CMD_DATA, CMD_FEC, CMD_REQACK, DATA_BLOCK_SIZE, FEC_BLOCK_SIZE,
    REQACK_SIZE,
};
use crate::recvslice::{RxModel, RxState};
use crate::senddata::{first_true, is_first, lemma_first_true};
use crate::sendslice::{block_place, fits, nr_blocks};
use crate::wire::{i32_at, u16_at};
use vstd::arithmetic::div_mod::lemma_mod_bound;
use vstd::prelude::*;

verus! {

/// What an answer says.
pub enum AnswerModel {
    /// Slice `slice_no` is there.
    Complete { slice_no: i32 },
    /// Of slice `slice_no` the blocks `have` are there, as asked in round `rxmit`.
    Missing { slice_no: i32, rxmit: i32, have: Set<int> },
}

/// Where a slice is.
#[derive(Debug, Clone, Copy, PartialEq, Eq, Structural)]
pub enum Place {
    At(usize),
    /// There has to be more free memory first.
    NeedMemory,
    /// The ring has no stretch for it before others are handed over.
    TooFar,
    /// Every place is taken.
    Nowhere,
}

/// A receiver and its ring.
#[verifier::ext_equal]
pub struct World {
    pub block_size: int,
    pub slices: Seq<RxModel>,
    /// The slices that are complete.
    pub completed: Seq<bool>,
    /// The number of the next slice for the writer.
    pub next: int,
    /// The number of the slice without data that marks the end of the file; the first,
    /// if there are several.
    pub end: Option<int>,
    pub end_marker_seen: bool,
    pub end_reached: bool,
    pub ring: Seq<u8>,
    /// The account of free memory.
    pub free: Account,
    /// The account of data for the writer.
    pub data: Account,
}

/// What comes of a message.
pub struct Effect {
    pub world: World,
    pub answers: Seq<AnswerModel>,
    /// There has to be more free memory first.
    pub need_memory: bool,
}

/// Whether slice `j` is complete.
pub open spec fn done(completed: Seq<bool>, j: int) -> bool {
    0 <= j < completed.len() && completed[j]
}

/// The record of slices with slice `no` complete.
pub open spec fn marked(completed: Seq<bool>, no: int) -> Seq<bool> {
    Seq::new(
        if completed.len() > no {
            completed.len()
        } else {
            (no + 1) as nat
        },
        |j: int| j == no || done(completed, j),
    )
}

/// The slices before `no` that are not complete.
pub open spec fn missing_before(completed: Seq<bool>, no: int) -> Set<int> {
    Set::new(|j: int| 0 <= j < no && !done(completed, j))
}

/// A slice before its first use.
pub open spec fn idle_slice() -> RxModel {
    RxModel {
        state: RxState::Free,
        base: 0,
        slice_no: -1i32,
        bytes: 0,
        bytes_known: false,
        have: Set::empty(),
        fec_nos: Seq::empty(),
        fec_blocks: Seq::empty(),
        stripes: 0,
    }
}

impl World {
    /// The ring as the disk sees it.
    pub open spec fn pipe(self) -> Pipe {
        Pipe { ring: self.ring, free: self.free, data: self.data }
    }

    /// What the largest slice takes.
    pub open spec fn slice_room(self) -> int {
        self.block_size * 1024
    }

    /// Where the stretch of slice `no` begins: so many largest slices behind the
    /// writer's data as there are slices to be handed over before it.
    pub open spec fn lane(self, no: int) -> int {
        spot(self.free.consumed, (no - self.next) * self.slice_room(), self.ring.len() as int)
    }

    /// The slice lies in its stretch, and that is free memory.
    pub open spec fn in_lane(self, s: RxModel) -> bool {
        &&& self.next <= s.slice_no < self.next + 8
        &&& (s.slice_no - self.next + 1) * self.slice_room() <= self.free.waiting
        &&& s.base == self.lane(s.slice_no as int)
    }

    /// Whether the slice in place `i` holds memory: it is not yet handed over.
    pub open spec fn holds(self, i: int) -> bool {
        self.slices[i].state != RxState::Free && self.slices[i].slice_no >= self.next
    }

    /// Place `i` is consistent with the rest.
    pub open spec fn slot_ok(self, i: int) -> bool {
        let s = self.slices[i];
        let no = s.slice_no as int;
        &&& fits(s.base, s.bytes, self.block_size, self.ring.len() as int)
        &&& s.paired()
        &&& s.have.subset_of(numbers_below(1024))
        &&& match s.state {
            RxState::Free => no == -1,
            RxState::Receiving => {
                &&& no >= self.next
                &&& !done(self.completed, no)
                &&& self.in_lane(s)
            },
            RxState::Done => {
                &&& no >= 0
                &&& done(self.completed, no)
                &&& self.end != Some(no)
                &&& no >= self.next ==> s.bytes > 0 && self.in_lane(s)
            },
        }
    }

    /// Whether the slice in place `i` is the next one for the writer, and complete.
    pub open spec fn is_ready(self, i: int) -> bool {
        self.slices[i].state == RxState::Done && self.slices[i].slice_no == self.next
    }

    /// Whether slice `no` is complete and waits to be handed over.
    pub open spec fn waits(self, no: int) -> bool {
        exists|i: int|
            0 <= i < 8 && (#[trigger] self.slices[i]).state == RxState::Done
                && self.slices[i].slice_no == no
    }

    /// Whether slice `no` comes before the end of the file, as far as that is known.
    pub open spec fn before_end(self, no: int) -> bool {
        self.end matches Some(e) ==> no < e
    }

    /// The stretches of the slices in places `i` and `j` share no place of the ring.
    pub open spec fn clear_of(self, i: int, j: int) -> bool {
        forall|x: int, y: int|
            0 <= x < self.slice_room() && 0 <= y < self.slice_room() ==> #[trigger] spot(
                self.slices[i].base,
                x,
                self.ring.len() as int,
            ) != #[trigger] spot(self.slices[j].base, y, self.ring.len() as int)
    }

    /// Everything is in range, every slice has its own number and its stretch, and
    /// what is complete is in the ring or was handed over.
    pub open spec fn sound(self) -> bool {
        &&& 0 < self.block_size
        &&& self.slice_room() <= i32::MAX
        &&& self.slice_room() <= self.ring.len() <= usize::MAX / 2
        &&& self.pipe().ok()
        &&& self.slices.len() == 8
        &&& 0 <= self.next <= i32::MAX + 1
        &&& forall|j: int| 0 <= j < self.next ==> #[trigger] done(self.completed, j)
        &&& self.end matches Some(e) ==> self.next <= e <= i32::MAX && done(self.completed, e)
        &&& forall|i: int| 0 <= i < 8 ==> #[trigger] self.slot_ok(i)
        &&& forall|i: int, j: int|
            0 <= i < j < 8 && (#[trigger] self.slices[i]).state != RxState::Free && (
            #[trigger] self.slices[j]).state != RxState::Free ==> self.slices[i].slice_no
                != self.slices[j].slice_no
        &&& forall|no: int|
            no >= self.next && #[trigger] done(self.completed, no) && self.before_end(no)
                ==> self.waits(no)
    }

    /// No two slices that are not yet handed over share a place of the ring.
    pub open spec fn apart(self) -> bool {
        forall|i: int, j: int, x: int, y: int|
            0 <= i < 8 && 0 <= j < 8 && i != j && self.holds(i) && self.holds(j) && 0 <= x
                < self.slice_room() && 0 <= y < self.slice_room() ==> #[trigger] spot(
                self.slices[i].base,
                x,
                self.ring.len() as int,
            ) != #[trigger] spot(self.slices[j].base, y, self.ring.len() as int)
    }

    /// The state is sound, slices have their memory to themselves, and whatever can
    /// be handed over was.
    pub open spec fn ok(self) -> bool {
        &&& self.sound()
        &&& self.apart()
        &&& forall|i: int| 0 <= i < 8 ==> !(#[trigger] self.is_ready(i))
    }

    /// The place of slice `no`, if it is in use.
    pub open spec fn located(self, no: i32) -> Option<int> {
        first_true(
            Seq::new(
                self.slices.len(),
                |i: int| self.slices[i].slice_no == no && self.slices[i].state != RxState::Free,
            ),
        )
    }

    /// The place for a new slice: an unused one, else one whose slice was handed
    /// over.
    pub open spec fn slot(self) -> Option<int> {
        match first_true(
            Seq::new(self.slices.len(), |i: int| self.slices[i].state == RxState::Free),
        ) {
            Some(i) => Some(i),
            None => first_true(
                Seq::new(
                    self.slices.len(),
                    |i: int|
                        self.slices[i].state == RxState::Done && self.slices[i].slice_no
                            < self.next,
                ),
            ),
        }
    }

    /// Whether the ring has a stretch for slice `no`.
    pub open spec fn reachable(self, no: int) -> bool {
        &&& self.next <= no < self.next + 8
        &&& (no - self.next + 1) * self.slice_room() <= self.ring.len()
    }

    /// The stretch of slice `no` still holds data for the writer.
    pub open spec fn starved(self, no: int) -> bool {
        self.free.waiting < (no - self.next + 1) * self.slice_room()
    }

    /// Where slice `no` is, or where it can be begun.
    pub open spec fn place(self, no: i32) -> Place {
        match self.located(no) {
            Some(i) => Place::At(i as usize),
            None => match self.slot() {
                Some(i) => if !self.reachable(no as int) {
                    Place::TooFar
                } else if self.starved(no as int) {
                    Place::NeedMemory
                } else {
                    Place::At(i as usize)
                },
                None => Place::Nowhere,
            },
        }
    }

    /// After slice `no` was begun in place `i`.
    pub open spec fn opened(self, i: int, no: i32) -> World {
        World {
            slices: self.slices.update(
                i,
                RxModel {
                    state: RxState::Receiving,
                    base: self.lane(no as int),
                    slice_no: no,
                    bytes: 0,
                    bytes_known: false,
                    have: Set::empty(),
                    fec_nos: Seq::empty(),
                    fec_blocks: Seq::empty(),
                    stripes: 0,
                },
            ),
            free: Account { consumer_waiting: false, ..self.free },
            ..self
        }
    }

    /// After slice `no` was looked for, and begun in place `i` if it was new.
    pub open spec fn placed(self, no: i32, i: int) -> World {
        if self.located(no) is Some {
            self
        } else {
            self.opened(i, no)
        }
    }

    /// The highest number of a slice, counted from the next one for the writer,
    /// among the first `n` places.
    pub open spec fn farthest(self, n: nat) -> int
        decreases n,
    {
        if n == 0 {
            0
        } else {
            let m = self.farthest((n - 1) as nat);
            let s = self.slices[n - 1];
            if s.state != RxState::Free && s.slice_no - self.next > m {
                s.slice_no - self.next
            } else {
                m
            }
        }
    }

    /// After the slice in place `i`, the next one for the writer, was handed over:
    /// the stretches behind it moved up to its end.
    pub open spec fn handed(self, i: int) -> World {
        let bytes = self.slices[i].bytes;
        let gap = self.slice_room() - bytes;
        let size = self.ring.len() as int;
        World {
            next: self.next + 1,
            slices: Seq::new(
                self.slices.len(),
                |j: int|
                    if self.slices[j].state != RxState::Free && self.slices[j].slice_no
                        > self.next {
                        RxModel { base: spot(self.slices[j].base, -gap, size), ..self.slices[j] }
                    } else {
                        self.slices[j]
                    },
            ),
            ring: ring_moved(
                self.ring,
                spot(self.free.consumed, bytes, size),
                gap,
                self.farthest(8) * self.slice_room(),
            ),
            free: self.free.with_consumed(bytes),
            data: self.data.with_produced(bytes),
            ..self
        }
    }

    /// After every slice was handed over whose turn it is.
    pub open spec fn settled(self) -> World
        decreases i32::MAX + 1 - self.next,
    {
        if self.next <= i32::MAX && exists|i: int| 0 <= i < 8 && self.is_ready(i) {
            let i = choose|i: int| 0 <= i < 8 && self.is_ready(i);
            self.handed(i).settled()
        } else {
            self
        }
    }

    /// The slice in place `i` counts as complete.
    pub open spec fn finished(self, i: int) -> World {
        World {
            slices: self.slices.update(i, RxModel { state: RxState::Done, ..self.slices[i] }),
            completed: marked(self.completed, self.slices[i].slice_no as int),
            ..self
        }
    }

    /// The slice in place `i` is complete, and the sender is told so.
    pub open spec fn complete(self, i: int) -> Effect {
        Effect {
            world: self.finished(i).settled(),
            answers: seq![AnswerModel::Complete { slice_no: self.slices[i].slice_no }],
            need_memory: false,
        }
    }

    /// Nothing comes of a message.
    pub open spec fn idle(self) -> Effect {
        Effect { world: self, answers: Seq::empty(), need_memory: false }
    }

    /// There are enough parity blocks to try to do without those that miss.
    pub open spec fn worth_a_try(self, i: int) -> bool {
        let s = self.slices[i];
        &&& s.stripes > 0
        &&& s.fec_blocks.len() > 0
        &&& s.fec_blocks.len() >= nr_blocks(s.bytes, self.block_size) - s.have.len()
    }

    /// After parity restored what it can of the slice in place `i`.
    pub open spec fn recovered(self, i: int) -> World {
        let s = self.slices[i];
        World {
            slices: self.slices.update(i, s.recovered(self.block_size, s.stripes as nat)),
            ring: s.recovered_ring(self.ring, self.block_size, s.stripes as nat),
            ..self
        }
    }

    /// Looks whether the slice in place `i` is complete.
    pub open spec fn checked(self, i: int) -> Effect {
        let s = self.slices[i];
        if !s.bytes_known || s.bytes == 0 {
            self.idle()
        } else if s.all_there(self.block_size) {
            self.complete(i)
        } else if self.worth_a_try(i) {
            let w = self.recovered(i);
            if w.slices[i].all_there(self.block_size) {
                w.complete(i)
            } else {
                w.idle()
            }
        } else {
            self.idle()
        }
    }

    /// To wait for the memory of slice `no`.
    pub open spec fn wait(self, no: int) -> Effect {
        let need = (no - self.next + 1) * self.slice_room();
        Effect {
            world: World { free: self.free.asked(self.free.share(need, false)), ..self },
            answers: Seq::empty(),
            need_memory: true,
        }
    }

    /// After block `block_no` of the slice in place `i` was stored.
    pub open spec fn stored(self, i: int, block_no: int, bytes: int, payload: Seq<u8>) -> World {
        let s = self.slices[i];
        let cut = if payload.len() > self.block_size {
            payload.take(self.block_size)
        } else {
            payload
        };
        World {
            slices: self.slices.update(
                i,
                RxModel {
                    bytes: if bytes != 0 {
                        bytes
                    } else {
                        s.bytes
                    },
                    bytes_known: s.bytes_known || bytes != 0,
                    have: s.have.insert(block_no),
                    ..s
                },
            ),
            ring: ring_write(
                self.ring,
                block_place(s.base, self.block_size, block_no, self.ring.len() as int),
                cut,
            ),
            ..self
        }
    }

    /// A block of data for the slice in place `i`.
    pub open spec fn data_for(self, i: int, m: DataBlock, payload: Seq<u8>) -> Effect {
        if m.block_no >= 1024 || self.slices[i].have.contains(m.block_no as int) {
            self.idle()
        } else {
            self.stored(i, m.block_no as int, m.bytes as int, payload).checked(i)
        }
    }

    /// A block of data. Nothing comes of one whose slice is complete.
    pub open spec fn data_received(self, m: DataBlock, payload: Seq<u8>) -> Effect {
        if done(self.completed, m.slice_no as int) {
            self.idle()
        } else {
            match self.place(m.slice_no) {
                Place::At(i) => self.placed(m.slice_no, i as int).data_for(i as int, m, payload),
                Place::NeedMemory => self.wait(m.slice_no as int),
                Place::TooFar => self.idle(),
                Place::Nowhere => self.idle(),
            }
        }
    }

    /// After a parity block of the slice in place `i` was kept.
    pub open spec fn kept(self, i: int, m: FecBlock, payload: Seq<u8>) -> World {
        let s = self.slices[i];
        World {
            slices: self.slices.update(
                i,
                RxModel {
                    bytes: if m.bytes != 0 && !s.bytes_known {
                        m.bytes as int
                    } else {
                        s.bytes
                    },
                    bytes_known: s.bytes_known || m.bytes != 0,
                    stripes: if m.stripes > 0 {
                        m.stripes as int
                    } else {
                        s.stripes
                    },
                    fec_nos: s.fec_nos.push(m.block_no as u32),
                    fec_blocks: s.fec_blocks.push(payload),
                    ..s
                },
            ),
            ..self
        }
    }

    /// A parity block. Nothing comes of one whose slice is complete.
    pub open spec fn fec_received(self, m: FecBlock, payload: Seq<u8>) -> Effect {
        if done(self.completed, m.slice_no as int) {
            self.idle()
        } else {
            match self.place(m.slice_no) {
                Place::At(i) => self.placed(m.slice_no, i as int).kept(
                    i as int,
                    m,
                    payload,
                ).checked(i as int),
                Place::NeedMemory => self.wait(m.slice_no as int),
                Place::TooFar => self.idle(),
                Place::Nowhere => self.idle(),
            }
        }
    }

    /// The slice in place `i` with its size known.
    pub open spec fn sized(self, i: int, bytes: int) -> World {
        World {
            slices: self.slices.update(
                i,
                RxModel { bytes, bytes_known: true, ..self.slices[i] },
            ),
            ..self
        }
    }

    /// The sender asks about the slice in place `i`.
    pub open spec fn asked_for(self, i: int, m: Reqack) -> Effect {
        let w = self.sized(i, m.bytes as int);
        let s = w.slices[i];
        if s.all_there(self.block_size) {
            let e = w.complete(i);
            Effect {
                answers: seq![AnswerModel::Complete { slice_no: m.slice_no }] + e.answers,
                ..e
            }
        } else {
            Effect {
                answers: seq![
                    AnswerModel::Missing {
                        slice_no: m.slice_no,
                        rxmit: m.rxmit,
                        have: s.have.intersect(
                            numbers_below(nr_blocks(s.bytes, self.block_size)),
                        ),
                    },
                ],
                ..w.idle()
            }
        }
    }

    /// The end of the file, now that slice `no` is known to have no data: the first of
    /// such slices.
    pub open spec fn end_with(self, no: int) -> int {
        match self.end {
            Some(e) => if e < no {
                e
            } else {
                no
            },
            None => no,
        }
    }

    /// The world knows that slice `no` has no data.
    pub open spec fn bounded(self, no: i32) -> World {
        let completed = marked(self.completed, no as int);
        World {
            slices: match self.located(no) {
                Some(i) => self.slices.update(i, idle_slice()),
                None => self.slices,
            },
            completed,
            end: Some(self.end_with(no as int)),
            end_marker_seen: self.end_marker_seen || missing_before(completed, no as int) != Set::<
                int,
            >::empty(),
            ..self
        }
    }

    /// The sender asks about a slice without data: the end of the file. It takes no
    /// memory.
    pub open spec fn end_asked(self, m: Reqack) -> Effect {
        Effect {
            world: self.bounded(m.slice_no),
            answers: seq![
                AnswerModel::Complete { slice_no: m.slice_no },
                AnswerModel::Complete { slice_no: m.slice_no },
            ],
            need_memory: false,
        }
    }

    /// The sender asks about a slice. One that is complete is there, whatever became
    /// of its place; of one that is too far ahead to be begun nothing is there.
    pub open spec fn reqack_received(self, m: Reqack) -> Effect {
        if done(self.completed, m.slice_no as int) {
            Effect {
                answers: seq![AnswerModel::Complete { slice_no: m.slice_no }],
                ..self.idle()
            }
        } else if m.bytes == 0 {
            self.end_asked(m)
        } else {
            match self.place(m.slice_no) {
                Place::At(i) => self.placed(m.slice_no, i as int).asked_for(i as int, m),
                Place::NeedMemory => self.wait(m.slice_no as int),
                Place::Nowhere => self.idle(),
                Place::TooFar => Effect {
                    answers: seq![
                        AnswerModel::Missing {
                            slice_no: m.slice_no,
                            rxmit: m.rxmit,
                            have: Set::empty(),
                        },
                    ],
                    ..self.idle()
                },
            }
        }
    }

    /// The end of the file is known, and every slice before it was handed over.
    pub open spec fn at_end(self) -> bool {
        self.end == Some(self.next)
    }

    /// The writer is told of the end, once.
    pub open spec fn ended(self) -> World {
        if !self.end_reached && self.at_end() {
            World { end_reached: true, data: Account { at_end: true, ..self.data }, ..self }
        } else {
            self
        }
    }

    /// After the first `n` slices of a list were begun, as far as they are slices with
    /// data and there are places.
    pub open spec fn seeded(self, list: Seq<(i32, i32, i32)>, n: nat) -> World
        decreases n,
    {
        if n == 0 {
            self
        } else {
            let v = self.seeded(list, (n - 1) as nat);
            let (no, bytes, _) = list[n - 1];
            if bytes == 0 || !slice_like(no, bytes, v.block_size) || done(v.completed, no as int) {
                v
            } else {
                match v.place(no) {
                    Place::At(i) => v.placed(no, i as int).sized(i as int, bytes as int),
                    Place::NeedMemory => v.wait(no as int).world,
                    _ => v,
                }
            }
        }
    }

    /// After the disk took `n` bytes.
    pub open spec fn written(self, n: int) -> World {
        World { free: self.free.with_produced(n), data: self.data.with_consumed(n), ..self }
    }
}

/// Whether `bytes` bytes are a slice.
pub open spec fn slice_like(slice_no: i32, bytes: i32, block_size: int) -> bool {
    slice_no >= 0 && 0 <= bytes <= block_size * 1024
}

/// Whether a packet keeps to the protocol: its slice has a number and no more than
/// 1024 blocks. In a question about a slice that is complete its size does not matter.
pub open spec fn proper(w: World, p: Seq<u8>) -> bool {
    let op = u16_at(p, 0);
    if p.len() < 4 {
        true
    } else if op == CMD_DATA && p.len() >= DATA_BLOCK_SIZE {
        let m = DataBlock::of_bytes(p);
        slice_like(m.slice_no, m.bytes, w.block_size)
    } else if op == CMD_FEC && p.len() >= FEC_BLOCK_SIZE {
        let m = FecBlock::of_bytes(p);
        slice_like(m.slice_no, m.bytes, w.block_size)
    } else if op == CMD_REQACK && p.len() >= REQACK_SIZE {
        let m = Reqack::of_bytes(p);
        done(w.completed, m.slice_no as int) || slice_like(m.slice_no, m.bytes, w.block_size)
    } else {
        true
    }
}

/// What comes of a packet. Nothing comes of one that does not keep to the protocol.
pub open spec fn effect_of(w: World, p: Seq<u8>) -> Effect {
    let op = u16_at(p, 0);
    if p.len() < 4 || !proper(w, p) {
        w.idle()
    } else if op == CMD_DATA && p.len() >= DATA_BLOCK_SIZE {
        w.data_received(DataBlock::of_bytes(p), p.skip(16))
    } else if op == CMD_FEC && p.len() >= FEC_BLOCK_SIZE {
        w.fec_received(FecBlock::of_bytes(p), p.skip(16))
    } else if op == CMD_REQACK && p.len() >= REQACK_SIZE {
        w.reqack_received(Reqack::of_bytes(p))
    } else {
        w.idle()
    }
}

/// Slices in their stretches share no place.
pub proof fn lemma_lanes_apart(w: World)
    requires
        w.sound(),
    ensures
        w.apart(),
{
    let n = w.ring.len() as int;
    let room = w.slice_room();
    assert forall|i: int, j: int, x: int, y: int|
        0 <= i < 8 && 0 <= j < 8 && i != j && w.holds(i) && w.holds(j) && 0 <= x < room && 0 <= y
            < room implies #[trigger] spot(w.slices[i].base, x, n) != #[trigger] spot(
        w.slices[j].base,
        y,
        n,
    ) by {
        assert(w.slot_ok(i) && w.slot_ok(j));
        let a = w.slices[i].slice_no - w.next;
        let b = w.slices[j].slice_no - w.next;
        assert(a != b);
        lemma_onward(w.free.consumed, a * room, x, n);
        lemma_onward(w.free.consumed, b * room, y, n);
        assert((a + 1) * room == a * room + room && (b + 1) * room == b * room + room && a * room
            >= 0 && b * room >= 0 && a * room + x != b * room + y) by (nonlinear_arith)
            requires
                0 <= a,
                0 <= b,
                a != b,
                0 <= x < room,
                0 <= y < room,
        ;
        lemma_apart(w.free.consumed, a * room + x, b * room + y, n);
    }
}

/// A slice that is located is in use.
pub proof fn lemma_located(w: World, no: i32)
    ensures
        w.located(no) matches Some(i) ==> 0 <= i < w.slices.len() && w.slices[i].slice_no == no
            && w.slices[i].state != RxState::Free,
{
    let marks = Seq::new(
        w.slices.len(),
        |i: int| w.slices[i].slice_no == no && w.slices[i].state != RxState::Free,
    );
    if exists|i: int| is_first(marks, i) {
        let i = choose|i: int| is_first(marks, i);
        assert(is_first(marks, i));
    }
}

/// A slice in use is located where it is.
pub proof fn lemma_located_at(w: World, i: int)
    requires
        w.sound(),
        0 <= i < 8,
        w.slices[i].state != RxState::Free,
    ensures
        w.located(w.slices[i].slice_no) == Some(i),
{
    let no = w.slices[i].slice_no;
    let marks = Seq::new(
        w.slices.len(),
        |j: int| w.slices[j].slice_no == no && w.slices[j].state != RxState::Free,
    );
    assert(marks[i]);
    assert forall|j: int| 0 <= j < i implies !(#[trigger] marks[j]) by {
        if w.slices[j].state != RxState::Free {
            assert(w.slices[j].slice_no != w.slices[i].slice_no);
        }
    }
    assert(is_first(marks, i));
    lemma_first_true(marks, i);
}

/// A place for a slice is one that holds no memory.
pub proof fn lemma_slot(w: World)
    requires
        w.slices.len() == 8,
    ensures
        w.slot() matches Some(i) ==> 0 <= i < 8 && (w.slices[i].state == RxState::Free || (
        w.slices[i].state == RxState::Done && w.slices[i].slice_no < w.next)),
{
    let unused = Seq::new(w.slices.len(), |i: int| w.slices[i].state == RxState::Free);
    let over = Seq::new(
        w.slices.len(),
        |i: int| w.slices[i].state == RxState::Done && w.slices[i].slice_no < w.next,
    );
    if exists|i: int| is_first(unused, i) {
        let i = choose|i: int| is_first(unused, i);
        assert(is_first(unused, i));
    } else if exists|i: int| is_first(over, i) {
        let i = choose|i: int| is_first(over, i);
        assert(is_first(over, i));
    }
}

/// Where no place is first, there is none.
proof fn lemma_no_first(marks: Seq<bool>, i: int)
    requires
        first_true(marks) is None,
        0 <= i < marks.len(),
    ensures
        !marks[i],
    decreases i,
{
    if marks[i] {
        assert forall|k: int| 0 <= k < i implies !(#[trigger] marks[k]) by {
            lemma_no_first(marks, k);
        }
        assert(is_first(marks, i));
    }
}

/// For a slice that the ring has a stretch for there is always a place.
pub proof fn law_there_is_a_place(w: World, no: i32)
    requires
        w.ok(),
        w.reachable(no as int),
        w.located(no) is None,
    ensures
        w.slot() is Some,
        w.place(no) is At || w.place(no) is NeedMemory,
{
    if w.slot() is None {
        let unused = Seq::new(w.slices.len(), |i: int| w.slices[i].state == RxState::Free);
        let over = Seq::new(
            w.slices.len(),
            |i: int| w.slices[i].state == RxState::Done && w.slices[i].slice_no < w.next,
        );
        let nos = Seq::new(8, |i: int| w.slices[i].slice_no as int);
        let left = vstd::set_lib::set_int_range(w.next, w.next + 8).remove(no as int);
        vstd::set_lib::lemma_int_range(w.next, w.next + 8);
        assert forall|i: int| 0 <= i < 8 implies #[trigger] w.holds(i) && left.contains(
            nos[i],
        ) by {
            lemma_no_first(unused, i);
            lemma_no_first(over, i);
            assert(!unused[i] && !over[i]);
            assert(w.slot_ok(i));
            if w.slices[i].slice_no == no {
                lemma_located_at(w, i);
            }
        }
        assert(nos.no_duplicates()) by {
            assert forall|i: int, j: int| 0 <= i < 8 && 0 <= j < 8 && i != j implies nos[i]
                != nos[j] by {
                assert(w.holds(i) && w.holds(j));
                if i < j {
                    assert(w.slices[i].slice_no != w.slices[j].slice_no);
                } else {
                    assert(w.slices[j].slice_no != w.slices[i].slice_no);
                }
            }
        }
        nos.unique_seq_to_set();
        assert(nos.to_set().subset_of(left)) by {
            assert forall|x: int| nos.to_set().contains(x) implies left.contains(x) by {
                let i = choose|i: int| 0 <= i < nos.len() && nos[i] == x;
                assert(w.holds(i));
            }
        }
        vstd::set_lib::lemma_len_subset(nos.to_set(), left);
    }
}

/// A slice that comes in keeps the rest consistent.
pub proof fn lemma_touched(w: World, v: World, i: int)
    requires
        w.ok(),
        0 <= i < 8,
        w.slices[i].state == RxState::Receiving,
        v == (World { slices: w.slices.update(i, v.slices[i]), ring: v.ring, ..w }),
        v.ring.len() == w.ring.len(),
        v.slices[i].state == RxState::Receiving,
        v.slices[i].slice_no == w.slices[i].slice_no,
        v.slices[i].base == w.slices[i].base,
        0 <= v.slices[i].bytes <= w.slice_room(),
        v.slices[i].paired(),
        v.slices[i].have.subset_of(numbers_below(1024)),
    ensures
        v.ok(),
{
    assert(w.slot_ok(i));
    assert forall|j: int| 0 <= j < 8 implies #[trigger] v.slot_ok(j) by {
        assert(w.slot_ok(j));
    }
    assert forall|a: int, b: int|
        0 <= a < b < 8 && (#[trigger] v.slices[a]).state != RxState::Free && (
        #[trigger] v.slices[b]).state != RxState::Free implies v.slices[a].slice_no
        != v.slices[b].slice_no by {
        assert(w.slices[a].state != RxState::Free && w.slices[b].state != RxState::Free);
    }
    assert forall|no: int|
        no >= v.next && #[trigger] done(v.completed, no) && v.before_end(no) implies v.waits(
        no,
    ) by {
        assert(w.waits(no));
        let k = choose|k: int|
            0 <= k < 8 && (#[trigger] w.slices[k]).state == RxState::Done && w.slices[k].slice_no
                == no;
        assert(v.slices[k] == w.slices[k]);
    }
    assert(v.pipe().ok());
    lemma_lanes_apart(v);
    assert forall|j: int| 0 <= j < 8 implies !(#[trigger] v.is_ready(j)) by {
        assert(!w.is_ready(j));
    }
}

/// A slice that is begun keeps the rest consistent.
pub proof fn lemma_opened(w: World, i: int, no: i32)
    requires
        w.ok(),
        no >= 0,
        !done(w.completed, no as int),
        w.located(no) is None,
        w.slot() == Some(i),
        w.reachable(no as int),
        !w.starved(no as int),
    ensures
        0 <= i < 8,
        w.opened(i, no).ok(),
        w.opened(i, no).slices[i].state == RxState::Receiving,
        w.opened(i, no).located(no) == Some(i),
{
    let v = w.opened(i, no);
    lemma_slot(w);
    lemma_mod_bound(w.free.consumed + (no - w.next) * w.slice_room(), w.ring.len() as int);
    assert(w.slot_ok(i));
    crate::sendslice::lemma_blocks(0, w.block_size);
    assert forall|j: int| 0 <= j < 8 implies #[trigger] v.slot_ok(j) by {
        assert(w.slot_ok(j));
    }
    assert forall|j: int|
        0 <= j < 8 && j != i && (#[trigger] w.slices[j]).state != RxState::Free implies
        w.slices[j].slice_no != no by {
        if w.slices[j].slice_no == no {
            lemma_located_at(w, j);
        }
    }
    assert forall|a: int, b: int|
        0 <= a < b < 8 && (#[trigger] v.slices[a]).state != RxState::Free && (
        #[trigger] v.slices[b]).state != RxState::Free implies v.slices[a].slice_no
        != v.slices[b].slice_no by {
        if a != i {
            assert(w.slices[a] == v.slices[a]);
        }
        if b != i {
            assert(w.slices[b] == v.slices[b]);
        }
    }
    assert forall|k: int|
        k >= v.next && #[trigger] done(v.completed, k) && v.before_end(k) implies v.waits(k) by {
        assert(w.waits(k));
        let j = choose|j: int|
            0 <= j < 8 && (#[trigger] w.slices[j]).state == RxState::Done && w.slices[j].slice_no
                == k;
        assert(v.slices[j] == w.slices[j]);
    }
    assert(v.pipe().ok());
    lemma_lanes_apart(v);
    assert forall|j: int| 0 <= j < 8 implies !(#[trigger] v.is_ready(j)) by {
        assert(!w.is_ready(j));
    }
    lemma_located_at(v, i);
}

/// A slice that was looked for is one that comes in.
pub proof fn lemma_placed(w: World, no: i32)
    requires
        w.ok(),
        no >= 0,
        !done(w.completed, no as int),
    ensures
        w.place(no) matches Place::At(i) ==> {
            let v = w.placed(no, i as int);
            &&& i < 8
            &&& v.ok()
            &&& v.slices[i as int].state == RxState::Receiving
            &&& v.slices[i as int].slice_no == no
            &&& v.located(no) == Some(i as int)
            &&& v.block_size == w.block_size
            &&& v.completed == w.completed
            &&& v.ring == w.ring
            &&& w.located(no) is Some ==> w.located(no) == Some(i as int)
            &&& w.located(no) is None ==> w.slot() == Some(i as int) && w.reachable(no as int)
                && !w.starved(no as int)
        },
{
    lemma_located(w, no);
    if let Some(i) = w.located(no) {
        assert(w.slot_ok(i));
    } else if let Some(i) = w.slot() {
        lemma_slot(w);
        if w.reachable(no as int) && !w.starved(no as int) {
            lemma_opened(w, i, no);
        }
    }
}

/// A complete slice is in the ring.
pub proof fn lemma_finished(w: World, i: int)
    requires
        w.ok(),
        0 <= i < 8,
        w.slices[i].state == RxState::Receiving,
        w.slices[i].bytes > 0,
    ensures
        w.finished(i).sound(),
        done(w.finished(i).completed, w.slices[i].slice_no as int),
        forall|j: int| #[trigger] done(w.completed, j) ==> done(w.finished(i).completed, j),
{
    let v = w.finished(i);
    let no = w.slices[i].slice_no as int;
    assert(w.slot_ok(i));
    assert forall|j: int| #[trigger] done(w.completed, j) implies done(v.completed, j) by {}
    assert forall|j: int| 0 <= j < 8 implies #[trigger] v.slot_ok(j) by {
        assert(w.slot_ok(j));
        if j != i && w.slices[j].state != RxState::Free {
            assert(w.slices[j].slice_no != no) by {
                if j < i {
                    assert(w.slices[j].slice_no != w.slices[i].slice_no);
                } else {
                    assert(w.slices[i].slice_no != w.slices[j].slice_no);
                }
            }
        }
    }
    assert forall|a: int, b: int|
        0 <= a < b < 8 && (#[trigger] v.slices[a]).state != RxState::Free && (
        #[trigger] v.slices[b]).state != RxState::Free implies v.slices[a].slice_no
        != v.slices[b].slice_no by {
        assert(w.slices[a].state != RxState::Free && w.slices[b].state != RxState::Free);
    }
    assert forall|k: int|
        k >= v.next && #[trigger] done(v.completed, k) && v.before_end(k) implies v.waits(k) by {
        if k == no {
            assert(v.slices[i].slice_no == k);
        } else {
            assert(done(w.completed, k));
            assert(w.waits(k));
            let j = choose|j: int|
                0 <= j < 8 && (#[trigger] w.slices[j]).state == RxState::Done
                    && w.slices[j].slice_no == k;
            assert(v.slices[j] == w.slices[j]);
        }
    }
    assert(v.pipe() == w.pipe());
    if let Some(e) = w.end {
        assert(done(w.completed, e));
    }
}

/// How far the slices in the ring reach.
pub proof fn lemma_farthest(w: World, n: nat)
    requires
        w.sound(),
        w.slice_room() <= w.free.waiting,
        n <= 8,
    ensures
        0 <= w.farthest(n) < 8,
        (w.farthest(n) + 1) * w.slice_room() <= w.free.waiting,
        w.farthest(n) * w.slice_room() + w.slice_room() <= w.free.waiting,
        forall|j: int|
            0 <= j < n && (#[trigger] w.slices[j]).state != RxState::Free ==> w.slices[j].slice_no
                - w.next <= w.farthest(n),
    decreases n,
{
    let room = w.slice_room();
    if n > 0 {
        lemma_farthest(w, (n - 1) as nat);
        assert(w.slot_ok(n - 1));
    }
    let f = w.farthest(n);
    assert((f + 1) * room == f * room + room) by (nonlinear_arith);
}

/// The slice whose turn it is has the first stretch.
pub proof fn lemma_ready(w: World, i: int)
    requires
        w.sound(),
        0 <= i < 8,
        w.is_ready(i),
    ensures
        0 < w.slices[i].bytes <= w.slice_room() <= w.free.waiting,
        w.slices[i].base == w.free.consumed % (w.ring.len() as int),
        w.data.refusal(w.slices[i].bytes) is None,
        w.next <= i32::MAX,
        forall|j: int| 0 <= j < 8 && #[trigger] w.is_ready(j) ==> j == i,
{
    assert(w.slot_ok(i));
    let room = w.slice_room();
    assert(0 * room == 0 && 1 * room == room) by (nonlinear_arith);
    lemma_halved(w.data.waiting + w.slices[i].bytes, w.ring.len() as int);
    assert forall|j: int| 0 <= j < 8 && #[trigger] w.is_ready(j) implies j == i by {
        if j < i {
            assert(w.slices[j].slice_no != w.slices[i].slice_no);
        } else if i < j {
            assert(w.slices[i].slice_no != w.slices[j].slice_no);
        }
    }
}

/// Handing a slice over keeps the rest in their stretches.
pub proof fn lemma_handed(w: World, i: int)
    requires
        w.sound(),
        0 <= i < 8,
        w.is_ready(i),
    ensures
        w.handed(i).sound(),
{
    let v = w.handed(i);
    let n = w.ring.len() as int;
    let b = w.slices[i].bytes;
    let room = w.slice_room();
    let gap = room - b;
    lemma_ready(w, i);
    assert(w.slot_ok(i));
    law_input_is_queued(w.pipe(), ring_read(w.ring, 0, b as nat));
    assert(v.pipe().ok());
    lemma_halved(w.free.waiting - b, n);
    lemma_halved(w.free.consumed + b, n);
    assert(v.free.waiting == w.free.waiting - b);
    assert forall|j: int| 0 <= j < 8 implies #[trigger] v.slot_ok(j) by {
        assert(w.slot_ok(j));
        let s = w.slices[j];
        let k = s.slice_no - w.next;
        if s.state != RxState::Free && k > 0 {
            lemma_onward(w.free.consumed, k * room, -gap, n);
            lemma_onward(v.free.consumed, (k - 1) * room, 0, n);
            lemma_onward(w.free.consumed + b, (k - 1) * room, 0, n);
            assert((k - 1) * room == k * room - room && (k + 1) * room == k * room + room)
                by (nonlinear_arith);
            assert(w.free.consumed + (k * room - gap) == w.free.consumed + b + (k - 1) * room);
            lemma_mod_bound(s.base - gap, n);
            assert(v.slices[j].base == v.lane(s.slice_no as int));
        } else if s.state != RxState::Free && k == 0 {
            if j < i {
                assert(w.slices[j].slice_no != w.slices[i].slice_no);
            } else if i < j {
                assert(w.slices[i].slice_no != w.slices[j].slice_no);
            }
        }
    }
    assert forall|j: int| 0 <= j < v.next implies #[trigger] done(v.completed, j) by {
        assert(done(w.completed, j));
    }
    assert forall|x: int, y: int|
        0 <= x < y < 8 && (#[trigger] v.slices[x]).state != RxState::Free && (
        #[trigger] v.slices[y]).state != RxState::Free implies v.slices[x].slice_no
        != v.slices[y].slice_no by {
        assert(w.slices[x].state != RxState::Free && w.slices[y].state != RxState::Free);
    }
    assert forall|k: int|
        k >= v.next && #[trigger] done(v.completed, k) && v.before_end(k) implies v.waits(k) by {
        assert(done(w.completed, k));
        assert(w.waits(k));
        let j = choose|j: int|
            0 <= j < 8 && (#[trigger] w.slices[j]).state == RxState::Done && w.slices[j].slice_no
                == k;
        assert(v.slices[j].slice_no == k);
    }
}

/// Handing over what can be handed over leaves a consistent state.
pub proof fn lemma_settled(w: World)
    requires
        w.sound(),
    ensures
        w.settled().ok(),
        w.settled().block_size == w.block_size,
        w.settled().completed == w.completed,
        w.settled().end == w.end,
        w.settled().end_marker_seen == w.end_marker_seen,
        w.settled().end_reached == w.end_reached,
        w.settled().next >= w.next,
        w.settled().ring.len() == w.ring.len(),
        w.settled().data.at_end == w.data.at_end,
    decreases i32::MAX + 1 - w.next,
{
    if exists|i: int| 0 <= i < 8 && w.is_ready(i) {
        let i = choose|i: int| 0 <= i < 8 && w.is_ready(i);
        lemma_ready(w, i);
        lemma_handed(w, i);
        lemma_settled(w.handed(i));
    } else {
        lemma_lanes_apart(w);
    }
}

/// The end of the file leaves the rest as it is.
pub proof fn lemma_bounded(w: World, no: i32)
    requires
        w.ok(),
        no >= 0,
        !done(w.completed, no as int),
    ensures
        w.bounded(no).ok(),
{
    let v = w.bounded(no);
    lemma_located(w, no);
    crate::sendslice::lemma_blocks(0, w.block_size);
    assert(no >= w.next) by {
        if no < w.next {
            assert(done(w.completed, no as int));
        }
    }
    assert forall|j: int| #[trigger] done(w.completed, j) implies done(v.completed, j) by {}
    assert forall|j: int| 0 <= j < 8 implies #[trigger] v.slot_ok(j) by {
        assert(w.slot_ok(j));
        if w.slices[j].state != RxState::Free && w.slices[j].slice_no == no {
            lemma_located_at(w, j);
        }
    }
    assert forall|a: int, b: int|
        0 <= a < b < 8 && (#[trigger] v.slices[a]).state != RxState::Free && (
        #[trigger] v.slices[b]).state != RxState::Free implies v.slices[a].slice_no
        != v.slices[b].slice_no by {
        assert(w.slices[a].state != RxState::Free && w.slices[b].state != RxState::Free);
    }
    assert forall|k: int|
        k >= v.next && #[trigger] done(v.completed, k) && v.before_end(k) implies v.waits(k) by {
        assert(done(w.completed, k));
        assert(w.waits(k));
        let j = choose|j: int|
            0 <= j < 8 && (#[trigger] w.slices[j]).state == RxState::Done && w.slices[j].slice_no
                == k;
        assert(v.slices[j] == w.slices[j]);
    }
    assert forall|j: int| 0 <= j < v.next implies #[trigger] done(v.completed, j) by {
        assert(done(w.completed, j));
    }
    assert(v.pipe() == w.pipe());
    lemma_lanes_apart(v);
    assert forall|j: int| 0 <= j < 8 implies !(#[trigger] v.is_ready(j)) by {
        assert(!w.is_ready(j));
    }
}

/// Accounts of a receiver that say the same of memory keep it consistent.
pub proof fn lemma_accounts(w: World, v: World)
    requires
        w.ok(),
        v == (World { free: v.free, data: v.data, end_reached: v.end_reached, ..w }),
        v.free.consumed % v.free.size == w.free.consumed % w.free.size,
        v.free.waiting >= w.free.waiting,
        v.pipe().ok(),
    ensures
        v.ok(),
{
    let n = w.ring.len() as int;
    assert forall|j: int| 0 <= j < 8 implies #[trigger] v.slot_ok(j) by {
        assert(w.slot_ok(j));
        let k = w.slices[j].slice_no - w.next;
        lemma_onward(w.free.consumed, k * w.slice_room(), 0, n);
        lemma_onward(v.free.consumed, k * w.slice_room(), 0, n);
    }
    assert forall|a: int, b: int|
        0 <= a < b < 8 && (#[trigger] v.slices[a]).state != RxState::Free && (
        #[trigger] v.slices[b]).state != RxState::Free implies v.slices[a].slice_no
        != v.slices[b].slice_no by {
        assert(w.slices[a].state != RxState::Free && w.slices[b].state != RxState::Free);
    }
    assert forall|k: int|
        k >= v.next && #[trigger] done(v.completed, k) && v.before_end(k) implies v.waits(k) by {
        assert(w.waits(k));
        let j = choose|j: int|
            0 <= j < 8 && (#[trigger] w.slices[j]).state == RxState::Done && w.slices[j].slice_no
                == k;
        assert(v.slices[j] == w.slices[j]);
    }
    lemma_lanes_apart(v);
    assert forall|j: int| 0 <= j < 8 implies !(#[trigger] v.is_ready(j)) by {
        assert(!w.is_ready(j));
    }
}

/// The disk may take data at any time: slices keep their stretches, and there is
/// more free memory behind them.
pub proof fn law_writing_spares_slices(w: World, n: int)
    requires
        w.ok(),
        0 <= n <= w.data.waiting,
    ensures
        w.written(n).ok(),
        w.written(n).slices == w.slices,
        w.written(n).ring == w.ring,
        w.written(n).free.waiting == w.free.waiting + n,
        w.free.refusal(n) is None,
{
    law_output_is_the_front(w.pipe(), n);
    assert(w.written(n).pipe() == w.pipe().released(n));
    lemma_halved(w.free.waiting + n, w.ring.len() as int);
    lemma_accounts(w, w.written(n));
}

/// Eight slices may be under way at once, counted from the next one for the writer, and
/// no more than the ring has memory for; one that is under way has its place, and of the
/// others one within reach is begun as soon as the memory up to its end is free.
pub proof fn law_which_slices_are_begun(w: World, no: i32, i: int)
    requires
        w.ok(),
    ensures
        ({
            let ahead = no - w.next;
            let room = w.block_size * 1024;
            let near = 0 <= ahead < 8 && (ahead + 1) * room <= w.ring.len();
            &&& 0 <= i < 8 && w.slices[i].state != RxState::Free && w.slices[i].slice_no == no
                ==> w.place(no) == Place::At(i as usize)
            &&& (forall|j: int|
                0 <= j < 8 && (#[trigger] w.slices[j]).state != RxState::Free ==> w.slices[j].slice_no
                    != no) ==> {
                &&& near ==> (w.place(no) is At <==> w.free.waiting >= (ahead + 1) * room)
                &&& near ==> (w.place(no) is NeedMemory <==> w.free.waiting < (ahead + 1) * room)
                &&& !near ==> w.place(no) is TooFar || w.place(no) is Nowhere
            }
        }),
{
    lemma_located(w, no);
    if 0 <= i < 8 && w.slices[i].state != RxState::Free && w.slices[i].slice_no == no {
        lemma_located_at(w, i);
    }
    if w.located(no) is None && w.reachable(no as int) {
        law_there_is_a_place(w, no);
    }
}

/// The end of the file is confirmed twice, it is the earliest slice that is known to have
/// no data, and it is kept in mind whether anything before it missed then.
pub proof fn law_the_end_is_confirmed(w: World, m: Reqack)
    requires
        w.ok(),
        m.slice_no >= 0,
        m.bytes == 0,
        !done(w.completed, m.slice_no as int),
    ensures
        ({
            let e = w.reqack_received(m);
            let yes = AnswerModel::Complete { slice_no: m.slice_no };
            let lacks = exists|j: int| 0 <= j < m.slice_no && !(#[trigger] done(w.completed, j));
            &&& e.answers == seq![yes, yes]
            &&& !e.need_memory
            &&& e.world.end matches Some(n) && n <= m.slice_no
            &&& e.world.end == Some(m.slice_no as int) || e.world.end == w.end
            &&& w.end matches Some(n) ==> e.world.end matches Some(k) && k <= n
            &&& e.world.end_marker_seen <==> w.end_marker_seen || lacks
            &&& e.world.next == w.next
            &&& e.world.free == w.free
            &&& forall|j: int| #[trigger]
                done(e.world.completed, j) <==> done(w.completed, j) || j == m.slice_no
        }),
{
    let no = m.slice_no as int;
    let v = w.bounded(m.slice_no);
    let missing = missing_before(v.completed, no);
    if exists|j: int| 0 <= j < no && !(#[trigger] done(w.completed, j)) {
        let j = choose|j: int| 0 <= j < no && !(#[trigger] done(w.completed, j));
        assert(!done(v.completed, j));
        assert(missing.contains(j));
    } else {
        assert forall|j: int| !missing.contains(j) by {
            if 0 <= j < no {
                assert(done(w.completed, j));
                assert(done(v.completed, j));
            }
        }
        assert(missing =~= Set::<int>::empty());
    }
}

/// A slice that was noted before the transfer began here is expected with the size that
/// was noted, if it is within reach and its memory is free; else memory is waited for.
pub proof fn law_noted_slices_are_expected(w: World, list: Seq<(i32, i32, i32)>, n: nat)
    requires
        n < list.len(),
        w.seeded(list, n).ok(),
        list[n as int].0 >= 0,
        0 < list[n as int].1 <= w.seeded(list, n).block_size * 1024,
        !done(w.seeded(list, n).completed, list[n as int].0 as int),
        w.seeded(list, n).next <= list[n as int].0 < w.seeded(list, n).next + 8,
    ensures
        ({
            let v = w.seeded(list, n);
            let u = w.seeded(list, n + 1);
            let (no, bytes, _) = list[n as int];
            let need = (no - v.next + 1) * (v.block_size * 1024);
            let known = exists|j: int|
                0 <= j < 8 && (#[trigger] v.slices[j]).state != RxState::Free && v.slices[j].slice_no
                    == no;
            &&& need <= v.free.waiting && need <= v.ring.len() || known ==> exists|i: int|
                {
                    &&& 0 <= i < 8
                    &&& (#[trigger] u.slices[i]).state == RxState::Receiving
                    &&& u.slices[i].slice_no == no
                    &&& u.slices[i].bytes_known
                    &&& u.slices[i].bytes == bytes
                }
            &&& v.free.waiting < need <= v.ring.len() && !known ==> u.slices == v.slices && (
            u.free.consumer_waiting <==> !v.free.at_end)
        }),
{
    let v = w.seeded(list, n);
    let u = w.seeded(list, n + 1);
    let (no, bytes, _) = list[n as int];
    lemma_placed(v, no);
    lemma_located(v, no);
    if exists|j: int|
        0 <= j < 8 && (#[trigger] v.slices[j]).state != RxState::Free && v.slices[j].slice_no == no {
        let j = choose|j: int|
            0 <= j < 8 && (#[trigger] v.slices[j]).state != RxState::Free && v.slices[j].slice_no
                == no;
        law_which_slices_are_begun(v, no, j);
    } else {
        law_which_slices_are_begun(v, no, 0);
    }
    if let Place::At(i) = v.place(no) {
        assert(u.slices[i as int].slice_no == no);
    }
}

/// What is known of a slice's size stays known: a block that tells none changes nothing
/// of it, and the size that a block tells is the size from then on. A block is there once
/// it came, and no other one comes or goes with it.
pub proof fn law_known_sizes_stay(
    w: World,
    i: int,
    block_no: int,
    bytes: int,
    payload: Seq<u8>,
    b: int,
)
    requires
        0 <= i < w.slices.len(),
        0 <= bytes,
    ensures
        ({
            let s = w.slices[i];
            let v = w.stored(i, block_no, bytes, payload).slices[i];
            &&& s.bytes_known ==> v.bytes_known
            &&& bytes == 0 ==> v.bytes == s.bytes && v.bytes_known == s.bytes_known
            &&& bytes > 0 ==> v.bytes == bytes && v.bytes_known
            &&& v.have.contains(b) <==> s.have.contains(b) || b == block_no
            &&& v.fec_blocks == s.fec_blocks && v.fec_nos == s.fec_nos && v.stripes == s.stripes
            &&& v.state == s.state && v.slice_no == s.slice_no && v.base == s.base
        }),
{
}

/// A packet that carries data or parity keeps to the protocol exactly if its slice has a
/// number and no more than 1024 blocks; packets that are too short, or of another kind, do
/// not matter.
pub proof fn law_which_packets_are_proper(w: World, p: Seq<u8>)
    ensures
        ({
            let op = u16_at(p, 0);
            let no = i32_at(p, 4);
            &&& p.len() >= 16 && (op == 8 || op == 9) ==> (proper(w, p) <==> no >= 0 && 0 <= i32_at(
                p,
                12,
            ) <= 1024 * w.block_size)
            &&& p.len() >= 16 && op == 6 ==> (proper(w, p) <==> done(w.completed, no as int) || (no
                >= 0 && 0 <= i32_at(p, 8) <= 1024 * w.block_size))
            &&& p.len() < 16 || !(op == 6 || op == 8 || op == 9) ==> proper(w, p) && effect_of(w, p)
                == w.idle()
        }),
{
}

} // verus!
