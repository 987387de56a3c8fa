//! What receivers answer during a transfer, and the queue in which the answers
//! wait.

use crate::addr::SocketAddrV4;
use crate::participants::{place_of, ParticipantsDb};
use crate::produconsum::Produconsum;
use crate::protocol::{
    law_ok_round_trip, law_retransmit_round_trip, receiver_port, OkMsg, Retransmit, CMD_DISCONNECT,
    CMD_OK, CMD_RETRANSMIT, OK_MSG_SIZE, RETRANSMIT_SIZE,
};
use crate::wire::{be16, i32_at, read_u16, u16_at};
use vstd::prelude::*;

verus! {

/// How many answers can wait.
pub const QUEUE_SIZE: usize = 256;

/// An answer of participant `cl_no`.
#[derive(Debug, Clone, Copy)]
pub enum IncomingMsg {
    /// It has the slice.
    Complete { slice_no: i32, cl_no: i32 },
    /// It has the blocks of the slice whose bits in `map` are set, as asked in
    /// round `rxmit`.
    Retransmit { slice_no: i32, cl_no: i32, map: [u8; 128], rxmit: i32 },
    /// It leaves.
    Disconnect { cl_no: i32 },
}

/// Whether `msg` is what a packet that holds `p` says if participant `cl_no`
/// sent it.
pub open spec fn says(p: Seq<u8>, cl_no: i32, msg: IncomingMsg) -> bool {
    match msg {
        IncomingMsg::Complete { slice_no, cl_no: c } => {
            &&& c == cl_no
            &&& p.len() >= OK_MSG_SIZE
            &&& u16_at(p, 0) == CMD_OK
            &&& slice_no == i32_at(p, 4)
        },
        IncomingMsg::Retransmit { slice_no, cl_no: c, map, rxmit } => {
            &&& c == cl_no
            &&& p.len() >= RETRANSMIT_SIZE
            &&& u16_at(p, 0) == CMD_RETRANSMIT
            &&& slice_no == i32_at(p, 4)
            &&& rxmit == i32_at(p, 8)
            &&& map@ == p.subrange(12, 140)
        },
        IncomingMsg::Disconnect { cl_no: c } => {
            &&& c == cl_no
            &&& p.len() >= 4
            &&& u16_at(p, 0) == CMD_DISCONNECT
        },
    }
}

/// Whether a packet that holds `p` is an answer by its form.
pub open spec fn is_answer(p: Seq<u8>) -> bool {
    ||| p.len() >= OK_MSG_SIZE && u16_at(p, 0) == CMD_OK
    ||| p.len() >= RETRANSMIT_SIZE && u16_at(p, 0) == CMD_RETRANSMIT
    ||| p.len() >= 4 && u16_at(p, 0) == CMD_DISCONNECT
}

/// The answer that a packet from `from` brings: it has to come from a
/// participant, and from the receivers' port.
pub fn read_answer(packet: &[u8], from: &SocketAddrV4, port_base: u16, db: &ParticipantsDb) -> (r:
    Option<IncomingMsg>)
    requires
        db.wf(),
    ensures
        match r {
            Some(msg) => {
                &&& from.port == port_base
                &&& exists|c: i32| c >= 0 && #[trigger] place_of(db@, *from, c as int) && says(
                    packet@,
                    c,
                    msg,
                )
            },
            None => {
                ||| !is_answer(packet@)
                ||| from.port != port_base
                ||| place_of(db@, *from, -1)
            },
        },
{
    if packet.len() < 4 || from.port != receiver_port(port_base) {
        return None;
    }
    let cl_no: i32 = db.lookup_participant(from);
    if cl_no < 0 {
        return None;
    }
    let opcode: u16 = read_u16(packet, 0);
    if opcode == CMD_OK {
        if packet.len() < OK_MSG_SIZE {
            return None;
        }
        let ok = OkMsg::unpack(packet);
        let msg = IncomingMsg::Complete { slice_no: ok.slice_no, cl_no };
        assert(place_of(db@, *from, cl_no as int) && says(packet@, cl_no, msg));
        Some(msg)
    } else if opcode == CMD_RETRANSMIT {
        if packet.len() < RETRANSMIT_SIZE {
            return None;
        }
        let rt = Retransmit::unpack(packet);
        let msg = IncomingMsg::Retransmit {
            slice_no: rt.slice_no,
            cl_no,
            map: rt.map,
            rxmit: rt.rxmit,
        };
        assert(place_of(db@, *from, cl_no as int) && says(packet@, cl_no, msg));
        Some(msg)
    } else if opcode == CMD_DISCONNECT {
        let msg = IncomingMsg::Disconnect { cl_no };
        assert(place_of(db@, *from, cl_no as int) && says(packet@, cl_no, msg));
        Some(msg)
    } else {
        None
    }
}

/// The queue of answers.
pub struct ReturnChannel {
    incoming: Produconsum,
    free_space: Produconsum,
    messages: Vec<IncomingMsg>,
}

impl View for ReturnChannel {
    type V = Seq<IncomingMsg>;

    /// The answers that wait, the oldest first.
    closed spec fn view(&self) -> Seq<IncomingMsg> {
        Seq::new(
            self.incoming@.waiting as nat,
            |i: int| self.messages@[(self.incoming@.consumed + i) % 256],
        )
    }
}

impl ReturnChannel {
    /// The two accounts add up, and one begins where the other ends.
    pub closed spec fn wf(&self) -> bool {
        &&& self.messages@.len() == 256
        &&& self.incoming.wf()
        &&& self.free_space.wf()
        &&& self.incoming@.size == 256
        &&& self.free_space@.size == 256
        &&& !self.incoming@.at_end
        &&& !self.free_space@.at_end
        &&& self.incoming@.waiting + self.free_space@.waiting == 256
        &&& self.free_space@.consumed == (self.incoming@.consumed + self.incoming@.waiting) % 512
    }

    /// No more than 256 answers wait.
    pub proof fn lemma_wf(&self)
        requires
            self.wf(),
        ensures
            self@.len() <= 256,
    {
        self.incoming.lemma_wf();
        self.free_space.lemma_wf();
    }

    /// The reader waits for an answer.
    pub closed spec fn reader_waits(&self) -> bool {
        self.incoming@.consumer_waiting
    }

    /// Whoever brings answers waits for room.
    pub closed spec fn writer_waits(&self) -> bool {
        self.free_space@.consumer_waiting
    }

    /// An empty queue.
    pub fn new() -> (r: Self)
        ensures
            r.wf(),
            r@ == Seq::<IncomingMsg>::empty(),
            !r.reader_waits(),
            !r.writer_waits(),
    {
        let incoming = Produconsum::new(QUEUE_SIZE, "rc:incoming");
        let mut free_space = Produconsum::new(QUEUE_SIZE, "rc:free");
        let _ = free_space.produce(QUEUE_SIZE);
        let mut messages: Vec<IncomingMsg> = Vec::new();
        let mut i: usize = 0;
        while i < QUEUE_SIZE
            invariant
                i <= 256,
                messages@.len() == i,
            decreases 256 - i,
        {
            messages.push(IncomingMsg::Complete { slice_no: 0, cl_no: 0 });
            i += 1;
        }
        let r = ReturnChannel { incoming, free_space, messages };
        assert(r@ =~= Seq::<IncomingMsg>::empty());
        r
    }

    /// How many answers wait.
    pub fn get_waiting(&self) -> (r: usize)
        requires
            self.wf(),
        ensures
            r == self@.len(),
    {
        proof {
            self.incoming.lemma_wf();
        }
        self.incoming.get_waiting()
    }

    /// Puts an answer at the end of the queue, and says whether the reader waits
    /// for it; `None` if there is no room, and nothing is put.
    pub fn push(&mut self, msg: IncomingMsg) -> (r: Option<bool>)
        requires
            old(self).wf(),
        ensures
            final(self).wf(),
            match r {
                Some(wake) => {
                    &&& old(self)@.len() < 256
                    &&& final(self)@ == old(self)@.push(msg)
                    &&& wake == old(self).reader_waits()
                    &&& !final(self).writer_waits()
                },
                None => {
                    &&& old(self)@.len() == 256
                    &&& final(self)@ == old(self)@
                    &&& final(self).writer_waits()
                },
            },
            final(self).reader_waits() == old(self).reader_waits(),
    {
        let ghost before = *self;
        proof {
            self.incoming.lemma_wf();
            self.free_space.lemma_wf();
        }
        if self.free_space.consume(1).is_none() {
            assert(self@ =~= before@);
            return None;
        }
        let pos: usize = self.free_space.get_consumer_position();
        self.messages.set(pos, msg);
        let _ = self.free_space.consumed(1);
        let wake: bool = match self.incoming.produce(1) {
            Ok(w) => w,
            Err(_) => false,
        };
        assert(self@ =~= before@.push(msg));
        Some(wake)
    }

    /// Takes the oldest answer out, and says whether someone waits for the room.
    pub fn pop(&mut self) -> (r: Option<(IncomingMsg, bool)>)
        requires
            old(self).wf(),
        ensures
            final(self).wf(),
            match r {
                Some((msg, wake)) => {
                    &&& old(self)@.len() > 0
                    &&& msg == old(self)@[0]
                    &&& final(self)@ == old(self)@.skip(1)
                    &&& wake == old(self).writer_waits()
                    &&& !final(self).reader_waits()
                },
                None => {
                    &&& old(self)@.len() == 0
                    &&& final(self)@ == old(self)@
                    &&& final(self).reader_waits() == old(self).reader_waits()
                },
            },
            final(self).writer_waits() == old(self).writer_waits(),
    {
        let ghost before = *self;
        proof {
            self.incoming.lemma_wf();
            self.free_space.lemma_wf();
        }
        if self.incoming.get_waiting() == 0 {
            return None;
        }
        let _ = self.incoming.consume(1);
        let pos: usize = self.incoming.get_consumer_position();
        let msg = self.messages[pos];
        assert(before@[0] == msg);
        let _ = self.incoming.consumed(1);
        let wake: bool = match self.free_space.produce(1) {
            Ok(w) => w,
            Err(_) => false,
        };
        assert(self@ =~= before@.skip(1));
        Some((msg, wake))
    }

    /// Whether an answer is there: `None` if there is none and the time to wait
    /// for one is not over.
    pub fn consume_with_timeout(&mut self, expired: bool) -> (r: Option<bool>)
        requires
            old(self).wf(),
        ensures
            final(self).wf(),
            final(self)@ == old(self)@,
            r == if old(self)@.len() > 0 {
                Some(true)
            } else if expired {
                Some(false)
            } else {
                None
            },
            final(self).reader_waits() == (r is None),
            final(self).writer_waits() == old(self).writer_waits(),
    {
        let ghost before = *self;
        proof {
            self.incoming.lemma_wf();
        }
        let r: Option<usize> = self.incoming.consume_any_with_timeout(expired);
        assert(self@ =~= before@);
        match r {
            Some(n) => Some(n > 0),
            None => None,
        }
    }
}

/// Answers come out in the order in which they went in: what one `push` adds at
/// the end is what the last of the following `pop`s takes.
pub proof fn law_first_in_first_out(q: Seq<IncomingMsg>, msg: IncomingMsg)
    ensures
        q.push(msg).skip(q.len() as int)[0] == msg,
        q.len() > 0 ==> q.push(msg)[0] == q[0] && q.push(msg).skip(1) == q.skip(1).push(msg),
{
    if q.len() > 0 {
        assert(q.push(msg).skip(1) =~= q.skip(1).push(msg));
    }
}

/// What a receiver answers is what the sender hears: the bytes of an answer say this
/// answer of their sender, and no other.
pub proof fn law_answers_are_understood(cl_no: i32, k: OkMsg, r: Retransmit, msg: IncomingMsg)
    ensures
        is_answer(k.encoded()),
        is_answer(r.encoded()),
        says(k.encoded(), cl_no, msg) <==> msg == (IncomingMsg::Complete {
            slice_no: k.slice_no,
            cl_no,
        }),
        says(r.encoded(), cl_no, msg) <==> (msg matches IncomingMsg::Retransmit {
            slice_no,
            cl_no: c,
            map,
            rxmit,
        } && slice_no == r.slice_no && c == cl_no && map@ == r.map@ && rxmit == r.rxmit),
        is_answer(be16(CMD_DISCONNECT) + be16(0)),
        says(be16(CMD_DISCONNECT) + be16(0), cl_no, msg) <==> msg == (IncomingMsg::Disconnect {
            cl_no,
        }),
{
    let none = Seq::<u8>::empty();
    law_ok_round_trip(k, none);
    law_retransmit_round_trip(r, none);
    assert(k.encoded() + none =~= k.encoded());
    assert(r.encoded() + none =~= r.encoded());
    assert(k.encoded().len() == 8);
    assert(r.encoded().len() == 140);
    assert(u16_at(be16(CMD_DISCONNECT) + be16(0), 0) == CMD_DISCONNECT);
}

} // verus!
