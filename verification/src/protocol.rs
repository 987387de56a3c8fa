//! Messages on the wire.
//!
//! All integers are big-endian. Every message starts with a header of four
//! bytes, the operation code and a reserved half-word, and continues with the
//! fields of its kind at fixed positions.

use crate::addr::Ipv4Addr;
use crate::wire::{
    be16, be16_bytes, be32, be32_bytes, field, i16_at, i32_at, law_numbers_are_big_endian,
    lemma_signed16, lemma_u16_round_trip, lemma_u32_round_trip, read_i16, read_i32, read_u16,
    read_u32, signed16, to_word16, to_word32, u16_at, u32_at, word16, word32,
};
use vstd::prelude::*;

verus! {

/// Receiver to sender: the slice has arrived whole.
pub const CMD_OK: u16 = 0;

/// Receiver to sender: blocks of a slice are missing.
pub const CMD_RETRANSMIT: u16 = 1;

/// Receiver to sender: start the transfer now.
pub const CMD_GO: u16 = 2;

/// Receiver to sender: take part in the transfer.
pub const CMD_CONNECT_REQ: u16 = 3;

/// Receiver to sender: leave the transfer.
pub const CMD_DISCONNECT: u16 = 4;

/// Not in use.
pub const CMD_UNUSED: u16 = 5;

/// Sender to receiver: asks for an answer about a slice.
pub const CMD_REQACK: u16 = 6;

/// Sender to receiver: answers a connection request.
pub const CMD_CONNECT_REPLY: u16 = 7;

/// Sender to receiver: one block of data.
pub const CMD_DATA: u16 = 8;

/// Sender to receiver: one block of parity.
pub const CMD_FEC: u16 = 9;

/// Sender to receiver: announces a transfer.
pub const CMD_HELLO_NEW: u16 = 10;

/// Sender to receiver: announces a streaming transfer.
pub const CMD_HELLO_STREAMING: u16 = 11;

/// The operation code of the hello of old senders.
pub const CMD_HELLO: u16 = 0x0500;

/// The peer speaks the current protocol.
pub const CAP_NEW_GEN: u32 = 0x0001;

/// The sender emits parity blocks.
pub const CAP_FEC: u32 = 0x0004;

/// The peer speaks big-endian.
pub const CAP_BIG_ENDIAN: u32 = 0x0008;

/// The peer speaks little-endian.
pub const CAP_LITTLE_ENDIAN: u32 = 0x0010;

/// The sender expects no answers.
pub const CAP_ASYNC: u32 = 0x0020;

/// The receiver asks for its connection reply to be repeated, so that it can
/// join a transfer in progress when the first reply was lost.
pub const CAP_LATE_JOIN: u32 = 0x0040;

/// What a sender tells receivers it supports.
pub const SENDER_CAPABILITIES: u32 = CAP_NEW_GEN + CAP_BIG_ENDIAN;

/// What a receiver declares when it connects.
pub const RECEIVER_CAPABILITIES: u32 = CAP_NEW_GEN + CAP_BIG_ENDIAN + CAP_LATE_JOIN;

/// The largest block, in bytes.
pub const MAX_BLOCK_SIZE: u16 = 1456;

/// The largest slice, in blocks.
pub const MAX_SLICE_SIZE: u16 = 1024;

/// The largest number of participants.
pub const MAX_CLIENTS: usize = 1024;

/// Size of [`OkMsg`] on the wire.
pub const OK_MSG_SIZE: usize = 8;

/// Size of [`Retransmit`] on the wire.
pub const RETRANSMIT_SIZE: usize = 140;

/// Size of [`ConnectReq`] on the wire.
pub const CONNECT_REQ_SIZE: usize = 12;

/// Size of [`ConnectReply`] on the wire.
pub const CONNECT_REPLY_SIZE: usize = 32;

/// Size of [`Hello`] on the wire, two bytes of padding among them.
pub const HELLO_SIZE: usize = 28;

/// Size of [`DataBlock`] on the wire, without the payload.
pub const DATA_BLOCK_SIZE: usize = 16;

/// Size of [`FecBlock`] on the wire, without the payload.
pub const FEC_BLOCK_SIZE: usize = 16;

/// Size of [`Reqack`] on the wire.
pub const REQACK_SIZE: usize = 16;

/// Whether `opcode` is that of a hello of any kind.
pub fn is_hello(opcode: u16) -> (r: bool)
    ensures
        r <==> (opcode == CMD_HELLO_NEW || opcode == CMD_HELLO || opcode == CMD_HELLO_STREAMING),
{
    opcode == CMD_HELLO_NEW || opcode == CMD_HELLO || opcode == CMD_HELLO_STREAMING
}

/// The UDP port on which receivers listen.
pub fn receiver_port(base: u16) -> (r: u16)
    ensures
        r == base,
{
    base
}

/// The UDP port on which the sender listens.
pub fn sender_port(base: u16) -> (r: u16)
    requires
        base < u16::MAX,
    ensures
        r == base + 1,
{
    base + 1
}

/// "The slice has arrived."
#[derive(Clone, Copy, Debug, PartialEq, Eq, Structural)]
pub struct OkMsg {
    pub slice_no: i32,
}

impl OkMsg {
    /// The message on the wire.
    pub open spec fn encoded(self) -> Seq<u8> {
        be16(CMD_OK) + be16(0) + be32(word32(self.slice_no))
    }

    /// The message that `s` holds.
    pub open spec fn of_bytes(s: Seq<u8>) -> Self {
        OkMsg { slice_no: i32_at(s, 4) }
    }

    /// Writes the message.
    pub fn pack(self) -> (r: [u8; 8])
        ensures
            r@ == self.encoded(),
    {
        let op = be16_bytes(CMD_OK);
        let no = be32_bytes(to_word32(self.slice_no));
        let b = [op[0], op[1], 0, 0, no[0], no[1], no[2], no[3]];
        assert(b@ =~= self.encoded());
        b
    }

    /// Reads the message.
    pub fn unpack(buf: &[u8]) -> (r: Self)
        requires
            buf@.len() >= OK_MSG_SIZE,
        ensures
            r == Self::of_bytes(buf@),
    {
        OkMsg { slice_no: read_i32(buf, 4) }
    }
}

/// "These blocks of the slice have arrived, send the others."
#[derive(Clone, Copy, Debug)]
pub struct Retransmit {
    pub slice_no: i32,
    pub rxmit: i32,
    /// One bit for each block; set where the block has arrived.
    pub map: [u8; 128],
}

impl Retransmit {
    /// The message on the wire.
    pub open spec fn encoded(self) -> Seq<u8> {
        be16(CMD_RETRANSMIT) + be16(0) + be32(word32(self.slice_no)) + be32(word32(self.rxmit))
            + self.map@
    }

    /// Writes the message.
    pub fn pack(self) -> (r: [u8; 140])
        ensures
            r@ == self.encoded(),
    {
        let op = be16_bytes(CMD_RETRANSMIT);
        let no = be32_bytes(to_word32(self.slice_no));
        let rx = be32_bytes(to_word32(self.rxmit));
        let mut b = [0u8; 140];
        b[0] = op[0];
        b[1] = op[1];
        b[4] = no[0];
        b[5] = no[1];
        b[6] = no[2];
        b[7] = no[3];
        b[8] = rx[0];
        b[9] = rx[1];
        b[10] = rx[2];
        b[11] = rx[3];
        let ghost head = be16(CMD_RETRANSMIT) + be16(0) + be32(word32(self.slice_no)) + be32(
            word32(self.rxmit),
        );
        assert(b@.subrange(0, 12) =~= head);
        for i in 0..128usize
            invariant
                b@.len() == 140,
                b@.subrange(0, 12) == head,
                forall|j: int| 0 <= j < i ==> b@[12 + j] == self.map@[j],
        {
            b[12 + i] = self.map[i];
            assert(b@.subrange(0, 12) =~= head);
        }
        assert(forall|j: int| 12 <= j < 140 ==> b@[j] == self.map@[j - 12]) by {
            assert forall|j: int| 12 <= j < 140 implies b@[j] == self.map@[j - 12] by {
                assert(b@[12 + (j - 12)] == self.map@[j - 12]);
            }
        }
        assert forall|j: int| 0 <= j < 12 implies b@[j] == head[j] by {
            assert(b@[j] == b@.subrange(0, 12)[j]);
        }
        assert(b@ =~= self.encoded());
        b
    }

    /// Reads the message.
    pub fn unpack(buf: &[u8]) -> (r: Self)
        requires
            buf@.len() >= RETRANSMIT_SIZE,
        ensures
            r.slice_no == i32_at(buf@, 4),
            r.rxmit == i32_at(buf@, 8),
            r.map@ == buf@.subrange(12, 140),
    {
        let mut map = [0u8; 128];
        for i in 0..128usize
            invariant
                buf@.len() >= 140,
                map@.len() == 128,
                forall|j: int| 0 <= j < i ==> map@[j] == buf@[12 + j],
        {
            map[i] = buf[12 + i];
        }
        assert(map@ =~= buf@.subrange(12, 140));
        Retransmit { slice_no: read_i32(buf, 4), rxmit: read_i32(buf, 8), map }
    }
}

/// "Let me take part."
#[derive(Clone, Copy, Debug, PartialEq, Eq, Structural)]
pub struct ConnectReq {
    pub capabilities: u32,
    pub rcvbuf: u32,
}

impl ConnectReq {
    /// The message on the wire.
    pub open spec fn encoded(self) -> Seq<u8> {
        be16(CMD_CONNECT_REQ) + be16(0) + be32(self.capabilities) + be32(self.rcvbuf)
    }

    /// The message that `s` holds.
    pub open spec fn of_bytes(s: Seq<u8>) -> Self {
        ConnectReq { capabilities: u32_at(s, 4), rcvbuf: u32_at(s, 8) }
    }

    /// Writes the message.
    pub fn pack(self) -> (r: [u8; 12])
        ensures
            r@ == self.encoded(),
    {
        let op = be16_bytes(CMD_CONNECT_REQ);
        let ca = be32_bytes(self.capabilities);
        let rb = be32_bytes(self.rcvbuf);
        let b = [op[0], op[1], 0, 0, ca[0], ca[1], ca[2], ca[3], rb[0], rb[1], rb[2], rb[3]];
        assert(b@ =~= self.encoded());
        b
    }

    /// Reads the message.
    pub fn unpack(buf: &[u8]) -> (r: Self)
        requires
            buf@.len() >= CONNECT_REQ_SIZE,
        ensures
            r == Self::of_bytes(buf@),
    {
        ConnectReq { capabilities: read_u32(buf, 4), rcvbuf: read_u32(buf, 8) }
    }
}

/// "You take part as number `cl_nr`."
#[derive(Clone, Copy, Debug, PartialEq)]
pub struct ConnectReply {
    pub cl_nr: i32,
    pub block_size: i32,
    pub capabilities: u32,
    pub mcast: [u8; 16],
}

/// Sixteen bytes of `buf` from position `at` on.
fn read_16_bytes(buf: &[u8], at: usize) -> (r: [u8; 16])
    requires
        at + 16 <= buf@.len(),
    ensures
        r@ == buf@.subrange(at as int, at + 16),
{
    let mut r = [0u8; 16];
    for i in 0..16usize
        invariant
            at + 16 <= buf.len(),
            r@.len() == 16,
            forall|j: int| 0 <= j < i ==> r@[j] == buf@[at + j],
    {
        r[i] = buf[at + i];
    }
    assert(r@ =~= buf@.subrange(at as int, at + 16));
    r
}

impl ConnectReply {
    /// The message on the wire.
    pub open spec fn encoded(self) -> Seq<u8> {
        connect_reply_bytes(self.cl_nr, self.block_size, self.capabilities, self.mcast@)
    }

    /// Writes the message.
    pub fn pack(self) -> (r: [u8; 32])
        ensures
            r@ == self.encoded(),
    {
        let op = be16_bytes(CMD_CONNECT_REPLY);
        let nr = be32_bytes(to_word32(self.cl_nr));
        let bs = be32_bytes(to_word32(self.block_size));
        let ca = be32_bytes(self.capabilities);
        let m = self.mcast;
        let b = [
            op[0], op[1], 0, 0, nr[0], nr[1], nr[2], nr[3],
            bs[0], bs[1], bs[2], bs[3], ca[0], ca[1], ca[2], ca[3],
            m[0], m[1], m[2], m[3], m[4], m[5], m[6], m[7],
            m[8], m[9], m[10], m[11], m[12], m[13], m[14], m[15],
        ];
        assert(b@ =~= self.encoded());
        b
    }

    /// Reads the message.
    pub fn unpack(buf: &[u8]) -> (r: Self)
        requires
            buf@.len() >= CONNECT_REPLY_SIZE,
        ensures
            r.cl_nr == i32_at(buf@, 4),
            r.block_size == i32_at(buf@, 8),
            r.capabilities == u32_at(buf@, 12),
            r.mcast@ == buf@.subrange(16, 32),
    {
        ConnectReply {
            cl_nr: read_i32(buf, 4),
            block_size: read_i32(buf, 8),
            capabilities: read_u32(buf, 12),
            mcast: read_16_bytes(buf, 16),
        }
    }
}

/// "A transfer is about to start."
#[derive(Clone, Copy, Debug)]
pub struct Hello {
    pub capabilities: u32,
    pub mcast: [u8; 16],
    pub block_size: i32,
}

impl Hello {
    /// The message on the wire. The block size is cut to its low half-word.
    pub open spec fn encoded(self, opcode: u16) -> Seq<u8> {
        hello_bytes(opcode, self.capabilities, self.mcast@, self.block_size)
    }

    /// Writes the message.
    pub fn pack(self, opcode: u16) -> (r: [u8; 28])
        ensures
            r@ == self.encoded(opcode),
    {
        let op = be16_bytes(opcode);
        let ca = be32_bytes(self.capabilities);
        let m = self.mcast;
        let bs = be16_bytes(to_word16(self.block_size));
        let b = [
            op[0], op[1], 0, 0, ca[0], ca[1], ca[2], ca[3],
            m[0], m[1], m[2], m[3], m[4], m[5], m[6], m[7],
            m[8], m[9], m[10], m[11], m[12], m[13], m[14], m[15],
            bs[0], bs[1], 0, 0,
        ];
        assert(b@ =~= self.encoded(opcode));
        b
    }

    /// Reads the message.
    pub fn unpack(buf: &[u8]) -> (r: Self)
        requires
            buf@.len() >= 26,
        ensures
            r.capabilities == u32_at(buf@, 4),
            r.mcast@ == buf@.subrange(8, 24),
            r.block_size == i16_at(buf@, 24),
    {
        Hello {
            capabilities: read_u32(buf, 4),
            mcast: read_16_bytes(buf, 8),
            block_size: read_i16(buf, 24),
        }
    }
}

/// "Start now."
pub fn pack_go() -> (r: [u8; 4])
    ensures
        r@ == be16(CMD_GO) + be16(0),
{
    let op = be16_bytes(CMD_GO);
    let b = [op[0], op[1], 0, 0];
    assert(b@ =~= be16(CMD_GO) + be16(0));
    b
}

/// "I leave."
pub fn pack_disconnect() -> (r: [u8; 4])
    ensures
        r@ == be16(CMD_DISCONNECT) + be16(0),
{
    let op = be16_bytes(CMD_DISCONNECT);
    let b = [op[0], op[1], 0, 0];
    assert(b@ =~= be16(CMD_DISCONNECT) + be16(0));
    b
}

/// The header of one block of data.
#[derive(Clone, Copy, Debug, PartialEq, Eq, Structural)]
pub struct DataBlock {
    pub slice_no: i32,
    pub block_no: u16,
    /// Size of the whole slice.
    pub bytes: i32,
}

impl DataBlock {
    /// The header on the wire.
    pub open spec fn encoded(self) -> Seq<u8> {
        be16(CMD_DATA) + be16(0) + be32(word32(self.slice_no)) + be16(self.block_no) + be16(0)
            + be32(word32(self.bytes))
    }

    /// The header that `s` holds.
    pub open spec fn of_bytes(s: Seq<u8>) -> Self {
        DataBlock { slice_no: i32_at(s, 4), block_no: u16_at(s, 8), bytes: i32_at(s, 12) }
    }

    /// Writes the header.
    pub fn pack(self) -> (r: [u8; 16])
        ensures
            r@ == self.encoded(),
    {
        let op = be16_bytes(CMD_DATA);
        let no = be32_bytes(to_word32(self.slice_no));
        let bn = be16_bytes(self.block_no);
        let by = be32_bytes(to_word32(self.bytes));
        let b = [
            op[0], op[1], 0, 0, no[0], no[1], no[2], no[3],
            bn[0], bn[1], 0, 0, by[0], by[1], by[2], by[3],
        ];
        assert(b@ =~= self.encoded());
        b
    }

    /// Reads the header.
    pub fn unpack(buf: &[u8]) -> (r: Self)
        requires
            buf@.len() >= DATA_BLOCK_SIZE,
        ensures
            r == Self::of_bytes(buf@),
    {
        DataBlock {
            slice_no: read_i32(buf, 4),
            block_no: read_u16(buf, 8),
            bytes: read_i32(buf, 12),
        }
    }
}

/// The header of one block of parity.
#[derive(Clone, Copy, Debug, PartialEq, Eq, Structural)]
pub struct FecBlock {
    pub stripes: i32,
    pub slice_no: i32,
    pub block_no: u16,
    /// Size of the whole slice.
    pub bytes: i32,
}

impl FecBlock {
    /// The header on the wire. The number of stripes is cut to its low
    /// half-word.
    pub open spec fn encoded(self) -> Seq<u8> {
        be16(CMD_FEC) + be16(word16(self.stripes)) + be32(word32(self.slice_no)) + be16(
            self.block_no,
        ) + be16(0) + be32(word32(self.bytes))
    }

    /// The header that `s` holds.
    pub open spec fn of_bytes(s: Seq<u8>) -> Self {
        FecBlock {
            stripes: i16_at(s, 2),
            slice_no: i32_at(s, 4),
            block_no: u16_at(s, 8),
            bytes: i32_at(s, 12),
        }
    }

    /// Writes the header.
    pub fn pack(self) -> (r: [u8; 16])
        ensures
            r@ == self.encoded(),
    {
        let op = be16_bytes(CMD_FEC);
        let st = be16_bytes(to_word16(self.stripes));
        let no = be32_bytes(to_word32(self.slice_no));
        let bn = be16_bytes(self.block_no);
        let by = be32_bytes(to_word32(self.bytes));
        let b = [
            op[0], op[1], st[0], st[1], no[0], no[1], no[2], no[3],
            bn[0], bn[1], 0, 0, by[0], by[1], by[2], by[3],
        ];
        assert(b@ =~= self.encoded());
        b
    }

    /// Reads the header.
    pub fn unpack(buf: &[u8]) -> (r: Self)
        requires
            buf@.len() >= FEC_BLOCK_SIZE,
        ensures
            r == Self::of_bytes(buf@),
    {
        FecBlock {
            stripes: read_i16(buf, 2),
            slice_no: read_i32(buf, 4),
            block_no: read_u16(buf, 8),
            bytes: read_i32(buf, 12),
        }
    }
}

/// "How does this slice stand?"
#[derive(Clone, Copy, Debug, PartialEq, Eq, Structural)]
pub struct Reqack {
    pub slice_no: i32,
    pub bytes: i32,
    pub rxmit: i32,
}

impl Reqack {
    /// The message on the wire.
    pub open spec fn encoded(self) -> Seq<u8> {
        be16(CMD_REQACK) + be16(0) + be32(word32(self.slice_no)) + be32(word32(self.bytes)) + be32(
            word32(self.rxmit),
        )
    }

    /// The message that `s` holds.
    pub open spec fn of_bytes(s: Seq<u8>) -> Self {
        Reqack { slice_no: i32_at(s, 4), bytes: i32_at(s, 8), rxmit: i32_at(s, 12) }
    }

    /// Writes the message.
    pub fn pack(self) -> (r: [u8; 16])
        ensures
            r@ == self.encoded(),
    {
        let op = be16_bytes(CMD_REQACK);
        let no = be32_bytes(to_word32(self.slice_no));
        let by = be32_bytes(to_word32(self.bytes));
        let rx = be32_bytes(to_word32(self.rxmit));
        let b = [
            op[0], op[1], 0, 0, no[0], no[1], no[2], no[3],
            by[0], by[1], by[2], by[3], rx[0], rx[1], rx[2], rx[3],
        ];
        assert(b@ =~= self.encoded());
        b
    }

    /// Reads the message.
    pub fn unpack(buf: &[u8]) -> (r: Self)
        requires
            buf@.len() >= REQACK_SIZE,
        ensures
            r == Self::of_bytes(buf@),
    {
        Reqack { slice_no: read_i32(buf, 4), bytes: read_i32(buf, 8), rxmit: read_i32(buf, 12) }
    }
}

/// A CONNECT_REPLY on the wire; `mcast` is its address field.
pub open spec fn connect_reply_bytes(
    cl_nr: i32,
    block_size: i32,
    capabilities: u32,
    mcast: Seq<u8>,
) -> Seq<u8> {
    be16(CMD_CONNECT_REPLY) + be16(0) + be32(word32(cl_nr)) + be32(word32(block_size)) + be32(
        capabilities,
    ) + mcast
}

/// A HELLO on the wire; `mcast` is its address field.
pub open spec fn hello_bytes(
    opcode: u16,
    capabilities: u32,
    mcast: Seq<u8>,
    block_size: i32,
) -> Seq<u8> {
    be16(opcode) + be16(0) + be32(capabilities) + mcast + be16(word16(block_size)) + be16(0)
}

/// A sixteen-byte address field that holds `addr`.
pub open spec fn address_field(addr: Ipv4Addr) -> Seq<u8> {
    addr.bytes() + Seq::new(12, |i: int| 0u8)
}

/// Places an address at the start of a sixteen-byte address field.
pub fn ip4_into_16(addr: Ipv4Addr) -> (r: [u8; 16])
    ensures
        r@ == address_field(addr),
{
    let mut b = [0u8; 16];
    b[0] = addr.a;
    b[1] = addr.b;
    b[2] = addr.c;
    b[3] = addr.d;
    assert(b@ =~= addr.bytes() + Seq::new(12, |i: int| 0u8));
    b
}

/// The address at the start of a sixteen-byte address field.
pub fn ip4_from_16(b: &[u8; 16]) -> (r: Ipv4Addr)
    ensures
        r == (Ipv4Addr { a: b@[0], b: b@[1], c: b@[2], d: b@[3] }),
{
    Ipv4Addr::new(b[0], b[1], b[2], b[3])
}

/// An "OK" read back is the one written, whatever follows it.
pub proof fn law_ok_round_trip(m: OkMsg, tail: Seq<u8>)
    ensures
        u16_at(m.encoded() + tail, 0) == CMD_OK,
        OkMsg::of_bytes(m.encoded() + tail) == m,
{
    let s = m.encoded() + tail;
    lemma_u16_round_trip(CMD_OK, s, 0);
    lemma_u32_round_trip(word32(m.slice_no), s, 4);
}

/// A retransmission request read back is the one written.
pub proof fn law_retransmit_round_trip(m: Retransmit, tail: Seq<u8>)
    ensures
        u16_at(m.encoded() + tail, 0) == CMD_RETRANSMIT,
        i32_at(m.encoded() + tail, 4) == m.slice_no,
        i32_at(m.encoded() + tail, 8) == m.rxmit,
        (m.encoded() + tail).subrange(12, 140) == m.map@,
{
    let s = m.encoded() + tail;
    lemma_u16_round_trip(CMD_RETRANSMIT, s, 0);
    lemma_u32_round_trip(word32(m.slice_no), s, 4);
    lemma_u32_round_trip(word32(m.rxmit), s, 8);
    assert(s.subrange(12, 140) =~= m.map@);
}

/// A connection request read back is the one written.
pub proof fn law_connect_req_round_trip(m: ConnectReq, tail: Seq<u8>)
    ensures
        u16_at(m.encoded() + tail, 0) == CMD_CONNECT_REQ,
        ConnectReq::of_bytes(m.encoded() + tail) == m,
{
    let s = m.encoded() + tail;
    lemma_u16_round_trip(CMD_CONNECT_REQ, s, 0);
    lemma_u32_round_trip(m.capabilities, s, 4);
    lemma_u32_round_trip(m.rcvbuf, s, 8);
}

/// A connection reply read back is the one written.
pub proof fn law_connect_reply_round_trip(m: ConnectReply, tail: Seq<u8>)
    ensures
        u16_at(m.encoded() + tail, 0) == CMD_CONNECT_REPLY,
        i32_at(m.encoded() + tail, 4) == m.cl_nr,
        i32_at(m.encoded() + tail, 8) == m.block_size,
        u32_at(m.encoded() + tail, 12) == m.capabilities,
        (m.encoded() + tail).subrange(16, 32) == m.mcast@,
{
    let s = m.encoded() + tail;
    lemma_u16_round_trip(CMD_CONNECT_REPLY, s, 0);
    lemma_u32_round_trip(word32(m.cl_nr), s, 4);
    lemma_u32_round_trip(word32(m.block_size), s, 8);
    lemma_u32_round_trip(m.capabilities, s, 12);
    assert(s.subrange(16, 32) =~= m.mcast@);
}

/// A hello read back is the one written, where its block size fits the field.
pub proof fn law_hello_round_trip(m: Hello, opcode: u16, tail: Seq<u8>)
    requires
        i16::MIN <= m.block_size <= i16::MAX,
    ensures
        u16_at(m.encoded(opcode) + tail, 0) == opcode,
        u32_at(m.encoded(opcode) + tail, 4) == m.capabilities,
        (m.encoded(opcode) + tail).subrange(8, 24) == m.mcast@,
        i16_at(m.encoded(opcode) + tail, 24) == m.block_size,
{
    let s = m.encoded(opcode) + tail;
    lemma_u16_round_trip(opcode, s, 0);
    lemma_u32_round_trip(m.capabilities, s, 4);
    lemma_u16_round_trip(word16(m.block_size), s, 24);
    assert(s.subrange(8, 24) =~= m.mcast@);
}

/// The header of a block of data read back is the one written.
pub proof fn law_data_block_round_trip(m: DataBlock, tail: Seq<u8>)
    ensures
        u16_at(m.encoded() + tail, 0) == CMD_DATA,
        DataBlock::of_bytes(m.encoded() + tail) == m,
{
    let s = m.encoded() + tail;
    lemma_u16_round_trip(CMD_DATA, s, 0);
    lemma_u32_round_trip(word32(m.slice_no), s, 4);
    lemma_u16_round_trip(m.block_no, s, 8);
    lemma_u32_round_trip(word32(m.bytes), s, 12);
}

/// The header of a block of parity read back is the one written, where its
/// number of stripes fits the field.
pub proof fn law_fec_block_round_trip(m: FecBlock, tail: Seq<u8>)
    requires
        i16::MIN <= m.stripes <= i16::MAX,
    ensures
        u16_at(m.encoded() + tail, 0) == CMD_FEC,
        FecBlock::of_bytes(m.encoded() + tail) == m,
{
    let s = m.encoded() + tail;
    let w = word16(m.stripes);
    assert(signed16(w) == m.stripes) by {
        lemma_signed16(m.stripes);
    }
    assert(u16_at(s, 0) == CMD_FEC) by {
        lemma_u16_round_trip(CMD_FEC, s, 0);
    }
    assert(u16_at(s, 2) == w) by {
        lemma_u16_round_trip(w, s, 2);
    }
    assert(i32_at(s, 4) == m.slice_no) by {
        lemma_u32_round_trip(word32(m.slice_no), s, 4);
    }
    assert(u16_at(s, 8) == m.block_no) by {
        lemma_u16_round_trip(m.block_no, s, 8);
    }
    assert(i32_at(s, 12) == m.bytes) by {
        lemma_u32_round_trip(word32(m.bytes), s, 12);
    }
}

/// A request for an answer read back is the one written.
pub proof fn law_reqack_round_trip(m: Reqack, tail: Seq<u8>)
    ensures
        u16_at(m.encoded() + tail, 0) == CMD_REQACK,
        Reqack::of_bytes(m.encoded() + tail) == m,
{
    let s = m.encoded() + tail;
    lemma_u16_round_trip(CMD_REQACK, s, 0);
    lemma_u32_round_trip(word32(m.slice_no), s, 4);
    lemma_u32_round_trip(word32(m.bytes), s, 8);
    lemma_u32_round_trip(word32(m.rxmit), s, 12);
}

/// An address placed in an address field comes out of it.
pub proof fn law_address_field_round_trip(addr: Ipv4Addr)
    ensures
        ({
            let field = address_field(addr);
            addr == (Ipv4Addr { a: field[0], b: field[1], c: field[2], d: field[3] })
        }),
{
}

/// What a signed number of 32 bits is on the wire.
pub open spec fn unsigned(x: i32) -> int {
    if x >= 0 {
        x as int
    } else {
        x + 0x1_0000_0000
    }
}

/// Two bytes are the number at their place.
proof fn lemma_half(s: Seq<u8>, at: int)
    ensures
        field(s, at, 2) == u16_at(s, at),
{
    law_numbers_are_big_endian(s, at, 0, 0, 0);
}

/// Four bytes are the number at their place.
proof fn lemma_word(s: Seq<u8>, at: int, x: i32)
    ensures
        field(s, at, 4) == u32_at(s, at),
        word32(x) == unsigned(x),
{
    law_numbers_are_big_endian(s, at, 0, 0, x);
}

/// The layout of a block of data.
proof fn lemma_layout_of_data_block(d: DataBlock)
    ensures
        d.encoded().len() == 16,
        field(d.encoded(), 0, 2) == 8,
        field(d.encoded(), 4, 4) == unsigned(d.slice_no),
        field(d.encoded(), 8, 2) == d.block_no,
        field(d.encoded(), 12, 4) == unsigned(d.bytes),
{
    let s = d.encoded();
    lemma_u16_round_trip(CMD_DATA, s, 0);
    lemma_u32_round_trip(word32(d.slice_no), s, 4);
    lemma_u16_round_trip(d.block_no, s, 8);
    lemma_u32_round_trip(word32(d.bytes), s, 12);
    lemma_half(s, 0);
    lemma_word(s, 4, d.slice_no);
    lemma_half(s, 8);
    lemma_word(s, 12, d.bytes);
}

/// The layout of a block of parity.
proof fn lemma_layout_of_parity_block(f: FecBlock)
    ensures
        f.encoded().len() == 16,
        field(f.encoded(), 0, 2) == 9,
        field(f.encoded(), 2, 2) == f.stripes as int % 0x1_0000,
        field(f.encoded(), 4, 4) == unsigned(f.slice_no),
        field(f.encoded(), 8, 2) == f.block_no,
        field(f.encoded(), 12, 4) == unsigned(f.bytes),
{
    let s = f.encoded();
    lemma_u16_round_trip(CMD_FEC, s, 0);
    lemma_u16_round_trip(word16(f.stripes), s, 2);
    lemma_u32_round_trip(word32(f.slice_no), s, 4);
    lemma_u16_round_trip(f.block_no, s, 8);
    lemma_u32_round_trip(word32(f.bytes), s, 12);
    lemma_half(s, 0);
    lemma_half(s, 2);
    lemma_word(s, 4, f.slice_no);
    lemma_half(s, 8);
    lemma_word(s, 12, f.bytes);
    law_numbers_are_big_endian(s, 0, 0, 0, f.stripes);
}

/// The layout of a request for an answer.
proof fn lemma_layout_of_request(q: Reqack)
    ensures
        q.encoded().len() == 16,
        field(q.encoded(), 0, 2) == 6,
        field(q.encoded(), 4, 4) == unsigned(q.slice_no),
        field(q.encoded(), 8, 4) == unsigned(q.bytes),
        field(q.encoded(), 12, 4) == unsigned(q.rxmit),
{
    let s = q.encoded();
    lemma_u16_round_trip(CMD_REQACK, s, 0);
    lemma_u32_round_trip(word32(q.slice_no), s, 4);
    lemma_u32_round_trip(word32(q.bytes), s, 8);
    lemma_u32_round_trip(word32(q.rxmit), s, 12);
    lemma_half(s, 0);
    lemma_word(s, 4, q.slice_no);
    lemma_word(s, 8, q.bytes);
    lemma_word(s, 12, q.rxmit);
}

/// The layout of the messages that carry data: the code, then each field at its place.
pub proof fn law_layout_of_data(d: DataBlock, f: FecBlock, q: Reqack)
    ensures
        d.encoded().len() == 16,
        field(d.encoded(), 0, 2) == 8,
        field(d.encoded(), 4, 4) == unsigned(d.slice_no),
        field(d.encoded(), 8, 2) == d.block_no,
        field(d.encoded(), 12, 4) == unsigned(d.bytes),
        f.encoded().len() == 16,
        field(f.encoded(), 0, 2) == 9,
        field(f.encoded(), 2, 2) == f.stripes as int % 0x1_0000,
        field(f.encoded(), 4, 4) == unsigned(f.slice_no),
        field(f.encoded(), 8, 2) == f.block_no,
        field(f.encoded(), 12, 4) == unsigned(f.bytes),
        q.encoded().len() == 16,
        field(q.encoded(), 0, 2) == 6,
        field(q.encoded(), 4, 4) == unsigned(q.slice_no),
        field(q.encoded(), 8, 4) == unsigned(q.bytes),
        field(q.encoded(), 12, 4) == unsigned(q.rxmit),
{
    lemma_layout_of_data_block(d);
    lemma_layout_of_parity_block(f);
    lemma_layout_of_request(q);
}

/// The layout of the messages of receivers.
pub proof fn law_layout_of_answers(k: OkMsg, r: Retransmit, c: ConnectReq, i: int)
    requires
        0 <= i < 128,
    ensures
        k.encoded().len() == 8,
        field(k.encoded(), 0, 2) == 0,
        field(k.encoded(), 4, 4) == unsigned(k.slice_no),
        r.encoded().len() == 140,
        field(r.encoded(), 0, 2) == 1,
        field(r.encoded(), 4, 4) == unsigned(r.slice_no),
        field(r.encoded(), 8, 4) == unsigned(r.rxmit),
        r.encoded()[12 + i] == r.map@[i],
        c.encoded().len() == 12,
        field(c.encoded(), 0, 2) == 3,
        field(c.encoded(), 4, 4) == c.capabilities,
        field(c.encoded(), 8, 4) == c.rcvbuf,
{
    assert(field(k.encoded(), 0, 2) == 0 && field(k.encoded(), 4, 4) == unsigned(k.slice_no)) by {
        let s = k.encoded();
        lemma_u16_round_trip(CMD_OK, s, 0);
        lemma_u32_round_trip(word32(k.slice_no), s, 4);
        lemma_half(s, 0);
        lemma_word(s, 4, k.slice_no);
    }
    assert(field(r.encoded(), 0, 2) == 1 && field(r.encoded(), 4, 4) == unsigned(r.slice_no)
        && field(r.encoded(), 8, 4) == unsigned(r.rxmit)) by {
        let s = r.encoded();
        lemma_u16_round_trip(CMD_RETRANSMIT, s, 0);
        lemma_u32_round_trip(word32(r.slice_no), s, 4);
        lemma_u32_round_trip(word32(r.rxmit), s, 8);
        lemma_half(s, 0);
        lemma_word(s, 4, r.slice_no);
        lemma_word(s, 8, r.rxmit);
    }
    assert(field(c.encoded(), 0, 2) == 3 && field(c.encoded(), 4, 4) == c.capabilities && field(
        c.encoded(),
        8,
        4,
    ) == c.rcvbuf) by {
        let s = c.encoded();
        lemma_u16_round_trip(CMD_CONNECT_REQ, s, 0);
        lemma_u32_round_trip(c.capabilities, s, 4);
        lemma_u32_round_trip(c.rcvbuf, s, 8);
        lemma_half(s, 0);
        lemma_word(s, 4, 0);
        lemma_word(s, 8, 0);
    }
}

/// The layout of the messages by which a sender is found.
pub proof fn law_layout_of_greetings(r: ConnectReply, h: Hello, opcode: u16, i: int)
    requires
        0 <= i < 16,
    ensures
        r.encoded().len() == 32,
        field(r.encoded(), 0, 2) == 7,
        field(r.encoded(), 4, 4) == unsigned(r.cl_nr),
        field(r.encoded(), 8, 4) == unsigned(r.block_size),
        field(r.encoded(), 12, 4) == r.capabilities,
        r.encoded()[16 + i] == r.mcast@[i],
        h.encoded(opcode).len() == 28,
        field(h.encoded(opcode), 0, 2) == opcode,
        field(h.encoded(opcode), 4, 4) == h.capabilities,
        h.encoded(opcode)[8 + i] == h.mcast@[i],
        field(h.encoded(opcode), 24, 2) == h.block_size as int % 0x1_0000,
{
    assert(field(r.encoded(), 0, 2) == 7 && field(r.encoded(), 4, 4) == unsigned(r.cl_nr) && field(
        r.encoded(),
        8,
        4,
    ) == unsigned(r.block_size) && field(r.encoded(), 12, 4) == r.capabilities) by {
        let s = r.encoded();
        lemma_u16_round_trip(CMD_CONNECT_REPLY, s, 0);
        lemma_u32_round_trip(word32(r.cl_nr), s, 4);
        lemma_u32_round_trip(word32(r.block_size), s, 8);
        lemma_u32_round_trip(r.capabilities, s, 12);
        lemma_half(s, 0);
        lemma_word(s, 4, r.cl_nr);
        lemma_word(s, 8, r.block_size);
        lemma_word(s, 12, 0);
    }
    assert(field(h.encoded(opcode), 0, 2) == opcode && field(h.encoded(opcode), 4, 4)
        == h.capabilities && field(h.encoded(opcode), 24, 2) == h.block_size as int % 0x1_0000) by {
        let s = h.encoded(opcode);
        lemma_u16_round_trip(opcode, s, 0);
        lemma_u32_round_trip(h.capabilities, s, 4);
        lemma_u16_round_trip(word16(h.block_size), s, 24);
        lemma_half(s, 0);
        lemma_word(s, 4, 0);
        lemma_half(s, 24);
        law_numbers_are_big_endian(s, 0, 0, 0, h.block_size);
    }
}

} // verus!
