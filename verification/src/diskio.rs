//! How data moves between the disk and the ring.

use crate::fifo::{ring_place, ring_read, ring_write, Fifo};
use crate::produconsum::{lemma_halved, wrapped, Account, ProduceError};
use vstd::arithmetic::div_mod::{lemma_add_mod_noop, lemma_small_mod};
use vstd::prelude::*;

verus! {

/// The unit of the disk.
pub const BLOCKSIZE: usize = 4096;

/// Leave writing back to the system.
pub const FLAG_NOSYNC: u32 = 0x0040;

/// Write through.
pub const FLAG_SYNC: u32 = 0x0100;

/// Where data comes from or goes to.
pub struct DiskConfig {
    pub orig_out_file: bool,
    pub file_name: Option<String>,
    pub pipe_name: Option<String>,
    pub flags: u32,
}

/// What the disk may do next.
#[derive(Debug, Clone, Copy, PartialEq, Eq, Structural)]
pub enum Stretch {
    /// Wait until there is more.
    Wait,
    /// Stop: there is nothing, and nothing comes.
    End,
    /// Go on with `bytes` bytes of the ring from `pos` on.
    Part { pos: usize, bytes: usize },
}

/// `bytes` bytes from `pos` on, cut so that they end with a disk block where they
/// go beyond one.
pub open spec fn cut(pos: int, bytes: int) -> int {
    let remainder = (pos + bytes) % 4096;
    if bytes > remainder {
        bytes - remainder
    } else {
        bytes
    }
}

/// The bytes that lie in one piece for a consumer that asks for a disk block;
/// `None` if it has to wait.
pub open spec fn piece(a: Account) -> Option<int> {
    match a.share(4096, false) {
        Some(n) => Some(
            if n > a.contiguous() {
                a.contiguous()
            } else {
                n
            },
        ),
        None => None,
    }
}

/// What to read into, given the account of free memory.
pub open spec fn reading(a: Account) -> Stretch {
    match piece(a) {
        None => Stretch::Wait,
        Some(n) => {
            let bytes = cut(a.consumed % a.size, n);
            if bytes == 0 {
                Stretch::End
            } else {
                Stretch::Part { pos: (a.consumed % a.size) as usize, bytes: bytes as usize }
            }
        },
    }
}

/// What to write out, given the account of data. The end of the ring needs no cut.
pub open spec fn writing(a: Account) -> Stretch {
    match piece(a) {
        None => Stretch::Wait,
        Some(n) => {
            let pos = a.consumed % a.size;
            let bytes = if pos + n == a.size {
                n
            } else {
                cut(pos, n)
            };
            if n == 0 {
                Stretch::End
            } else {
                Stretch::Part { pos: pos as usize, bytes: bytes as usize }
            }
        },
    }
}

/// What a piece can be.
proof fn lemma_piece(a: Account)
    requires
        a.size > 0,
        a.waiting >= 0,
        a.consumed >= 0,
    ensures
        piece(a) matches Some(n) ==> 0 <= n <= a.waiting && a.consumed % a.size + n <= a.size,
{
}

/// Where to read the next bytes of the input to.
pub fn next_read(fifo: &mut Fifo) -> (r: Stretch)
    requires
        old(fifo).wf(),
        old(fifo).data_buf_size > 0,
    ensures
        r == reading(old(fifo).free_mem_queue@),
        r matches Stretch::Part { pos, bytes } ==> 0 < bytes <= old(fifo).free_mem_queue@.waiting
            && pos + bytes <= old(fifo).data_buf_size,
        final(fifo).wf(),
        final(fifo).buffer == old(fifo).buffer,
        final(fifo).data_buf_size == old(fifo).data_buf_size,
        final(fifo).data == old(fifo).data,
        final(fifo).free_mem_queue@ == old(fifo).free_mem_queue@.asked(
            piece(old(fifo).free_mem_queue@),
        ),
{
    proof {
        fifo.free_mem_queue.lemma_wf();
        lemma_piece(fifo.free_mem_queue@);
    }
    let pos: usize = fifo.free_mem_queue.get_consumer_position();
    match fifo.free_mem_queue.consume_contiguous_min_amount(BLOCKSIZE) {
        None => Stretch::Wait,
        Some(n) => {
            let remainder: usize = (pos + n) % BLOCKSIZE;
            let mut bytes: usize = n;
            if bytes > remainder && remainder != 0 {
                bytes = bytes - remainder;
            }
            if bytes == 0 {
                Stretch::End
            } else {
                Stretch::Part { pos, bytes }
            }
        },
    }
}

/// Whether the ring is one that can be written out.
pub fn can_write(fifo: &Fifo) -> (r: bool)
    requires
        fifo.wf(),
    ensures
        r <==> fifo.data_buf_size % 4096 == 0,
{
    fifo.data.get_size() % BLOCKSIZE == 0
}

/// Where to write the next bytes of the output from.
pub fn next_write(fifo: &mut Fifo) -> (r: Stretch)
    requires
        old(fifo).wf(),
        old(fifo).data_buf_size > 0,
    ensures
        r == writing(old(fifo).data@),
        r matches Stretch::Part { pos, bytes } ==> 0 < bytes <= old(fifo).data@.waiting && pos
            + bytes <= old(fifo).data_buf_size,
        final(fifo).wf(),
        final(fifo).buffer == old(fifo).buffer,
        final(fifo).data_buf_size == old(fifo).data_buf_size,
        final(fifo).free_mem_queue == old(fifo).free_mem_queue,
        final(fifo).data@ == old(fifo).data@.asked(piece(old(fifo).data@)),
{
    proof {
        fifo.data.lemma_wf();
        lemma_piece(fifo.data@);
    }
    let size: usize = fifo.data.get_size();
    let pos: usize = fifo.data.get_consumer_position();
    match fifo.data.consume_contiguous_min_amount(BLOCKSIZE) {
        None => Stretch::Wait,
        Some(n) => {
            if n == 0 {
                return Stretch::End;
            }
            let remainder: usize = (pos + n) % BLOCKSIZE;
            let mut bytes: usize = n;
            if pos + n != size && bytes > remainder && remainder != 0 {
                bytes = bytes - remainder;
            }
            Stretch::Part { pos, bytes }
        },
    }
}

/// Puts bytes of the input into the ring and at the sender's disposal. The result
/// is whether the sender waits for them.
pub fn store(fifo: &mut Fifo, pos: usize, bytes: &[u8]) -> (r: Result<bool, ProduceError>)
    requires
        old(fifo).wf(),
        pos + bytes@.len() <= old(fifo).data_buf_size,
    ensures
        final(fifo).wf(),
        final(fifo).data_buf_size == old(fifo).data_buf_size,
        final(fifo).buffer@ == ring_write(old(fifo).buffer@, pos as int, bytes@),
        final(fifo).free_mem_queue@ == old(fifo).free_mem_queue@.with_consumed(
            bytes@.len() as int,
        ),
        match old(fifo).data@.refusal(bytes@.len() as int) {
            Some(e) => r == Err::<bool, ProduceError>(e) && final(fifo).data@ == old(fifo).data@,
            None => {
                &&& r == Ok::<bool, ProduceError>(old(fifo).data@.consumer_waiting)
                &&& final(fifo).data@ == old(fifo).data@.with_produced(bytes@.len() as int)
            },
        },
{
    proof {
        fifo.free_mem_queue.lemma_wf();
    }
    let _ = fifo.free_mem_queue.consumed(bytes.len());
    fifo.write_at(pos, bytes);
    fifo.data.produce(bytes.len())
}

/// The bytes of the ring that go to the output.
pub fn fetch(fifo: &Fifo, pos: usize, bytes: usize) -> (r: Vec<u8>)
    requires
        fifo.wf(),
        pos + bytes <= fifo.data_buf_size,
    ensures
        r@ == ring_read(fifo.buffer@, pos as int, bytes as nat),
{
    let mut buf: Vec<u8> = vec![0u8; bytes];
    fifo.read_at(pos, buf.as_mut_slice());
    buf
}

/// Takes bytes that were written out off the ring. The result is whether the
/// receiver waits for the memory.
pub fn release(fifo: &mut Fifo, bytes: usize) -> (r: Result<bool, ProduceError>)
    requires
        old(fifo).wf(),
        bytes <= old(fifo).data_buf_size,
    ensures
        final(fifo).wf(),
        final(fifo).data_buf_size == old(fifo).data_buf_size,
        final(fifo).buffer == old(fifo).buffer,
        final(fifo).data@ == old(fifo).data@.with_consumed(bytes as int),
        match old(fifo).free_mem_queue@.refusal(bytes as int) {
            Some(e) => r == Err::<bool, ProduceError>(e) && final(fifo).free_mem_queue@ == old(
                fifo,
            ).free_mem_queue@,
            None => {
                &&& r == Ok::<bool, ProduceError>(old(fifo).free_mem_queue@.consumer_waiting)
                &&& final(fifo).free_mem_queue@ == old(fifo).free_mem_queue@.with_produced(
                    bytes as int,
                )
            },
        },
{
    let _ = fifo.data.consumed(bytes);
    fifo.free_mem_queue.produce(bytes)
}

/// A ring and its two accounts.
pub struct Pipe {
    pub ring: Seq<u8>,
    pub free: Account,
    pub data: Account,
}

impl Pipe {
    /// The accounts are those of the ring, and free memory begins where data ends.
    pub open spec fn ok(self) -> bool {
        &&& 0 < self.ring.len()
        &&& self.free.size == self.ring.len()
        &&& self.data.size == self.ring.len()
        &&& 0 <= self.free.consumed < 2 * self.ring.len()
        &&& 0 <= self.data.consumed < 2 * self.ring.len()
        &&& 0 <= self.free.waiting
        &&& 0 <= self.data.waiting
        &&& self.free.waiting + self.data.waiting <= self.ring.len()
        &&& self.free.consumed % self.free.size == (self.data.consumed + self.data.waiting)
            % self.data.size
    }

    /// The data in the ring, in the order in which it came.
    pub open spec fn queued(self) -> Seq<u8> {
        ring_read(self.ring, self.data.consumed % self.data.size, self.data.waiting as nat)
    }

    /// After `bytes` were read from the input.
    pub open spec fn stored(self, bytes: Seq<u8>) -> Pipe {
        Pipe {
            ring: ring_write(self.ring, self.free.consumed % self.free.size, bytes),
            free: self.free.with_consumed(bytes.len() as int),
            data: self.data.with_produced(bytes.len() as int),
        }
    }

    /// After `n` bytes were written to the output.
    pub open spec fn released(self, n: int) -> Pipe {
        Pipe {
            ring: self.ring,
            free: self.free.with_produced(n),
            data: self.data.with_consumed(n),
        }
    }
}

/// The place of `x + y` where `x` is reduced first.
proof fn lemma_place(x: int, y: int, size: int)
    requires
        size > 0,
        0 <= y <= size,
    ensures
        0 <= x % size < size,
        x % size + y < 2 * size ==> ring_place(x % size + y, size) == (x + y) % size,
{
    lemma_add_mod_noop(x, y, size);
    lemma_add_mod_noop(x % size, y, size);
    vstd::arithmetic::div_mod::lemma_mod_twice(x, size);
    let s = x % size + y;
    if s < size {
        lemma_small_mod(s as nat, size as nat);
    } else if s < 2 * size {
        vstd::arithmetic::div_mod::lemma_mod_multiples_vanish(-1, s, size);
        lemma_small_mod((s - size) as nat, size as nat);
    }
}

/// What is read from the input is queued behind what is there.
pub proof fn law_input_is_queued(p: Pipe, bytes: Seq<u8>)
    requires
        p.ok(),
        bytes.len() <= p.free.waiting,
    ensures
        p.stored(bytes).ok(),
        p.stored(bytes).queued() == p.queued() + bytes,
        p.data.refusal(bytes.len() as int) is None,
{
    let n = p.ring.len() as int;
    let k = bytes.len() as int;
    let q = p.stored(bytes);
    let w = p.data.waiting;
    let from = p.data.consumed % n;
    let at = p.free.consumed % n;
    lemma_halved(p.free.consumed + k, n);
    lemma_halved(p.free.waiting - k, n);
    lemma_halved(w + k, n);
    lemma_add_mod_noop(p.free.consumed, k, n);
    lemma_add_mod_noop(p.data.consumed + w, k, n);
    assert(p.data.consumed + w + k == p.data.consumed + (w + k));
    lemma_place(p.data.consumed, w, n);
    assert forall|i: int| 0 <= i < w + k implies q.queued()[i] == (p.queued() + bytes)[i] by {
        let place = ring_place(from + i, n);
        lemma_place(p.data.consumed, i, n);
        if i < w {
            if at <= place < at + k || place + n < at + k {
                assert(at == ring_place(from + w, n));
            }
        } else {
            assert(at == ring_place(from + w, n));
        }
    }
    assert(q.queued() =~= p.queued() + bytes);
}

/// What is written to the output is the front of the queue, and no other byte
/// leaves it.
pub proof fn law_output_is_the_front(p: Pipe, n: int)
    requires
        p.ok(),
        0 <= n <= p.data.waiting,
    ensures
        ring_read(p.ring, p.data.consumed % p.data.size, n as nat) == p.queued().take(n),
        p.released(n).ok(),
        p.released(n).queued() == p.queued().skip(n),
        p.free.refusal(n) is None,
{
    let size = p.ring.len() as int;
    let q = p.released(n);
    assert(ring_read(p.ring, p.data.consumed % p.data.size, n as nat) =~= p.queued().take(n));
    lemma_halved(p.data.consumed + n, size);
    lemma_halved(p.data.waiting - n, size);
    lemma_halved(p.free.waiting + n, size);
    lemma_add_mod_noop(p.data.consumed + n, p.data.waiting - n, size);
    lemma_add_mod_noop(wrapped(p.data.consumed + n, size), p.data.waiting - n, size);
    assert(p.data.consumed + n + (p.data.waiting - n) == p.data.consumed + p.data.waiting);
    let from = p.data.consumed % size;
    let next = (p.data.consumed + n) % size;
    lemma_place(p.data.consumed, n, size);
    assert forall|i: int| 0 <= i < p.data.waiting - n implies q.queued()[i] == p.queued()[n
        + i] by {
        lemma_place(p.data.consumed, n + i, size);
        lemma_place(p.data.consumed + n, i, size);
        assert(p.data.consumed + n + i == p.data.consumed + (n + i));
    }
    assert(q.queued() =~= p.queued().skip(n));
}

/// Input is read as long as it comes: while a disk block is free something is read into
/// it, at the place where free memory begins, and no more than there is room for; the
/// reader waits exactly while less is free and more can become free.
pub proof fn law_reading_goes_on(a: Account)
    requires
        0 < a.size <= usize::MAX,
        0 <= a.waiting,
        0 <= a.consumed,
    ensures
        reading(a) == Stretch::Wait <==> a.waiting < 4096 && !a.at_end,
        reading(a) == Stretch::End <==> a.waiting == 0 && a.at_end,
        a.waiting >= 4096 ==> reading(a) is Part,
        reading(a) matches Stretch::Part { pos, bytes } ==> {
            &&& pos == a.consumed % a.size
            &&& 0 < bytes <= a.waiting
            &&& pos + bytes <= a.size
            &&& a.waiting - bytes < 4096 || a.size - (pos + bytes) < 4096
        },
{
    let pos = a.consumed % a.size;
    vstd::arithmetic::div_mod::lemma_mod_bound(a.consumed, a.size);
    lemma_piece(a);
}

/// Output is written to the last byte: while a disk block waits, and once the end is
/// known while anything waits, something is written, from the place where the data
/// begins; the writer stops exactly when nothing is left and the end is known.
pub proof fn law_writing_goes_on_to_the_last_byte(a: Account)
    requires
        0 < a.size <= usize::MAX,
        0 <= a.waiting,
        0 <= a.consumed,
    ensures
        writing(a) == Stretch::Wait <==> a.waiting < 4096 && !a.at_end,
        writing(a) == Stretch::End <==> a.waiting == 0 && a.at_end,
        a.at_end && a.waiting > 0 ==> writing(a) is Part,
        writing(a) matches Stretch::Part { pos, bytes } ==> {
            &&& pos == a.consumed % a.size
            &&& 0 < bytes <= a.waiting
            &&& pos + bytes <= a.size
            &&& a.waiting - bytes < 4096 || a.size - (pos + bytes) < 4096
            &&& pos + a.waiting >= a.size ==> pos + bytes == a.size
        },
{
    let pos = a.consumed % a.size;
    vstd::arithmetic::div_mod::lemma_mod_bound(a.consumed, a.size);
    lemma_piece(a);
}

/// Input is read and output is written in whole disk blocks, but for what is less
/// than a block and for the end of the ring.
pub proof fn law_pieces_end_with_a_block(pos: int, bytes: int)
    requires
        0 <= pos,
        0 <= bytes,
    ensures
        (pos + cut(pos, bytes)) % 4096 == 0 || cut(pos, bytes) < 4096,
        bytes > 0 ==> 0 < cut(pos, bytes) <= bytes,
{
}

} // verus!
