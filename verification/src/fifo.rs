//! The ring buffer between local input or output and the network.

use crate::produconsum::{Account, Produconsum};
use vstd::arithmetic::div_mod::{
    lemma_add_mod_noop, lemma_fundamental_div_mod, lemma_mod_bound, lemma_mod_multiples_vanish,
    lemma_mod_twice, lemma_small_mod,
};
use vstd::prelude::*;

verus! {

/// How many blocks the ring holds.
pub const BLOCKS_IN_RING: usize = 4096;

/// A ring of bytes with the accounts of its free and of its filled part.
pub struct Fifo {
    pub buffer: Vec<u8>,
    pub data_buf_size: usize,
    pub free_mem_queue: Produconsum,
    pub data: Produconsum,
}

/// Place `x` of a ring of `size` bytes.
pub open spec fn ring_place(x: int, size: int) -> int {
    if x < size {
        x
    } else {
        x - size
    }
}

/// Where byte `x` of what starts at `base` lies in a ring of `n` bytes.
pub open spec fn spot(base: int, x: int, n: int) -> int {
    (base + x) % n
}

/// The `len` bytes of `ring` from `offset` on, going round at most once.
pub open spec fn ring_read(ring: Seq<u8>, offset: int, len: nat) -> Seq<u8> {
    Seq::new(len, |i: int| ring[ring_place(offset + i, ring.len() as int)])
}

/// `ring` with `data` written from `offset` on, going round at most once.
pub open spec fn ring_write(ring: Seq<u8>, offset: int, data: Seq<u8>) -> Seq<u8> {
    Seq::new(
        ring.len(),
        |p: int|
            if offset <= p < offset + data.len() {
                data[p - offset]
            } else if p + ring.len() < offset + data.len() {
                data[p + ring.len() - offset]
            } else {
                ring[p]
            },
    )
}

/// `ring` with `len` bytes moved back by `gap`, so that they start at `to`.
pub open spec fn ring_moved(ring: Seq<u8>, to: int, gap: int, len: int) -> Seq<u8> {
    Seq::new(
        ring.len(),
        |p: int|
            if (p - to) % (ring.len() as int) < len {
                ring[spot(to, gap + (p - to) % (ring.len() as int), ring.len() as int)]
            } else {
                ring[p]
            },
    )
}

/// Going round the ring from a position is counting modulo its size.
pub proof fn lemma_round(from: int, j: int, n: int)
    requires
        0 < n,
        0 <= j < n,
    ensures
        ring_place(from % n + j, n) == spot(from, j, n),
        0 <= from % n < n,
        0 <= spot(from, j, n) < n,
{
    lemma_mod_bound(from, n);
    lemma_mod_bound(from + j, n);
    lemma_add_mod_noop(from, j, n);
    lemma_small_mod(j as nat, n as nat);
    if from % n + j < n {
        lemma_small_mod((from % n + j) as nat, n as nat);
    } else {
        lemma_mod_multiples_vanish(-1, from % n + j, n);
        assert(n * -1 + (from % n + j) == from % n + j - n) by (nonlinear_arith);
        lemma_small_mod((from % n + j - n) as nat, n as nat);
    }
}

/// Two bytes less than a round apart lie in two places.
pub proof fn lemma_apart(base: int, x: int, y: int, n: int)
    requires
        0 < n,
        -n < x - y < n,
        x != y,
    ensures
        spot(base, x, n) != spot(base, y, n),
{
    lemma_fundamental_div_mod(base + x, n);
    lemma_fundamental_div_mod(base + y, n);
    let p = (base + x) / n;
    let q = (base + y) / n;
    if spot(base, x, n) == spot(base, y, n) {
        assert(n * p - n * q == x - y);
        assert(n * p - n * q == n * (p - q)) by (nonlinear_arith);
        let d = p - q;
        assert(n * d == x - y);
        assert(d == 0) by (nonlinear_arith)
            requires
                n * d == x - y,
                -n < x - y < n,
                n > 0,
        ;
    }
}

/// Counting on from a place is counting on from the base.
pub proof fn lemma_onward(base: int, a: int, x: int, n: int)
    requires
        0 < n,
    ensures
        spot(spot(base, a, n), x, n) == spot(base, a + x, n),
        spot(base % n, a, n) == spot(base, a, n),
{
    lemma_add_mod_noop(base + a, x, n);
    lemma_add_mod_noop(spot(base, a, n), x, n);
    lemma_mod_twice(base + a, n);
    assert(base + a + x == base + (a + x));
    lemma_add_mod_noop(base, a, n);
    lemma_add_mod_noop(base % n, a, n);
    lemma_mod_twice(base, n);
}

/// Each place is so many bytes behind a base, and the byte so far behind it lies
/// there.
pub proof fn lemma_offset(base: int, p: int, x: int, n: int)
    requires
        0 < n,
        0 <= p < n,
        0 <= x < n,
    ensures
        0 <= (p - base) % n < n,
        spot(base, (p - base) % n, n) == p,
        (spot(base, x, n) - base) % n == x,
{
    let d = (p - base) % n;
    lemma_mod_bound(p - base, n);
    lemma_add_mod_noop(p - base, base, n);
    lemma_add_mod_noop(d, base, n);
    lemma_mod_twice(p - base, n);
    lemma_small_mod(p as nat, n as nat);
    assert(p - base + base == p);
    assert(d + base == base + d);
    let q = spot(base, x, n);
    lemma_add_mod_noop(base + x, -base, n);
    lemma_add_mod_noop(q, -base, n);
    lemma_mod_twice(base + x, n);
    lemma_small_mod(x as nat, n as nat);
    assert(base + x + -base == x);
    assert(q + -base == q - base);
}

/// What is written is what is read back.
pub proof fn law_read_after_write(ring: Seq<u8>, offset: int, data: Seq<u8>)
    requires
        0 <= offset <= ring.len(),
        data.len() <= ring.len(),
    ensures
        ring_read(ring_write(ring, offset, data), offset, data.len()) == data,
{
    assert(ring_read(ring_write(ring, offset, data), offset, data.len()) =~= data);
}

/// Writing one stretch of the ring leaves what is read of any other stretch,
/// with which it shares no place, as it was.
pub proof fn law_write_elsewhere(ring: Seq<u8>, offset: int, data: Seq<u8>, at: int, len: nat)
    requires
        0 <= offset <= ring.len(),
        0 <= at <= ring.len(),
        data.len() <= ring.len(),
        len <= ring.len(),
        forall|i: int, j: int|
            0 <= i < data.len() && 0 <= j < len ==> #[trigger] ring_place(
                offset + i,
                ring.len() as int,
            ) != #[trigger] ring_place(at + j, ring.len() as int),
    ensures
        ring_read(ring_write(ring, offset, data), at, len) == ring_read(ring, at, len),
{
    let n = ring.len() as int;
    assert forall|j: int| 0 <= j < len implies #[trigger] ring_write(ring, offset, data)[ring_place(
        at + j,
        n,
    )] == ring[ring_place(at + j, n)] by {
        let p = ring_place(at + j, n);
        if offset <= p < offset + data.len() {
            assert(ring_place(offset + (p - offset), n) == p);
        } else if p + n < offset + data.len() {
            assert(ring_place(offset + (p + n - offset), n) == p);
        }
    }
    assert(ring_read(ring_write(ring, offset, data), at, len) =~= ring_read(ring, at, len));
}

impl Fifo {
    /// The buffer has the size that the accounts speak of.
    pub open spec fn wf(&self) -> bool {
        &&& self.buffer@.len() == self.data_buf_size
        &&& self.free_mem_queue.wf()
        &&& self.data.wf()
        &&& self.free_mem_queue@.size == self.data_buf_size
        &&& self.data@.size == self.data_buf_size
    }

    /// A ring of 4096 blocks: all of it is free, and none is filled.
    pub fn new(block_size: usize) -> (r: Self)
        requires
            2 * block_size * 4096 <= usize::MAX,
        ensures
            r.wf(),
            r.data_buf_size == block_size * 4096,
            r.buffer@ == Seq::new((block_size * 4096) as nat, |i: int| 0u8),
            r.free_mem_queue@ == (Account {
                name: "free mem"@,
                size: block_size * 4096,
                consumed: 0,
                waiting: block_size * 4096,
                at_end: false,
                consumer_waiting: false,
            }),
            r.data@ == (Account {
                name: "receive"@,
                size: block_size * 4096,
                consumed: 0,
                waiting: 0,
                at_end: false,
                consumer_waiting: false,
            }),
    {
        let data_buf_size: usize = block_size * BLOCKS_IN_RING;
        let mut free_mem_queue = Produconsum::new(data_buf_size, "free mem");
        proof {
            if data_buf_size > 0 {
                lemma_small_mod(data_buf_size as nat, (2 * data_buf_size) as nat);
            }
        }
        let _ = free_mem_queue.produce(data_buf_size);
        let data = Produconsum::new(data_buf_size, "receive");
        let buffer: Vec<u8> = vec![0u8; data_buf_size];
        assert(buffer@ =~= Seq::new((block_size * 4096) as nat, |i: int| 0u8));
        Fifo { buffer, data_buf_size, free_mem_queue, data }
    }

    /// Writes `data` into the ring from `offset` on.
    pub fn write_at(&mut self, offset: usize, data: &[u8])
        requires
            old(self).wf(),
            offset <= old(self).data_buf_size,
            data@.len() <= old(self).data_buf_size,
        ensures
            final(self).wf(),
            final(self).buffer@ == ring_write(old(self).buffer@, offset as int, data@),
            final(self).data_buf_size == old(self).data_buf_size,
            final(self).free_mem_queue == old(self).free_mem_queue,
            final(self).data == old(self).data,
    {
        let ghost before = *self;
        let n: usize = self.data_buf_size;
        let mut i: usize = 0;
        while i < data.len()
            invariant
                i <= data@.len() <= n,
                offset <= n,
                n == before.data_buf_size,
                before.wf(),
                self.buffer@ == ring_write(before.buffer@, offset as int, data@.take(i as int)),
                self.data_buf_size == before.data_buf_size,
                self.free_mem_queue == before.free_mem_queue,
                self.data == before.data,
            decreases data@.len() - i,
        {
            let p: usize = if i < n - offset {
                offset + i
            } else {
                i - (n - offset)
            };
            let ghost mid = self.buffer@;
            self.buffer.set(p, data[i]);
            assert(self.buffer@ =~= ring_write(
                before.buffer@,
                offset as int,
                data@.take(i as int + 1),
            ));
            i += 1;
        }
        assert(data@.take(data@.len() as int) =~= data@);
        assert(data@.take(0) =~= Seq::<u8>::empty());
    }

    /// Moves `len` bytes back by `gap`, so that they start at `to`.
    pub fn move_back(&mut self, to: usize, gap: usize, len: usize)
        requires
            old(self).wf(),
            to < old(self).data_buf_size,
            gap + len <= old(self).data_buf_size,
        ensures
            final(self).wf(),
            final(self).buffer@ == ring_moved(
                old(self).buffer@,
                to as int,
                gap as int,
                len as int,
            ),
            final(self).data_buf_size == old(self).data_buf_size,
            final(self).free_mem_queue == old(self).free_mem_queue,
            final(self).data == old(self).data,
    {
        let ghost before = *self;
        let n: usize = self.data_buf_size;
        proof {
            self.data.lemma_wf();
            assert forall|p: int| 0 <= p < n implies #[trigger] ring_moved(
                before.buffer@,
                to as int,
                gap as int,
                0,
            )[p] == before.buffer@[p] by {
                lemma_mod_bound(p - to, n as int);
            }
            assert(before.buffer@ =~= ring_moved(before.buffer@, to as int, gap as int, 0));
        }
        let mut x: usize = 0;
        while x < len
            invariant
                x <= len,
                to < n,
                gap + len <= n,
                2 * n <= usize::MAX,
                n == before.data_buf_size,
                before.wf(),
                self.buffer@ == ring_moved(before.buffer@, to as int, gap as int, x as int),
                self.data_buf_size == before.data_buf_size,
                self.free_mem_queue == before.free_mem_queue,
                self.data == before.data,
            decreases len - x,
        {
            let ghost mid = self.buffer@;
            let from: usize = (to + (gap + x)) % n;
            let at: usize = (to + x) % n;
            let byte: u8 = self.buffer[from];
            self.buffer.set(at, byte);
            proof {
                lemma_offset(to as int, 0, gap + x, n as int);
                assert(byte == before.buffer@[from as int]);
                assert forall|p: int| 0 <= p < n implies #[trigger] self.buffer@[p] == ring_moved(
                    before.buffer@,
                    to as int,
                    gap as int,
                    x + 1,
                )[p] by {
                    lemma_offset(to as int, p, x as int, n as int);
                }
                assert(self.buffer@ =~= ring_moved(
                    before.buffer@,
                    to as int,
                    gap as int,
                    x + 1,
                ));
            }
            x += 1;
        }
    }

    /// Reads into `dst`, to its length, from `offset` on.
    pub fn read_at(&self, offset: usize, dst: &mut [u8])
        requires
            self.wf(),
            offset <= self.data_buf_size,
            old(dst)@.len() <= self.data_buf_size,
        ensures
            final(dst)@ == ring_read(self.buffer@, offset as int, old(dst)@.len()),
    {
        let n: usize = self.data_buf_size;
        let len: usize = dst.len();
        let mut i: usize = 0;
        while i < len
            invariant
                i <= len <= n,
                len == dst@.len(),
                offset <= n,
                n == self.data_buf_size,
                self.wf(),
                forall|k: int|
                    0 <= k < i ==> #[trigger] dst@[k] == self.buffer@[ring_place(
                        offset + k,
                        n as int,
                    )],
            decreases len - i,
        {
            let p: usize = if i < n - offset {
                offset + i
            } else {
                i - (n - offset)
            };
            dst[i] = self.buffer[p];
            i += 1;
        }
        assert(dst@ =~= ring_read(self.buffer@, offset as int, len as nat));
    }

    /// Hands the whole ring to `f`.
    pub fn with_buffer<R>(&self, f: impl FnOnce(&[u8]) -> R) -> (r: R)
        requires
            forall|b: &[u8]| b@ == self.buffer@ ==> call_requires(f, (b,)),
        ensures
            exists|b: &[u8]| b@ == self.buffer@ && call_ensures(f, (b,), r),
    {
        let b: &[u8] = self.buffer.as_slice();
        f(b)
    }

    /// Lets `f` change the bytes of the ring.
    pub fn with_buffer_mut<R>(&mut self, f: impl FnOnce(&mut [u8]) -> R) -> (r: R)
        requires
            old(self).wf(),
            forall|b: &mut [u8]| b@ == old(self).buffer@ ==> call_requires(f, (b,)),
        ensures
            final(self).buffer@.len() == old(self).buffer@.len() ==> final(self).wf(),
            final(self).data_buf_size == old(self).data_buf_size,
            final(self).free_mem_queue == old(self).free_mem_queue,
            final(self).data == old(self).data,
            exists|b: &mut [u8]|
                b@ == old(self).buffer@ && final(b)@ == final(self).buffer@ && call_ensures(
                    f,
                    (b,),
                    r,
                ),
    {
        let b: &mut [u8] = self.buffer.as_mut_slice();
        f(b)
    }
}

} // verus!
