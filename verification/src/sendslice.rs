//! A slice that is being sent, and the packets that carry it.

use crate::bitmap::{lemma_bits_finite, BitMap};
use crate::fec::{fec_encode, parity_byte, FecTables};
use crate::fifo::{ring_place, ring_read};
use crate::matrix::{lemma_rows_push, rows};
use crate::protocol::{DataBlock, FecBlock};
use vstd::prelude::*;

verus! {

/// What becomes of a slice.
#[derive(Debug, Clone, Copy, PartialEq, Eq, Structural)]
pub enum SliceState {
    Free,
    New,
    Xmitted,
    Acked,
}

/// A slice in the sender's ring.
pub struct Slice {
    /// Where its data starts in the ring.
    pub base: usize,
    pub slice_no: i32,
    pub bytes: usize,
    pub state: SliceState,
    /// The blocks that somebody misses.
    pub rxmit_map: BitMap,
    /// The blocks sent again in this round.
    pub is_xmitted_map: BitMap,
    /// The round.
    pub rxmit_id: i32,
    /// Who has the whole slice.
    pub ready_set: BitMap,
    /// Who answered in this round.
    pub answered_set: BitMap,
    pub nr_ready: usize,
    pub nr_answered: usize,
    pub need_rxmit: bool,
    pub last_good_block: usize,
    /// The parity blocks: block `r` of stripe `s` is number `s + r * stripes`.
    pub fec_data: Vec<Vec<u8>>,
}

/// What there is to know of a slice.
#[verifier::ext_equal]
pub struct SliceModel {
    pub base: int,
    pub slice_no: i32,
    pub bytes: int,
    pub state: SliceState,
    pub rxmit: Set<int>,
    pub xmitted: Set<int>,
    pub rxmit_id: i32,
    pub ready: Set<int>,
    pub answered: Set<int>,
    pub need_rxmit: bool,
    pub last_good: int,
    pub fec: Seq<Seq<u8>>,
}

impl View for Slice {
    type V = SliceModel;

    open spec fn view(&self) -> SliceModel {
        SliceModel {
            base: self.base as int,
            slice_no: self.slice_no,
            bytes: self.bytes as int,
            state: self.state,
            rxmit: self.rxmit_map@,
            xmitted: self.is_xmitted_map@,
            rxmit_id: self.rxmit_id,
            ready: self.ready_set@,
            answered: self.answered_set@,
            need_rxmit: self.need_rxmit,
            last_good: self.last_good_block as int,
            fec: rows(self.fec_data@),
        }
    }
}

/// Data of `bytes` bytes from `base` on, cut into blocks of `block_size`, lies
/// in a ring of `ring` bytes.
pub open spec fn fits(base: int, bytes: int, block_size: int, ring: int) -> bool {
    &&& 0 < block_size
    &&& block_size * 1024 <= i32::MAX
    &&& block_size * 1024 <= ring
    &&& 0 <= bytes <= block_size * 1024
    &&& 0 <= base < ring
    &&& ring <= usize::MAX / 2
}

/// The number of blocks that `bytes` bytes make.
pub open spec fn nr_blocks(bytes: int, block_size: int) -> int {
    (bytes + block_size - 1) / block_size
}

/// The length of block `i`.
pub open spec fn block_len(bytes: int, block_size: int, i: int) -> int {
    if i * block_size >= bytes {
        0
    } else if bytes - i * block_size < block_size {
        bytes - i * block_size
    } else {
        block_size
    }
}

/// Where in the ring block `i` starts.
pub open spec fn block_place(base: int, block_size: int, i: int, ring: int) -> int {
    (base + i * block_size) % ring
}

/// The data of block `i`.
pub open spec fn block_data(ring: Seq<u8>, base: int, bytes: int, block_size: int, i: int) -> Seq<
    u8,
> {
    ring_read(
        ring,
        block_place(base, block_size, i, ring.len() as int),
        block_len(bytes, block_size, i) as nat,
    )
}

/// The packet that carries block `i`.
pub open spec fn data_packet(s: SliceModel, ring: Seq<u8>, block_size: int, i: int) -> Seq<u8> {
    (DataBlock { slice_no: s.slice_no, block_no: i as u16, bytes: s.bytes as i32 }).encoded()
        + block_data(ring, s.base, s.bytes, block_size, i)
}

/// The block counts of data that fits.
pub proof fn lemma_blocks(bytes: int, block_size: int)
    requires
        block_size > 0,
        0 <= bytes <= block_size * 1024,
    ensures
        0 <= nr_blocks(bytes, block_size) <= 1024,
        bytes <= nr_blocks(bytes, block_size) * block_size < bytes + block_size,
        nr_blocks(bytes, block_size) == 0 <==> bytes == 0,
{
    let n = nr_blocks(bytes, block_size);
    vstd::arithmetic::div_mod::lemma_fundamental_div_mod(bytes + block_size - 1, block_size);
    assert(n * block_size == block_size * n) by (nonlinear_arith);
    vstd::arithmetic::div_mod::lemma_mod_bound(bytes + block_size - 1, block_size);
    if n > 1024 {
        assert(1025 * block_size <= n * block_size) by (nonlinear_arith)
            requires
                n >= 1025,
                block_size > 0,
        ;
    }
    if n < 0 {
        assert(n * block_size <= -block_size) by (nonlinear_arith)
            requires
                n <= -1,
                block_size > 0,
        ;
    }
    if n > 0 {
        assert(n * block_size >= block_size) by (nonlinear_arith)
            requires
                n >= 1,
                block_size > 0,
        ;
    }
    if n == 0 {
        assert(n * block_size == 0) by (nonlinear_arith)
            requires
                n == 0,
        ;
    }
}

/// A block that is there lies within the slice.
pub proof fn lemma_block(bytes: int, block_size: int, i: int)
    requires
        block_size > 0,
        0 <= bytes <= block_size * 1024,
        0 <= i < nr_blocks(bytes, block_size),
    ensures
        i < 1024,
        0 <= i * block_size < bytes,
        i * block_size <= block_size * 1023,
        0 < block_len(bytes, block_size, i) <= block_size,
{
    lemma_blocks(bytes, block_size);
    let n = nr_blocks(bytes, block_size);
    assert(0 <= i * block_size <= (n - 1) * block_size && (n - 1) * block_size == n * block_size
        - block_size && i * block_size <= block_size * 1023) by (nonlinear_arith)
        requires
            0 <= i <= n - 1,
            n <= 1024,
            block_size > 0,
    ;
}

/// The number of blocks of `bytes` bytes.
pub fn count_blocks(bytes: usize, block_size: usize) -> (r: usize)
    requires
        block_size > 0,
        bytes + block_size <= usize::MAX,
    ensures
        r == nr_blocks(bytes as int, block_size as int),
{
    (bytes + (block_size - 1)) / block_size
}

/// Appends `size` bytes of the ring, from `start` on.
pub fn append_ring(packet: &mut Vec<u8>, ring: &Vec<u8>, start: usize, size: usize)
    requires
        start < ring@.len(),
        size <= ring@.len(),
    ensures
        final(packet)@ == old(packet)@ + ring_read(ring@, start as int, size as nat),
{
    let n: usize = ring.len();
    let ghost before = packet@;
    let mut i: usize = 0;
    while i < size
        invariant
            i <= size <= n,
            start < n,
            n == ring@.len(),
            packet@ == before + ring_read(ring@, start as int, i as nat),
        decreases size - i,
    {
        let p: usize = if i < n - start {
            start + i
        } else {
            i - (n - start)
        };
        packet.push(ring[p]);
        assert(p == ring_place(start + i, n as int));
        i += 1;
        assert(packet@ =~= before + ring_read(ring@, start as int, i as nat));
    }
    assert(ring_read(ring@, start as int, 0) =~= Seq::<u8>::empty());
}

/// The bytes of an array, appended.
fn append_header(packet: &mut Vec<u8>, header: &[u8; 16])
    ensures
        final(packet)@ == old(packet)@ + header@,
{
    let ghost before = packet@;
    let mut i: usize = 0;
    assert(header@.take(0) =~= Seq::<u8>::empty());
    while i < 16
        invariant
            i <= 16,
            header@.len() == 16,
            packet@ == before + header@.take(i as int),
        decreases 16 - i,
    {
        packet.push(header[i]);
        assert(header@.take(i as int + 1) =~= header@.take(i as int).push(header@[i as int]));
        i += 1;
        assert(packet@ =~= before + header@.take(i as int));
    }
    assert(header@.take(16) =~= header@);
}

impl Slice {
    /// The counts are those of the sets.
    pub open spec fn wf(&self) -> bool {
        &&& self.nr_ready == self.ready_set@.len()
        &&& self.nr_answered == self.answered_set@.len()
    }

    /// An unused slice with room for `nr_fec` parity blocks.
    pub fn new(nr_fec: usize, block_size: usize) -> (r: Self)
        ensures
            r.wf(),
            r@ == (SliceModel {
                base: 0,
                slice_no: 0,
                bytes: 0,
                state: SliceState::Free,
                rxmit: Set::empty(),
                xmitted: Set::empty(),
                rxmit_id: 0,
                ready: Set::empty(),
                answered: Set::empty(),
                need_rxmit: false,
                last_good: 0,
                fec: Seq::new(nr_fec as nat, |p: int| Seq::new(block_size as nat, |b: int| 0u8)),
            }),
    {
        let mut fec_data: Vec<Vec<u8>> = Vec::new();
        let mut i: usize = 0;
        while i < nr_fec
            invariant
                i <= nr_fec,
                rows(fec_data@) == Seq::new(
                    i as nat,
                    |p: int| Seq::new(block_size as nat, |b: int| 0u8),
                ),
            decreases nr_fec - i,
        {
            let block: Vec<u8> = vec![0u8; block_size];
            assert(block@ =~= Seq::new(block_size as nat, |b: int| 0u8));
            proof {
                lemma_rows_push(fec_data@, block);
            }
            fec_data.push(block);
            i += 1;
            assert(rows(fec_data@) =~= Seq::new(
                i as nat,
                |p: int| Seq::new(block_size as nat, |b: int| 0u8),
            ));
        }
        Slice {
            base: 0,
            slice_no: 0,
            bytes: 0,
            state: SliceState::Free,
            rxmit_map: BitMap::empty(),
            is_xmitted_map: BitMap::empty(),
            rxmit_id: 0,
            ready_set: BitMap::empty(),
            answered_set: BitMap::empty(),
            nr_ready: 0,
            nr_answered: 0,
            need_rxmit: false,
            last_good_block: 0,
            fec_data,
        }
    }

    /// Takes new data; nobody has it yet.
    pub fn restart(&mut self, base: usize, slice_no: i32, bytes: usize)
        ensures
            final(self).wf(),
            final(self)@ == (SliceModel {
                base: base as int,
                slice_no,
                bytes: bytes as int,
                state: SliceState::New,
                rxmit: Set::empty(),
                xmitted: Set::empty(),
                rxmit_id: 0,
                ready: Set::empty(),
                answered: Set::empty(),
                need_rxmit: false,
                last_good: 0,
                fec: old(self)@.fec,
            }),
    {
        self.base = base;
        self.slice_no = slice_no;
        self.bytes = bytes;
        self.state = SliceState::New;
        self.ready_set = BitMap::empty();
        self.answered_set = BitMap::empty();
        self.nr_ready = 0;
        self.nr_answered = 0;
        self.rxmit_map = BitMap::empty();
        self.is_xmitted_map = BitMap::empty();
        self.rxmit_id = 0;
        self.need_rxmit = false;
        self.last_good_block = 0;
    }

    /// Notes that participant `cl` has the slice, and says whether that is new.
    pub fn set_ready(&mut self, cl: usize) -> (r: bool)
        requires
            old(self).wf(),
            cl < 1024,
        ensures
            final(self).wf(),
            final(self)@ == (SliceModel {
                ready: old(self)@.ready.insert(cl as int),
                ..old(self)@
            }),
            r <==> !old(self)@.ready.contains(cl as int),
    {
        proof {
            lemma_bits_finite(self.ready_set.bytes@);
        }
        if self.ready_set.contains(cl) {
            assert(self@.ready =~= self@.ready.insert(cl as int));
            false
        } else {
            self.ready_set.insert(cl);
            proof {
                lemma_bits_finite(self.ready_set.bytes@);
            }
            self.nr_ready = self.nr_ready + 1;
            true
        }
    }

    /// Notes that participant `cl` answered in this round.
    pub fn set_answered(&mut self, cl: usize)
        requires
            old(self).wf(),
            cl < 1024,
        ensures
            final(self).wf(),
            final(self)@ == (SliceModel {
                answered: old(self)@.answered.insert(cl as int),
                ..old(self)@
            }),
    {
        proof {
            lemma_bits_finite(self.answered_set.bytes@);
        }
        if self.answered_set.contains(cl) {
            assert(self@.answered =~= self@.answered.insert(cl as int));
        } else {
            self.answered_set.insert(cl);
            proof {
                lemma_bits_finite(self.answered_set.bytes@);
            }
            self.nr_answered = self.nr_answered + 1;
        }
    }

    /// Counts participant `cl` no more.
    pub fn forget(&mut self, cl: usize)
        requires
            old(self).wf(),
            cl < 1024,
        ensures
            final(self).wf(),
            final(self)@ == (SliceModel {
                ready: old(self)@.ready.remove(cl as int),
                answered: old(self)@.answered.remove(cl as int),
                ..old(self)@
            }),
    {
        proof {
            lemma_bits_finite(self.ready_set.bytes@);
            lemma_bits_finite(self.answered_set.bytes@);
        }
        if self.ready_set.contains(cl) {
            self.ready_set.remove(cl);
            self.nr_ready = self.nr_ready - 1;
        } else {
            assert(self@.ready =~= self@.ready.remove(cl as int));
        }
        if self.answered_set.contains(cl) {
            self.answered_set.remove(cl);
            self.nr_answered = self.nr_answered - 1;
        } else {
            assert(self@.answered =~= self@.answered.remove(cl as int));
        }
    }

    /// The packet that carries block `i`.
    pub fn pack_block(&self, ring: &Vec<u8>, block_size: usize, i: usize) -> (r: Vec<u8>)
        requires
            fits(self.base as int, self.bytes as int, block_size as int, ring@.len() as int),
            i < nr_blocks(self.bytes as int, block_size as int),
        ensures
            r@ == data_packet(self@, ring@, block_size as int, i as int),
    {
        proof {
            lemma_block(self.bytes as int, block_size as int, i as int);
        }
        let offset: usize = i * block_size;
        let left: usize = self.bytes - offset;
        let size: usize = if left < block_size {
            left
        } else {
            block_size
        };
        let msg = DataBlock {
            slice_no: self.slice_no,
            block_no: i as u16,
            bytes: self.bytes as i32,
        };
        let header = msg.pack();
        let data_start: usize = (self.base + offset) % ring.len();
        let mut packet: Vec<u8> = Vec::new();
        append_header(&mut packet, &header);
        append_ring(&mut packet, ring, data_start, size);
        assert(packet@ =~= data_packet(self@, ring@, block_size as int, i as int));
        packet
    }
}

/// The packets that carry the whole slice.
pub open spec fn slice_packets(s: SliceModel, ring: Seq<u8>, block_size: int) -> Seq<Seq<u8>> {
    Seq::new(
        nr_blocks(s.bytes, block_size) as nat,
        |i: int| data_packet(s, ring, block_size, i),
    )
}

/// The packets that carry the whole slice, in order.
pub fn pack_slice(slice: &Slice, ring: &Vec<u8>, block_size: usize) -> (r: Vec<Vec<u8>>)
    requires
        fits(slice.base as int, slice.bytes as int, block_size as int, ring@.len() as int),
    ensures
        rows(r@) == slice_packets(slice@, ring@, block_size as int),
{
    proof {
        lemma_blocks(slice.bytes as int, block_size as int);
    }
    let n: usize = count_blocks(slice.bytes, block_size);
    let mut packets: Vec<Vec<u8>> = Vec::new();
    let mut i: usize = 0;
    while i < n
        invariant
            i <= n,
            n == nr_blocks(slice.bytes as int, block_size as int),
            fits(slice.base as int, slice.bytes as int, block_size as int, ring@.len() as int),
            rows(packets@) == Seq::new(
                i as nat,
                |k: int| data_packet(slice@, ring@, block_size as int, k),
            ),
        decreases n - i,
    {
        let packet: Vec<u8> = slice.pack_block(ring, block_size, i);
        proof {
            lemma_rows_push(packets@, packet);
        }
        packets.push(packet);
        i += 1;
        assert(rows(packets@) =~= Seq::new(
            i as nat,
            |k: int| data_packet(slice@, ring@, block_size as int, k),
        ));
    }
    packets
}

/// Whether block `i` is to be sent again: somebody misses it and it was not
/// sent again yet in this round.
pub open spec fn wanted(s: SliceModel, i: int) -> bool {
    s.rxmit.contains(i) && !s.xmitted.contains(i)
}

/// The packets that repair the first `n` blocks: each wanted block, twice.
pub open spec fn repair_packets(s: SliceModel, ring: Seq<u8>, block_size: int, n: nat) -> Seq<
    Seq<u8>,
>
    decreases n,
{
    if n == 0 {
        Seq::empty()
    } else {
        let head = repair_packets(s, ring, block_size, (n - 1) as nat);
        if wanted(s, n - 1) {
            head + seq![
                data_packet(s, ring, block_size, n - 1),
                data_packet(s, ring, block_size, n - 1),
            ]
        } else {
            head
        }
    }
}

/// The highest of the first `n` blocks that nobody wants again, if it is above
/// `s.last_good`.
pub open spec fn highest_good(s: SliceModel, n: nat) -> int
    decreases n,
{
    if n == 0 {
        s.last_good
    } else {
        let g = highest_good(s, (n - 1) as nat);
        if !wanted(s, n - 1) && n - 1 > g {
            n - 1
        } else {
            g
        }
    }
}

/// The slice after its wanted blocks were sent again.
pub open spec fn repaired(s: SliceModel, block_size: int) -> SliceModel {
    SliceModel {
        xmitted: s.xmitted.union(
            Set::new(|i: int| 0 <= i < nr_blocks(s.bytes, block_size) && wanted(s, i)),
        ),
        last_good: highest_good(s, nr_blocks(s.bytes, block_size) as nat),
        need_rxmit: false,
        ..s
    }
}

/// A retransmission carries nothing but wanted blocks.
pub proof fn law_resent_blocks_are_wanted(
    s: SliceModel,
    ring: Seq<u8>,
    block_size: int,
    n: nat,
    k: int,
)
    requires
        0 <= k < repair_packets(s, ring, block_size, n).len(),
    ensures
        exists|i: int|
            0 <= i < n && #[trigger] wanted(s, i) && repair_packets(s, ring, block_size, n)[k]
                == data_packet(s, ring, block_size, i),
    decreases n,
{
    if n > 0 {
        let head = repair_packets(s, ring, block_size, (n - 1) as nat);
        if k < head.len() {
            law_resent_blocks_are_wanted(s, ring, block_size, (n - 1) as nat, k);
            let i = choose|i: int|
                0 <= i < n - 1 && #[trigger] wanted(s, i) && head[k] == data_packet(
                    s,
                    ring,
                    block_size,
                    i,
                );
            assert(wanted(s, i));
        } else {
            assert(wanted(s, n - 1));
        }
    }
}

/// A retransmission carries each wanted block twice in a row.
pub proof fn law_wanted_blocks_are_resent_twice(
    s: SliceModel,
    ring: Seq<u8>,
    block_size: int,
    n: nat,
    i: int,
)
    requires
        0 <= i < n,
        wanted(s, i),
    ensures
        exists|k: int|
            0 <= k < repair_packets(s, ring, block_size, n).len() - 1 && (
            #[trigger] repair_packets(s, ring, block_size, n)[k]) == data_packet(
                s,
                ring,
                block_size,
                i,
            ) && repair_packets(s, ring, block_size, n)[k + 1] == data_packet(
                s,
                ring,
                block_size,
                i,
            ),
    decreases n,
{
    let head = repair_packets(s, ring, block_size, (n - 1) as nat);
    let all = repair_packets(s, ring, block_size, n);
    let p = data_packet(s, ring, block_size, i);
    if i == n - 1 {
        let k = head.len() as int;
        assert(all[k] == p);
        assert(all[k + 1] == p);
    } else {
        law_wanted_blocks_are_resent_twice(s, ring, block_size, (n - 1) as nat, i);
        let k = choose|k: int| 0 <= k < head.len() - 1 && (#[trigger] head[k]) == p && head[k + 1] == p;
        assert(all[k] == p);
        assert(all[k + 1] == p);
    }
}

/// Sends the wanted blocks again: the packets, in order.
pub fn rexmit_slice(slice: &mut Slice, ring: &Vec<u8>, block_size: usize) -> (r: Vec<Vec<u8>>)
    requires
        old(slice).wf(),
        fits(old(slice).base as int, old(slice).bytes as int, block_size as int, ring@.len() as int),
    ensures
        final(slice).wf(),
        final(slice)@ == repaired(old(slice)@, block_size as int),
        rows(r@) == repair_packets(
            old(slice)@,
            ring@,
            block_size as int,
            nr_blocks(old(slice)@.bytes, block_size as int) as nat,
        ),
        r@.len() <= 2048,
{
    let ghost s = slice@;
    proof {
        lemma_blocks(s.bytes, block_size as int);
    }
    let n: usize = count_blocks(slice.bytes, block_size);
    let mut packets: Vec<Vec<u8>> = Vec::new();
    let mut i: usize = 0;
    assert(s.xmitted =~= s.xmitted.union(Set::new(|k: int| 0 <= k < 0 && wanted(s, k))));
    while i < n
        invariant
            i <= n <= 1024,
            n == nr_blocks(s.bytes, block_size as int),
            s == old(slice)@,
            slice.wf(),
            fits(s.base, s.bytes, block_size as int, ring@.len() as int),
            slice.is_xmitted_map@ == s.xmitted.union(
                Set::new(|k: int| 0 <= k < i && wanted(s, k)),
            ),
            slice.last_good_block == highest_good(s, i as nat),
            slice@ == (SliceModel {
                xmitted: slice.is_xmitted_map@,
                last_good: slice.last_good_block as int,
                ..s
            }),
            rows(packets@) == repair_packets(s, ring@, block_size as int, i as nat),
            packets@.len() <= 2 * i,
        decreases n - i,
    {
        let ghost seen = slice.is_xmitted_map@;
        if !slice.rxmit_map.contains(i) || slice.is_xmitted_map.contains(i) {
            assert(!wanted(s, i as int));
            if i > slice.last_good_block {
                slice.last_good_block = i;
            }
            assert(seen =~= s.xmitted.union(Set::new(|k: int| 0 <= k < i + 1 && wanted(s, k))));
        } else {
            assert(wanted(s, i as int));
            let packet: Vec<u8> = slice.pack_block(ring, block_size, i);
            let again: Vec<u8> = slice.pack_block(ring, block_size, i);
            assert(packet@ == data_packet(s, ring@, block_size as int, i as int));
            assert(again@ == data_packet(s, ring@, block_size as int, i as int));
            let ghost head = rows(packets@);
            proof {
                lemma_rows_push(packets@, packet);
                lemma_rows_push(packets@.push(packet), again);
            }
            packets.push(packet);
            packets.push(again);
            assert(rows(packets@) =~= head + seq![packet@, again@]);
            slice.is_xmitted_map.insert(i);
            assert(slice.is_xmitted_map@ =~= s.xmitted.union(
                Set::new(|k: int| 0 <= k < i + 1 && wanted(s, k)),
            ));
        }
        i += 1;
    }
    slice.need_rxmit = false;
    packets
}

/// Block `i` filled up with zeros to the block size, as it enters the parity.
pub open spec fn padded_block(ring: Seq<u8>, base: int, bytes: int, block_size: int, i: int) -> Seq<
    u8,
> {
    let d = block_data(ring, base, bytes, block_size, i);
    Seq::new(
        block_size as nat,
        |b: int|
            if b < d.len() {
                d[b]
            } else {
                0
            },
    )
}

/// How many of `n` blocks stripe `stripe` has.
pub open spec fn stripe_len(n: int, stripes: int, stripe: int) -> int {
    if stripe >= n {
        0
    } else {
        (n - stripe - 1) / stripes + 1
    }
}

/// The blocks of a stripe: every `stripes`th, from `stripe` on.
pub open spec fn stripe_blocks(
    ring: Seq<u8>,
    base: int,
    bytes: int,
    block_size: int,
    stripes: int,
    stripe: int,
) -> Seq<Seq<u8>> {
    Seq::new(
        stripe_len(nr_blocks(bytes, block_size), stripes, stripe) as nat,
        |k: int| padded_block(ring, base, bytes, block_size, stripe + k * stripes),
    )
}

/// Parity block `r` of a stripe.
pub open spec fn parity_block(blocks: Seq<Seq<u8>>, block_size: int, r: int) -> Seq<u8> {
    Seq::new(block_size as nat, |b: int| parity_byte(blocks, r, b, blocks.len()))
}

/// The parity blocks of a slice. A stripe without blocks leaves its parity
/// blocks as they were.
pub open spec fn slice_parity(s: SliceModel, ring: Seq<u8>, block_size: int, stripes: int) -> Seq<
    Seq<u8>,
> {
    Seq::new(
        s.fec.len(),
        |p: int|
            {
                let blocks = stripe_blocks(ring, s.base, s.bytes, block_size, stripes, p % stripes);
                if blocks.len() > 0 {
                    parity_block(blocks, block_size, p / stripes)
                } else {
                    s.fec[p]
                }
            },
    )
}

/// The places of a stripe's blocks.
pub proof fn lemma_stripe(n: int, stripes: int, stripe: int, k: int)
    requires
        0 <= stripe < stripes,
        0 <= n,
        0 <= k,
    ensures
        k < stripe_len(n, stripes, stripe) <==> stripe + k * stripes < n,
        0 <= stripe_len(n, stripes, stripe) <= n,
        n <= 128 * stripes ==> stripe_len(n, stripes, stripe) <= 128,
{
    if stripe < n {
        let q = (n - stripe - 1) / stripes;
        vstd::arithmetic::div_mod::lemma_fundamental_div_mod(n - stripe - 1, stripes);
        vstd::arithmetic::div_mod::lemma_mod_bound(n - stripe - 1, stripes);
        vstd::arithmetic::div_mod::lemma_div_pos_is_pos(n - stripe - 1, stripes);
        let m = (n - stripe - 1) % stripes;
        assert(stripes * q + m == n - stripe - 1);
        assert((k <= q <==> k * stripes <= stripes * q + m) && q <= stripes * q) by (nonlinear_arith)
            requires
                0 <= m < stripes,
                0 <= q,
                0 <= k,
        ;
        if n <= 128 * stripes && q >= 128 {
            assert(128 * stripes <= stripes * q) by (nonlinear_arith)
                requires
                    q >= 128,
                    stripes > 0,
            ;
        }
    } else {
        assert(k * stripes >= 0) by (nonlinear_arith)
            requires
                k >= 0,
                stripes > 0,
        ;
    }
}

/// Block `i` filled up with zeros.
pub fn read_padded(
    ring: &Vec<u8>,
    base: usize,
    bytes: usize,
    block_size: usize,
    i: usize,
) -> (r: Vec<u8>)
    requires
        fits(base as int, bytes as int, block_size as int, ring@.len() as int),
        i < nr_blocks(bytes as int, block_size as int),
    ensures
        r@ == padded_block(
            ring@,
            base as int,
            bytes as int,
            block_size as int,
            i as int,
        ),
{
    proof {
        lemma_block(bytes as int, block_size as int, i as int);
    }
    let offset: usize = i * block_size;
    let left: usize = bytes - offset;
    let size: usize = if left < block_size {
        left
    } else {
        block_size
    };
    let start: usize = (base + offset) % ring.len();
    let mut block: Vec<u8> = Vec::new();
    append_ring(&mut block, ring, start, size);
    let ghost d = block@;
    assert(d =~= block_data(
        ring@,
        base as int,
        bytes as int,
        block_size as int,
        i as int,
    ));
    while block.len() < block_size
        invariant
            size <= block@.len() <= block_size,
            d.len() == size,
            forall|b: int|
                0 <= b < block@.len() ==> #[trigger] block@[b] == if b < size {
                    d[b]
                } else {
                    0
                },
        decreases block_size - block@.len(),
    {
        block.push(0);
    }
    assert(block@ =~= padded_block(
        ring@,
        base as int,
        bytes as int,
        block_size as int,
        i as int,
    ));
    block
}

/// The blocks of a stripe.
fn read_stripe(
    slice: &Slice,
    ring: &Vec<u8>,
    block_size: usize,
    stripes: usize,
    stripe: usize,
) -> (r: Vec<Vec<u8>>)
    requires
        fits(slice.base as int, slice.bytes as int, block_size as int, ring@.len() as int),
        stripe < stripes <= i32::MAX,
    ensures
        rows(r@) == stripe_blocks(
            ring@,
            slice.base as int,
            slice.bytes as int,
            block_size as int,
            stripes as int,
            stripe as int,
        ),
{
    proof {
        lemma_blocks(slice.bytes as int, block_size as int);
    }
    let n: usize = count_blocks(slice.bytes, block_size);
    let mut blocks: Vec<Vec<u8>> = Vec::new();
    let mut i: usize = stripe;
    assert(0 * stripes == 0) by (nonlinear_arith);
    while i < n
        invariant
            stripe < stripes <= i32::MAX,
            n == nr_blocks(slice.bytes as int, block_size as int),
            n <= 1024,
            i == stripe + blocks@.len() * stripes,
            i < n + stripes,
            fits(slice.base as int, slice.bytes as int, block_size as int, ring@.len() as int),
            blocks@.len() <= stripe_len(n as int, stripes as int, stripe as int),
            rows(blocks@) == Seq::new(
                blocks@.len(),
                |k: int|
                    padded_block(
                        ring@,
                        slice.base as int,
                        slice.bytes as int,
                        block_size as int,
                        stripe + k * stripes,
                    ),
            ),
        decreases n + stripes - i,
    {
        let ghost k = blocks@.len() as int;
        proof {
            lemma_stripe(n as int, stripes as int, stripe as int, k);
            assert((k + 1) * stripes == k * stripes + stripes) by (nonlinear_arith);
        }
        let block: Vec<u8> = read_padded(ring, slice.base, slice.bytes, block_size, i);
        proof {
            lemma_rows_push(blocks@, block);
        }
        blocks.push(block);
        i += stripes;
        assert(rows(blocks@) =~= Seq::new(
            blocks@.len(),
            |k: int|
                padded_block(
                    ring@,
                    slice.base as int,
                    slice.bytes as int,
                    block_size as int,
                    stripe + k * stripes,
                ),
        ));
    }
    proof {
        lemma_stripe(n as int, stripes as int, stripe as int, blocks@.len() as int);
    }
    blocks
}

/// The division of a parity block's number into stripe and row.
proof fn lemma_parity_no(stripes: int, stripe: int, r: int)
    requires
        0 <= stripe < stripes,
        0 <= r,
    ensures
        (stripe + r * stripes) % stripes == stripe,
        (stripe + r * stripes) / stripes == r,
{
    vstd::arithmetic::div_mod::lemma_fundamental_div_mod_converse(
        stripe + r * stripes,
        stripes,
        r,
        stripe,
    );
}

/// Computes the parity of a slice, stripe by stripe.
pub fn fec_encode_slice(
    t: &FecTables,
    slice: &mut Slice,
    ring: &Vec<u8>,
    block_size: usize,
    stripes: usize,
    redundancy: usize,
)
    requires
        old(slice).wf(),
        fits(old(slice).base as int, old(slice).bytes as int, block_size as int, ring@.len() as int),
        0 < stripes <= i32::MAX,
        redundancy <= 128,
        nr_blocks(old(slice).bytes as int, block_size as int) <= 128 * stripes,
        old(slice).fec_data@.len() == stripes * redundancy,
    ensures
        final(slice).wf(),
        final(slice)@ == (SliceModel {
            fec: slice_parity(old(slice)@, ring@, block_size as int, stripes as int),
            ..old(slice)@
        }),
{
    let ghost s = slice@;
    let ghost goal = slice_parity(s, ring@, block_size as int, stripes as int);
    let mut stripe: usize = 0;
    while stripe < stripes
        invariant
            stripe <= stripes,
            0 < stripes <= i32::MAX,
            redundancy <= 128,
            s == old(slice)@,
            goal == slice_parity(s, ring@, block_size as int, stripes as int),
            nr_blocks(s.bytes, block_size as int) <= 128 * stripes,
            fits(s.base, s.bytes, block_size as int, ring@.len() as int),
            s.fec.len() == stripes * redundancy,
            slice.wf(),
            slice.fec_data@.len() == s.fec.len(),
            slice@ == (SliceModel { fec: rows(slice.fec_data@), ..s }),
            forall|p: int|
                0 <= p < s.fec.len() ==> #[trigger] rows(slice.fec_data@)[p] == if p % (
                stripes as int) < stripe {
                    goal[p]
                } else {
                    s.fec[p]
                },
        decreases stripes - stripe,
    {
        let blocks: Vec<Vec<u8>> = read_stripe(slice, ring, block_size, stripes, stripe);
        let ghost model = stripe_blocks(
            ring@,
            s.base,
            s.bytes,
            block_size as int,
            stripes as int,
            stripe as int,
        );
        let ghost mid = rows(slice.fec_data@);
        proof {
            lemma_blocks(s.bytes, block_size as int);
            lemma_stripe(
                nr_blocks(s.bytes, block_size as int),
                stripes as int,
                stripe as int,
                0,
            );
        }
        if blocks.len() > 0 {
            let mut parity: Vec<Vec<u8>> = Vec::new();
            let mut r: usize = 0;
            while r < redundancy
                invariant
                    r <= redundancy,
                    parity@.len() == r,
                    forall|k: int|
                        0 <= k < r ==> (#[trigger] rows(parity@)[k]).len() == block_size,
                decreases redundancy - r,
            {
                let block: Vec<u8> = vec![0u8; block_size];
                proof {
                    lemma_rows_push(parity@, block);
                }
                parity.push(block);
                r += 1;
            }
            assert(blocks@.len() == rows(blocks@).len());
            assert forall|i: int| 0 <= i < rows(blocks@).len() implies block_size
                <= (#[trigger] rows(blocks@)[i]).len() by {
                assert(rows(blocks@)[i] == model[i]);
            }
            fec_encode(t, block_size, &blocks, &mut parity);
            assert forall|k: int| 0 <= k < redundancy implies #[trigger] rows(parity@)[k]
                == parity_block(model, block_size as int, k) by {
                assert(rows(parity@)[k] =~= parity_block(model, block_size as int, k));
            }
            let mut r: usize = 0;
            while r < redundancy
                invariant
                    r <= redundancy,
                    stripe < stripes,
                    0 < stripes <= i32::MAX,
                    redundancy <= 128,
                    parity@.len() == redundancy,
                    s.fec.len() == stripes * redundancy,
                    mid.len() == s.fec.len(),
                    slice.wf(),
                    slice.fec_data@.len() == s.fec.len(),
                    slice@ == (SliceModel { fec: rows(slice.fec_data@), ..s }),
                    forall|k: int|
                        r <= k < redundancy ==> #[trigger] rows(parity@)[k] == parity_block(
                            model,
                            block_size as int,
                            k,
                        ),
                    forall|p: int|
                        0 <= p < s.fec.len() ==> #[trigger] rows(slice.fec_data@)[p] == if p % (
                        stripes as int) == stripe && p / (stripes as int) < r {
                            parity_block(model, block_size as int, p / (stripes as int))
                        } else {
                            mid[p]
                        },
                decreases redundancy - r,
            {
                proof {
                    lemma_parity_no(stripes as int, stripe as int, r as int);
                    assert(stripe + r * stripes < stripes * redundancy) by (nonlinear_arith)
                        requires
                            stripe < stripes,
                            r < redundancy,
                    ;
                }
                assert(stripe + r * stripes < slice.fec_data.len());
                assert(0 <= r * stripes) by (nonlinear_arith)
                    requires
                        r >= 0,
                        stripes >= 0,
                ;
                let p: usize = stripe + r * stripes;
                let mut block: Vec<u8> = Vec::new();
                let ghost parity_before = rows(parity@);
                let ghost fec_before = rows(slice.fec_data@);
                std::mem::swap(&mut block, &mut parity[r]);
                assert(block@ == parity_before[r as int]);
                slice.fec_data.set(p, block);
                proof {
                    assert forall|k: int| r + 1 <= k < redundancy implies #[trigger] rows(parity@)[k]
                        == parity_block(model, block_size as int, k) by {
                        assert(rows(parity@)[k] == parity_before[k]);
                    }
                    assert(rows(slice.fec_data@) =~= fec_before.update(p as int, block@));
                    assert forall|q: int| 0 <= q < s.fec.len() implies #[trigger] rows(
                        slice.fec_data@,
                    )[q] == if q % (stripes as int) == stripe && q / (stripes as int) < r + 1 {
                        parity_block(model, block_size as int, q / (stripes as int))
                    } else {
                        mid[q]
                    } by {
                        vstd::arithmetic::div_mod::lemma_fundamental_div_mod(q, stripes as int);
                        if q != p {
                            assert(rows(slice.fec_data@)[q] == fec_before[q]);
                            if q % (stripes as int) == stripe && q / (stripes as int) == r {
                                assert(stripes * r == r * stripes) by (nonlinear_arith);
                            }
                        }
                    }
                }
                r += 1;
            }
            proof {
                assert forall|p: int| 0 <= p < s.fec.len() implies #[trigger] rows(
                    slice.fec_data@,
                )[p] == if p % (stripes as int) < stripe + 1 {
                    goal[p]
                } else {
                    s.fec[p]
                } by {
                    vstd::arithmetic::div_mod::lemma_fundamental_div_mod(p, stripes as int);
                    vstd::arithmetic::div_mod::lemma_mod_bound(p, stripes as int);
                    let q = p / (stripes as int);
                    assert(q < redundancy) by (nonlinear_arith)
                        requires
                            p < stripes * redundancy,
                            stripes * q <= p,
                            stripes > 0,
                    ;
                    assert(mid[p] == if p % (stripes as int) < stripe {
                        goal[p]
                    } else {
                        s.fec[p]
                    });
                }
            }
        } else {
            proof {
                assert forall|p: int| 0 <= p < s.fec.len() implies #[trigger] rows(
                    slice.fec_data@,
                )[p] == if p % (stripes as int) < stripe + 1 {
                    goal[p]
                } else {
                    s.fec[p]
                } by {
                    assert(mid[p] == if p % (stripes as int) < stripe {
                        goal[p]
                    } else {
                        s.fec[p]
                    });
                }
            }
        }
        stripe += 1;
    }
    proof {
        assert forall|p: int| 0 <= p < s.fec.len() implies #[trigger] rows(slice.fec_data@)[p]
            == goal[p] by {
            vstd::arithmetic::div_mod::lemma_mod_bound(p, stripes as int);
        }
        assert(rows(slice.fec_data@) =~= goal);
    }
}

/// The packet that carries parity block `p`; of its number the low half-word is
/// sent.
pub open spec fn fec_packet(s: SliceModel, stripes: int, p: int) -> Seq<u8> {
    (FecBlock {
        stripes: stripes as i32,
        slice_no: s.slice_no,
        block_no: (p % 65536) as u16,
        bytes: s.bytes as i32,
    }).encoded() + s.fec[p]
}

/// The packets that carry the parity of a slice, in order.
pub fn pack_fec_blocks(slice: &Slice, stripes: usize) -> (r: Vec<Vec<u8>>)
    requires
        stripes <= i32::MAX,
        slice.bytes <= i32::MAX,
    ensures
        rows(r@) == Seq::new(
            slice@.fec.len(),
            |p: int| fec_packet(slice@, stripes as int, p),
        ),
{
    let mut packets: Vec<Vec<u8>> = Vec::new();
    let mut p: usize = 0;
    while p < slice.fec_data.len()
        invariant
            p <= slice.fec_data@.len(),
            stripes <= i32::MAX,
            slice.bytes <= i32::MAX,
            rows(packets@) == Seq::new(
                p as nat,
                |q: int| fec_packet(slice@, stripes as int, q),
            ),
        decreases slice.fec_data@.len() - p,
    {
        let msg = FecBlock {
            stripes: stripes as i32,
            slice_no: slice.slice_no,
            block_no: (p % 65536) as u16,
            bytes: slice.bytes as i32,
        };
        let header = msg.pack();
        let mut packet: Vec<u8> = Vec::new();
        append_header(&mut packet, &header);
        let ghost head = packet@;
        packet.extend_from_slice(slice.fec_data[p].as_slice());
        assert(packet@ =~= head + slice.fec_data@[p as int]@);
        assert(packet@ =~= fec_packet(slice@, stripes as int, p as int));
        proof {
            lemma_rows_push(packets@, packet);
        }
        packets.push(packet);
        p += 1;
        assert(rows(packets@) =~= Seq::new(
            p as nat,
            |q: int| fec_packet(slice@, stripes as int, q),
        ));
    }
    packets
}

/// What counts as the highest block that nobody misses.
proof fn lemma_highest_good(s: SliceModel, n: nat)
    ensures
        highest_good(s, n) >= s.last_good,
        forall|i: int|
            0 <= i < n && !#[trigger] s.rxmit.contains(i) ==> highest_good(s, n) >= i,
        highest_good(s, n) == s.last_good || (0 <= highest_good(s, n) < n && !wanted(
            s,
            highest_good(s, n),
        )),
    decreases n,
{
    if n > 0 {
        lemma_highest_good(s, (n - 1) as nat);
    }
}

/// After blocks were sent again: nobody's wish is left open, each wanted block of the
/// slice was sent in this round, and of the blocks that were not sent again the highest
/// is known, which tells how large a slice may be.
pub proof fn law_what_is_known_after_sending_again(s: SliceModel, block_size: int, i: int)
    requires
        0 < block_size,
        0 <= s.bytes,
        0 <= s.last_good,
    ensures
        ({
            let r = repaired(s, block_size);
            let inside = 0 <= i && i * block_size < s.bytes;
            &&& !r.need_rxmit
            &&& r.xmitted.contains(i) <==> s.xmitted.contains(i) || (inside && s.rxmit.contains(i))
            &&& r.rxmit == s.rxmit && r.ready == s.ready && r.answered == s.answered
            &&& r.rxmit_id == s.rxmit_id && r.slice_no == s.slice_no && r.bytes == s.bytes
            &&& r.last_good >= s.last_good
            &&& inside && !s.rxmit.contains(i) ==> r.last_good >= i
            &&& r.last_good == s.last_good || (r.last_good * block_size < s.bytes && !(
            s.rxmit.contains(r.last_good) && !s.xmitted.contains(r.last_good)))
        }),
{
    let n = nr_blocks(s.bytes, block_size);
    lemma_highest_good(s, n as nat);
    let r = repaired(s, block_size);
    lemma_inside(s.bytes, block_size, i);
    lemma_inside(s.bytes, block_size, r.last_good);
}

/// Which numbers are those of blocks.
pub proof fn lemma_inside(bytes: int, block_size: int, i: int)
    requires
        0 < block_size,
        0 <= bytes,
    ensures
        nr_blocks(bytes, block_size) >= 0,
        i < nr_blocks(bytes, block_size) <==> i * block_size < bytes,
{
    let n = nr_blocks(bytes, block_size);
    vstd::arithmetic::div_mod::lemma_fundamental_div_mod(bytes + block_size - 1, block_size);
    vstd::arithmetic::div_mod::lemma_mod_bound(bytes + block_size - 1, block_size);
    assert(n >= 0) by (nonlinear_arith)
        requires
            n == (bytes + block_size - 1) / block_size,
            block_size > 0,
            bytes >= 0,
    ;
    if i < n {
        assert(i * block_size <= block_size * n - block_size) by (nonlinear_arith)
            requires
                i <= n - 1,
                block_size > 0,
        ;
    } else {
        assert(i * block_size >= block_size * n) by (nonlinear_arith)
            requires
                i >= n,
                block_size > 0,
        ;
    }
}

} // verus!
