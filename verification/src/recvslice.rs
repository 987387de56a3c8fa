//! A slice that is being received, and what parity can restore of it.

use crate::bitmap::{lemma_bits_finite, BitMap};
use crate::fec::{
    below, blocks_of, fec_decode, law_lost_blocks_recovered,
    law_restored_data_matches_parity, parity_byte, restored, FecTables,
};
use crate::fifo::{ring_write, Fifo};
use crate::matrix::{lemma_rows_push, rows};
use crate::sendslice::{
    block_place, count_blocks, fits, lemma_block, lemma_blocks, lemma_stripe, nr_blocks, padded_block,
    read_padded, stripe_len,
};
use vstd::prelude::*;

verus! {

/// What becomes of a slice.
#[derive(Debug, Clone, Copy, PartialEq, Eq, Structural)]
pub enum RxState {
    Free,
    Receiving,
    Done,
}

/// A slice in the receiver's ring.
pub struct RxSlice {
    pub state: RxState,
    /// Where its data starts in the ring.
    pub base: usize,
    pub slice_no: i32,
    /// How many blocks of data are there.
    pub data_blocks_transferred: usize,
    pub bytes: usize,
    pub bytes_known: bool,
    /// The blocks that are there.
    pub have: BitMap,
    /// The numbers of the parity blocks that are there, and their data.
    pub fec_block_nos: Vec<u32>,
    pub fec_blocks: Vec<Vec<u8>>,
    pub fec_stripes: usize,
}

/// What there is to know of a slice.
#[verifier::ext_equal]
pub struct RxModel {
    pub state: RxState,
    pub base: int,
    pub slice_no: i32,
    pub bytes: int,
    pub bytes_known: bool,
    pub have: Set<int>,
    pub fec_nos: Seq<u32>,
    pub fec_blocks: Seq<Seq<u8>>,
    pub stripes: int,
}

impl View for RxSlice {
    type V = RxModel;

    open spec fn view(&self) -> RxModel {
        RxModel {
            state: self.state,
            base: self.base as int,
            slice_no: self.slice_no,
            bytes: self.bytes as int,
            bytes_known: self.bytes_known,
            have: self.have@,
            fec_nos: self.fec_block_nos@,
            fec_blocks: rows(self.fec_blocks@),
            stripes: self.fec_stripes as int,
        }
    }
}

impl RxModel {
    /// Every parity block has its number, and the stripes are in range.
    pub open spec fn paired(self) -> bool {
        &&& self.fec_nos.len() == self.fec_blocks.len()
        &&& 0 <= self.stripes <= 32767
    }

    /// Whether parity block `k` is of use: its row is in range, and it is a whole
    /// block.
    pub open spec fn usable(self, block_size: int, k: int) -> bool {
        &&& self.fec_nos[k] as int / self.stripes < 128
        &&& block_size <= self.fec_blocks[k].len()
    }

    /// Whether parity block `k` belongs to stripe `stripe` and is of use.
    pub open spec fn serves(self, block_size: int, stripe: int, k: int) -> bool {
        self.fec_nos[k] as int % self.stripes == stripe && self.usable(block_size, k)
    }

    /// All blocks of data are there, by their number.
    pub open spec fn all_there(self, block_size: int) -> bool {
        self.have.len() >= nr_blocks(self.bytes, block_size)
    }

    /// Place `j` of stripe `stripe`, as a block of the slice.
    pub open spec fn at(self, stripe: int, j: int) -> int {
        stripe + j * self.stripes
    }

    /// The places of stripe `stripe`, among the first `n`, whose blocks miss.
    pub open spec fn lost(self, stripe: int, n: nat) -> Seq<u32>
        decreases n,
    {
        if n == 0 {
            Seq::empty()
        } else if self.have.contains(self.at(stripe, n - 1)) {
            self.lost(stripe, (n - 1) as nat)
        } else {
            self.lost(stripe, (n - 1) as nat).push((n - 1) as u32)
        }
    }

    /// The rows of the parity blocks of stripe `stripe` that are of use, among the
    /// first `n` that came.
    pub open spec fn parity_rows(self, block_size: int, stripe: int, n: nat) -> Seq<u32>
        decreases n,
    {
        if n == 0 {
            Seq::empty()
        } else if self.serves(block_size, stripe, n - 1) {
            self.parity_rows(block_size, stripe, (n - 1) as nat).push(
                (self.fec_nos[n - 1] as int / self.stripes) as u32,
            )
        } else {
            self.parity_rows(block_size, stripe, (n - 1) as nat)
        }
    }

    /// The parity blocks of stripe `stripe` that are of use, among the first `n` that
    /// came.
    pub open spec fn parity_data(self, block_size: int, stripe: int, n: nat) -> Seq<Seq<u8>>
        decreases n,
    {
        if n == 0 {
            Seq::empty()
        } else if self.serves(block_size, stripe, n - 1) {
            self.parity_data(block_size, stripe, (n - 1) as nat).push(self.fec_blocks[n - 1])
        } else {
            self.parity_data(block_size, stripe, (n - 1) as nat)
        }
    }

    /// How many blocks stripe `stripe` has.
    pub open spec fn stripe_size(self, block_size: int, stripe: int) -> nat {
        stripe_len(nr_blocks(self.bytes, block_size), self.stripes, stripe) as nat
    }

    /// The blocks of stripe `stripe` as they entered the parity: those that are
    /// there filled up with zeros, and zeros for those that miss.
    pub open spec fn stripe_data(self, ring: Seq<u8>, block_size: int, stripe: int) -> Seq<Seq<u8>> {
        Seq::new(
            self.stripe_size(block_size, stripe),
            |j: int|
                if self.have.contains(self.at(stripe, j)) {
                    padded_block(ring, self.base, self.bytes, block_size, self.at(stripe, j))
                } else {
                    Seq::new(block_size as nat, |b: int| 0u8)
                },
        )
    }

    /// Whether stripe `stripe` misses blocks that its parity can restore: it has no
    /// more than 128 blocks, and parity in as many different rows as blocks miss.
    pub open spec fn repairable(self, block_size: int, stripe: int) -> bool {
        let lost = self.lost(stripe, self.stripe_size(block_size, stripe));
        let rows = self.parity_rows(block_size, stripe, self.fec_nos.len());
        &&& self.stripe_size(block_size, stripe) <= 128
        &&& 0 < lost.len() <= rows.len()
        &&& rows.take(lost.len() as int).no_duplicates()
    }

    /// The blocks of stripe `stripe` with those that missed restored.
    pub open spec fn repaired_data(self, ring: Seq<u8>, block_size: int, stripe: int) -> Seq<
        Seq<u8>,
    > {
        let lost = self.lost(stripe, self.stripe_size(block_size, stripe));
        let n = lost.len() as int;
        decoded(
            block_size,
            self.stripe_data(ring, block_size, stripe),
            self.parity_data(block_size, stripe, self.fec_nos.len()).take(n),
            self.parity_rows(block_size, stripe, self.fec_nos.len()).take(n),
            lost,
        )
    }

    /// The slice after stripe `stripe` was repaired as far as can be.
    pub open spec fn stripe_repaired(self, block_size: int, stripe: int) -> RxModel {
        if self.repairable(block_size, stripe) {
            RxModel {
                have: self.have.union(
                    Set::new(
                        |i: int|
                            exists|j: int|
                                0 <= j < self.stripe_size(block_size, stripe) && #[trigger] self.at(
                                    stripe,
                                    j,
                                ) == i,
                    ),
                ),
                ..self
            }
        } else {
            self
        }
    }

    /// The ring after stripe `stripe` was repaired as far as can be.
    pub open spec fn ring_repaired(self, ring: Seq<u8>, block_size: int, stripe: int) -> Seq<u8> {
        if self.repairable(block_size, stripe) {
            let lost = self.lost(stripe, self.stripe_size(block_size, stripe));
            self.stored(
                ring,
                block_size,
                stripe,
                self.repaired_data(ring, block_size, stripe),
                lost,
                lost.len(),
            )
        } else {
            ring
        }
    }

    /// The ring with the first `n` of the blocks `lost` written from `data`.
    pub open spec fn stored(
        self,
        ring: Seq<u8>,
        block_size: int,
        stripe: int,
        data: Seq<Seq<u8>>,
        lost: Seq<u32>,
        n: nat,
    ) -> Seq<u8>
        decreases n,
    {
        if n == 0 {
            ring
        } else {
            let before = self.stored(ring, block_size, stripe, data, lost, (n - 1) as nat);
            let j = lost[n - 1] as int;
            ring_write(
                before,
                block_place(self.base, block_size, self.at(stripe, j), before.len() as int),
                data[j],
            )
        }
    }

    /// The slice after its first `n` stripes were repaired as far as can be.
    pub open spec fn recovered(self, block_size: int, n: nat) -> RxModel
        decreases n,
    {
        if n == 0 {
            self
        } else {
            self.recovered(block_size, (n - 1) as nat).stripe_repaired(block_size, n - 1)
        }
    }

    /// The ring after the first `n` stripes were repaired as far as can be.
    pub open spec fn recovered_ring(self, ring: Seq<u8>, block_size: int, n: nat) -> Seq<u8>
        decreases n,
    {
        if n == 0 {
            ring
        } else {
            self.recovered(block_size, (n - 1) as nat).ring_repaired(
                self.recovered_ring(ring, block_size, (n - 1) as nat),
                block_size,
                n - 1,
            )
        }
    }
}

/// The blocks that the parity blocks `fec` make of `before`.
pub open spec fn decoded(
    size: int,
    before: Seq<Seq<u8>>,
    fec: Seq<Seq<u8>>,
    nos: Seq<u32>,
    erased: Seq<u32>,
) -> Seq<Seq<u8>> {
    choose|after: Seq<Seq<u8>>| restored(size, before, fec, nos, erased, after)
}

/// Parity leaves no choice: what is restored is what `decoded` says.
pub proof fn lemma_decoded(
    size: int,
    before: Seq<Seq<u8>>,
    fec: Seq<Seq<u8>>,
    nos: Seq<u32>,
    erased: Seq<u32>,
    after: Seq<Seq<u8>>,
)
    requires
        restored(size, before, fec, nos, erased, after),
        before.len() <= 128,
        nos.len() == erased.len(),
        below(nos, 128),
        nos.no_duplicates(),
        erased.no_duplicates(),
        below(erased, before.len() as int),
        forall|c: int| 0 <= c < before.len() ==> (#[trigger] before[c]).len() == size,
    ensures
        decoded(size, before, fec, nos, erased) == after,
{
    let other = decoded(size, before, fec, nos, erased);
    assert(restored(size, before, fec, nos, erased, other));
    assert forall|c: int, b: int|
        0 <= c < other.len() && !erased.contains(c as u32) && 0 <= b < size implies
        #[trigger] before[c][b] == other[c][b] by {
        assert(other[c] == before[c]);
    }
    assert forall|j: int, b: int| 0 <= j < nos.len() && 0 <= b < size implies #[trigger] fec[j][b]
        == parity_byte(other, nos[j] as int, b, other.len()) by {
        law_restored_data_matches_parity(size, before, fec, nos, erased, other, j, b);
    }
    law_lost_blocks_recovered(size, other, before, fec, nos, erased, after);
    assert forall|c: int| 0 <= c < before.len() implies after[c] == other[c] by {
        assert(after[c].len() == before[c].len());
        assert(other[c].len() == before[c].len());
        assert forall|b: int| 0 <= b < size implies after[c][b] == other[c][b] by {
            assert(after[c][b] == other[c][b]);
        }
        assert(after[c] =~= other[c]);
    }
    assert(after =~= other);
}

/// Lost places are listed once each, and are those whose blocks miss.
pub proof fn lemma_lost(s: RxModel, stripe: int, n: nat)
    requires
        n <= u32::MAX,
    ensures
        s.lost(stripe, n).no_duplicates(),
        below(s.lost(stripe, n), n as int),
        s.lost(stripe, n).len() <= n,
        forall|k: int|
            0 <= k < s.lost(stripe, n).len() ==> !s.have.contains(
                s.at(stripe, (#[trigger] s.lost(stripe, n)[k]) as int),
            ),
        forall|j: int|
            0 <= j < n && !s.have.contains(#[trigger] s.at(stripe, j)) ==> s.lost(
                stripe,
                n,
            ).contains(j as u32),
    decreases n,
{
    if n > 0 {
        let m = (n - 1) as nat;
        lemma_lost(s, stripe, m);
        let head = s.lost(stripe, m);
        let all = s.lost(stripe, n);
        assert forall|k: int| 0 <= k < all.len() implies (#[trigger] all[k]) < n as int by {
            if k < head.len() {
                assert(head[k] < m as int);
            }
        }
        assert forall|i: int, j: int| 0 <= i < all.len() && 0 <= j < all.len() && i != j implies all[i]
            != all[j] by {
            if i < head.len() && j < head.len() {
                assert(head[i] != head[j]);
            } else if i < head.len() {
                assert(head[i] < m as int);
            } else {
                assert(head[j] < m as int);
            }
        }
        assert forall|k: int| 0 <= k < all.len() implies !s.have.contains(
            s.at(stripe, (#[trigger] all[k]) as int),
        ) by {
            if k < head.len() {
                assert(all[k] == head[k]);
            }
        }
        assert forall|j: int|
            0 <= j < n && !s.have.contains(#[trigger] s.at(stripe, j)) implies all.contains(
            j as u32,
        ) by {
            if j < m {
                let k = choose|k: int| 0 <= k < head.len() && head[k] == j as u32;
                assert(head.contains(j as u32));
                assert(all[k] == j as u32);
            } else {
                assert(all[head.len() as int] == j as u32);
            }
        }
    }
}

/// The parity blocks of a stripe are as many as their rows, in range and long
/// enough.
pub proof fn lemma_parity(s: RxModel, block_size: int, stripe: int, n: nat)
    requires
        s.paired(),
        s.stripes > 0,
        n <= s.fec_nos.len(),
    ensures
        s.parity_rows(block_size, stripe, n).len() == s.parity_data(block_size, stripe, n).len() <= n,
        below(s.parity_rows(block_size, stripe, n), 128),
        blocks_of(s.parity_data(block_size, stripe, n), block_size),
    decreases n,
{
    if n > 0 {
        lemma_parity(s, block_size, stripe, (n - 1) as nat);
        assert(0 <= s.fec_nos[n - 1] as int / s.stripes) by {
            vstd::arithmetic::div_mod::lemma_div_pos_is_pos(s.fec_nos[n - 1] as int, s.stripes);
        }
    }
}

/// Storing blocks keeps the length of the ring.
pub proof fn lemma_stored_len(
    s: RxModel,
    ring: Seq<u8>,
    block_size: int,
    stripe: int,
    data: Seq<Seq<u8>>,
    lost: Seq<u32>,
    n: nat,
)
    ensures
        s.stored(ring, block_size, stripe, data, lost, n).len() == ring.len(),
    decreases n,
{
    if n > 0 {
        lemma_stored_len(s, ring, block_size, stripe, data, lost, (n - 1) as nat);
    }
}

/// Repairing changes what is there and nothing else.
pub proof fn lemma_recovered(s: RxModel, ring: Seq<u8>, block_size: int, n: nat)
    ensures
        ({
            let r = s.recovered(block_size, n);
            &&& s.have.subset_of(r.have)
            &&& r == (RxModel { have: r.have, ..s })
        }),
        s.recovered_ring(ring, block_size, n).len() == ring.len(),
    decreases n,
{
    if n > 0 {
        let m = (n - 1) as nat;
        lemma_recovered(s, ring, block_size, m);
        let r = s.recovered(block_size, m);
        let before = s.recovered_ring(ring, block_size, m);
        if r.repairable(block_size, n - 1) {
            let lost = r.lost(n - 1, r.stripe_size(block_size, n - 1));
            lemma_stored_len(
                r,
                before,
                block_size,
                n - 1,
                r.repaired_data(before, block_size, n - 1),
                lost,
                lost.len(),
            );
        }
    }
}

impl RxSlice {
    /// The count is that of the set.
    pub open spec fn wf(&self) -> bool {
        &&& self.data_blocks_transferred == self.have@.len()
        &&& self.fec_block_nos@.len() == self.fec_blocks@.len()
    }

    /// A slice that is not in use.
    pub fn new() -> (r: Self)
        ensures
            r.wf(),
            r@ == (RxModel {
                state: RxState::Free,
                base: 0,
                slice_no: -1i32,
                bytes: 0,
                bytes_known: false,
                have: Set::empty(),
                fec_nos: Seq::empty(),
                fec_blocks: Seq::empty(),
                stripes: 0,
            }),
    {
        let r = RxSlice {
            state: RxState::Free,
            base: 0,
            slice_no: -1,
            data_blocks_transferred: 0,
            bytes: 0,
            bytes_known: false,
            have: BitMap::empty(),
            fec_block_nos: Vec::new(),
            fec_blocks: Vec::new(),
            fec_stripes: 0,
        };
        assert(r@.fec_blocks =~= Seq::<Seq<u8>>::empty());
        r
    }

    /// Begins to receive slice `slice_no`.
    pub fn open(&mut self, slice_no: i32, base: usize)
        ensures
            final(self).wf(),
            final(self)@ == (RxModel {
                state: RxState::Receiving,
                base: base as int,
                slice_no,
                bytes: 0,
                bytes_known: false,
                have: Set::empty(),
                fec_nos: Seq::empty(),
                fec_blocks: Seq::empty(),
                stripes: 0,
            }),
    {
        self.state = RxState::Receiving;
        self.slice_no = slice_no;
        self.base = base;
        self.data_blocks_transferred = 0;
        self.bytes = 0;
        self.bytes_known = false;
        self.have = BitMap::empty();
        self.fec_block_nos = Vec::new();
        self.fec_blocks = Vec::new();
        self.fec_stripes = 0;
        assert(self@.fec_blocks =~= Seq::<Seq<u8>>::empty());
    }

    /// Notes that block `i` is there.
    pub fn add_block(&mut self, i: usize)
        requires
            old(self).wf(),
            i < 1024,
        ensures
            final(self).wf(),
            final(self)@ == (RxModel { have: old(self)@.have.insert(i as int), ..old(self)@ }),
    {
        proof {
            lemma_bits_finite(self.have.bytes@);
        }
        if self.have.contains(i) {
            assert(self@.have =~= self@.have.insert(i as int));
        } else {
            self.have.insert(i);
            proof {
                lemma_bits_finite(self.have.bytes@);
            }
            self.data_blocks_transferred = self.data_blocks_transferred + 1;
        }
    }

    /// The places of stripe `stripe` whose blocks miss.
    fn find_lost(&self, block_size: usize, stripe: usize) -> (r: Vec<u32>)
        requires
            0 < block_size,
            0 <= self@.bytes <= block_size * 1024,
            block_size * 1024 <= i32::MAX,
            stripe < self.fec_stripes <= 32767,
        ensures
            r@ == self@.lost(stripe as int, self@.stripe_size(block_size as int, stripe as int)),
    {
        proof {
            lemma_blocks(self@.bytes, block_size as int);
        }
        let n: usize = count_blocks(self.bytes, block_size);
        let mut r: Vec<u32> = Vec::new();
        let mut j: usize = 0;
        let mut i: usize = stripe;
        assert(0 * self.fec_stripes == 0) by (nonlinear_arith);
        while i < n
            invariant
                n == nr_blocks(self@.bytes, block_size as int),
                n <= 1024,
                stripe < self.fec_stripes <= 32767,
                i == self@.at(stripe as int, j as int),
                j <= self@.stripe_size(block_size as int, stripe as int),
                self@.stripe_size(block_size as int, stripe as int) <= 1024,
                r@ == self@.lost(stripe as int, j as nat),
                j <= i < n + self.fec_stripes,
            decreases n + self.fec_stripes - i,
        {
            proof {
                lemma_stripe(n as int, self.fec_stripes as int, stripe as int, j as int);
                assert((j + 1) * self.fec_stripes == j * self.fec_stripes + self.fec_stripes)
                    by (nonlinear_arith);
            }
            if !self.have.contains(i) {
                r.push(j as u32);
            }
            j += 1;
            i += self.fec_stripes;
        }
        proof {
            lemma_stripe(n as int, self.fec_stripes as int, stripe as int, j as int);
        }
        r
    }

    /// The rows of the first parity blocks of stripe `stripe`, and the blocks:
    /// `needed` of them, or fewer if fewer came.
    fn find_parity(&self, stripe: usize, needed: usize, block_size: usize) -> (r: (
        Vec<u32>,
        Vec<Vec<u8>>,
    ))
        requires
            self.wf(),
            self@.paired(),
            0 < self.fec_stripes,
        ensures
            ({
                let rows_all = self@.parity_rows(block_size as int, stripe as int, self@.fec_nos.len());
                let data_all = self@.parity_data(block_size as int, stripe as int, self@.fec_nos.len());
                if rows_all.len() >= needed {
                    &&& r.0@ == rows_all.take(needed as int)
                    &&& rows(r.1@) == data_all.take(needed as int)
                } else {
                    r.0@.len() < needed
                }
            }),
    {
        let mut nos: Vec<u32> = Vec::new();
        let mut blocks: Vec<Vec<u8>> = Vec::new();
        let mut k: usize = 0;
        let ghost s = self@;
        assert(rows(blocks@) =~= s.parity_data(block_size as int, stripe as int, 0));
        while k < self.fec_block_nos.len() && nos.len() < needed
            invariant
                k <= self.fec_block_nos@.len(),
                s == self@,
                self.wf(),
                s.paired(),
                0 < self.fec_stripes,
                nos@.len() <= needed,
                nos@ == s.parity_rows(block_size as int, stripe as int, k as nat),
                rows(blocks@) == s.parity_data(block_size as int, stripe as int, k as nat),
            decreases self.fec_block_nos@.len() - k,
        {
            let no: u32 = self.fec_block_nos[k];
            assert(self.fec_blocks@[k as int]@ == s.fec_blocks[k as int]);
            if no as usize % self.fec_stripes == stripe && no as usize / self.fec_stripes < 128
                && self.fec_blocks[k].len() >= block_size {
                let block: Vec<u8> = vstd::slice::slice_to_vec(self.fec_blocks[k].as_slice());
                assert(block@ == s.fec_blocks[k as int]);
                proof {
                    lemma_rows_push(blocks@, block);
                }
                nos.push((no as usize / self.fec_stripes) as u32);
                blocks.push(block);
            }
            k += 1;
        }
        proof {
            lemma_more_parity(s, block_size as int, stripe as int, k as nat, s.fec_nos.len());
            lemma_parity(s, block_size as int, stripe as int, k as nat);
            lemma_parity(s, block_size as int, stripe as int, s.fec_nos.len());
            let rows_all = s.parity_rows(block_size as int, stripe as int, s.fec_nos.len());
            let data_all = s.parity_data(block_size as int, stripe as int, s.fec_nos.len());
            if rows_all.len() >= needed {
                assert(nos@.len() == needed) by {
                    if nos@.len() < needed {
                        assert(k == self.fec_block_nos@.len());
                    }
                }
                assert(nos@ =~= rows_all.take(needed as int));
                assert(rows(blocks@) =~= data_all.take(needed as int));
            } else {
                assert(nos@.len() <= rows_all.len());
            }
        }
        (nos, blocks)
    }

    /// The blocks of stripe `stripe`, zeros for those that miss.
    fn read_stripe(&self, fifo: &Fifo, block_size: usize, stripe: usize) -> (r: Vec<Vec<u8>>)
        requires
            fifo.wf(),
            fits(self@.base, self@.bytes, block_size as int, fifo.data_buf_size as int),
            stripe < self.fec_stripes <= 32767,
        ensures
            rows(r@) == self@.stripe_data(fifo.buffer@, block_size as int, stripe as int),
    {
        proof {
            lemma_blocks(self@.bytes, block_size as int);
        }
        let ghost s = self@;
        let n: usize = count_blocks(self.bytes, block_size);
        let mut r: Vec<Vec<u8>> = Vec::new();
        let mut i: usize = stripe;
        assert(0 * self.fec_stripes == 0) by (nonlinear_arith);
        while i < n
            invariant
                s == self@,
                n == nr_blocks(s.bytes, block_size as int),
                n <= 1024,
                stripe < self.fec_stripes <= 32767,
                fifo.wf(),
                fits(s.base, s.bytes, block_size as int, fifo.data_buf_size as int),
                i == s.at(stripe as int, r@.len() as int),
                i < n + self.fec_stripes,
                r@.len() <= s.stripe_size(block_size as int, stripe as int),
                rows(r@) == s.stripe_data(fifo.buffer@, block_size as int, stripe as int).take(
                    r@.len() as int,
                ),
            decreases n + self.fec_stripes - i,
        {
            let ghost j = r@.len() as int;
            proof {
                lemma_stripe(n as int, self.fec_stripes as int, stripe as int, j);
                lemma_block(s.bytes, block_size as int, i as int);
                assert((j + 1) * self.fec_stripes == j * self.fec_stripes + self.fec_stripes)
                    by (nonlinear_arith);
            }
            let ghost all = s.stripe_data(fifo.buffer@, block_size as int, stripe as int);
            let block: Vec<u8> = if self.have.contains(i) {
                read_padded(&fifo.buffer, self.base, self.bytes, block_size, i)
            } else {
                vec![0u8; block_size]
            };
            assert(!s.have.contains(i as int) ==> block@ =~= Seq::new(
                block_size as nat,
                |b: int| 0u8,
            ));
            assert(block@ == all[j]);
            proof {
                lemma_rows_push(r@, block);
            }
            r.push(block);
            i += self.fec_stripes;
            assert(rows(r@) =~= all.take(j + 1));
        }
        proof {
            lemma_stripe(n as int, self.fec_stripes as int, stripe as int, r@.len() as int);
            let all = s.stripe_data(fifo.buffer@, block_size as int, stripe as int);
            assert(all.take(all.len() as int) =~= all);
        }
        r
    }

    /// Repairs stripe `stripe` as far as can be.
    fn repair_stripe(&mut self, t: &FecTables, fifo: &mut Fifo, block_size: usize, stripe: usize)
        requires
            old(self).wf(),
            old(fifo).wf(),
            fits(
                old(self)@.base,
                old(self)@.bytes,
                block_size as int,
                old(fifo).data_buf_size as int,
            ),
            old(self)@.paired(),
            stripe < old(self).fec_stripes,
        ensures
            final(self).wf(),
            final(fifo).wf(),
            final(self)@ == old(self)@.stripe_repaired(block_size as int, stripe as int),
            final(fifo).buffer@ == old(self)@.ring_repaired(
                old(fifo).buffer@,
                block_size as int,
                stripe as int,
            ),
            final(fifo).data_buf_size == old(fifo).data_buf_size,
            final(fifo).free_mem_queue == old(fifo).free_mem_queue,
            final(fifo).data == old(fifo).data,
    {
        let ghost s = self@;
        let ghost ring = fifo.buffer@;
        let ghost bs = block_size as int;
        let ghost size = s.stripe_size(bs, stripe as int);
        proof {
            lemma_blocks(s.bytes, bs);
            lemma_stripe(nr_blocks(s.bytes, bs), s.stripes, stripe as int, 0);
            lemma_lost(s, stripe as int, size);
            lemma_parity(s, bs, stripe as int, s.fec_nos.len());
        }
        let lost: Vec<u32> = self.find_lost(block_size, stripe);
        let needed: usize = lost.len();
        if needed == 0 {
            return ;
        }
        let (nos, blocks) = self.find_parity(stripe, needed, block_size);
        if nos.len() < needed {
            return ;
        }
        let mut data: Vec<Vec<u8>> = self.read_stripe(fifo, block_size, stripe);
        let ghost before = rows(data@);
        assert(data@.len() == before.len());
        if data.len() > 128 {
            return ;
        }
        proof {
            assert(blocks@.len() == rows(blocks@).len());
            assert forall|i: int| 0 <= i < rows(blocks@).len() implies bs <= (#[trigger] rows(
                blocks@,
            )[i]).len() by {
                assert(rows(blocks@)[i] == s.parity_data(bs, stripe as int, s.fec_nos.len())[i]);
            }
            assert forall|i: int| 0 <= i < nos@.len() implies (#[trigger] nos@[i]) < 128 by {
                assert(nos@[i] == s.parity_rows(bs, stripe as int, s.fec_nos.len())[i]);
            }
            assert forall|c: int| 0 <= c < before.len() implies (#[trigger] before[c]).len()
                == bs by {}
        }
        let ok: bool = fec_decode(
            t,
            block_size,
            &mut data,
            &blocks,
            nos.as_slice(),
            lost.as_slice(),
        );
        if !ok {
            return ;
        }
        let ghost after = rows(data@);
        proof {
            lemma_decoded(bs, before, rows(blocks@), nos@, lost@, after);
            assert(after == s.repaired_data(ring, bs, stripe as int));
        }
        let mut k: usize = 0;
        assert(s.have =~= s.have.union(placed(s, stripe as int, lost@, 0)));
        while k < needed
            invariant
                k <= needed,
                needed == lost@.len(),
                bs == block_size,
                self.wf(),
                fifo.wf(),
                fifo.buffer@.len() == ring.len(),
                fits(s.base, s.bytes, bs, ring.len() as int),
                fifo.data_buf_size == old(fifo).data_buf_size,
                fifo.data_buf_size == ring.len(),
                fifo.free_mem_queue == old(fifo).free_mem_queue,
                fifo.data == old(fifo).data,
                stripe < s.stripes,
                after.len() == size,
                data@.len() == size,
                size == s.stripe_size(bs, stripe as int),
                nr_blocks(s.bytes, bs) <= 1024,
                after == rows(data@),
                forall|c: int| 0 <= c < size ==> (#[trigger] after[c]).len() == bs,
                below(lost@, size as int),
                self@ == (RxModel {
                    have: s.have.union(placed(s, stripe as int, lost@, k as int)),
                    ..s
                }),
                fifo.buffer@ == s.stored(ring, bs, stripe as int, after, lost@, k as nat),
            decreases needed - k,
        {
            let j: usize = lost[k] as usize;
            let ghost i = s.at(stripe as int, j as int);
            proof {
                assert(lost@[k as int] < size as int);
                lemma_stripe(nr_blocks(s.bytes, bs), s.stripes, stripe as int, j as int);
                lemma_block(s.bytes, bs, i);
                assert(0 <= j * s.stripes) by (nonlinear_arith)
                    requires
                        0 <= j,
                        0 <= s.stripes,
                ;
                assert(after[j as int].len() == bs);
                assert(data@[j as int]@ == after[j as int]);
            }
            let gi: usize = stripe + j * self.fec_stripes;
            let data_start: usize = (self.base + gi * block_size) % fifo.data_buf_size;
            fifo.write_at(data_start, data[j].as_slice());
            self.add_block(gi);
            k += 1;
            proof {
                assert(self@.have =~= s.have.union(placed(s, stripe as int, lost@, k as int)));
            }
        }
        proof {
            let goal = s.stripe_repaired(bs, stripe as int);
            assert(s.repairable(bs, stripe as int));
            assert forall|i: int| self@.have.contains(i) <==> goal.have.contains(i) by {
                if goal.have.contains(i) && !s.have.contains(i) {
                    let j = choose|j: int| 0 <= j < size && #[trigger] s.at(stripe as int, j) == i;
                    assert(lost@.contains(j as u32));
                    let n = choose|n: int| 0 <= n < lost@.len() && lost@[n] == j as u32;
                    assert(s.at(stripe as int, lost@[n] as int) == i);
                }
                if self@.have.contains(i) && !s.have.contains(i) {
                    let n = choose|n: int|
                        0 <= n < lost@.len() && #[trigger] s.at(stripe as int, lost@[n] as int)
                            == i;
                    assert(lost@[n] < size as int);
                    assert(s.at(stripe as int, lost@[n] as int) == i);
                }
            }
            assert(self@.have =~= goal.have);
        }
    }

    /// Repairs all stripes as far as can be.
    pub fn recover(&mut self, t: &FecTables, fifo: &mut Fifo, block_size: usize)
        requires
            old(self).wf(),
            old(fifo).wf(),
            fits(
                old(self)@.base,
                old(self)@.bytes,
                block_size as int,
                old(fifo).data_buf_size as int,
            ),
            old(self)@.paired(),
        ensures
            final(self).wf(),
            final(fifo).wf(),
            final(self)@ == old(self)@.recovered(block_size as int, old(self)@.stripes as nat),
            final(fifo).buffer@ == old(self)@.recovered_ring(
                old(fifo).buffer@,
                block_size as int,
                old(self)@.stripes as nat,
            ),
            final(fifo).data_buf_size == old(fifo).data_buf_size,
            final(fifo).free_mem_queue == old(fifo).free_mem_queue,
            final(fifo).data == old(fifo).data,
    {
        let ghost s = self@;
        let ghost ring = fifo.buffer@;
        let mut stripe: usize = 0;
        while stripe < self.fec_stripes
            invariant
                stripe <= self.fec_stripes,
                self.wf(),
                fifo.wf(),
                s == old(self)@,
                ring == old(fifo).buffer@,
                self@ == s.recovered(block_size as int, stripe as nat),
                self@.stripes == s.stripes,
                fits(s.base, s.bytes, block_size as int, fifo.data_buf_size as int),
                s.paired(),
                fifo.buffer@ == s.recovered_ring(ring, block_size as int, stripe as nat),
                fifo.data_buf_size == old(fifo).data_buf_size,
                fifo.free_mem_queue == old(fifo).free_mem_queue,
                fifo.data == old(fifo).data,
            decreases self.fec_stripes - stripe,
        {
            proof {
                lemma_recovered(s, ring, block_size as int, stripe as nat);
            }
            self.repair_stripe(t, fifo, block_size, stripe);
            stripe += 1;
            proof {
                lemma_recovered(s, ring, block_size as int, stripe as nat);
            }
        }
    }
}

/// The blocks of the first `n` of the places `lost` of stripe `stripe`.
pub open spec fn placed(s: RxModel, stripe: int, lost: Seq<u32>, n: int) -> Set<int> {
    Set::new(
        |i: int| exists|k: int| 0 <= k < n && #[trigger] s.at(stripe, lost[k] as int) == i,
    )
}

/// More parity blocks come after those that came.
proof fn lemma_more_parity(s: RxModel, block_size: int, stripe: int, k: nat, n: nat)
    requires
        k <= n,
    ensures
        s.parity_rows(block_size, stripe, k).len() <= s.parity_rows(block_size, stripe, n).len(),
        s.parity_rows(block_size, stripe, n).take(
            s.parity_rows(block_size, stripe, k).len() as int,
        ) == s.parity_rows(block_size, stripe, k),
        s.parity_data(block_size, stripe, k).len() <= s.parity_data(block_size, stripe, n).len(),
        s.parity_data(block_size, stripe, n).take(
            s.parity_data(block_size, stripe, k).len() as int,
        ) == s.parity_data(block_size, stripe, k),
    decreases n,
{
    if k < n {
        lemma_more_parity(s, block_size, stripe, k, (n - 1) as nat);
        let a = s.parity_rows(block_size, stripe, k);
        let b = s.parity_rows(block_size, stripe, (n - 1) as nat);
        let c = s.parity_rows(block_size, stripe, n);
        assert(c.take(a.len() as int) =~= b.take(a.len() as int));
        let a = s.parity_data(block_size, stripe, k);
        let b = s.parity_data(block_size, stripe, (n - 1) as nat);
        let c = s.parity_data(block_size, stripe, n);
        assert(c.take(a.len() as int) =~= b.take(a.len() as int));
    } else {
        let a = s.parity_rows(block_size, stripe, k);
        assert(a.take(a.len() as int) =~= a);
        let a = s.parity_data(block_size, stripe, k);
        assert(a.take(a.len() as int) =~= a);
    }
}

} // verus!
