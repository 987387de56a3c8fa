//! What is there of a slice is what the sender has: blocks that arrive are stored,
//! and lost ones are restored by parity.

use crate::fec::{below, known_part, lemma_parity_parts, lost_part, parity_byte, restored};
use crate::fifo::{lemma_apart, lemma_round, ring_place, ring_read, ring_write, spot};
use crate::protocol::{law_data_block_round_trip, DataBlock};
use crate::recvslice::{
    lemma_decoded, lemma_lost, lemma_parity, lemma_recovered, lemma_stored_len, placed, RxModel,
};
use crate::sendslice::{
    block_data, block_len, block_place, data_packet, fits, lemma_block, lemma_blocks, lemma_stripe,
    nr_blocks, stripe_len, SliceModel,
};
use crate::wire::u16_at;
use vstd::arithmetic::div_mod::{lemma_fundamental_div_mod, lemma_mod_bound};
use vstd::prelude::*;

verus! {

/// A block's byte lies where the slice's byte lies.
proof fn lemma_spot(base: int, block_size: int, b: int, t: int, n: int)
    requires
        0 < n,
        0 <= t < n,
    ensures
        ring_place(block_place(base, block_size, b, n) + t, n) == spot(
            base,
            b * block_size + t,
            n,
        ),
        0 <= spot(base, b * block_size + t, n) < n,
{
    lemma_round(base + b * block_size, t, n);
    assert(base + b * block_size + t == base + (b * block_size + t));
}

/// Place `p` of a ring of `n` bytes is none of the `room` bytes from `base` on.
pub open spec fn outside(base: int, room: int, n: int, p: int) -> bool {
    forall|x: int| 0 <= x < room ==> #[trigger] spot(base, x, n) != p
}

/// What is written over is a byte of the block.
proof fn lemma_hit(base: int, block_size: int, b: int, len: int, n: int, p: int) -> (t: int)
    requires
        0 <= p < n,
        0 <= len <= n,
        ({
            let q = block_place(base, block_size, b, n);
            q <= p < q + len || p + n < q + len
        }),
    ensures
        0 <= t < len,
        spot(base, b * block_size + t, n) == p,
{
    let q = block_place(base, block_size, b, n);
    lemma_mod_bound(base + b * block_size, n);
    let t = if q <= p {
        p - q
    } else {
        p + n - q
    };
    lemma_spot(base, block_size, b, t, n);
    t
}

/// Writing a block changes its bytes and no others.
pub proof fn lemma_write_block(ring: Seq<u8>, base: int, block_size: int, b: int, data: Seq<u8>)
    requires
        0 < block_size,
        block_size * 1024 <= ring.len(),
        0 <= b < 1024,
        data.len() <= block_size,
    ensures
        ({
            let n = ring.len() as int;
            let after = ring_write(ring, block_place(base, block_size, b, n), data);
            &&& after.len() == ring.len()
            &&& forall|x: int|
                0 <= x < block_size * 1024 ==> after[#[trigger] spot(base, x, n)] == if b
                    * block_size <= x < b * block_size + data.len() {
                    data[x - b * block_size]
                } else {
                    ring[spot(base, x, n)]
                }
            &&& forall|p: int|
                0 <= p < n && #[trigger] outside(base, block_size * 1024, n, p) ==> after[p]
                    == ring[p]
        }),
{
    let n = ring.len() as int;
    let q = block_place(base, block_size, b, n);
    let after = ring_write(ring, q, data);
    assert(0 <= b * block_size && b * block_size + block_size <= block_size * 1024)
        by (nonlinear_arith)
        requires
            0 <= b < 1024,
            0 < block_size,
    ;
    lemma_mod_bound(base + b * block_size, n);
    assert forall|x: int| 0 <= x < block_size * 1024 implies after[#[trigger] spot(base, x, n)]
        == if b * block_size <= x < b * block_size + data.len() {
        data[x - b * block_size]
    } else {
        ring[spot(base, x, n)]
    } by {
        let p = spot(base, x, n);
        lemma_mod_bound(base + x, n);
        if b * block_size <= x < b * block_size + data.len() {
            lemma_spot(base, block_size, b, x - b * block_size, n);
        } else if q <= p < q + data.len() || p + n < q + data.len() {
            let t = lemma_hit(base, block_size, b, data.len() as int, n, p);
            lemma_apart(base, x, b * block_size + t, n);
        }
    }
    assert forall|p: int| 0 <= p < n && #[trigger] outside(base, block_size * 1024, n, p) implies
        after[p] == ring[p] by {
        if q <= p < q + data.len() || p + n < q + data.len() {
            let t = lemma_hit(base, block_size, b, data.len() as int, n, p);
            assert(spot(base, b * block_size + t, n) != p);
        }
    }
}

/// The bytes of a block are bytes of the slice.
pub proof fn lemma_block_bytes(ring: Seq<u8>, base: int, bytes: int, block_size: int, b: int)
    requires
        0 < block_size,
        block_size * 1024 <= ring.len(),
        0 <= bytes <= block_size * 1024,
        0 <= b < nr_blocks(bytes, block_size),
    ensures
        block_data(ring, base, bytes, block_size, b).len() == block_len(bytes, block_size, b),
        forall|t: int|
            0 <= t < block_len(bytes, block_size, b) ==> #[trigger] block_data(
                ring,
                base,
                bytes,
                block_size,
                b,
            )[t] == ring[spot(base, b * block_size + t, ring.len() as int)],
{
    lemma_block(bytes, block_size, b);
    let n = ring.len() as int;
    assert forall|t: int| 0 <= t < block_len(bytes, block_size, b) implies #[trigger] block_data(
        ring,
        base,
        bytes,
        block_size,
        b,
    )[t] == ring[spot(base, b * block_size + t, n)] by {
        lemma_spot(base, block_size, b, t, n);
    }
}

/// The packet that carries a block of data says which block it is, of which slice
/// and of how many bytes, and its payload is the block.
pub proof fn law_data_packet_tells_all(s: SliceModel, ring: Seq<u8>, block_size: int, b: int)
    requires
        fits(s.base, s.bytes, block_size, ring.len() as int),
        0 <= b < nr_blocks(s.bytes, block_size),
    ensures
        DataBlock::of_bytes(data_packet(s, ring, block_size, b)) == (DataBlock {
            slice_no: s.slice_no,
            block_no: b as u16,
            bytes: s.bytes as i32,
        }),
        u16_at(data_packet(s, ring, block_size, b), 0) == crate::protocol::CMD_DATA,
        data_packet(s, ring, block_size, b).len() >= 16,
        data_packet(s, ring, block_size, b).skip(16) == block_data(
            ring,
            s.base,
            s.bytes,
            block_size,
            b,
        ),
{
    lemma_block(s.bytes, block_size, b);
    let m = DataBlock { slice_no: s.slice_no, block_no: b as u16, bytes: s.bytes as i32 };
    let d = block_data(ring, s.base, s.bytes, block_size, b);
    law_data_block_round_trip(m, d);
    let p = data_packet(s, ring, block_size, b);
    assert(m.encoded().len() == 16);
    assert(p.skip(16) =~= d);
    crate::wire::lemma_u16_round_trip(crate::protocol::CMD_DATA, p, 0);
}

/// Block `b` of the data of a slice.
pub open spec fn source_block(source: Seq<u8>, block_size: int, b: int) -> Seq<u8> {
    source.subrange(
        b * block_size,
        b * block_size + block_len(source.len() as int, block_size, b),
    )
}

/// What the sender's packets carry are the blocks of its data.
pub proof fn law_packets_carry_the_source(ring: Seq<u8>, base: int, bytes: int, block_size: int, b: int)
    requires
        fits(base, bytes, block_size, ring.len() as int),
        0 <= b < nr_blocks(bytes, block_size),
    ensures
        block_data(ring, base, bytes, block_size, b) == source_block(
            ring_read(ring, base, bytes as nat),
            block_size,
            b,
        ),
{
    let n = ring.len() as int;
    let source = ring_read(ring, base, bytes as nat);
    lemma_block(bytes, block_size, b);
    lemma_block_bytes(ring, base, bytes, block_size, b);
    let len = block_len(bytes, block_size, b);
    assert forall|t: int| 0 <= t < len implies block_data(ring, base, bytes, block_size, b)[t]
        == source_block(source, block_size, b)[t] by {
        lemma_read(ring, base, bytes, b * block_size + t);
    }
    assert(block_data(ring, base, bytes, block_size, b) =~= source_block(source, block_size, b));
}

/// The bytes of a slice as they are read from the ring.
pub proof fn lemma_read(ring: Seq<u8>, base: int, bytes: int, x: int)
    requires
        0 <= base < ring.len(),
        0 <= x < bytes <= ring.len(),
    ensures
        ring_read(ring, base, bytes as nat)[x] == ring[spot(base, x, ring.len() as int)],
{
    lemma_round(base, x, ring.len() as int);
    vstd::arithmetic::div_mod::lemma_small_mod(base as nat, ring.len());
}

/// What is there of a slice is what the sender has: the size, if it is known, and
/// every block.
pub open spec fn true_to(s: RxModel, ring: Seq<u8>, block_size: int, source: Seq<u8>) -> bool {
    &&& s.bytes_known ==> s.bytes == source.len()
    &&& forall|b: int| #[trigger]
        s.have.contains(b) ==> 0 <= b < nr_blocks(source.len() as int, block_size)
    &&& forall|b: int, t: int|
        s.have.contains(b) && 0 <= t < block_len(source.len() as int, block_size, b)
            ==> #[trigger] ring[spot(s.base, b * block_size + t, ring.len() as int)]
            == source[b * block_size + t]
}

/// Blocks below `n`, and as many as that, are all of them.
pub proof fn lemma_all(have: Set<int>, n: int)
    requires
        0 <= n,
        have.finite(),
        have.len() >= n,
        forall|b: int| #[trigger] have.contains(b) ==> 0 <= b < n,
    ensures
        forall|b: int| 0 <= b < n ==> have.contains(b),
{
    let all = vstd::set_lib::set_int_range(0, n);
    vstd::set_lib::lemma_int_range(0, n);
    assert forall|b: int| 0 <= b < n implies have.contains(b) by {
        if !have.contains(b) {
            assert(have.subset_of(all.remove(b)));
            vstd::set_lib::lemma_len_subset(have, all.remove(b));
        }
    }
}

/// A slice that is true to the sender and counts as complete is the sender's data.
pub proof fn law_complete_slice_is_the_source(
    s: RxModel,
    ring: Seq<u8>,
    block_size: int,
    source: Seq<u8>,
)
    requires
        fits(s.base, s.bytes, block_size, ring.len() as int),
        true_to(s, ring, block_size, source),
        s.bytes_known,
        s.have.finite(),
        s.all_there(block_size),
    ensures
        ring_read(ring, s.base, s.bytes as nat) == source,
{
    let n = nr_blocks(s.bytes, block_size);
    lemma_blocks(s.bytes, block_size);
    lemma_all(s.have, n);
    assert forall|x: int| 0 <= x < source.len() implies ring_read(ring, s.base, s.bytes as nat)[x]
        == source[x] by {
        let b = x / block_size;
        let t = x % block_size;
        lemma_fundamental_div_mod(x, block_size);
        lemma_mod_bound(x, block_size);
        assert(b * block_size == block_size * b) by (nonlinear_arith);
        assert(0 <= b < n) by (nonlinear_arith)
            requires
                x == block_size * b + t,
                0 <= t < block_size,
                0 <= x < s.bytes,
                s.bytes <= n * block_size,
        ;
        assert(s.have.contains(b));
        assert(t < block_len(s.bytes, block_size, b));
        lemma_read(ring, s.base, s.bytes, x);
        assert(ring[spot(s.base, b * block_size + t, ring.len() as int)] == source[b * block_size
            + t]);
    }
    assert(ring_read(ring, s.base, s.bytes as nat) =~= source);
}

/// The `len` bytes from `base` on are the same in both rings.
pub open spec fn same_stretch(before: Seq<u8>, after: Seq<u8>, base: int, len: int) -> bool {
    forall|x: int|
        0 <= x < len ==> after[#[trigger] spot(base, x, before.len() as int)] == before[spot(
            base,
            x,
            before.len() as int,
        )]
}

/// A slice whose stretch of the ring stays is as true to the sender as it was.
pub proof fn lemma_true_elsewhere(
    s: RxModel,
    before: Seq<u8>,
    after: Seq<u8>,
    block_size: int,
    source: Seq<u8>,
)
    requires
        0 < block_size,
        after.len() == before.len(),
        0 < source.len() <= block_size * 1024,
        true_to(s, before, block_size, source),
        same_stretch(before, after, s.base, block_size * 1024),
    ensures
        true_to(s, after, block_size, source),
{
    let n = before.len() as int;
    assert forall|b: int, t: int|
        s.have.contains(b) && 0 <= t < block_len(source.len() as int, block_size, b) implies
        #[trigger] after[spot(s.base, b * block_size + t, n)] == source[b * block_size + t] by {
        lemma_block(source.len() as int, block_size, b);
        let x = b * block_size + t;
        assert(after[spot(s.base, x, n)] == before[spot(s.base, x, n)]);
        assert(before[spot(s.base, b * block_size + t, n)] == source[b * block_size + t]);
    }
}

/// A block of the sender's data, stored, keeps a slice true to the sender.
pub proof fn law_stored_blocks_are_true(
    s: RxModel,
    ring: Seq<u8>,
    block_size: int,
    source: Seq<u8>,
    b: int,
)
    requires
        fits(s.base, s.bytes, block_size, ring.len() as int),
        true_to(s, ring, block_size, source),
        0 < source.len() <= block_size * 1024,
        0 <= b < nr_blocks(source.len() as int, block_size),
    ensures
        true_to(
            RxModel {
                bytes: source.len() as int,
                bytes_known: true,
                have: s.have.insert(b),
                ..s
            },
            ring_write(
                ring,
                block_place(s.base, block_size, b, ring.len() as int),
                source_block(source, block_size, b),
            ),
            block_size,
            source,
        ),
{
    let bs = block_size;
    let len = source.len() as int;
    let n = ring.len() as int;
    let d = source_block(source, bs, b);
    let after = ring_write(ring, block_place(s.base, bs, b, n), d);
    lemma_block(len, bs, b);
    lemma_write_block(ring, s.base, bs, b, d);
    assert forall|c: int, t: int|
        s.have.insert(b).contains(c) && 0 <= t < block_len(len, bs, c) implies #[trigger] after[spot(
        s.base,
        c * bs + t,
        n,
    )] == source[c * bs + t] by {
        lemma_block(len, bs, c);
        let x = c * bs + t;
        assert(0 <= x < bs * 1024);
        if c == b {
            assert(d[t] == source[b * bs + t]);
        } else {
            assert(!(b * bs <= x < b * bs + d.len())) by (nonlinear_arith)
                requires
                    x == c * bs + t,
                    0 <= t < bs,
                    d.len() <= bs,
                    c != b,
                    bs > 0,
            ;
            assert(ring[spot(s.base, c * bs + t, n)] == source[c * bs + t]);
        }
    }
}

/// The blocks of a slice's data as they enter its parity: the last one is filled up
/// with zeros.
pub open spec fn source_blocks(source: Seq<u8>, block_size: int) -> Seq<Seq<u8>> {
    Seq::new(
        nr_blocks(source.len() as int, block_size) as nat,
        |b: int|
            Seq::new(
                block_size as nat,
                |t: int|
                    if b * block_size + t < source.len() {
                        source[b * block_size + t]
                    } else {
                        0
                    },
            ),
    )
}

/// The blocks of stripe `stripe` of `blocks`.
pub open spec fn stripe_of(blocks: Seq<Seq<u8>>, stripes: int, stripe: int) -> Seq<Seq<u8>> {
    Seq::new(
        stripe_len(blocks.len() as int, stripes, stripe) as nat,
        |j: int| blocks[stripe + j * stripes],
    )
}

/// Every parity block that is there is the parity of its stripe of `blocks`, if the
/// stripe has blocks.
pub open spec fn parity_true(s: RxModel, block_size: int, blocks: Seq<Seq<u8>>) -> bool {
    forall|k: int, t: int|
        0 <= k < s.fec_nos.len() && 0 <= t < block_size && s.fec_nos[k] as int % s.stripes
            < blocks.len() ==> #[trigger] s.fec_blocks[k][t] == parity_byte(
            stripe_of(blocks, s.stripes, s.fec_nos[k] as int % s.stripes),
            s.fec_nos[k] as int / s.stripes,
            t,
            stripe_of(blocks, s.stripes, s.fec_nos[k] as int % s.stripes).len(),
        )
}

/// The parity blocks of a stripe are its parity.
proof fn lemma_parity_of_stripe(
    s: RxModel,
    block_size: int,
    blocks: Seq<Seq<u8>>,
    stripe: int,
    n: nat,
)
    requires
        s.paired(),
        s.stripes > 0,
        parity_true(s, block_size, blocks),
        0 <= stripe < blocks.len(),
        n <= s.fec_nos.len(),
    ensures
        forall|j: int, t: int|
            0 <= j < s.parity_rows(block_size, stripe, n).len() && 0 <= t < block_size
                ==> #[trigger] s.parity_data(block_size, stripe, n)[j][t] == parity_byte(
                stripe_of(blocks, s.stripes, stripe),
                s.parity_rows(block_size, stripe, n)[j] as int,
                t,
                stripe_of(blocks, s.stripes, stripe).len(),
            ),
    decreases n,
{
    if n > 0 {
        let m = (n - 1) as nat;
        lemma_parity_of_stripe(s, block_size, blocks, stripe, m);
        lemma_parity(s, block_size, stripe, m);
        lemma_parity(s, block_size, stripe, n);
        let head = s.parity_data(block_size, stripe, m);
        let no = s.fec_nos[n - 1] as int;
        vstd::arithmetic::div_mod::lemma_div_pos_is_pos(no, s.stripes);
        assert forall|j: int, t: int|
            0 <= j < s.parity_rows(block_size, stripe, n).len() && 0 <= t < block_size implies
            #[trigger] s.parity_data(block_size, stripe, n)[j][t] == parity_byte(
            stripe_of(blocks, s.stripes, stripe),
            s.parity_rows(block_size, stripe, n)[j] as int,
            t,
            stripe_of(blocks, s.stripes, stripe).len(),
        ) by {
            if j < head.len() {
                assert(s.parity_data(block_size, stripe, n)[j] == head[j]);
                assert(head[j][t] == head[j][t]);
            } else {
                assert(s.fec_blocks[n - 1][t] == s.parity_data(block_size, stripe, n)[j][t]);
            }
        }
    }
}

/// A stripe of a slice that is true to the sender is restored to what the sender
/// has.
proof fn lemma_decoded_is_true(
    s: RxModel,
    ring: Seq<u8>,
    block_size: int,
    source: Seq<u8>,
    stripe: int,
)
    requires
        fits(s.base, s.bytes, block_size, ring.len() as int),
        s.paired(),
        0 <= stripe < s.stripes,
        s.bytes == source.len(),
        true_to(s, ring, block_size, source),
        parity_true(s, block_size, source_blocks(source, block_size)),
        s.repairable(block_size, stripe),
    ensures
        s.repaired_data(ring, block_size, stripe) == stripe_of(
            source_blocks(source, block_size),
            s.stripes,
            stripe,
        ),
{
    let blocks = source_blocks(source, block_size);
    let size = s.stripe_size(block_size, stripe);
    let lost = s.lost(stripe, size);
    let k = lost.len() as int;
    let total = s.fec_nos.len();
    let nos = s.parity_rows(block_size, stripe, total).take(k);
    let fec = s.parity_data(block_size, stripe, total).take(k);
    let before = s.stripe_data(ring, block_size, stripe);
    let data = stripe_of(blocks, s.stripes, stripe);
    lemma_blocks(s.bytes, block_size);
    lemma_stripe(blocks.len() as int, s.stripes, stripe, 0);
    lemma_lost(s, stripe, size);
    lemma_parity(s, block_size, stripe, total);
    lemma_parity_of_stripe(s, block_size, blocks, stripe, total);
    assert forall|c: int| 0 <= c < size implies (#[trigger] data[c]).len() == block_size by {
        lemma_stripe(blocks.len() as int, s.stripes, stripe, c);
        assert(0 <= c * s.stripes) by (nonlinear_arith)
            requires
                0 <= c,
                0 <= s.stripes,
        ;
        assert(blocks[stripe + c * s.stripes].len() == block_size);
    }
    assert forall|c: int| 0 <= c < size && !lost.contains(c as u32) implies #[trigger] data[c]
        == before[c] by {
        let b = s.at(stripe, c);
        assert(s.have.contains(b));
        lemma_stripe(blocks.len() as int, s.stripes, stripe, c);
        assert(0 <= c * s.stripes) by (nonlinear_arith)
            requires
                0 <= c,
                0 <= s.stripes,
        ;
        assert(blocks[b].len() == block_size);
        lemma_block_bytes(ring, s.base, s.bytes, block_size, b);
        assert forall|t: int| 0 <= t < block_size implies before[c][t] == data[c][t] by {
            if t < block_len(s.bytes, block_size, b) {
                assert(ring[spot(s.base, b * block_size + t, ring.len() as int)] == source[b
                    * block_size + t]);
            }
        }
        assert(before[c] =~= data[c]);
    }
    assert forall|j: int, t: int| 0 <= j < nos.len() && 0 <= t < block_size implies
        #[trigger] fec[j][t] == known_part(before, lost, nos[j] as int, t, before.len())
        ^ lost_part(data, lost, nos[j] as int, t, lost.len()) by {
        assert(fec[j] == s.parity_data(block_size, stripe, total)[j]);
        assert(nos[j] == s.parity_rows(block_size, stripe, total)[j]);
        assert forall|c: int| 0 <= c < data.len() && !lost.contains(c as u32) implies
            #[trigger] data[c][t] == before[c][t] by {
            assert(data[c] == before[c]);
        }
        lemma_parity_parts(data, before, lost, nos[j] as int, t);
    }
    assert(restored(block_size, before, fec, nos, lost, data)) by {
        assert forall|c: int| 0 <= c < before.len() implies (#[trigger] data[c]).len()
            == before[c].len() by {}
    }
    assert forall|i: int| 0 <= i < nos.len() implies (#[trigger] nos[i]) < 128 by {
        assert(nos[i] == s.parity_rows(block_size, stripe, total)[i]);
    }
    lemma_decoded(block_size, before, fec, nos, lost, data);
}

/// Storing restored blocks keeps a slice true to the sender, and changes nothing
/// outside its stretch.
proof fn lemma_stored_is_true(
    s: RxModel,
    ring: Seq<u8>,
    block_size: int,
    source: Seq<u8>,
    stripe: int,
    lost: Seq<u32>,
    n: nat,
)
    requires
        fits(s.base, s.bytes, block_size, ring.len() as int),
        0 <= stripe < s.stripes,
        s.bytes == source.len(),
        true_to(s, ring, block_size, source),
        below(lost, stripe_len(nr_blocks(s.bytes, block_size), s.stripes, stripe)),
        n <= lost.len(),
    ensures
        ({
            let after = s.stored(
                ring,
                block_size,
                stripe,
                stripe_of(source_blocks(source, block_size), s.stripes, stripe),
                lost,
                n,
            );
            let have = s.have.union(placed(s, stripe, lost, n as int));
            &&& after.len() == ring.len()
            &&& true_to(RxModel { have, ..s }, after, block_size, source)
            &&& forall|p: int|
                0 <= p < ring.len() && #[trigger] outside(
                    s.base,
                    block_size * 1024,
                    ring.len() as int,
                    p,
                ) ==> after[p] == ring[p]
        }),
    decreases n,
{
    let blocks = source_blocks(source, block_size);
    let data = stripe_of(blocks, s.stripes, stripe);
    let len = ring.len() as int;
    lemma_blocks(s.bytes, block_size);
    if n == 0 {
        assert(s.have.union(placed(s, stripe, lost, 0)) =~= s.have);
        assert(RxModel { have: s.have.union(placed(s, stripe, lost, 0)), ..s } == s);
    } else {
        let m = (n - 1) as nat;
        lemma_stored_is_true(s, ring, block_size, source, stripe, lost, m);
        lemma_stored_len(s, ring, block_size, stripe, data, lost, m);
        let before = s.stored(ring, block_size, stripe, data, lost, m);
        let after = s.stored(ring, block_size, stripe, data, lost, n);
        let j = lost[n - 1] as int;
        let g = s.at(stripe, j);
        lemma_stripe(blocks.len() as int, s.stripes, stripe, j);
        assert(0 <= j * s.stripes) by (nonlinear_arith)
            requires
                0 <= j,
                0 <= s.stripes,
        ;
        assert(data[j] == blocks[g]);
        assert(blocks[g].len() == block_size);
        lemma_block(s.bytes, block_size, g);
        lemma_write_block(before, s.base, block_size, g, data[j]);
        let r = RxModel { have: s.have.union(placed(s, stripe, lost, m as int)), ..s };
        let q = RxModel { have: s.have.union(placed(s, stripe, lost, n as int)), ..s };
        assert(true_to(r, before, block_size, source));
        assert forall|b: int| #[trigger] q.have.contains(b) && b != g implies r.have.contains(
            b,
        ) by {
            if !s.have.contains(b) {
                let k = choose|k: int| 0 <= k < n && #[trigger] s.at(stripe, lost[k] as int) == b;
                assert(s.at(stripe, lost[k] as int) == b);
            }
        }
        assert forall|b: int, t: int|
            q.have.contains(b) && 0 <= t < block_len(source.len() as int, block_size, b) implies
            #[trigger] after[spot(s.base, b * block_size + t, len)] == source[b * block_size
            + t] by {
            let x = b * block_size + t;
            lemma_block(s.bytes, block_size, b);
            assert(0 <= x < block_size * 1024);
            if b != g {
                assert(!(g * block_size <= x < g * block_size + block_size)) by (nonlinear_arith)
                    requires
                        x == b * block_size + t,
                        0 <= t < block_size,
                        b != g,
                ;
                assert(r.have.contains(b));
                assert(before[spot(r.base, b * block_size + t, len)] == source[b * block_size
                    + t]);
            } else {
                assert(data[j][t] == source[b * block_size + t]);
            }
        }
    }
}

/// What parity restores of a slice that is true to the sender is what the sender
/// has, and nothing changes outside the slice's stretch of the ring.
pub proof fn law_recovery_is_true(
    s: RxModel,
    ring: Seq<u8>,
    block_size: int,
    source: Seq<u8>,
    n: nat,
)
    requires
        fits(s.base, s.bytes, block_size, ring.len() as int),
        s.paired(),
        n <= s.stripes,
        s.bytes == source.len(),
        true_to(s, ring, block_size, source),
        parity_true(s, block_size, source_blocks(source, block_size)),
    ensures
        true_to(
            s.recovered(block_size, n),
            s.recovered_ring(ring, block_size, n),
            block_size,
            source,
        ),
        forall|p: int|
            0 <= p < ring.len() && #[trigger] outside(
                s.base,
                block_size * 1024,
                ring.len() as int,
                p,
            ) ==> s.recovered_ring(ring, block_size, n)[p] == ring[p],
    decreases n,
{
    let blocks = source_blocks(source, block_size);
    if n > 0 {
        let m = (n - 1) as nat;
        let stripe = n - 1;
        law_recovery_is_true(s, ring, block_size, source, m);
        lemma_recovered(s, ring, block_size, m);
        let r = s.recovered(block_size, m);
        let before = s.recovered_ring(ring, block_size, m);
        if r.repairable(block_size, stripe) {
            let size = r.stripe_size(block_size, stripe);
            let lost = r.lost(stripe, size);
            assert(parity_true(r, block_size, blocks));
            lemma_decoded_is_true(r, before, block_size, source, stripe);
            lemma_blocks(s.bytes, block_size);
            lemma_stripe(blocks.len() as int, r.stripes, stripe, 0);
            lemma_lost(r, stripe, size);
            lemma_stored_is_true(r, before, block_size, source, stripe, lost, lost.len());
            let q = r.stripe_repaired(block_size, stripe);
            let have = r.have.union(placed(r, stripe, lost, lost.len() as int));
            assert forall|b: int| #[trigger] q.have.contains(b) implies have.contains(b) by {
                if !r.have.contains(b) {
                    let j = choose|j: int| 0 <= j < size && #[trigger] r.at(stripe, j) == b;
                    assert(lost.contains(j as u32));
                    let k = choose|k: int| 0 <= k < lost.len() && lost[k] == j as u32;
                    assert(r.at(stripe, lost[k] as int) == b);
                }
            }
            let after = s.recovered_ring(ring, block_size, n);
            let h = RxModel { have, ..r };
            assert(true_to(h, after, block_size, source));
            assert forall|b: int| #[trigger] q.have.contains(b) implies 0 <= b < nr_blocks(
                source.len() as int,
                block_size,
            ) by {
                assert(h.have.contains(b));
            }
            assert forall|b: int, t: int|
                q.have.contains(b) && 0 <= t < block_len(source.len() as int, block_size, b)
                implies #[trigger] after[spot(q.base, b * block_size + t, after.len() as int)]
                == source[b * block_size + t] by {
                assert(h.have.contains(b));
                assert(h.base == q.base);
                assert(after[spot(h.base, b * block_size + t, after.len() as int)] == source[b
                    * block_size + t]);
            }
        }
    }
}

} // verus!
