//! Forward error correction: a systematic code over the field of 256 elements.
//!
//! Parity block `r` is the sum of the data blocks, block `c` times the inverse
//! of `r + (128 + c)`. Any set of parity blocks recovers as many lost data
//! blocks.

use crate::cauchy::{cauchy_sum, distinct, lemma_cauchy};
use crate::gf::{
    gf_double, gf_exp, gf_inverse, gf_product, lemma_exp_add, lemma_exp_cycle, lemma_exp_distinct,
    lemma_exp_inverse, lemma_exp_onto, lemma_inverse, lemma_inverse_unique,
    lemma_product_add_right, lemma_product_associates, lemma_product_commutes, lemma_product_units,
    lemma_xor,
};
use crate::matrix::{
    dot, inverse_of, invert_mat, lemma_dot_zero, lemma_xor_pairs, maps_to, rows, singular, square,
};
use vstd::prelude::*;

verus! {

/// The number of field elements other than zero.
const GF_SIZE: usize = 255;

/// The remainder of `x` modulo 255, by folding bytes.
pub fn modnn(x: usize) -> (r: u8)
    ensures
        r as int == x as int % 255,
{
    let mut x: usize = x;
    let ghost x0 = x;
    while x >= GF_SIZE
        invariant
            x as int % 255 == x0 as int % 255,
        decreases x,
    {
        let y: usize = x - GF_SIZE;
        let next: usize = y / 256 + y % 256;
        assert(next as int % 255 == x as int % 255) by {
            assert(x as int == 255 * (y as int / 256 + 1) + next as int);
            vstd::arithmetic::div_mod::lemma_mod_multiples_vanish(
                y as int / 256 + 1,
                next as int,
                255,
            );
        }
        x = next;
    }
    x as u8
}

/// Tables for arithmetic in the field.
pub struct FecTables {
    inverse: Vec<u8>,
    mul_table: Vec<u8>,
}

impl FecTables {
    /// Every entry is the inverse or the product that belongs there.
    #[verifier::type_invariant]
    pub closed spec fn correct(self) -> bool {
        &&& self.inverse@.len() == 256
        &&& forall|a: int| 0 <= a < 256 ==> self.inverse@[a] == gf_inverse(a as u8)
        &&& self.mul_table@.len() == 65536
        &&& forall|a: int, b: int|
            0 <= a < 256 && 0 <= b < 256 ==> #[trigger] self.mul_table@[a * 256 + b] == gf_product(
                a as u8,
                b as u8,
            )
    }

    /// The product of two elements.
    pub fn gf_mul(&self, x: u8, y: u8) -> (r: u8)
        ensures
            r == gf_product(x, y),
    {
        proof {
            use_type_invariant(self);
        }
        assert(self.mul_table@[x as int * 256 + y as int] == gf_product(x as u8, y as u8));
        self.mul_table[x as usize * 256 + y as usize]
    }

    /// The inverse of an element.
    pub fn gf_inv(&self, x: u8) -> (r: u8)
        ensures
            r == gf_inverse(x),
    {
        proof {
            use_type_invariant(self);
        }
        self.inverse[x as usize]
    }
}

/// The powers of x, twice round, and the exponent of each element; the exponent
/// of zero is 255.
fn generate_gf() -> (r: (Vec<u8>, Vec<usize>))
    ensures
        r.0@.len() == 510,
        forall|i: int| 0 <= i < 510 ==> r.0@[i] == gf_exp(i as nat),
        r.1@.len() == 256,
        r.1@[0] == 255,
        forall|a: int|
            1 <= a < 256 ==> 0 <= #[trigger] r.1@[a] < 255 && gf_exp(r.1@[a] as nat) == a as u8,
{
    let mut exp: Vec<u8> = Vec::new();
    let mut log: Vec<usize> = vec![0usize; 256];
    let mut power: u8 = 1;
    let mut i: usize = 0;
    while i < GF_SIZE
        invariant
            i <= 255,
            power == gf_exp(i as nat),
            exp@.len() == i,
            forall|j: int| 0 <= j < i ==> exp@[j] == gf_exp(j as nat),
            log@.len() == 256,
            forall|j: nat| j < i ==> log@[(#[trigger] gf_exp(j)) as int] == j,
        decreases 255 - i,
    {
        exp.push(power);
        proof {
            assert forall|j: nat| j < i implies #[trigger] gf_exp(j) != power by {
                lemma_exp_distinct(j, i as nat);
            }
        }
        log.set(power as usize, i);
        let shifted: u8 = if power >= 128 {
            assert((power ^ 128) << 1 == power << 1 && (power >> 7) == 1) by (bit_vector)
                requires
                    power >= 128,
            ;
            ((power ^ 128) << 1) ^ 0x1d
        } else {
            assert(power << 1 == (power << 1) ^ 0 && (power >> 7) == 0) by (bit_vector)
                requires
                    power < 128,
            ;
            power << 1
        };
        assert(shifted == gf_double(power));
        power = shifted;
        i += 1;
    }
    let ghost first_log = log@;
    while i < 2 * GF_SIZE
        invariant
            255 <= i <= 510,
            exp@.len() == i,
            forall|j: int| 0 <= j < i ==> exp@[j] == gf_exp(j as nat),
        decreases 510 - i,
    {
        proof {
            lemma_exp_cycle((i - 255) as nat);
        }
        let again: u8 = exp[i - GF_SIZE];
        exp.push(again);
        i += 1;
    }
    log.set(0, GF_SIZE);
    assert forall|a: int| 1 <= a < 256 implies 0 <= #[trigger] log@[a] < 255 && gf_exp(
        log@[a] as nat,
    ) == a as u8 by {
        let j = lemma_exp_onto(a as u8);
        assert(first_log[gf_exp(j) as int] == j);
    }
    (exp, log)
}

/// The product of every pair of elements, row by row.
fn init_mul_table(exp: &Vec<u8>, log: &Vec<usize>) -> (r: Vec<u8>)
    requires
        exp@.len() == 510,
        forall|i: int| 0 <= i < 510 ==> exp@[i] == gf_exp(i as nat),
        log@.len() == 256,
        forall|a: int|
            1 <= a < 256 ==> 0 <= #[trigger] log@[a] < 255 && gf_exp(log@[a] as nat) == a as u8,
    ensures
        r@.len() == 65536,
        forall|a: int, b: int|
            0 <= a < 256 && 0 <= b < 256 ==> #[trigger] r@[a * 256 + b] == gf_product(
                a as u8,
                b as u8,
            ),
{
    let mut table: Vec<u8> = Vec::new();
    let mut i: usize = 0;
    while i < 256
        invariant
            i <= 256,
            exp@.len() == 510,
            forall|k: int| 0 <= k < 510 ==> exp@[k] == gf_exp(k as nat),
            log@.len() == 256,
            forall|a: int|
                1 <= a < 256 ==> 0 <= #[trigger] log@[a] < 255 && gf_exp(log@[a] as nat) == a as u8,
            table@.len() == i * 256,
            forall|a: int, b: int|
                0 <= a < i && 0 <= b < 256 ==> #[trigger] table@[a * 256 + b] == gf_product(
                    a as u8,
                    b as u8,
                ),
        decreases 256 - i,
    {
        let mut j: usize = 0;
        while j < 256
            invariant
                i < 256,
                j <= 256,
                exp@.len() == 510,
                forall|k: int| 0 <= k < 510 ==> exp@[k] == gf_exp(k as nat),
                log@.len() == 256,
                forall|a: int|
                    1 <= a < 256 ==> 0 <= #[trigger] log@[a] < 255 && gf_exp(log@[a] as nat)
                        == a as u8,
                table@.len() == i * 256 + j,
                forall|a: int, b: int|
                    0 <= a < i && 0 <= b < 256 ==> #[trigger] table@[a * 256 + b] == gf_product(
                        a as u8,
                        b as u8,
                    ),
                forall|b: int|
                    0 <= b < j ==> #[trigger] table@[i * 256 + b] == gf_product(i as u8, b as u8),
            decreases 256 - j,
        {
            let p: u8 = if i == 0 || j == 0 {
                proof {
                    lemma_product_units(i as u8);
                    lemma_product_units(j as u8);
                }
                0
            } else {
                let sum: usize = log[i] + log[j];
                proof {
                    lemma_exp_add(log@[i as int] as nat, log@[j as int] as nat);
                    if sum >= 255 {
                        lemma_exp_cycle((sum - 255) as nat);
                        assert(sum as int % 255 == sum - 255);
                    }
                }
                exp[sum % GF_SIZE]
            };
            table.push(p);
            j += 1;
        }
        i += 1;
    }
    table
}

/// The tables.
pub fn fec_init() -> (r: FecTables)
    ensures
        r.correct(),
{
    let (exp, log) = generate_gf();
    let mul_table = init_mul_table(&exp, &log);
    let mut inverse: Vec<u8> = Vec::new();
    inverse.push(0);
    inverse.push(1);
    proof {
        lemma_product_units(1);
        lemma_inverse_unique(1, 1);
    }
    let mut i: usize = 2;
    while i < 256
        invariant
            2 <= i <= 256,
            exp@.len() == 510,
            forall|k: int| 0 <= k < 510 ==> exp@[k] == gf_exp(k as nat),
            log@.len() == 256,
            forall|a: int|
                1 <= a < 256 ==> 0 <= #[trigger] log@[a] < 255 && gf_exp(log@[a] as nat) == a as u8,
            inverse@.len() == i,
            forall|a: int| 0 <= a < i ==> inverse@[a] == gf_inverse(a as u8),
        decreases 256 - i,
    {
        let e: usize = log[i];
        proof {
            lemma_exp_inverse(e as nat);
            lemma_inverse_unique(i as u8, gf_exp((255 - e) as nat));
        }
        inverse.push(exp[GF_SIZE - e]);
        i += 1;
    }
    FecTables { inverse, mul_table }
}

/// The factor of data block `c` in parity block `r`.
pub open spec fn coefficient(r: int, c: int) -> u8 {
    gf_inverse((r as u8) ^ ((128 + c) as u8))
}

/// Byte `b` of parity block `r` of the first `n` data blocks.
pub open spec fn parity_byte(data: Seq<Seq<u8>>, r: int, b: int, n: nat) -> u8
    decreases n,
{
    if n == 0 {
        0
    } else {
        parity_byte(data, r, b, (n - 1) as nat) ^ gf_product(
            coefficient(r, n - 1),
            data[n - 1][b],
        )
    }
}

/// Every block has at least `size` bytes.
pub open spec fn blocks_of(blocks: Seq<Seq<u8>>, size: int) -> bool {
    forall|i: int| 0 <= i < blocks.len() ==> size <= (#[trigger] blocks[i]).len()
}

/// Adds `c` times the first `sz` bytes of `src` to those of `dst`.
fn addmul(t: &FecTables, dst: &mut Vec<u8>, src: &Vec<u8>, c: u8, sz: usize)
    requires
        sz <= old(dst)@.len(),
        sz <= src@.len(),
    ensures
        final(dst)@.len() == old(dst)@.len(),
        forall|i: int|
            0 <= i < old(dst)@.len() ==> #[trigger] final(dst)@[i] == if i < sz {
                old(dst)@[i] ^ gf_product(c, src@[i])
            } else {
                old(dst)@[i]
            },
{
    let mut i: usize = 0;
    while i < sz
        invariant
            i <= sz,
            sz <= dst@.len(),
            sz <= src@.len(),
            dst@.len() == old(dst)@.len(),
            forall|j: int|
                0 <= j < dst@.len() ==> #[trigger] dst@[j] == if j < i {
                    old(dst)@[j] ^ gf_product(c, src@[j])
                } else {
                    old(dst)@[j]
                },
        decreases sz - i,
    {
        let v: u8 = dst[i] ^ t.gf_mul(c, src[i]);
        dst.set(i, v);
        i += 1;
    }
}

/// Sets the first `sz` bytes of `dst` to `c` times those of `src`.
fn set_mul(t: &FecTables, dst: &mut Vec<u8>, src: &Vec<u8>, c: u8, sz: usize)
    requires
        sz <= old(dst)@.len(),
        sz <= src@.len(),
    ensures
        final(dst)@.len() == old(dst)@.len(),
        forall|i: int|
            0 <= i < old(dst)@.len() ==> #[trigger] final(dst)@[i] == if i < sz {
                gf_product(c, src@[i])
            } else {
                old(dst)@[i]
            },
{
    let mut i: usize = 0;
    while i < sz
        invariant
            i <= sz,
            sz <= dst@.len(),
            sz <= src@.len(),
            dst@.len() == old(dst)@.len(),
            forall|j: int|
                0 <= j < dst@.len() ==> #[trigger] dst@[j] == if j < i {
                    gf_product(c, src@[j])
                } else {
                    old(dst)@[j]
                },
        decreases sz - i,
    {
        let v: u8 = t.gf_mul(c, src[i]);
        dst.set(i, v);
        i += 1;
    }
}

/// The factor of data block `c` in parity block `r`.
fn coefficient_of(t: &FecTables, r: u32, c: usize) -> (f: u8)
    requires
        r < 128,
        c < 128,
    ensures
        f == coefficient(r as int, c as int),
{
    t.gf_inv((r as u8) ^ ((128 + c) as u8))
}

/// Computes the parity blocks of up to 128 data blocks. With no data block at
/// all the parity blocks keep what they hold.
pub fn fec_encode(
    t: &FecTables,
    block_size: usize,
    data_blocks: &Vec<Vec<u8>>,
    fec_blocks: &mut Vec<Vec<u8>>,
)
    requires
        data_blocks@.len() <= 128,
        old(fec_blocks)@.len() <= 128,
        blocks_of(rows(data_blocks@), block_size as int),
        blocks_of(rows(old(fec_blocks)@), block_size as int),
    ensures
        final(fec_blocks)@.len() == old(fec_blocks)@.len(),
        forall|r: int|
            0 <= r < old(fec_blocks)@.len() ==> (#[trigger] rows(final(fec_blocks)@)[r]).len()
                == rows(old(fec_blocks)@)[r].len(),
        forall|r: int, b: int|
            0 <= r < old(fec_blocks)@.len() && 0 <= b < rows(old(fec_blocks)@)[r].len()
                ==> #[trigger] rows(final(fec_blocks)@)[r][b] == if b < block_size
                && data_blocks@.len() > 0 {
                parity_byte(rows(data_blocks@), r, b, data_blocks@.len())
            } else {
                rows(old(fec_blocks)@)[r][b]
            },
{
    let n = data_blocks.len();
    let ghost data = rows(data_blocks@);
    let ghost before = rows(fec_blocks@);
    if n == 0 {
        return ;
    }
    let mut row: usize = 0;
    while row < fec_blocks.len()
        invariant
            row <= fec_blocks@.len(),
            fec_blocks@.len() == before.len(),
            before.len() <= 128,
            1 <= n <= 128,
            n == data.len(),
            data == rows(data_blocks@),
            blocks_of(data, block_size as int),
            blocks_of(before, block_size as int),
            forall|r: int|
                0 <= r < before.len() ==> (#[trigger] rows(fec_blocks@)[r]).len()
                    == before[r].len(),
            forall|r: int, b: int|
                0 <= r < before.len() && 0 <= b < before[r].len() ==> #[trigger] rows(
                    fec_blocks@,
                )[r][b] == if b < block_size && r < row {
                    parity_byte(data, r, b, 1)
                } else {
                    before[r][b]
                },
        decreases fec_blocks@.len() - row,
    {
        let c: u8 = coefficient_of(t, row as u32, 0);
        assert(block_size <= data[0].len());
        assert(block_size <= before[row as int].len());
        assert(rows(fec_blocks@)[row as int].len() == before[row as int].len());
        let ghost mid = rows(fec_blocks@);
        set_mul(t, &mut fec_blocks[row], &data_blocks[0], c, block_size);
        proof {
            assert(rows(fec_blocks@) =~= mid.update(row as int, fec_blocks@[row as int]@));
            assert forall|r: int| 0 <= r < before.len() implies (#[trigger] rows(fec_blocks@)[r]).len()
                == before[r].len() by {
                assert(mid[r].len() == before[r].len());
            }
            assert forall|r: int, b: int| 0 <= r < before.len() && 0 <= b < before[r].len() implies
                #[trigger] rows(fec_blocks@)[r][b] == if b < block_size && r < row + 1 {
                parity_byte(data, r, b, 1)
            } else {
                before[r][b]
            } by {
                if r != row {
                    assert(rows(fec_blocks@)[r] == mid[r]);
                    assert(mid[r][b] == if b < block_size && r < row {
                        parity_byte(data, r, b, 1)
                    } else {
                        before[r][b]
                    });
                } else {
                    assert(mid[r][b] == before[r][b]);
                    lemma_xor(gf_product(c, data[0][b]), 0, 0);
                    assert(parity_byte(data, r, b, 0) == 0);
                }
            }
        }
        row += 1;
    }
    let mut block_no: usize = 1;
    while block_no < n
        invariant
            1 <= block_no <= n,
            fec_blocks@.len() == before.len(),
            before.len() <= 128,
            1 <= n <= 128,
            n == data.len(),
            data == rows(data_blocks@),
            blocks_of(data, block_size as int),
            blocks_of(before, block_size as int),
            forall|r: int|
                0 <= r < before.len() ==> (#[trigger] rows(fec_blocks@)[r]).len()
                    == before[r].len(),
            forall|r: int, b: int|
                0 <= r < before.len() && 0 <= b < before[r].len() ==> #[trigger] rows(
                    fec_blocks@,
                )[r][b] == if b < block_size {
                    parity_byte(data, r, b, block_no as nat)
                } else {
                    before[r][b]
                },
        decreases n - block_no,
    {
        let mut row: usize = 0;
        while row < fec_blocks.len()
            invariant
                1 <= block_no < n,
                row <= fec_blocks@.len(),
                fec_blocks@.len() == before.len(),
                before.len() <= 128,
                1 <= n <= 128,
                n == data.len(),
                data == rows(data_blocks@),
                blocks_of(data, block_size as int),
                blocks_of(before, block_size as int),
                forall|r: int|
                    0 <= r < before.len() ==> (#[trigger] rows(fec_blocks@)[r]).len()
                        == before[r].len(),
                forall|r: int, b: int|
                    0 <= r < before.len() && 0 <= b < before[r].len() ==> #[trigger] rows(
                        fec_blocks@,
                    )[r][b] == if b < block_size {
                        parity_byte(
                            data,
                            r,
                            b,
                            if r < row {
                                (block_no + 1) as nat
                            } else {
                                block_no as nat
                            },
                        )
                    } else {
                        before[r][b]
                    },
            decreases fec_blocks@.len() - row,
        {
            let c: u8 = coefficient_of(t, row as u32, block_no);
            assert(block_size <= data[block_no as int].len());
            assert(block_size <= before[row as int].len());
            assert(rows(fec_blocks@)[row as int].len() == before[row as int].len());
            let ghost mid = rows(fec_blocks@);
            addmul(t, &mut fec_blocks[row], &data_blocks[block_no], c, block_size);
            proof {
                assert(rows(fec_blocks@) =~= mid.update(row as int, fec_blocks@[row as int]@));
                assert forall|r: int| 0 <= r < before.len() implies (#[trigger] rows(fec_blocks@)[r]).len()
                    == before[r].len() by {
                    assert(mid[r].len() == before[r].len());
                }
                assert forall|r: int, b: int|
                    0 <= r < before.len() && 0 <= b < before[r].len() implies #[trigger] rows(
                    fec_blocks@,
                )[r][b] == if b < block_size {
                    parity_byte(
                        data,
                        r,
                        b,
                        if r < row + 1 {
                            (block_no + 1) as nat
                        } else {
                            block_no as nat
                        },
                    )
                } else {
                    before[r][b]
                } by {
                    if r != row {
                        assert(rows(fec_blocks@)[r] == mid[r]);
                        assert(mid[r][b] == mid[r][b]);
                    } else {
                        assert(mid[r][b] == if b < block_size {
                            parity_byte(data, r, b, block_no as nat)
                        } else {
                            before[r][b]
                        });
                    }
                }
            }
            row += 1;
        }
        block_no += 1;
    }
}

/// Every number is below `limit`.
pub open spec fn below(s: Seq<u32>, limit: int) -> bool {
    forall|i: int| 0 <= i < s.len() ==> (#[trigger] s[i]) < limit
}

/// What the blocks that arrived, among the first `n`, put into byte `b` of
/// parity block `r`.
pub open spec fn known_part(data: Seq<Seq<u8>>, erased: Seq<u32>, r: int, b: int, n: nat) -> u8
    decreases n,
{
    if n == 0 {
        0
    } else if erased.contains((n - 1) as u32) {
        known_part(data, erased, r, b, (n - 1) as nat)
    } else {
        known_part(data, erased, r, b, (n - 1) as nat) ^ gf_product(
            coefficient(r, n - 1),
            data[n - 1][b],
        )
    }
}

/// What the first `n` lost blocks put into byte `b` of parity block `r`.
pub open spec fn lost_part(data: Seq<Seq<u8>>, erased: Seq<u32>, r: int, b: int, n: nat) -> u8
    decreases n,
{
    if n == 0 {
        0
    } else {
        lost_part(data, erased, r, b, (n - 1) as nat) ^ gf_product(
            coefficient(r, erased[n - 1] as int),
            data[erased[n - 1] as int][b],
        )
    }
}

/// `after` is `before` with the lost blocks restored: only they differ, only in
/// their first `size` bytes, and with them the given parity blocks are right.
pub open spec fn restored(
    size: int,
    before: Seq<Seq<u8>>,
    fec: Seq<Seq<u8>>,
    nos: Seq<u32>,
    erased: Seq<u32>,
    after: Seq<Seq<u8>>,
) -> bool {
    &&& after.len() == before.len()
    &&& forall|c: int|
        0 <= c < before.len() && !erased.contains(c as u32) ==> #[trigger] after[c] == before[c]
    &&& forall|c: int| 0 <= c < before.len() ==> (#[trigger] after[c]).len() == before[c].len()
    &&& forall|c: int, b: int|
        0 <= c < before.len() && size <= b < before[c].len() ==> #[trigger] after[c][b]
            == before[c][b]
    &&& forall|j: int, b: int|
        0 <= j < nos.len() && 0 <= b < size ==> #[trigger] fec[j][b] == known_part(
            before,
            erased,
            nos[j] as int,
            b,
            before.len(),
        ) ^ lost_part(after, erased, nos[j] as int, b, erased.len())
}

/// The factors of the lost blocks in the given parity blocks.
spec fn code_matrix(nos: Seq<u32>, erased: Seq<u32>) -> Seq<Seq<u8>> {
    Seq::new(
        nos.len(),
        |j: int|
            Seq::new(erased.len(), |t: int| coefficient(nos[j] as int, erased[t] as int)),
    )
}

spec fn row_points(nos: Seq<u32>) -> Seq<u8> {
    Seq::new(nos.len(), |j: int| nos[j] as u8)
}

spec fn column_points(erased: Seq<u32>) -> Seq<u8> {
    Seq::new(erased.len(), |t: int| (128 + erased[t]) as u8)
}

proof fn lemma_code_row(nos: Seq<u32>, erased: Seq<u32>, j: int, x: Seq<u8>, n: nat)
    requires
        0 <= j < nos.len(),
        n <= erased.len(),
    ensures
        dot(code_matrix(nos, erased)[j], x, n) == cauchy_sum(
            row_points(nos)[j],
            column_points(erased),
            x,
            n,
        ),
    decreases n,
{
    if n > 0 {
        lemma_code_row(nos, erased, j, x, (n - 1) as nat);
    }
}

/// Distinct parity blocks and distinct lost blocks make a matrix that maps only
/// zero to zero.
proof fn lemma_code_matrix_regular(nos: Seq<u32>, erased: Seq<u32>)
    requires
        nos.len() == erased.len(),
        below(nos, 128),
        below(erased, 128),
        nos.no_duplicates(),
        erased.no_duplicates(),
    ensures
        !singular(code_matrix(nos, erased)),
{
    let m = code_matrix(nos, erased);
    let n = nos.len();
    if singular(m) {
        let (x, y) = choose|x: Seq<u8>, y: Seq<u8>|
            #![trigger maps_to(m, x, y)]
            maps_to(m, x, y) && (exists|i: int| 0 <= i < x.len() && x[i] != 0) && (forall|i: int|
                0 <= i < y.len() ==> y[i] == 0);
        let a = row_points(nos);
        let b = column_points(erased);
        assert forall|i: int| 0 <= i < n implies cauchy_sum(#[trigger] a[i], b, x, n) == 0 by {
            lemma_code_row(nos, erased, i, x, n);
            assert(dot(m[i], x, m.len()) == y[i]);
        }
        assert forall|i: int, j: int| 0 <= i < j < n implies a[i] != a[j] by {
            assert(nos[i] < 128 && nos[j] < 128);
        }
        assert forall|i: int, j: int| 0 <= i < j < n implies b[i] != b[j] by {
            assert(erased[i] < 128 && erased[j] < 128);
        }
        assert forall|i: int, j: int| 0 <= i < n && 0 <= j < n implies a[i] != b[j] by {
            assert(nos[i] < 128 && erased[j] < 128);
        }
        lemma_cauchy(a, b, x, n);
    }
}

/// A repeated parity block or lost block leaves the matrix without an inverse.
proof fn lemma_code_matrix_repeats(nos: Seq<u32>, erased: Seq<u32>, s: Seq<Seq<u8>>)
    requires
        nos.len() == erased.len(),
        square(s, nos.len()),
        inverse_of(s, code_matrix(nos, erased)),
    ensures
        nos.no_duplicates(),
        erased.no_duplicates(),
{
    let m = code_matrix(nos, erased);
    let n = nos.len();
    if !erased.no_duplicates() {
        let (i, j) = choose|i: int, j: int|
            0 <= i < erased.len() && 0 <= j < erased.len() && i != j && erased[i] == erased[j];
        let zero = Seq::new(n, |t: int| 0u8);
        let x = Seq::new(n, |t: int| if t == i || t == j { 1u8 } else { 0u8 });
        assert forall|r: int| 0 <= r < n implies #[trigger] dot(m[r], x, n) == zero[r] by {
            let z1 = zero.update(i, 1);
            assert(x =~= z1.update(j, 1));
            lemma_dot_zero(m[r], zero, n);
            crate::matrix::lemma_dot_update(m[r], zero, i, 1, n);
            crate::matrix::lemma_dot_update(m[r], z1, j, 1, n);
            lemma_xor(1, 0, 0);
            let p = gf_product(m[r][i], 1);
            assert(m[r][i] == m[r][j]);
            lemma_xor(0, p, 0);
            lemma_xor(p, p, 0);
        }
        assert(maps_to(m, x, zero));
        assert(maps_to(s, zero, x));
        assert(dot(s[i], zero, s.len()) == x[i]);
        lemma_dot_zero(s[i], zero, n);
    }
    if !nos.no_duplicates() {
        let (i, j) = choose|i: int, j: int|
            0 <= i < nos.len() && 0 <= j < nos.len() && i != j && nos[i] == nos[j];
        let y = Seq::new(n, |t: int| if t == i { 1u8 } else { 0u8 });
        let x = Seq::new(n, |t: int| dot(s[t], y, n));
        assert(maps_to(s, y, x));
        assert(maps_to(m, x, y));
        assert(m[i] == m[j]);
        assert(dot(m[i], x, m.len()) == y[i]);
        assert(dot(m[j], x, m.len()) == y[j]);
    }
}

/// The matrix for the lost blocks.
fn build_matrix(t: &FecTables, nos: &[u32], erased: &[u32]) -> (m: Vec<Vec<u8>>)
    requires
        below(nos@, 128),
        below(erased@, 128),
    ensures
        rows(m@) == code_matrix(nos@, erased@),
{
    let mut m: Vec<Vec<u8>> = Vec::new();
    let mut j: usize = 0;
    while j < nos.len()
        invariant
            j <= nos@.len(),
            below(nos@, 128),
            below(erased@, 128),
            m@.len() == j,
            forall|i: int| 0 <= i < j ==> #[trigger] m@[i]@ == code_matrix(nos@, erased@)[i],
        decreases nos@.len() - j,
    {
        let mut row: Vec<u8> = Vec::new();
        let mut c: usize = 0;
        while c < erased.len()
            invariant
                j < nos@.len(),
                below(nos@, 128),
                below(erased@, 128),
                c <= erased@.len(),
                row@.len() == c,
                forall|i: int| 0 <= i < c ==> row@[i] == code_matrix(nos@, erased@)[j as int][i],
            decreases erased@.len() - c,
        {
            assert(nos@[j as int] < 128);
            assert(erased@[c as int] < 128);
            let f: u8 = coefficient_of(t, nos[j], erased[c] as usize);
            row.push(f);
            c += 1;
        }
        assert(row@ =~= code_matrix(nos@, erased@)[j as int]);
        m.push(row);
        j += 1;
    }
    assert(rows(m@) =~= code_matrix(nos@, erased@));
    m
}

/// Whether block `col` is one of those listed.
fn is_listed(list: &[u32], col: usize) -> (r: bool)
    requires
        col <= u32::MAX,
    ensures
        r == list@.contains(col as u32),
{
    let mut i: usize = 0;
    while i < list.len()
        invariant
            i <= list@.len(),
            forall|k: int| 0 <= k < i ==> list@[k] != col as u32,
        decreases list@.len() - i,
    {
        if list[i] == col as u32 {
            return true;
        }
        i += 1;
    }
    false
}

/// The parity blocks without what the blocks that arrived put into them.
fn reduce_fec(
    t: &FecTables,
    block_size: usize,
    data_blocks: &Vec<Vec<u8>>,
    fec_blocks: &Vec<Vec<u8>>,
    nos: &[u32],
    erased: &[u32],
) -> (red: Vec<Vec<u8>>)
    requires
        data_blocks@.len() <= 128,
        blocks_of(rows(data_blocks@), block_size as int),
        blocks_of(rows(fec_blocks@), block_size as int),
        fec_blocks@.len() == nos@.len(),
        erased@.len() == nos@.len(),
        below(nos@, 128),
    ensures
        red@.len() == nos@.len(),
        blocks_of(rows(red@), block_size as int),
        forall|j: int, b: int|
            0 <= j < nos@.len() && 0 <= b < block_size ==> #[trigger] rows(red@)[j][b] == rows(
                fec_blocks@,
            )[j][b] ^ known_part(
                rows(data_blocks@),
                erased@,
                nos@[j] as int,
                b,
                data_blocks@.len(),
            ),
{
    let n = nos.len();
    let ghost fec = rows(fec_blocks@);
    let ghost data = rows(data_blocks@);
    let mut red: Vec<Vec<u8>> = Vec::new();
    let mut k: usize = 0;
    while k < n
        invariant
            k <= n,
            n == fec_blocks@.len(),
            fec == rows(fec_blocks@),
            red@.len() == k,
            forall|i: int| 0 <= i < k ==> #[trigger] red@[i]@ == fec[i],
        decreases n - k,
    {
        let copy: Vec<u8> = vstd::slice::slice_to_vec(fec_blocks[k].as_slice());
        red.push(copy);
        k += 1;
    }
    assert(rows(red@) =~= fec);
    let mut col: usize = 0;
    proof {
        assert forall|j: int, b: int| 0 <= j < n && 0 <= b < block_size implies #[trigger] rows(
            red@,
        )[j][b] == fec[j][b] ^ known_part(data, erased@, nos@[j] as int, b, 0) by {
            lemma_xor(fec[j][b], 0, 0);
        }
    }
    while col < data_blocks.len()
        invariant
            col <= data_blocks@.len(),
            n == nos@.len(),
            n == erased@.len(),
            n == red@.len(),
            n == fec.len(),
            fec == rows(fec_blocks@),
            data == rows(data_blocks@),
            data.len() <= 128,
            below(nos@, 128),
            blocks_of(data, block_size as int),
            blocks_of(rows(red@), block_size as int),
            forall|j: int, b: int|
                0 <= j < n && 0 <= b < block_size ==> #[trigger] rows(red@)[j][b] == fec[j][b]
                    ^ known_part(data, erased@, nos@[j] as int, b, col as nat),
        decreases data_blocks@.len() - col,
    {
        if !is_listed(erased, col) {
            let mut j: usize = 0;
            while j < n
                invariant
                    j <= n,
                    col < data.len(),
                    n == nos@.len(),
                    n == red@.len(),
                    n == fec.len(),
                    data == rows(data_blocks@),
                    data.len() <= 128,
                    below(nos@, 128),
                    blocks_of(data, block_size as int),
                    blocks_of(rows(red@), block_size as int),
                    !erased@.contains(col as u32),
                    forall|i: int, b: int|
                        0 <= i < n && 0 <= b < block_size ==> #[trigger] rows(red@)[i][b]
                            == fec[i][b] ^ known_part(
                            data,
                            erased@,
                            nos@[i] as int,
                            b,
                            if i < j {
                                (col + 1) as nat
                            } else {
                                col as nat
                            },
                        ),
                decreases n - j,
            {
                assert(nos@[j as int] < 128);
                let f: u8 = coefficient_of(t, nos[j], col);
                assert(block_size <= data[col as int].len());
                assert(block_size <= rows(red@)[j as int].len());
                let ghost mid = rows(red@);
                addmul(t, &mut red[j], &data_blocks[col], f, block_size);
                proof {
                    assert(rows(red@) =~= mid.update(j as int, red@[j as int]@));
                    assert forall|i: int, b: int| 0 <= i < n && 0 <= b < block_size implies
                        #[trigger] rows(red@)[i][b] == fec[i][b] ^ known_part(
                        data,
                        erased@,
                        nos@[i] as int,
                        b,
                        if i < j + 1 {
                            (col + 1) as nat
                        } else {
                            col as nat
                        },
                    ) by {
                        assert(block_size <= mid[i].len());
                        assert(mid[i][b] == mid[i][b]);
                        if i == j {
                            let kp = known_part(data, erased@, nos@[j as int] as int, b, col as nat);
                            let g = gf_product(f, data[col as int][b]);
                            assert(mid[i][b] == fec[i][b] ^ kp);
                            lemma_xor(fec[i][b], kp, g);
                        }
                    }
                }
                j += 1;
            }
        }
        col += 1;
    }
    red
}

/// Restores lost data blocks from as many parity blocks, block `j` of them
/// having the number `fec_block_nos[j]`. Returns false, and changes nothing,
/// where a parity block or a lost block is listed twice.
pub fn fec_decode(
    t: &FecTables,
    block_size: usize,
    data_blocks: &mut Vec<Vec<u8>>,
    fec_blocks: &Vec<Vec<u8>>,
    fec_block_nos: &[u32],
    erased_blocks: &[u32],
) -> (r: bool)
    requires
        old(data_blocks)@.len() <= 128,
        blocks_of(rows(old(data_blocks)@), block_size as int),
        blocks_of(rows(fec_blocks@), block_size as int),
        fec_blocks@.len() == fec_block_nos@.len(),
        erased_blocks@.len() == fec_block_nos@.len(),
        below(fec_block_nos@, 128),
        below(erased_blocks@, old(data_blocks)@.len() as int),
    ensures
        r <==> fec_block_nos@.no_duplicates() && erased_blocks@.no_duplicates(),
        r ==> restored(
            block_size as int,
            rows(old(data_blocks)@),
            rows(fec_blocks@),
            fec_block_nos@,
            erased_blocks@,
            rows(final(data_blocks)@),
        ),
        !r ==> final(data_blocks)@ == old(data_blocks)@,
{
    let n = fec_block_nos.len();
    let ghost before = rows(data_blocks@);
    let ghost fec = rows(fec_blocks@);
    let ghost nos = fec_block_nos@;
    let ghost erased = erased_blocks@;
    proof {
        assert forall|i: int| 0 <= i < erased.len() implies (#[trigger] erased[i]) < 128 by {
            assert(erased[i] < before.len());
        }
    }
    let red = reduce_fec(t, block_size, data_blocks, fec_blocks, fec_block_nos, erased_blocks);
    let mut matrix = build_matrix(t, fec_block_nos, erased_blocks);
    let ghost a = rows(matrix@);
    assert(square(a, n as nat));
    let inverted = invert_mat(t, &mut matrix);
    if !inverted {
        proof {
            if nos.no_duplicates() && erased.no_duplicates() {
                lemma_code_matrix_regular(nos, erased);
            }
        }
        return false;
    }
    let ghost s = rows(matrix@);
    proof {
        lemma_code_matrix_repeats(nos, erased, s);
    }
    let ghost redr = rows(red@);
    let mut row: usize = 0;
    while row < n
        invariant
            row <= n,
            n == nos.len(),
            n == erased.len(),
            n == red@.len(),
            nos == fec_block_nos@,
            erased == erased_blocks@,
            redr == rows(red@),
            s == rows(matrix@),
            square(s, n as nat),
            before.len() <= 128,
            data_blocks@.len() == before.len(),
            blocks_of(before, block_size as int),
            blocks_of(redr, block_size as int),
            below(erased, before.len() as int),
            erased.no_duplicates(),
            forall|c: int|
                0 <= c < before.len() ==> (#[trigger] rows(data_blocks@)[c]).len()
                    == before[c].len(),
            forall|c: int|
                0 <= c < before.len() && (forall|i: int| 0 <= i < row ==> erased[i] != c)
                    ==> #[trigger] rows(data_blocks@)[c] == before[c],
            forall|c: int, b: int|
                0 <= c < before.len() && block_size <= b < before[c].len() ==> #[trigger] rows(
                    data_blocks@,
                )[c][b] == before[c][b],
            forall|i: int, b: int|
                0 <= i < row && 0 <= b < block_size ==> #[trigger] rows(
                    data_blocks@,
                )[erased[i] as int][b] == dot(s[i], byte_column(redr, b), n as nat),
        decreases n - row,
    {
        assert(erased[row as int] < before.len());
        let e: usize = erased_blocks[row] as usize;
        let ghost mid0 = rows(data_blocks@);
        assert(s[row as int].len() == n);
        let mut col: usize = 0;
        while col < n
            invariant
                col <= n,
                row < n,
                n == red@.len(),
                redr == rows(red@),
                s == rows(matrix@),
                square(s, n as nat),
                e < before.len(),
                data_blocks@.len() == before.len(),
                mid0.len() == before.len(),
                block_size <= mid0[e as int].len(),
                blocks_of(redr, block_size as int),
                rows(data_blocks@)[e as int].len() == mid0[e as int].len(),
                forall|c: int|
                    0 <= c < before.len() && c != e ==> #[trigger] rows(data_blocks@)[c]
                        == mid0[c],
                forall|b: int|
                    block_size <= b < mid0[e as int].len() ==> #[trigger] rows(
                        data_blocks@,
                    )[e as int][b] == mid0[e as int][b],
                col > 0 ==> forall|b: int|
                    0 <= b < block_size ==> #[trigger] rows(data_blocks@)[e as int][b] == dot(
                        s[row as int],
                        byte_column(redr, b),
                        col as nat,
                    ),
            decreases n - col,
        {
            assert(s[row as int].len() == n);
            let f: u8 = matrix[row][col];
            assert(block_size <= redr[col as int].len());
            let ghost mid = rows(data_blocks@);
            if col == 0 {
                set_mul(t, &mut data_blocks[e], &red[col], f, block_size);
            } else {
                addmul(t, &mut data_blocks[e], &red[col], f, block_size);
            }
            proof {
                assert(rows(data_blocks@) =~= mid.update(e as int, data_blocks@[e as int]@));
                assert forall|b: int| 0 <= b < block_size implies #[trigger] rows(
                    data_blocks@,
                )[e as int][b] == dot(s[row as int], byte_column(redr, b), (col + 1) as nat) by {
                    let v = byte_column(redr, b);
                    assert(v[col as int] == redr[col as int][b]);
                    if col == 0 {
                        assert(dot(s[row as int], v, 0) == 0);
                        lemma_xor(gf_product(f, redr[0][b]), 0, 0);
                    } else {
                        assert(mid[e as int][b] == dot(s[row as int], v, col as nat));
                    }
                }
            }
            col += 1;
        }
        proof {
            assert forall|c: int|
                0 <= c < before.len() && (forall|i: int| 0 <= i < row + 1 ==> erased[i] != c)
                implies #[trigger] rows(data_blocks@)[c] == before[c] by {
                assert(erased[row as int] != c);
                assert(rows(data_blocks@)[c] == mid0[c]);
            }
            assert forall|c: int| 0 <= c < before.len() implies (#[trigger] rows(
                data_blocks@,
            )[c]).len() == before[c].len() by {
                assert(mid0[c].len() == before[c].len());
            }
            assert forall|c: int, b: int|
                0 <= c < before.len() && block_size <= b < before[c].len() implies #[trigger] rows(
                data_blocks@,
            )[c][b] == before[c][b] by {
                assert(mid0[c][b] == before[c][b]);
            }
            assert forall|i: int, b: int| 0 <= i < row + 1 && 0 <= b < block_size implies
                #[trigger] rows(data_blocks@)[erased[i] as int][b] == dot(
                s[i],
                byte_column(redr, b),
                n as nat,
            ) by {
                if i < row {
                    assert(erased[i] != erased[row as int]);
                    assert(mid0[erased[i] as int][b] == dot(s[i], byte_column(redr, b), n as nat));
                }
            }
        }
        row += 1;
    }
    proof {
        let after = rows(data_blocks@);
        assert forall|c: int| 0 <= c < before.len() && !erased.contains(c as u32) implies
            #[trigger] after[c] == before[c] by {
            assert forall|i: int| 0 <= i < n implies erased[i] != c by {
                if erased[i] == c {
                    assert(erased.contains(erased[i]));
                }
            }
        }
        assert forall|j: int, b: int| 0 <= j < nos.len() && 0 <= b < block_size implies
            #[trigger] fec[j][b] == known_part(before, erased, nos[j] as int, b, before.len())
            ^ lost_part(after, erased, nos[j] as int, b, erased.len()) by {
            let y = byte_column(redr, b);
            let z = Seq::new(n as nat, |t: int| after[erased[t] as int][b]);
            assert forall|i: int| 0 <= i < s.len() implies #[trigger] dot(s[i], y, s.len())
                == z[i] by {
                assert(after[erased[i] as int][b] == dot(s[i], byte_column(redr, b), n as nat));
            }
            assert(maps_to(s, y, z));
            assert(maps_to(a, z, y));
            assert(dot(a[j], z, a.len()) == y[j]);
            lemma_lost_part(after, nos, erased, j, b, z, n as nat);
            let kp = known_part(before, erased, nos[j] as int, b, before.len());
            let lp = lost_part(after, erased, nos[j] as int, b, erased.len());
            assert(redr[j][b] == fec[j][b] ^ kp);
            lemma_xor(fec[j][b], kp, lp);
            lemma_xor(lp, kp, 0);
        }
    }
    true
}

/// Byte `b` of every block.
spec fn byte_column(blocks: Seq<Seq<u8>>, b: int) -> Seq<u8> {
    Seq::new(blocks.len(), |j: int| blocks[j][b])
}

/// The part of the lost blocks in a parity block is a row of the code matrix
/// times their bytes.
proof fn lemma_lost_part(
    data: Seq<Seq<u8>>,
    nos: Seq<u32>,
    erased: Seq<u32>,
    j: int,
    b: int,
    z: Seq<u8>,
    n: nat,
)
    requires
        0 <= j < nos.len(),
        n <= erased.len(),
        n <= z.len(),
        forall|t: int| 0 <= t < n ==> #[trigger] z[t] == data[erased[t] as int][b],
    ensures
        dot(code_matrix(nos, erased)[j], z, n) == lost_part(data, erased, nos[j] as int, b, n),
    decreases n,
{
    if n > 0 {
        lemma_lost_part(data, nos, erased, j, b, z, (n - 1) as nat);
        assert(z[n - 1] == data[erased[n - 1] as int][b]);
    }
}

/// One more lost block takes its part out of what is known.
proof fn lemma_one_more_lost(
    data: Seq<Seq<u8>>,
    erased: Seq<u32>,
    e: u32,
    r: int,
    b: int,
    n: nat,
)
    requires
        !erased.contains(e),
        n <= u32::MAX,
    ensures
        known_part(data, erased, r, b, n) == known_part(data, erased.push(e), r, b, n) ^ (if e < n {
            gf_product(coefficient(r, e as int), data[e as int][b])
        } else {
            0u8
        }),
    decreases n,
{
    if n == 0 {
        lemma_xor(0, 0, 0);
    } else {
        let m = (n - 1) as nat;
        lemma_one_more_lost(data, erased, e, r, b, m);
        let c = m as u32;
        let more = erased.push(e);
        let kp = known_part(data, erased, r, b, m);
        let kq = known_part(data, more, r, b, m);
        let g = gf_product(coefficient(r, m as int), data[m as int][b]);
        if c == e {
            assert(more[erased.len() as int] == e);
            assert(more.contains(c));
            lemma_xor(kq, 0, 0);
        } else {
            assert(more.contains(c) == erased.contains(c)) by {
                if erased.contains(c) {
                    let i = choose|i: int| 0 <= i < erased.len() && erased[i] == c;
                    assert(more[i] == c);
                }
                if more.contains(c) {
                    let i = choose|i: int| 0 <= i < more.len() && more[i] == c;
                    assert(erased[i] == c);
                }
            }
            let t = if e < n {
                gf_product(coefficient(r, e as int), data[e as int][b])
            } else {
                0u8
            };
            assert((kq ^ t) ^ g == (kq ^ g) ^ t) by (bit_vector);
        }
    }
}

/// Blocks that are not lost decide what is known.
proof fn lemma_known_part(
    data: Seq<Seq<u8>>,
    known: Seq<Seq<u8>>,
    erased: Seq<u32>,
    r: int,
    b: int,
    n: nat,
)
    requires
        n <= data.len() <= u32::MAX,
        forall|c: int|
            0 <= c < data.len() && !erased.contains(c as u32) ==> #[trigger] data[c][b]
                == known[c][b],
    ensures
        known_part(data, erased, r, b, n) == known_part(known, erased, r, b, n),
        erased.len() == 0 ==> known_part(data, erased, r, b, n) == parity_byte(data, r, b, n),
    decreases n,
{
    if n > 0 {
        lemma_known_part(data, known, erased, r, b, (n - 1) as nat);
        if !erased.contains((n - 1) as u32) {
            assert(data[n - 1][b] == known[n - 1][b]);
        }
    }
}

/// The parts of the first `k` lost blocks complete what is known.
proof fn lemma_lost_parts(data: Seq<Seq<u8>>, erased: Seq<u32>, r: int, b: int, k: nat)
    requires
        k <= erased.len(),
        erased.no_duplicates(),
        below(erased, data.len() as int),
        data.len() <= u32::MAX,
    ensures
        parity_byte(data, r, b, data.len()) == known_part(
            data,
            erased.take(k as int),
            r,
            b,
            data.len(),
        ) ^ lost_part(data, erased, r, b, k),
    decreases k,
{
    let n = data.len();
    if k == 0 {
        assert(erased.take(0).len() == 0);
        lemma_known_part(data, data, erased.take(0), r, b, n);
        lemma_xor(parity_byte(data, r, b, n), 0, 0);
    } else {
        let m = (k - 1) as nat;
        let e = erased[m as int];
        let few = erased.take(m as int);
        lemma_lost_parts(data, erased, r, b, m);
        assert(!few.contains(e)) by {
            if few.contains(e) {
                let i = choose|i: int| 0 <= i < few.len() && few[i] == e;
                assert(erased[i] == erased[m as int]);
            }
        }
        lemma_one_more_lost(data, few, e, r, b, n);
        assert(few.push(e) =~= erased.take(k as int));
        assert(e < n);
        let kq = known_part(data, few.push(e), r, b, n);
        let g = gf_product(coefficient(r, e as int), data[e as int][b]);
        let lp = lost_part(data, erased, r, b, m);
        assert((kq ^ g) ^ lp == kq ^ (lp ^ g)) by (bit_vector);
    }
}

/// A parity block is the part of the blocks that arrived and that of the lost
/// blocks.
pub proof fn lemma_parity_parts(
    data: Seq<Seq<u8>>,
    known: Seq<Seq<u8>>,
    erased: Seq<u32>,
    r: int,
    b: int,
)
    requires
        erased.no_duplicates(),
        below(erased, data.len() as int),
        data.len() <= u32::MAX,
        forall|c: int|
            0 <= c < data.len() && !erased.contains(c as u32) ==> #[trigger] data[c][b]
                == known[c][b],
    ensures
        parity_byte(data, r, b, data.len()) == known_part(known, erased, r, b, data.len())
            ^ lost_part(data, erased, r, b, erased.len()),
{
    lemma_lost_parts(data, erased, r, b, erased.len());
    assert(erased.take(erased.len() as int) =~= erased);
    lemma_known_part(data, known, erased, r, b, data.len());
}

/// After restoring blocks, every parity block that was used is
/// the parity of the data.
pub proof fn law_restored_data_matches_parity(
    size: int,
    before: Seq<Seq<u8>>,
    fec: Seq<Seq<u8>>,
    nos: Seq<u32>,
    erased: Seq<u32>,
    after: Seq<Seq<u8>>,
    j: int,
    b: int,
)
    requires
        restored(size, before, fec, nos, erased, after),
        before.len() <= 128,
        erased.no_duplicates(),
        below(erased, before.len() as int),
        0 <= j < nos.len(),
        0 <= b < size,
    ensures
        parity_byte(after, nos[j] as int, b, after.len()) == fec[j][b],
{
    let n = before.len();
    assert forall|c: int| 0 <= c < n && !erased.contains(c as u32) implies #[trigger] after[c][b]
        == before[c][b] by {
        assert(after[c] == before[c]);
    }
    lemma_parity_parts(after, before, erased, nos[j] as int, b);
}

/// Lost blocks come back: where the blocks that arrived are those of `data` and
/// the parity blocks are the parity of `data`, what is restored is `data`.
pub proof fn law_lost_blocks_recovered(
    size: int,
    data: Seq<Seq<u8>>,
    before: Seq<Seq<u8>>,
    fec: Seq<Seq<u8>>,
    nos: Seq<u32>,
    erased: Seq<u32>,
    after: Seq<Seq<u8>>,
)
    requires
        restored(size, before, fec, nos, erased, after),
        before.len() <= 128,
        data.len() == before.len(),
        nos.len() == erased.len(),
        below(nos, 128),
        nos.no_duplicates(),
        erased.no_duplicates(),
        below(erased, before.len() as int),
        forall|c: int, b: int|
            0 <= c < data.len() && !erased.contains(c as u32) && 0 <= b < size
                ==> #[trigger] before[c][b] == data[c][b],
        forall|j: int, b: int|
            0 <= j < nos.len() && 0 <= b < size ==> #[trigger] fec[j][b] == parity_byte(
                data,
                nos[j] as int,
                b,
                data.len(),
            ),
    ensures
        forall|c: int, b: int|
            0 <= c < data.len() && 0 <= b < size ==> #[trigger] after[c][b] == data[c][b],
{
    let n = data.len();
    let k = erased.len();
    assert forall|i: int| 0 <= i < k implies (#[trigger] erased[i]) < 128 by {
        assert(erased[i] < before.len());
    }
    lemma_code_matrix_regular(nos, erased);
    let m = code_matrix(nos, erased);
    assert forall|c: int, b: int| 0 <= c < n && 0 <= b < size implies #[trigger] after[c][b]
        == data[c][b] by {
        if !erased.contains(c as u32) {
            assert(after[c] == before[c]);
            assert(before[c][b] == data[c][b]);
        } else {
            let t0 = choose|t: int| 0 <= t < k && erased[t] == c as u32;
            let z1 = Seq::new(k, |t: int| after[erased[t] as int][b]);
            let z2 = Seq::new(k, |t: int| data[erased[t] as int][b]);
            let z = Seq::new(k, |t: int| z1[t] ^ z2[t]);
            let zero = Seq::new(k, |t: int| 0u8);
            assert forall|j: int| 0 <= j < m.len() implies #[trigger] dot(m[j], z, m.len())
                == zero[j] by {
                lemma_lost_part(after, nos, erased, j, b, z1, k);
                lemma_lost_part(data, nos, erased, j, b, z2, k);
                assert(fec[j][b] == parity_byte(data, nos[j] as int, b, n));
                assert forall|d: int| 0 <= d < n && !erased.contains(d as u32) implies
                    #[trigger] data[d][b] == before[d][b] by {
                    assert(before[d][b] == data[d][b]);
                }
                lemma_parity_parts(data, before, erased, nos[j] as int, b);
                let kp = known_part(before, erased, nos[j] as int, b, n);
                let l1 = lost_part(after, erased, nos[j] as int, b, k);
                let l2 = lost_part(data, erased, nos[j] as int, b, k);
                assert(kp ^ l1 == kp ^ l2);
                assert(l1 ^ l2 == 0) by (bit_vector)
                    requires
                        kp ^ l1 == kp ^ l2,
                ;
                assert forall|i: int| 0 <= i < k implies z[i] == #[trigger] z1[i] ^ z2[i] by {}
                crate::matrix::lemma_dot_commutes(m[j], z, k);
                crate::matrix::lemma_dot_commutes(m[j], z1, k);
                crate::matrix::lemma_dot_commutes(m[j], z2, k);
                crate::matrix::lemma_dot_add(z1, z2, z, m[j], k);
            }
            assert(maps_to(m, z, zero));
            if z[t0] != 0 {
                assert(singular(m));
            }
            lemma_xor(z1[t0], z2[t0], 0);
        }
    }
}

/// Under which terms the library, and the code for parity, may be used.
pub const LICENSE_TEXT: &'static str = r#"   udpcast and its FEC code are free software

   you can redistribute udpcast core functionality and/or
   it them under the terms of the GNU General Public License as
   published by the Free Software Foundation; either version 2 of
   the License, or (at your option) any later version.

   This program is distributed in the hope that it will be useful,
   but WITHOUT ANY WARRANTY; without even the implied warranty of
   MERCHANTABILITY or FITNESS FOR A PARTICULAR PURPOSE.  See the
   GNU General Public License for more details.

   You should have received a copy of the GNU General Public License
   along with this program; see the file COPYING.
   If not, write to the Free Software Foundation, Inc.,
   59 Temple Place - Suite 330, Boston, MA 02111-1307, USA.

   Alain Knaff
   <alain@knaff.lu>
   http://udpcast.linux.lu/

the FEC code is covered by the following license:
fec.c -- forward error correction based on Vandermonde matrices
980624
(C) 1997-98 Luigi Rizzo (luigi@iet.unipi.it)
(C) 2001 Alain Knaff (alain@knaff.lu)

Portions derived from code by Phil Karn (karn@ka9q.ampr.org),
Robert Morelos-Zaragoza (robert@spectra.eng.hawaii.edu) and Hari
Thirumoorthy (harit@spectra.eng.hawaii.edu), Aug 1995

Redistribution and use in source and binary forms, with or without
modification, are permitted provided that the following conditions
are met:

1. Redistributions of source code must retain the above copyright
   notice, this list of conditions and the following disclaimer.
2. Redistributions in binary form must reproduce the above
   copyright notice, this list of conditions and the following
   disclaimer in the documentation and/or other materials
   provided with the distribution.

THIS SOFTWARE IS PROVIDED BY THE AUTHORS ``AS IS'' AND
ANY EXPRESS OR IMPLIED WARRANTIES, INCLUDING, BUT NOT LIMITED TO,
THE IMPLIED WARRANTIES OF MERCHANTABILITY AND FITNESS FOR A
PARTICULAR PURPOSE ARE DISCLAIMED. IN NO EVENT SHALL THE AUTHORS
BE LIABLE FOR ANY DIRECT, INDIRECT, INCIDENTAL, SPECIAL, EXEMPLARY,
OR CONSEQUENTIAL DAMAGES (INCLUDING, BUT NOT LIMITED TO,
PROCUREMENT OF SUBSTITUTE GOODS OR SERVICES; LOSS OF USE, DATA,
OR PROFITS; OR BUSINESS INTERRUPTION) HOWEVER CAUSED AND ON ANY
THEORY OF LIABILITY, WHETHER IN CONTRACT, STRICT LIABILITY, OR
TORT (INCLUDING NEGLIGENCE OR OTHERWISE) ARISING IN ANY WAY OUT
OF THE USE OF THIS SOFTWARE, EVEN IF ADVISED OF THE POSSIBILITY
OF SUCH DAMAGE.
"#;

/// Under which terms the library may be used.
pub fn fec_license_text() -> (r: &'static str)
    ensures
        r@ == LICENSE_TEXT@,
{
    LICENSE_TEXT
}

/// Data that is zero at a byte has a parity that is zero there.
proof fn lemma_parity_of_nothing(data: Seq<Seq<u8>>, r: int, b: int, n: nat)
    requires
        forall|c: int| 0 <= c < n ==> (#[trigger] data[c])[b] == 0,
    ensures
        parity_byte(data, r, b, n) == 0,
    decreases n,
{
    if n > 0 {
        lemma_parity_of_nothing(data, r, b, (n - 1) as nat);
        lemma_product_units(coefficient(r, n - 1));
        lemma_xor(0, 0, 0);
    }
}

/// Where only block `c` is not zero at a byte, that byte of parity block `r` times
/// r + (128 + c) is the byte of the block. With the next law this makes every parity.
pub proof fn law_parity_of_one_block(data: Seq<Seq<u8>>, r: int, b: int, n: nat, c: int)
    requires
        0 <= r < 128,
        0 <= c < n <= 128,
        forall|d: int| 0 <= d < n && d != c ==> (#[trigger] data[d])[b] == 0,
    ensures
        gf_product(parity_byte(data, r, b, n), (r as u8) ^ ((128 + c) as u8)) == data[c][b],
    decreases n,
{
    let x = (r as u8) ^ ((128 + c) as u8);
    let v = data[c][b];
    let p = parity_byte(data, r, b, (n - 1) as nat);
    if n == c + 1 {
        lemma_parity_of_nothing(data, r, b, (n - 1) as nat);
        let low = r as u8;
        let high = (128 + c) as u8;
        lemma_xor(low, high, 0);
        lemma_inverse(x);
        let k = coefficient(r, c);
        lemma_xor(gf_product(k, v), 0, 0);
        lemma_product_commutes(gf_product(k, v), x);
        lemma_product_associates(x, k, v);
        lemma_product_units(v);
    } else {
        law_parity_of_one_block(data, r, b, (n - 1) as nat, c);
        lemma_product_units(coefficient(r, n - 1));
        lemma_xor(p, 0, 0);
    }
}

/// The parity of the sum of two pieces of data is the sum of their parities.
pub proof fn law_parities_add(
    x: Seq<Seq<u8>>,
    y: Seq<Seq<u8>>,
    z: Seq<Seq<u8>>,
    r: int,
    b: int,
    n: nat,
)
    requires
        forall|c: int|
            0 <= c < n ==> (#[trigger] z[c])[b] == x[c][b] ^ y[c][b],
    ensures
        parity_byte(z, r, b, n) == parity_byte(x, r, b, n) ^ parity_byte(y, r, b, n),
    decreases n,
{
    lemma_xor(0, 0, 0);
    if n > 0 {
        law_parities_add(x, y, z, r, b, (n - 1) as nat);
        let k = coefficient(r, n - 1);
        assert(z[n - 1][b] == x[n - 1][b] ^ y[n - 1][b]);
        lemma_product_add_right(k, x[n - 1][b], y[n - 1][b]);
        lemma_xor_pairs(
            parity_byte(x, r, b, (n - 1) as nat),
            gf_product(k, x[n - 1][b]),
            parity_byte(y, r, b, (n - 1) as nat),
            gf_product(k, y[n - 1][b]),
        );
    }
}

} // verus!
