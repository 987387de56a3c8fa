//! Sets of small numbers as bits: number `i` is bit `i % 8` of byte `i / 8`.

use vstd::prelude::*;

verus! {

/// Whether bit `bit` of `map` is set; a bit past the end is not.
pub open spec fn bit_at(map: Seq<u8>, bit: int) -> bool {
    0 <= bit && bit / 8 < map.len() && (map[bit / 8] >> ((bit % 8) as u8)) & 1 == 1
}

/// What setting, clearing and complementing do to the bits of a byte.
pub proof fn lemma_byte_bits(b: u8, m: u8, i: u8, j: u8)
    requires
        i < 8,
        j < 8,
    ensures
        (b & (1u8 << i)) != 0 <==> (b >> i) & 1 == 1,
        ((b | (1u8 << i)) >> j) & 1 == 1 <==> (i == j || (b >> j) & 1 == 1),
        ((b & !(1u8 << i)) >> j) & 1 == 1 <==> (i != j && (b >> j) & 1 == 1),
        ((b | !m) >> j) & 1 == 1 <==> ((b >> j) & 1 == 1 || (m >> j) & 1 != 1),
        (0u8 >> j) & 1 != 1,
{
    assert(((b & (1u8 << i)) != 0 <==> (b >> i) & 1 == 1) && (((b | (1u8 << i)) >> j) & 1 == 1 <==> (
    i == j || (b >> j) & 1 == 1)) && (((b & !(1u8 << i)) >> j) & 1 == 1 <==> (i != j && (b >> j) & 1
        == 1)) && (((b | !m) >> j) & 1 == 1 <==> ((b >> j) & 1 == 1 || (m >> j) & 1 != 1)) && ((0u8
        >> j) & 1 != 1)) by (bit_vector)
        requires
            i < 8,
            j < 8,
    ;
}

/// Whether `bit` is set; a bit past the end is not.
pub fn bit_is_set(bit: usize, map: &[u8]) -> (r: bool)
    ensures
        r <==> bit_at(map@, bit as int),
{
    let byte_idx: usize = bit / 8;
    let bit_idx: usize = bit % 8;
    if byte_idx >= map.len() {
        return false;
    }
    proof {
        lemma_byte_bits(map@[byte_idx as int], 0, bit_idx as u8, bit_idx as u8);
    }
    (map[byte_idx] & (1u8 << (bit_idx as u8))) != 0
}

/// Sets `bit`; past the end it does nothing.
pub fn set_bit(bit: usize, map: &mut [u8])
    ensures
        final(map)@.len() == old(map)@.len(),
        forall|j: int| #[trigger]
            bit_at(final(map)@, j) <==> (bit_at(old(map)@, j) || (j == bit && bit as int / 8 < old(
                map,
            )@.len())),
{
    let byte_idx: usize = bit / 8;
    let bit_idx: usize = bit % 8;
    if byte_idx < map.len() {
        let ghost before = map@;
        let b: u8 = map[byte_idx];
        map[byte_idx] = b | (1u8 << (bit_idx as u8));
        assert forall|j: int| #[trigger] bit_at(map@, j) <==> (bit_at(before, j) || j == bit) by {
            if 0 <= j && j / 8 == byte_idx {
                lemma_byte_bits(b, 0, bit_idx as u8, (j % 8) as u8);
            }
        }
    }
}

/// Clears `bit`; past the end it does nothing.
pub fn clear_bit(bit: usize, map: &mut [u8])
    ensures
        final(map)@.len() == old(map)@.len(),
        forall|j: int| #[trigger]
            bit_at(final(map)@, j) <==> (bit_at(old(map)@, j) && j != bit),
{
    let byte_idx: usize = bit / 8;
    let bit_idx: usize = bit % 8;
    if byte_idx < map.len() {
        let ghost before = map@;
        let b: u8 = map[byte_idx];
        map[byte_idx] = b & !(1u8 << (bit_idx as u8));
        assert forall|j: int| #[trigger] bit_at(map@, j) <==> (bit_at(before, j) && j != bit) by {
            if 0 <= j && j / 8 == byte_idx {
                lemma_byte_bits(b, 0, bit_idx as u8, (j % 8) as u8);
            }
        }
    }
}

/// A set of numbers below 1024: blocks of a slice, or participants.
#[derive(Clone, Copy, Debug)]
pub struct BitMap {
    pub bytes: [u8; 128],
}

impl View for BitMap {
    type V = Set<int>;

    /// The numbers whose bits are set.
    open spec fn view(&self) -> Set<int> {
        bits_of(self.bytes@)
    }
}

/// The numbers below 1024 whose bits are set.
pub open spec fn bits_of(map: Seq<u8>) -> Set<int> {
    Set::new(|i: int| 0 <= i < 1024 && bit_at(map, i))
}

/// The numbers below `n`.
pub open spec fn numbers_below(n: int) -> Set<int> {
    vstd::set_lib::set_int_range(0, n)
}

/// The set is finite.
pub proof fn lemma_bits_finite(map: Seq<u8>)
    ensures
        bits_of(map).finite(),
        bits_of(map).subset_of(numbers_below(1024)),
        bits_of(map).len() <= 1024,
{
    vstd::set_lib::lemma_int_range(0, 1024);
    vstd::set_lib::lemma_len_subset(bits_of(map), numbers_below(1024));
}

impl BitMap {
    /// The empty set.
    pub fn empty() -> (r: Self)
        ensures
            r@ == Set::<int>::empty(),
            r.bytes@ == Seq::new(128, |i: int| 0u8),
    {
        let r = BitMap { bytes: [0u8; 128] };
        assert(r.bytes@ =~= Seq::new(128, |i: int| 0u8));
        assert forall|i: int| !r@.contains(i) by {
            lemma_byte_bits(0, 0, 0, (i % 8) as u8);
        }
        assert(r@ =~= Set::<int>::empty());
        r
    }

    /// Whether `i` is in the set.
    pub fn contains(&self, i: usize) -> (r: bool)
        requires
            i < 1024,
        ensures
            r <==> self@.contains(i as int),
    {
        bit_is_set(i, self.bytes.as_slice())
    }

    /// Adds `i`.
    pub fn insert(&mut self, i: usize)
        requires
            i < 1024,
        ensures
            final(self)@ == old(self)@.insert(i as int),
    {
        let ghost before = *self;
        let b: u8 = self.bytes[i / 8];
        self.bytes[i / 8] = b | (1u8 << ((i % 8) as u8));
        let ghost want = before@.insert(i as int);
        assert forall|j: int| #[trigger] self@.contains(j) <==> want.contains(j) by {
            if 0 <= j < 1024 {
                if j / 8 == i as int / 8 {
                    lemma_byte_bits(b, 0, (i % 8) as u8, (j % 8) as u8);
                }
            }
        }
        assert(self@ =~= want);
    }

    /// Takes `i` out.
    pub fn remove(&mut self, i: usize)
        requires
            i < 1024,
        ensures
            final(self)@ == old(self)@.remove(i as int),
    {
        let ghost before = *self;
        let b: u8 = self.bytes[i / 8];
        self.bytes[i / 8] = b & !(1u8 << ((i % 8) as u8));
        let ghost want = before@.remove(i as int);
        assert forall|j: int| #[trigger] self@.contains(j) <==> want.contains(j) by {
            if 0 <= j < 1024 {
                if j / 8 == i as int / 8 {
                    lemma_byte_bits(b, 0, (i % 8) as u8, (j % 8) as u8);
                }
            }
        }
        assert(self@ =~= want);
    }

    /// Adds every number that `have` does not hold.
    pub fn add_missing(&mut self, have: &[u8; 128])
        ensures
            final(self)@ == old(self)@.union(numbers_below(1024).difference(bits_of(have@))),
    {
        let ghost before = *self;
        let mut k: usize = 0;
        while k < 128
            invariant
                k <= 128,
                self.bytes@.len() == 128,
                have@.len() == 128,
                before.bytes@.len() == 128,
                forall|i: int|
                    0 <= i < 128 ==> #[trigger] self.bytes@[i] == if i < k {
                        before.bytes@[i] | !have@[i]
                    } else {
                        before.bytes@[i]
                    },
            decreases 128 - k,
        {
            let v: u8 = self.bytes[k] | !have[k];
            self.bytes[k] = v;
            k += 1;
        }
        let ghost want = before@.union(numbers_below(1024).difference(bits_of(have@)));
        assert forall|j: int| #[trigger] self@.contains(j) <==> want.contains(j) by {
            if 0 <= j < 1024 {
                lemma_byte_bits(before.bytes@[j / 8], have@[j / 8], 0, (j % 8) as u8);
                assert(self.bytes@[j / 8] == before.bytes@[j / 8] | !have@[j / 8]);
            }
        }
        assert(self@ =~= want);
    }
}

/// What bit `j` of a byte counts.
pub open spec fn weight(j: int) -> int {
    seq![1int, 2, 4, 8, 16, 32, 64, 128][j]
}

/// Number `i` is in the set exactly if the bit that counts `2` to the power `i % 8` is
/// set in byte `i / 8`.
pub proof fn law_the_lowest_bit_comes_first(map: Seq<u8>, i: int)
    requires
        map.len() == 128,
        0 <= i < 1024,
    ensures
        bits_of(map).contains(i) <==> map[i / 8] as int / weight(i % 8) % 2 == 1,
{
    let b = map[i / 8];
    assert(((b >> 0u8) & 1 == 1 <==> b % 2 == 1) && ((b >> 1u8) & 1 == 1 <==> b / 2 % 2 == 1) && ((b
        >> 2u8) & 1 == 1 <==> b / 4 % 2 == 1) && ((b >> 3u8) & 1 == 1 <==> b / 8 % 2 == 1) && ((b
        >> 4u8) & 1 == 1 <==> b / 16 % 2 == 1) && ((b >> 5u8) & 1 == 1 <==> b / 32 % 2 == 1) && ((b
        >> 6u8) & 1 == 1 <==> b / 64 % 2 == 1) && ((b >> 7u8) & 1 == 1 <==> b / 128 % 2 == 1))
        by (bit_vector);
    let j = i % 8;
    if j == 0 {
        assert(weight(j) == 1);
    } else if j == 1 {
        assert(weight(j) == 2);
    } else if j == 2 {
        assert(weight(j) == 4);
    } else if j == 3 {
        assert(weight(j) == 8);
    } else if j == 4 {
        assert(weight(j) == 16);
    } else if j == 5 {
        assert(weight(j) == 32);
    } else if j == 6 {
        assert(weight(j) == 64);
    } else {
        assert(weight(j) == 128);
    }
}

} // verus!
