//! A bit-packed boolean array: booleans stored in `u32` words.

use vstd::prelude::*;

verus! {

use vstd::arithmetic::div_mod::{
    lemma_fundamental_div_mod, lemma_mod_division_less_than_divisor, lemma_multiply_divide_lt,
};

/// Fixed-capacity array of booleans, packed into `u32` words.
///
/// The abstract value (the view) is a `Seq<bool>` of length `num_bits`.
/// Reading or writing a position at or beyond that length is a usage
/// error and is excluded by precondition; the grid built on top of this
/// array handles its own boundaries separately, by reporting "blocked".
pub struct BitArray {
    bits: Vec<u32>,
    num_bits: usize,
}

impl View for BitArray {
    type V = Seq<bool>;

    closed spec fn view(&self) -> Seq<bool> {
        Seq::new(self.num_bits as nat, |k: int| bit_of(self.bits@, k))
    }
}

/// The boolean stored at overall position `k` of the packed words.
pub closed spec fn bit_of(words: Seq<u32>, k: int) -> bool {
    (words[k / 32] >> ((k % 32) as u32)) & 1u32 == 1u32
}

/// Positions with equal word index and equal offset in the word are equal.
proof fn lemma_bit_position_unique(k: int, p: int)
    requires
        0 <= k,
        0 <= p,
        k / 32 == p / 32,
        k % 32 == p % 32,
    ensures
        k == p,
{
    lemma_fundamental_div_mod(k, 32);
    lemma_fundamental_div_mod(p, 32);
}

/// A position below the capacity indexes a word inside the vector.
proof fn lemma_word_index_in_range(p: int, num_bits: int, num_words: int)
    requires
        0 <= p < num_bits,
        num_words == (num_bits + 31) / 32,
    ensures
        0 <= p / 32 < num_words,
        0 <= p % 32 < 32,
{
    lemma_mod_division_less_than_divisor(p, 32);
    lemma_fundamental_div_mod(p, 32);
    assert(num_bits <= 32 * num_words) by {
        lemma_fundamental_div_mod(num_bits + 31, 32);
        lemma_mod_division_less_than_divisor(num_bits + 31, 32);
    }
    lemma_multiply_divide_lt(p, 32, num_words);
}

impl BitArray {
    /// The words hold exactly the declared number of bits.
    pub closed spec fn wf(&self) -> bool {
        self.bits@.len() == (self.num_bits + 31) / 32
    }

    /// Creates an array of `num_bits` booleans, all `false`.
    pub fn new(num_bits: usize) -> (r: BitArray)
        requires
            num_bits + 31 <= usize::MAX,
        ensures
            r.wf(),
            r@.len() == num_bits,
            forall|k: int| 0 <= k < num_bits ==> !r@[k],
    {
        let num_elements: usize = (num_bits + 31) / 32;
        let mut bits: Vec<u32> = Vec::new();
        let mut i: usize = 0;
        while i < num_elements
            invariant
                i <= num_elements,
                bits@.len() == i,
                forall|w: int| 0 <= w < i ==> bits@[w] == 0u32,
            decreases num_elements - i,
        {
            bits.push(0u32);
            i += 1;
        }
        let r = BitArray { bits, num_bits };
        assert forall|k: int| 0 <= k < num_bits implies !r@[k] by {
            lemma_word_index_in_range(k, num_bits as int, r.bits@.len() as int);
            let j = (k % 32) as u32;
            assert(0u32 >> j & 1u32 == 0u32) by (bit_vector);
        }
        r
    }

    /// The declared capacity in bits.
    pub fn len(&self) -> (r: usize)
        ensures
            r == self@.len(),
    {
        self.num_bits
    }

    /// Sets the bit at `position` to 1.
    pub fn set_bit(&mut self, position: usize)
        requires
            old(self).wf(),
            position < old(self)@.len(),
        ensures
            final(self).wf(),
            final(self)@ == old(self)@.update(position as int, true),
    {
        proof {
            lemma_word_index_in_range(
                position as int,
                self.num_bits as int,
                self.bits@.len() as int,
            );
        }
        let element: usize = position / 32;
        let bit: u32 = (position % 32) as u32;
        let w = self.bits[element];
        self.bits.set(element, w | (1u32 << bit));
        proof {
            let b = bit;
            assert(b < 32 ==> ((w | (1u32 << b)) >> b) & 1u32 == 1u32) by (bit_vector);
            assert(forall|j: u32|
                j < 32 && b < 32 && j != b ==> (#[trigger] ((w | (1u32 << b)) >> j)) & 1u32 == (w
                    >> j) & 1u32) by (bit_vector);
            self.lemma_word_update(*old(self), position as int, true);
        }
    }

    /// Clears the bit at `position` to 0.
    pub fn clear_bit(&mut self, position: usize)
        requires
            old(self).wf(),
            position < old(self)@.len(),
        ensures
            final(self).wf(),
            final(self)@ == old(self)@.update(position as int, false),
    {
        proof {
            lemma_word_index_in_range(
                position as int,
                self.num_bits as int,
                self.bits@.len() as int,
            );
        }
        let element: usize = position / 32;
        let bit: u32 = (position % 32) as u32;
        let w = self.bits[element];
        self.bits.set(element, w & !(1u32 << bit));
        proof {
            let b = bit;
            assert(b < 32 ==> ((w & !(1u32 << b)) >> b) & 1u32 == 0u32) by (bit_vector);
            assert(forall|j: u32|
                j < 32 && b < 32 && j != b ==> (#[trigger] ((w & !(1u32 << b)) >> j)) & 1u32 == (w
                    >> j) & 1u32) by (bit_vector);
            self.lemma_word_update(*old(self), position as int, false);
        }
    }

    /// Flips the bit at `position`.
    pub fn toggle_bit(&mut self, position: usize)
        requires
            old(self).wf(),
            position < old(self)@.len(),
        ensures
            final(self).wf(),
            final(self)@ == old(self)@.update(position as int, !old(self)@[position as int]),
    {
        proof {
            lemma_word_index_in_range(
                position as int,
                self.num_bits as int,
                self.bits@.len() as int,
            );
        }
        let element: usize = position / 32;
        let bit: u32 = (position % 32) as u32;
        let w = self.bits[element];
        self.bits.set(element, w ^ (1u32 << bit));
        proof {
            let b = bit;
            assert(b < 32 ==> ((((w ^ (1u32 << b)) >> b) & 1u32 == 1u32) <==> !((w >> b) & 1u32
                == 1u32))) by (bit_vector);
            assert(forall|j: u32|
                j < 32 && b < 32 && j != b ==> (#[trigger] ((w ^ (1u32 << b)) >> j)) & 1u32 == (w
                    >> j) & 1u32) by (bit_vector);
            self.lemma_word_update(*old(self), position as int, !old(self)@[position as int]);
        }
    }

    /// Reports whether the bit at `position` is set.
    pub fn is_bit_set(&self, position: usize) -> (r: bool)
        requires
            self.wf(),
            position < self@.len(),
        ensures
            r == self@[position as int],
    {
        proof {
            lemma_word_index_in_range(
                position as int,
                self.num_bits as int,
                self.bits@.len() as int,
            );
        }
        let element: usize = position / 32;
        let bit: u32 = (position % 32) as u32;
        let w = self.bits[element];
        proof {
            let b = bit;
            assert(b < 32 ==> (((w & (1u32 << b)) != 0) <==> ((w >> b) & 1u32 == 1u32)))
                by (bit_vector);
        }
        (w & (1u32 << bit)) != 0
    }

    /// Writes `value` at `position`.
    pub fn set_bool(&mut self, position: usize, value: bool)
        requires
            old(self).wf(),
            position < old(self)@.len(),
        ensures
            final(self).wf(),
            final(self)@ == old(self)@.update(position as int, value),
    {
        if value {
            self.set_bit(position);
        } else {
            self.clear_bit(position);
        }
    }

    /// Reads the boolean at `position`.
    pub fn get_bool(&self, position: usize) -> (r: bool)
        requires
            self.wf(),
            position < self@.len(),
        ensures
            r == self@[position as int],
    {
        self.is_bit_set(position)
    }

    /// After one word is rewritten so that only the bit at `p` may have
    /// changed, and that bit reads back as `value`, the view is the
    /// pointwise update of the old view.
    proof fn lemma_word_update(&self, prev: BitArray, p: int, value: bool)
        requires
            prev.wf(),
            0 <= p < prev.num_bits,
            self.num_bits == prev.num_bits,
            self.bits@.len() == prev.bits@.len(),
            forall|w: int|
                0 <= w < prev.bits@.len() && w != p / 32 ==> self.bits@[w] == prev.bits@[w],
            bit_of(self.bits@, p) == value,
            forall|j: u32|
                j < 32 && j != p % 32 ==> (#[trigger] (self.bits@[p / 32] >> j) & 1u32) == (
                prev.bits@[p / 32] >> j) & 1u32,
        ensures
            self.wf(),
            self@ == prev@.update(p, value),
    {
        assert forall|k: int| 0 <= k < self.num_bits implies self@[k] == prev@.update(p, value)[k]
        by {
            lemma_word_index_in_range(k, self.num_bits as int, self.bits@.len() as int);
            if k == p {
            } else if k / 32 == p / 32 {
                if k % 32 == p % 32 {
                    lemma_bit_position_unique(k, p);
                }
                assert(bit_of(self.bits@, k) == bit_of(prev.bits@, k));
            } else {
                assert(bit_of(self.bits@, k) == bit_of(prev.bits@, k));
            }
        }
        assert(self@ =~= prev@.update(p, value));
    }
}

} // verus!
