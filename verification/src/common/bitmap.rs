//! A dense array of bits, eight to a byte.

use vstd::prelude::*;
use vstd::arithmetic::power2::lemma2_to64;
use super::{nth_bit, test_nth_bit};

verus! {

/// Bit `j` of a byte, read by a shift, is the bit that `nth_bit` names.
proof fn lemma_nth_bit_shift(w: u8, j: usize)
    requires
        j < 8,
    ensures
        nth_bit(w, j as nat) == ((w >> j) & 1u8 == 1u8),
{
    lemma2_to64();
    assert((w >> 0usize) & 1u8 == (w / 1) % 2) by (bit_vector);
    assert((w >> 1usize) & 1u8 == (w / 2) % 2) by (bit_vector);
    assert((w >> 2usize) & 1u8 == (w / 4) % 2) by (bit_vector);
    assert((w >> 3usize) & 1u8 == (w / 8) % 2) by (bit_vector);
    assert((w >> 4usize) & 1u8 == (w / 16) % 2) by (bit_vector);
    assert((w >> 5usize) & 1u8 == (w / 32) % 2) by (bit_vector);
    assert((w >> 6usize) & 1u8 == (w / 64) % 2) by (bit_vector);
    assert((w >> 7usize) & 1u8 == (w / 128) % 2) by (bit_vector);
}

/// Setting bit `k` of a byte sets that bit and leaves the others.
proof fn lemma_set_bit(w: u8, k: usize, j: usize)
    requires
        k < 8,
        j < 8,
    ensures
        nth_bit(w | (1u8 << k), j as nat) == (j == k || nth_bit(w, j as nat)),
{
    lemma_nth_bit_shift(w, j);
    lemma_nth_bit_shift(w | (1u8 << k), j);
    assert(k < 8 && j < 8 ==> ((((w | (1u8 << k)) >> j) & 1u8 == 1u8) <==> (j == k || (w >> j) & 1u8
        == 1u8))) by (bit_vector);
}

/// Clearing bit `k` of a byte clears that bit and leaves the others.
proof fn lemma_clear_bit(w: u8, k: usize, j: usize)
    requires
        k < 8,
        j < 8,
    ensures
        nth_bit(w & !(1u8 << k), j as nat) == (j != k && nth_bit(w, j as nat)),
{
    lemma_nth_bit_shift(w, j);
    lemma_nth_bit_shift(w & !(1u8 << k), j);
    assert(k < 8 && j < 8 ==> ((((w & !(1u8 << k)) >> j) & 1u8 == 1u8) <==> (j != k && (w >> j)
        & 1u8 == 1u8))) by (bit_vector);
}

/// No bit of the zero byte is set.
proof fn lemma_zero_byte(j: usize)
    requires
        j < 8,
    ensures
        !nth_bit(0u8, j as nat),
{
    lemma_nth_bit_shift(0u8, j);
    assert(j < 8 ==> (0u8 >> j) & 1u8 == 0u8) by (bit_vector);
}

/// `len` bits, stored eight to a byte, the first in the lowest bit of the
/// first byte.
pub struct Bitmap {
    words: Vec<u8>,
    len: usize,
}

impl View for Bitmap {
    type V = Seq<bool>;

    closed spec fn view(&self) -> Seq<bool> {
        Seq::new(self.len as nat, |i: int| nth_bit(self.words@[i / 8], (i % 8) as nat))
    }
}

impl Bitmap {
    /// The invariant: the bytes are just enough for the bits.
    pub closed spec fn wf(&self) -> bool {
        self.words@.len() * 8 >= self.len && self.words@.len() == (self.len + 7) / 8
    }

    /// A bitmap of `len` bits, all clear.
    pub fn new(len: usize) -> (r: Bitmap)
        ensures
            r.wf(),
            r@ == Seq::new(len as nat, |i: int| false),
    {
        let n_words: usize = len / 8 + if len % 8 != 0 { 1usize } else { 0usize };
        let mut words: Vec<u8> = Vec::new();
        let mut i: usize = 0;
        while i < n_words
            invariant
                i <= n_words,
                words@.len() == i,
                forall|k: int| 0 <= k < i ==> words@[k] == 0u8,
            decreases n_words - i,
        {
            words.push(0u8);
            i += 1;
        }
        let r = Bitmap { words, len };
        proof {
            assert forall|k: int| 0 <= k < len implies r@[k] == false by {
                lemma_zero_byte((k % 8) as usize);
            }
            assert(r@ =~= Seq::new(len as nat, |i: int| false));
        }
        r
    }

    pub fn len(&self) -> (r: usize)
        ensures
            r == self@.len(),
    {
        self.len
    }

    pub fn test_bit(&self, index: usize) -> (r: bool)
        requires
            self.wf(),
            index < self@.len(),
        ensures
            r == self@[index as int],
    {
        test_nth_bit(self.words[index / 8], index % 8)
    }

    pub fn set_bit(&mut self, index: usize)
        requires
            old(self).wf(),
            index < old(self)@.len(),
        ensures
            final(self).wf(),
            final(self)@ == old(self)@.update(index as int, true),
    {
        let w: usize = index / 8;
        let k: usize = index % 8;
        let byte: u8 = self.words[w];
        self.words.set(w, byte | (1u8 << k));
        proof {
            assert forall|i: int| 0 <= i < self.len implies self@[i] == old(self)@.update(
                index as int,
                true,
            )[i] by {
                if i / 8 == w as int {
                    lemma_set_bit(byte, k, (i % 8) as usize);
                }
            }
            assert(self@ =~= old(self)@.update(index as int, true));
        }
    }

    pub fn clear_bit(&mut self, index: usize)
        requires
            old(self).wf(),
            index < old(self)@.len(),
        ensures
            final(self).wf(),
            final(self)@ == old(self)@.update(index as int, false),
    {
        let w: usize = index / 8;
        let k: usize = index % 8;
        let byte: u8 = self.words[w];
        self.words.set(w, byte & !(1u8 << k));
        proof {
            assert forall|i: int| 0 <= i < self.len implies self@[i] == old(self)@.update(
                index as int,
                false,
            )[i] by {
                if i / 8 == w as int {
                    lemma_clear_bit(byte, k, (i % 8) as usize);
                }
            }
            assert(self@ =~= old(self)@.update(index as int, false));
        }
    }

    /// Clears every bit.
    pub fn clear_all(&mut self)
        requires
            old(self).wf(),
        ensures
            final(self).wf(),
            final(self)@ == Seq::new(old(self)@.len(), |i: int| false),
    {
        let n_words: usize = self.words.len();
        let mut i: usize = 0;
        while i < n_words
            invariant
                i <= n_words,
                n_words == self.words@.len(),
                self.len == old(self).len,
                self.words@.len() == old(self).words@.len(),
                forall|k: int| 0 <= k < i ==> self.words@[k] == 0u8,
            decreases n_words - i,
        {
            self.words.set(i, 0u8);
            i += 1;
        }
        proof {
            assert forall|k: int| 0 <= k < self.len implies self@[k] == false by {
                lemma_zero_byte((k % 8) as usize);
            }
            assert(self@ =~= Seq::new(old(self)@.len(), |i: int| false));
        }
    }

    /// The first set bit at or after `from`, if there is one.
    pub fn next_set_bit(&self, from: usize) -> (r: Option<usize>)
        requires
            self.wf(),
        ensures
            match r {
                Some(i) => {
                    &&& from <= i < self@.len()
                    &&& self@[i as int]
                    &&& forall|j: int| from <= j < i ==> !self@[j]
                },
                None => forall|j: int| from <= j < self@.len() ==> !self@[j],
            },
    {
        let mut i: usize = from;
        while i < self.len
            invariant
                self.wf(),
                from <= i,
                forall|j: int| from <= j < i && j < self@.len() ==> !self@[j],
            decreases self.len - i,
        {
            if self.test_bit(i) {
                return Some(i);
            }
            i += 1;
        }
        None
    }
}

} // verus!
