//! A bit vector with bounded, local storage of one byte.
use crate::bits::{BitSlice, Msb0, bit_at, bit_of_byte, byte_bits, bytes_bits, byte_set_bit, lemma_byte_with_bit};
use vstd::prelude::*;

verus! {

/// Like `BitVec` but with bounded, local storage: at most eight bits, kept
/// most significant bit first in one byte.
#[derive(Clone, Copy, Debug)]
pub struct BoundedBitVec {
    bits: [u8; 1],
    size: usize,
}

impl View for BoundedBitVec {
    type V = Seq<bool>;

    closed spec fn view(&self) -> Seq<bool> {
        Seq::new(
            if self.size <= 8 {
                self.size as nat
            } else {
                8
            },
            |i: int| bit_of_byte(self.bits[0], i),
        )
    }
}

impl BoundedBitVec {
    #[verifier::type_invariant]
    closed spec fn inv(&self) -> bool {
        self.size <= 8
    }

    /// The storage byte; its first `self@.len()` bits are the vector.
    pub closed spec fn storage(&self) -> u8 {
        self.bits[0]
    }

    /// A vector holds at most eight bits.
    pub proof fn lemma_len(v: BoundedBitVec)
        ensures
            v@.len() <= 8,
    {
    }

    /// An empty vector.
    pub(crate) fn new() -> (r: Self)
        ensures
            r@ == Seq::<bool>::empty(),
            r.storage() == 0,
    {
        let r = BoundedBitVec { bits: [0u8], size: 0 };
        assert(r@ =~= Seq::<bool>::empty());
        r
    }

    /// A vector of the first `len` bits of `byte`.
    pub(crate) fn from_msb0_byte(byte: u8, len: usize) -> (r: Self)
        requires
            len <= 8,
        ensures
            r@ == byte_bits(byte).take(len as int),
            r.storage() == byte,
    {
        let r = BoundedBitVec { bits: [byte], size: len };
        assert(r@ =~= byte_bits(byte).take(len as int));
        r
    }

    /// The storage byte and the number of bits in use.
    pub(crate) fn as_msb0_byte(&self) -> (r: (u8, usize))
        ensures
            r.0 == self.storage(),
            r.1 == self@.len(),
            self@ == byte_bits(r.0).take(r.1 as int),
    {
        proof {
            use_type_invariant(self);
        }
        assert(self@ =~= byte_bits(self.bits[0]).take(self.size as int));
        (self.bits[0], self.size)
    }

    /// A full vector holding the eight bits of `bytes[0]`.
    pub fn from_byte_array(bytes: [u8; 1]) -> (r: Self)
        ensures
            r@ == byte_bits(bytes[0]),
            r.storage() == bytes[0],
    {
        let r = BoundedBitVec { bits: bytes, size: 8 };
        assert(r@ =~= byte_bits(bytes[0]));
        r
    }

    /// A vector holding `value`, which has at most eight bits.
    pub fn from_bools(value: &[bool]) -> (r: Self)
        requires
            value@.len() <= 8,
        ensures
            r@ == value@,
    {
        let mut bbv = BoundedBitVec::new();
        let mut i: usize = 0;
        while i < value.len()
            invariant
                i <= value@.len() <= 8,
                bbv@ == value@.take(i as int),
            decreases value@.len() - i,
        {
            bbv.push(value[i]);
            i = i + 1;
        }
        assert(value@.take(value@.len() as int) =~= value@);
        bbv
    }

    /// Number of bits.
    pub fn len(&self) -> (r: usize)
        ensures
            r == self@.len(),
            r <= 8,
    {
        proof {
            use_type_invariant(self);
        }
        self.size
    }

    /// Whether there are no bits.
    pub fn is_empty(&self) -> (r: bool)
        ensures
            r == (self@.len() == 0),
    {
        proof {
            use_type_invariant(self);
        }
        self.size == 0
    }

    /// Whether all eight bits are in use.
    pub(crate) fn is_full(&self) -> (r: bool)
        ensures
            r == (self@.len() == 8),
    {
        proof {
            use_type_invariant(self);
        }
        self.size == 8
    }

    /// The number of bits the storage holds.
    pub(crate) fn capacity(&self) -> (r: usize)
        ensures
            r == 8,
    {
        8
    }

    /// Remove all bits; the storage byte is kept.
    pub(crate) fn clear(&mut self)
        ensures
            final(self)@ == Seq::<bool>::empty(),
            final(self).storage() == old(self).storage(),
    {
        self.size = 0;
        assert(self@ =~= Seq::<bool>::empty());
    }

    /// The storage as a byte slice.
    pub(crate) fn as_raw_slice(&self) -> (r: &[u8])
        ensures
            r@ == seq![self.storage()],
            self@.len() == 8 ==> bytes_bits(r@) == self@,
    {
        proof {
            use_type_invariant(self);
        }
        let r: &[u8] = self.bits.as_slice();
        proof {
            assert(r@ =~= seq![self.bits[0]]);
            if self.size == 8 {
                assert(bytes_bits(r@) =~= self@);
            }
        }
        r
    }

    /// An immutable view over the bits in use.
    pub(crate) fn as_bitslice(&self) -> (r: BitSlice<'_, u8, Msb0>)
        ensures
            r@ == self@,
            r.spec_offset() == 0,
            r.spec_bytes() == seq![self.storage()],
    {
        proof {
            use_type_invariant(self);
        }
        let s: &[u8] = self.bits.as_slice();
        assert(s@ =~= seq![self.bits[0]]);
        let r = BitSlice::from_parts(s, 0, self.size);
        assert(r@ =~= self@);
        r
    }

    /// Append one bit.
    pub(crate) fn push(&mut self, value: bool)
        requires
            old(self)@.len() < 8,
        ensures
            final(self)@ == old(self)@.push(value),
    {
        proof {
            use_type_invariant(&*self);
        }
        let ghost old_byte = self.bits[0];
        self.bits = [byte_set_bit(self.bits[0], self.size as u8, value)];
        self.size = self.size + 1;
        proof {
            assert forall|i: int| 0 <= i < self.size implies #[trigger] bit_of_byte(
                self.bits[0],
                i,
            ) == old(self)@.push(value)[i] by {
                lemma_byte_with_bit(old_byte, (self.size - 1) as u8, value, i as u8);
            }
            assert(self@ =~= old(self)@.push(value));
        }
    }

    /// Append all bits of `bits`.
    pub(crate) fn extend_from_bitslice<U, P>(&mut self, bits: &BitSlice<'_, U, P>)
        requires
            old(self)@.len() + bits@.len() <= 8,
        ensures
            final(self)@ == old(self)@ + bits@,
    {
        let n = bits.len();
        let mut i: usize = 0;
        while i < n
            invariant
                n == bits@.len(),
                i <= n,
                old(self)@.len() + n <= 8,
                self@ == old(self)@ + bits@.take(i as int),
            decreases n - i,
        {
            let b = bits.get(i);
            self.push(b);
            proof {
                assert(old(self)@ + bits@.take(i + 1) =~= (old(self)@ + bits@.take(i as int)).push(b));
            }
            i = i + 1;
        }
        assert(bits@.take(n as int) =~= bits@);
    }

    /// Insert `value` at `index`, shifting the later bits up by one.
    pub(crate) fn insert(&mut self, index: usize, value: bool)
        requires
            old(self)@.len() < 8,
            index < old(self)@.len(),
        ensures
            final(self)@ == old(self)@.insert(index as int, value),
    {
        let ghost target = old(self)@.insert(index as int, value);
        let n = self.len();
        let mut rebuilt = BoundedBitVec::new();
        let mut i: usize = 0;
        while i < n
            invariant
                n == old(self)@.len(),
                n < 8,
                index < n,
                i <= n,
                *self == *old(self),
                rebuilt@ == if i <= index {
                    old(self)@.take(i as int)
                } else {
                    old(self)@.take(i as int).insert(index as int, value)
                },
            decreases n - i,
        {
            if i == index {
                rebuilt.push(value);
            }
            let b = self.get(i);
            rebuilt.push(b);
            proof {
                if i < index {
                    assert(old(self)@.take(i + 1) =~= old(self)@.take(i as int).push(b));
                } else if i == index {
                    assert(old(self)@.take(i + 1).insert(index as int, value) =~= old(
                        self,
                    )@.take(i as int).push(value).push(b));
                } else {
                    assert(old(self)@.take(i + 1).insert(index as int, value) =~= old(
                        self,
                    )@.take(i as int).insert(index as int, value).push(b));
                }
            }
            i = i + 1;
        }
        assert(old(self)@.take(n as int) =~= old(self)@);
        *self = rebuilt;
    }

    /// Return bit `index`.
    pub(crate) fn get(&self, index: usize) -> (r: bool)
        requires
            index < self@.len(),
        ensures
            r == self@[index as int],
    {
        proof {
            use_type_invariant(self);
        }
        let s: &[u8] = self.bits.as_slice();
        assert(s@ =~= seq![self.bits[0]]);
        bit_at(s, index)
    }

    /// Keep the bits before `index` and return the rest.
    pub(crate) fn split_off(&mut self, index: usize) -> (r: Self)
        requires
            index < old(self)@.len(),
        ensures
            final(self)@ == old(self)@.take(index as int),
            r@ == old(self)@.skip(index as int),
    {
        proof {
            use_type_invariant(&*self);
        }
        let n = self.size;
        let mut right = BoundedBitVec::new();
        let mut i: usize = index;
        while i < n
            invariant
                index <= i <= n,
                n == old(self)@.len(),
                n <= 8,
                *self == *old(self),
                right@ == old(self)@.subrange(index as int, i as int),
            decreases n - i,
        {
            let b = self.get(i);
            right.push(b);
            assert(old(self)@.subrange(index as int, i + 1) =~= old(self)@.subrange(
                index as int,
                i as int,
            ).push(b));
            i = i + 1;
        }
        self.size = index;
        assert(self@ =~= old(self)@.take(index as int));
        assert(right@ =~= old(self)@.skip(index as int));
        right
    }
}

} // verus!
