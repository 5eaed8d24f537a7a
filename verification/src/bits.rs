//! Small packed bit storage.
use core::marker::PhantomData;
use vstd::arithmetic::power2::pow2;
use vstd::std_specs::cmp::PartialEqSpecImpl;
use vstd::prelude::*;

verus! {

/// Marker for the most-significant-bit-first order.
#[derive(Clone, Copy, Debug, Default, Eq, PartialEq)]
pub struct Msb0;

/// Marker for the least-significant-bit-first order.
#[derive(Clone, Copy, Debug, Default, Eq, PartialEq)]
pub struct Lsb0;

/// Bit ordering used when converting a packed vector to raw bytes.
pub trait BitOrder {
    /// How this order stores a byte whose bits, most significant first, are
    /// those of `b`.
    spec fn stored(b: u8) -> u8;

    /// Encode the canonical, MSB-first bits in `bytes` using this order.
    fn encode(bytes: &mut [u8])
        ensures
            final(bytes)@.len() == old(bytes)@.len(),
            forall|i: int|
                0 <= i < old(bytes)@.len() ==> #[trigger] final(bytes)@[i] == Self::stored(
                    old(bytes)@[i],
                ),
    ;

    /// Decode bytes stored using this order into canonical MSB-first bits.
    fn decode(bytes: &mut [u8])
        ensures
            final(bytes)@.len() == old(bytes)@.len(),
            forall|i: int|
                0 <= i < old(bytes)@.len() ==> #[trigger] final(bytes)@[i] == Self::stored(
                    old(bytes)@[i],
                ),
    {
        Self::encode(bytes);
    }
}

impl BitOrder for Msb0 {
    open spec fn stored(b: u8) -> u8 {
        b
    }

    fn encode(bytes: &mut [u8]) {
    }
}

/// The byte with the bits of `b` in reverse order.
pub open spec fn reversed_byte(b: u8) -> u8 {
    byte_of_bits(byte_bits(b).reverse())
}

/// The byte with the bits of `b` in reverse order.
pub fn reverse_byte(b: u8) -> (r: u8)
    ensures
        r == reversed_byte(b),
{
    proof {
        lemma_masks();
    }
    let r = bit_mask((b & 0x01) != 0, 0x80) | bit_mask((b & 0x02) != 0, 0x40) | bit_mask(
        (b & 0x04) != 0,
        0x20,
    ) | bit_mask((b & 0x08) != 0, 0x10) | bit_mask((b & 0x10) != 0, 0x08) | bit_mask(
        (b & 0x20) != 0,
        0x04,
    ) | bit_mask((b & 0x40) != 0, 0x02) | bit_mask((b & 0x80) != 0, 0x01);
    assert(byte_bits(b).reverse() =~= seq![
        bit_of_byte(b, 7),
        bit_of_byte(b, 6),
        bit_of_byte(b, 5),
        bit_of_byte(b, 4),
        bit_of_byte(b, 3),
        bit_of_byte(b, 2),
        bit_of_byte(b, 1),
        bit_of_byte(b, 0),
    ]);
    r
}

/// The single-bit masks, most significant bit first.
pub proof fn lemma_masks()
    ensures
        (0x80u8 >> 0u8) == 0x80u8,
        (0x80u8 >> 1u8) == 0x40u8,
        (0x80u8 >> 2u8) == 0x20u8,
        (0x80u8 >> 3u8) == 0x10u8,
        (0x80u8 >> 4u8) == 0x08u8,
        (0x80u8 >> 5u8) == 0x04u8,
        (0x80u8 >> 6u8) == 0x02u8,
        (0x80u8 >> 7u8) == 0x01u8,
{
    assert((0x80u8 >> 0u8) == 0x80u8 && (0x80u8 >> 1u8) == 0x40u8 && (0x80u8 >> 2u8) == 0x20u8
        && (0x80u8 >> 3u8) == 0x10u8 && (0x80u8 >> 4u8) == 0x08u8 && (0x80u8 >> 5u8) == 0x04u8
        && (0x80u8 >> 6u8) == 0x02u8 && (0x80u8 >> 7u8) == 0x01u8) by (bit_vector);
}

impl BitOrder for Lsb0 {
    open spec fn stored(b: u8) -> u8 {
        reversed_byte(b)
    }

    fn encode(bytes: &mut [u8]) {
        let n = bytes.len();
        let mut i: usize = 0;
        while i < n
            invariant
                i <= n,
                n == old(bytes)@.len(),
                bytes@.len() == n,
                forall|k: int| 0 <= k < i ==> #[trigger] bytes@[k] == reversed_byte(old(bytes)@[k]),
                forall|k: int| i <= k < n ==> #[trigger] bytes@[k] == old(bytes)@[k],
            decreases n - i,
        {
            let b = bytes[i];
            bytes[i] = reverse_byte(b);
            i = i + 1;
        }
    }
}

/// An immutable view over packed, MSB-first bits.
///
/// Bit zero is the high bit of the first byte. The view may start and end at
/// arbitrary bit offsets without allocating.
pub struct BitSlice<'a, T = u8, O = Msb0> {
    bytes: &'a [u8],
    offset: usize,
    len: usize,
    _marker: PhantomData<(T, O)>,
}

impl<'a, T, O> BitSlice<'a, T, O> {
    #[verifier::type_invariant]
    closed spec fn inv(&self) -> bool {
        &&& self.offset + self.len <= 8 * self.bytes@.len()
        &&& self.offset + self.len <= usize::MAX
    }

    /// The bytes this view reads from.
    pub closed spec fn spec_bytes(&self) -> Seq<u8> {
        self.bytes@
    }

    /// The bit offset of this view within its bytes.
    pub closed spec fn spec_offset(&self) -> int {
        self.offset as int
    }

    /// Create a view over a bit range in `bytes`.
    pub(crate) fn from_parts(bytes: &'a [u8], offset: usize, len: usize) -> (r: Self)
        requires
            offset + len <= 8 * bytes@.len(),
            offset + len <= usize::MAX,
        ensures
            r@ == bits_range(bytes@, offset as int, len as int),
            r.spec_bytes() == bytes@,
            r.spec_offset() == offset,
    {
        BitSlice { bytes, offset, len, _marker: PhantomData }
    }

    /// Number of bits in this view.
    pub fn len(&self) -> (r: usize)
        ensures
            r == self@.len(),
    {
        self.len
    }

    /// Whether this view contains no bits.
    pub fn is_empty(&self) -> (r: bool)
        ensures
            r == (self@.len() == 0),
    {
        self.len == 0
    }

    /// Return the bit at `index`.
    pub fn get(&self, index: usize) -> (r: bool)
        requires
            index < self@.len(),
        ensures
            r == self@[index as int],
    {
        proof {
            use_type_invariant(self);
        }
        bit_at(self.bytes, self.offset + index)
    }

    /// View all bits in `bytes`; a view longer than `usize::MAX` bits is cut
    /// short there.
    pub fn from_slice(bytes: &'a [u8]) -> (r: Self)
        ensures
            r@ == bits_range(
                bytes@,
                0,
                if 8 * bytes@.len() <= usize::MAX {
                    8 * bytes@.len() as int
                } else {
                    usize::MAX as int
                },
            ),
            r.spec_bytes() == bytes@,
            r.spec_offset() == 0,
    {
        let n = bytes.len();
        let len = if n <= usize::MAX / 8 {
            n * 8
        } else {
            usize::MAX
        };
        Self::from_parts(bytes, 0, len)
    }

    /// An empty bit view.
    pub fn empty() -> (r: BitSlice<'static, T, O>)
        ensures
            r@ == Seq::<bool>::empty(),
    {
        let none: &'static [u8] = &[];
        let r = BitSlice { bytes: none, offset: 0, len: 0, _marker: PhantomData };
        assert(r@ =~= Seq::<bool>::empty());
        r
    }

    /// A view over the half-open bit range `[start, end)` of this view.
    pub fn subslice(&self, start: usize, end: usize) -> (r: Self)
        requires
            start <= end <= self@.len(),
        ensures
            r@ == self@.subrange(start as int, end as int),
            r.spec_bytes() == self.spec_bytes(),
            r.spec_offset() == self.spec_offset() + start,
    {
        proof {
            use_type_invariant(self);
        }
        let r = Self::from_parts(self.bytes, self.offset + start, end - start);
        assert(r@ =~= self@.subrange(start as int, end as int));
        r
    }

    /// Split this view at `mid`.
    pub fn split_at(&self, mid: usize) -> (r: (Self, Self))
        requires
            mid <= self@.len(),
        ensures
            r.0@ == self@.take(mid as int),
            r.1@ == self@.skip(mid as int),
    {
        let n = self.len();
        let a = self.subslice(0, mid);
        let b = self.subslice(mid, n);
        assert(a@ =~= self@.take(mid as int));
        assert(b@ =~= self@.skip(mid as int));
        (a, b)
    }

    /// The eight bits from `start` on, as a byte, most significant bit first.
    pub(crate) fn load_byte(&self, start: usize) -> (r: u8)
        requires
            start + 8 <= self@.len(),
        ensures
            r == byte_of_bits(self@.subrange(start as int, start + 8)),
    {
        let b0 = self.get(start);
        let b1 = self.get(start + 1);
        let b2 = self.get(start + 2);
        let b3 = self.get(start + 3);
        let b4 = self.get(start + 4);
        let b5 = self.get(start + 5);
        let b6 = self.get(start + 6);
        let b7 = self.get(start + 7);
        let r = bit_mask(b0, 0x80) | bit_mask(b1, 0x40) | bit_mask(b2, 0x20) | bit_mask(b3, 0x10)
            | bit_mask(b4, 0x08) | bit_mask(b5, 0x04) | bit_mask(b6, 0x02) | bit_mask(b7, 0x01);
        assert(r == byte_of_bits(self@.subrange(start as int, start + 8)));
        r
    }
}

impl<'a, T, O> Clone for BitSlice<'a, T, O> {
    fn clone(&self) -> (r: Self)
        ensures
            r == *self,
    {
        proof {
            use_type_invariant(self);
        }
        BitSlice { bytes: self.bytes, offset: self.offset, len: self.len, _marker: PhantomData }
    }
}

impl<'a, T, O> Copy for BitSlice<'a, T, O> {

}

/// Integer types supported by packed bit loading. The value of a signed
/// integer is that of its two's complement bits.
pub trait BitValue: Copy {
    /// Number of bits in the integer type.
    const BITS: usize;

    /// The value, as a number.
    spec fn spec_value(self) -> nat;

    /// The number of bits in the integer type.
    spec fn spec_bits() -> nat;

    /// Whether the type is a signed integer, whose value is kept as its
    /// two's complement bits.
    spec fn spec_signed() -> bool;

    /// Whether the type is a signed integer.
    fn signed() -> (r: bool)
        ensures
            r == Self::spec_signed(),
    ;

    /// The number of bits in the integer type.
    fn bits() -> (r: usize)
        ensures
            r == Self::spec_bits(),
            r == Self::BITS,
            r == 8 || r == 16 || r == 32 || r == 64,
    ;

    /// Convert a non-negative packed value into this type, keeping its low
    /// bits.
    fn from_u128(value: u128) -> (r: Self)
        ensures
            r.spec_value() == (value as nat) % pow2(Self::spec_bits()),
    ;

    /// The value, widened.
    fn to_u128(self) -> (r: u128)
        ensures
            r == self.spec_value(),
            self.spec_value() < pow2(Self::spec_bits()),
    ;

    /// The value fits in the type's bits, a whole number of bytes.
    proof fn lemma_value_bound(self)
        ensures
            self.spec_value() < pow2(Self::spec_bits()),
            Self::spec_bits() == 8 || Self::spec_bits() == 16 || Self::spec_bits() == 32
                || Self::spec_bits() == 64,
    ;
}

impl BitValue for u8 {
    const BITS: usize = 8;

    proof fn lemma_value_bound(self) {
        lemma_pow2_values();
        assert(pow2(8) == 256);
        assert(self.spec_value() < pow2(Self::spec_bits()));
    }

    open spec fn spec_value(self) -> nat {
        self as nat
    }

    open spec fn spec_signed() -> bool {
        false
    }

    fn signed() -> (r: bool) {
        false
    }

    open spec fn spec_bits() -> nat {
        8
    }

    fn bits() -> (r: usize) {
        8
    }

    fn from_u128(value: u128) -> (r: Self) {
        proof {
            lemma_pow2_values();
            assert(value as u8 == value % 256) by (bit_vector);
        }
        value as u8
    }

    fn to_u128(self) -> (r: u128) {
        proof {
            lemma_pow2_values();
        }
        self as u128
    }
}

impl BitValue for u16 {
    const BITS: usize = 16;

    proof fn lemma_value_bound(self) {
        lemma_pow2_values();
    }

    open spec fn spec_value(self) -> nat {
        self as nat
    }

    open spec fn spec_signed() -> bool {
        false
    }

    fn signed() -> (r: bool) {
        false
    }

    open spec fn spec_bits() -> nat {
        16
    }

    fn bits() -> (r: usize) {
        16
    }

    fn from_u128(value: u128) -> (r: Self) {
        proof {
            lemma_pow2_values();
            assert(value as u16 == value % 65536) by (bit_vector);
        }
        value as u16
    }

    fn to_u128(self) -> (r: u128) {
        proof {
            lemma_pow2_values();
        }
        self as u128
    }
}

impl BitValue for u32 {
    const BITS: usize = 32;

    proof fn lemma_value_bound(self) {
        lemma_pow2_values();
    }

    open spec fn spec_value(self) -> nat {
        self as nat
    }

    open spec fn spec_signed() -> bool {
        false
    }

    fn signed() -> (r: bool) {
        false
    }

    open spec fn spec_bits() -> nat {
        32
    }

    fn bits() -> (r: usize) {
        32
    }

    fn from_u128(value: u128) -> (r: Self) {
        proof {
            lemma_pow2_values();
            assert(value as u32 == value % 0x1_0000_0000) by (bit_vector);
        }
        value as u32
    }

    fn to_u128(self) -> (r: u128) {
        proof {
            lemma_pow2_values();
        }
        self as u128
    }
}

impl BitValue for u64 {
    const BITS: usize = 64;

    proof fn lemma_value_bound(self) {
        lemma_pow2_values();
    }

    open spec fn spec_value(self) -> nat {
        self as nat
    }

    open spec fn spec_signed() -> bool {
        false
    }

    fn signed() -> (r: bool) {
        false
    }

    open spec fn spec_bits() -> nat {
        64
    }

    fn bits() -> (r: usize) {
        64
    }

    fn from_u128(value: u128) -> (r: Self) {
        proof {
            lemma_pow2_values();
            assert(value as u64 == value % 0x1_0000_0000_0000_0000) by (bit_vector);
        }
        value as u64
    }

    fn to_u128(self) -> (r: u128) {
        proof {
            lemma_pow2_values();
        }
        self as u128
    }
}

impl BitValue for i8 {
    const BITS: usize = 8;

    proof fn lemma_value_bound(self) {
        lemma_pow2_values();
    }

    /// The two's complement bits, as a number.
    open spec fn spec_value(self) -> nat {
        self as u8 as nat
    }

    open spec fn spec_signed() -> bool {
        true
    }

    fn signed() -> (r: bool) {
        true
    }

    open spec fn spec_bits() -> nat {
        8
    }

    fn bits() -> (r: usize) {
        8
    }

    fn from_u128(value: u128) -> (r: Self) {
        let low = value as u8;
        proof {
            lemma_pow2_values();
            assert(value as u8 == value % 256) by (bit_vector);
            assert((low as i8) as u8 == low) by (bit_vector);
        }
        low as i8
    }

    fn to_u128(self) -> (r: u128) {
        proof {
            lemma_pow2_values();
        }
        self as u8 as u128
    }
}

impl BitValue for i16 {
    const BITS: usize = 16;

    proof fn lemma_value_bound(self) {
        lemma_pow2_values();
    }

    /// The two's complement bits, as a number.
    open spec fn spec_value(self) -> nat {
        self as u16 as nat
    }

    open spec fn spec_signed() -> bool {
        true
    }

    fn signed() -> (r: bool) {
        true
    }

    open spec fn spec_bits() -> nat {
        16
    }

    fn bits() -> (r: usize) {
        16
    }

    fn from_u128(value: u128) -> (r: Self) {
        let low = value as u16;
        proof {
            lemma_pow2_values();
            assert(value as u16 == value % 65536) by (bit_vector);
            assert((low as i16) as u16 == low) by (bit_vector);
        }
        low as i16
    }

    fn to_u128(self) -> (r: u128) {
        proof {
            lemma_pow2_values();
        }
        self as u16 as u128
    }
}

impl BitValue for i32 {
    const BITS: usize = 32;

    proof fn lemma_value_bound(self) {
        lemma_pow2_values();
    }

    /// The two's complement bits, as a number.
    open spec fn spec_value(self) -> nat {
        self as u32 as nat
    }

    open spec fn spec_signed() -> bool {
        true
    }

    fn signed() -> (r: bool) {
        true
    }

    open spec fn spec_bits() -> nat {
        32
    }

    fn bits() -> (r: usize) {
        32
    }

    fn from_u128(value: u128) -> (r: Self) {
        let low = value as u32;
        proof {
            lemma_pow2_values();
            assert(value as u32 == value % 0x1_0000_0000) by (bit_vector);
            assert((low as i32) as u32 == low) by (bit_vector);
        }
        low as i32
    }

    fn to_u128(self) -> (r: u128) {
        proof {
            lemma_pow2_values();
        }
        self as u32 as u128
    }
}

impl BitValue for i64 {
    const BITS: usize = 64;

    proof fn lemma_value_bound(self) {
        lemma_pow2_values();
    }

    /// The two's complement bits, as a number.
    open spec fn spec_value(self) -> nat {
        self as u64 as nat
    }

    open spec fn spec_signed() -> bool {
        true
    }

    fn signed() -> (r: bool) {
        true
    }

    open spec fn spec_bits() -> nat {
        64
    }

    fn bits() -> (r: usize) {
        64
    }

    fn from_u128(value: u128) -> (r: Self) {
        let low = value as u64;
        proof {
            lemma_pow2_values();
            assert(value as u64 == value % 0x1_0000_0000_0000_0000) by (bit_vector);
            assert((low as i64) as u64 == low) by (bit_vector);
        }
        low as i64
    }

    fn to_u128(self) -> (r: u128) {
        proof {
            lemma_pow2_values();
        }
        self as u64 as u128
    }
}

/// The value of the bits `s`, most significant first.
pub open spec fn bits_value(s: Seq<bool>) -> nat
    decreases s.len(),
{
    if s.len() == 0 {
        0
    } else {
        2 * bits_value(s.drop_last()) + if s.last() {
            1nat
        } else {
            0nat
        }
    }
}

/// The value of the bytes `b`, most significant byte first.
pub open spec fn be_value(b: Seq<u8>) -> nat
    decreases b.len(),
{
    if b.len() == 0 {
        0
    } else {
        256 * be_value(b.drop_last()) + b.last() as nat
    }
}

/// The value of the bytes `b`, least significant byte first.
pub open spec fn le_value(b: Seq<u8>) -> nat
    decreases b.len(),
{
    if b.len() == 0 {
        0
    } else {
        b[0] as nat + 256 * le_value(b.drop_first())
    }
}

/// Bits' value stays below two to the number of bits.
pub proof fn lemma_bits_value_bound(s: Seq<bool>)
    ensures
        bits_value(s) < pow2(s.len()),
    decreases s.len(),
{
    if s.len() > 0 {
        lemma_bits_value_bound(s.drop_last());
        vstd::arithmetic::power2::lemma_pow2_unfold(s.len());
    } else {
        vstd::arithmetic::power2::lemma2_to64();
    }
}

/// Bytes' value stays below two to eight times the number of bytes.
pub proof fn lemma_be_value_bound(b: Seq<u8>)
    ensures
        be_value(b) < pow2(8 * b.len()),
    decreases b.len(),
{
    vstd::arithmetic::power2::lemma2_to64();
    if b.len() > 0 {
        lemma_be_value_bound(b.drop_last());
        vstd::arithmetic::power2::lemma_pow2_adds(8 * (b.len() - 1) as nat, 8);
        assert(8 * b.len() == 8 * (b.len() - 1) + 8);
    }
}

/// Bytes' value, least significant first, stays below two to eight times the
/// number of bytes.
pub proof fn lemma_le_value_bound(b: Seq<u8>)
    ensures
        le_value(b) < pow2(8 * b.len()),
    decreases b.len(),
{
    vstd::arithmetic::power2::lemma2_to64();
    if b.len() > 0 {
        lemma_le_value_bound(b.drop_first());
        vstd::arithmetic::power2::lemma_pow2_adds(8, 8 * (b.len() - 1) as nat);
        assert(8 * b.len() == 8 + 8 * (b.len() - 1));
    }
}

/// A byte packed from eight bits is their value.
pub proof fn lemma_byte_of_bits_value(s: Seq<bool>)
    requires
        s.len() == 8,
    ensures
        byte_of_bits(s) as nat == bits_value(s),
{
    reveal_with_fuel(bits_value, 9);
    let (b0, b1, b2, b3, b4, b5, b6, b7) = (s[0], s[1], s[2], s[3], s[4], s[5], s[6], s[7]);
    assert(s.drop_last().drop_last().drop_last().drop_last().drop_last().drop_last().drop_last()
        =~= seq![b0]);
    assert(s.drop_last().drop_last().drop_last().drop_last().drop_last().drop_last().drop_last().drop_last()
        =~= Seq::<bool>::empty());
    let x = byte_of_bits(s);
    assert(x == spec_bit_mask(b0, 0x80) | spec_bit_mask(b1, 0x40) | spec_bit_mask(b2, 0x20)
        | spec_bit_mask(b3, 0x10) | spec_bit_mask(b4, 0x08) | spec_bit_mask(b5, 0x04)
        | spec_bit_mask(b6, 0x02) | spec_bit_mask(b7, 0x01));
    assert(x as u16 == (if b0 { 128u16 } else { 0u16 }) + (if b1 { 64u16 } else { 0u16 }) + (if b2 {
        32u16
    } else {
        0u16
    }) + (if b3 { 16u16 } else { 0u16 }) + (if b4 { 8u16 } else { 0u16 }) + (if b5 {
        4u16
    } else {
        0u16
    }) + (if b6 { 2u16 } else { 0u16 }) + (if b7 { 1u16 } else { 0u16 })) by (bit_vector)
        requires
            x == (if b0 { 0x80u8 } else { 0u8 }) | (if b1 { 0x40u8 } else { 0u8 }) | (if b2 {
                0x20u8
            } else {
                0u8
            }) | (if b3 { 0x10u8 } else { 0u8 }) | (if b4 { 0x08u8 } else { 0u8 }) | (if b5 {
                0x04u8
            } else {
                0u8
            }) | (if b6 { 0x02u8 } else { 0u8 }) | (if b7 { 0x01u8 } else { 0u8 }),
    ;
}

/// The powers of two at the integer widths.
pub proof fn lemma_pow2_values()
    ensures
        pow2(8) == 256,
        pow2(16) == 65536,
        pow2(32) == 0x1_0000_0000,
        pow2(64) == 0x1_0000_0000_0000_0000,
        pow2(128) == 0x1_0000_0000_0000_0000_0000_0000_0000_0000,
{
    vstd::arithmetic::power2::lemma2_to64();
    vstd::arithmetic::power2::lemma2_to64_rest();
    vstd::arithmetic::power2::lemma_pow2_adds(64, 64);
}

/// `mask` when `bit` is set, and zero otherwise.
pub open spec fn spec_bit_mask(bit: bool, mask: u8) -> u8 {
    if bit {
        mask
    } else {
        0u8
    }
}

/// `mask` when `bit` is set, and zero otherwise.
#[verifier::when_used_as_spec(spec_bit_mask)]
pub fn bit_mask(bit: bool, mask: u8) -> (r: u8)
    ensures
        r == spec_bit_mask(bit, mask),
{
    if bit {
        mask
    } else {
        0u8
    }
}

/// The byte whose bits, most significant first, are the first eight of `s`.
pub open spec fn byte_of_bits(s: Seq<bool>) -> u8 {
    bit_mask(s[0], 0x80) | bit_mask(s[1], 0x40) | bit_mask(s[2], 0x20) | bit_mask(s[3], 0x10)
        | bit_mask(s[4], 0x08) | bit_mask(s[5], 0x04) | bit_mask(s[6], 0x02) | bit_mask(s[7], 0x01)
}

/// Packing eight bits into a byte and reading them back gives the same bits.
pub proof fn lemma_byte_of_bits(s: Seq<bool>)
    requires
        s.len() == 8,
    ensures
        byte_bits(byte_of_bits(s)) == s,
{
    let (b0, b1, b2, b3, b4, b5, b6, b7) = (s[0], s[1], s[2], s[3], s[4], s[5], s[6], s[7]);
    let x = byte_of_bits(s);
    assert(x == spec_bit_mask(b0, 0x80) | spec_bit_mask(b1, 0x40) | spec_bit_mask(b2, 0x20)
        | spec_bit_mask(b3, 0x10) | spec_bit_mask(b4, 0x08) | spec_bit_mask(b5, 0x04)
        | spec_bit_mask(b6, 0x02) | spec_bit_mask(b7, 0x01));
    assert({
        &&& ((x & (0x80u8 >> 0u8)) != 0u8) == b0
        &&& ((x & (0x80u8 >> 1u8)) != 0u8) == b1
        &&& ((x & (0x80u8 >> 2u8)) != 0u8) == b2
        &&& ((x & (0x80u8 >> 3u8)) != 0u8) == b3
        &&& ((x & (0x80u8 >> 4u8)) != 0u8) == b4
        &&& ((x & (0x80u8 >> 5u8)) != 0u8) == b5
        &&& ((x & (0x80u8 >> 6u8)) != 0u8) == b6
        &&& ((x & (0x80u8 >> 7u8)) != 0u8) == b7
    }) by (bit_vector)
        requires
            x == (if b0 { 0x80u8 } else { 0u8 }) | (if b1 { 0x40u8 } else { 0u8 }) | (if b2 {
                0x20u8
            } else {
                0u8
            }) | (if b3 { 0x10u8 } else { 0u8 }) | (if b4 { 0x08u8 } else { 0u8 }) | (if b5 {
                0x04u8
            } else {
                0u8
            }) | (if b6 { 0x02u8 } else { 0u8 }) | (if b7 { 0x01u8 } else { 0u8 }),
    ;
    assert(byte_bits(x) =~= s);
}

/// A byte's bits, packed back into a byte, give the same byte.
pub proof fn lemma_byte_bits_packed(b: u8)
    ensures
        byte_of_bits(byte_bits(b)) == b,
{
    let x = byte_of_bits(byte_bits(b));
    let s = byte_bits(b);
    assert(x == spec_bit_mask(s[0], 0x80) | spec_bit_mask(s[1], 0x40) | spec_bit_mask(s[2], 0x20)
        | spec_bit_mask(s[3], 0x10) | spec_bit_mask(s[4], 0x08) | spec_bit_mask(s[5], 0x04)
        | spec_bit_mask(s[6], 0x02) | spec_bit_mask(s[7], 0x01));
    assert(x == (if (b & 0x80u8) != 0u8 { 0x80u8 } else { 0u8 }) | (if (b & 0x40u8) != 0u8 {
        0x40u8
    } else {
        0u8
    }) | (if (b & 0x20u8) != 0u8 { 0x20u8 } else { 0u8 }) | (if (b & 0x10u8) != 0u8 {
        0x10u8
    } else {
        0u8
    }) | (if (b & 0x08u8) != 0u8 { 0x08u8 } else { 0u8 }) | (if (b & 0x04u8) != 0u8 {
        0x04u8
    } else {
        0u8
    }) | (if (b & 0x02u8) != 0u8 { 0x02u8 } else { 0u8 }) | (if (b & 0x01u8) != 0u8 {
        0x01u8
    } else {
        0u8
    })) by {
        assert((0x80u8 >> 0u8) == 0x80u8 && (0x80u8 >> 1u8) == 0x40u8 && (0x80u8 >> 2u8) == 0x20u8
            && (0x80u8 >> 3u8) == 0x10u8 && (0x80u8 >> 4u8) == 0x08u8 && (0x80u8 >> 5u8) == 0x04u8
            && (0x80u8 >> 6u8) == 0x02u8 && (0x80u8 >> 7u8) == 0x01u8) by (bit_vector);
    }
    assert(x == b) by (bit_vector)
        requires
            x == (if (b & 0x80u8) != 0u8 { 0x80u8 } else { 0u8 }) | (if (b & 0x40u8) != 0u8 {
                0x40u8
            } else {
                0u8
            }) | (if (b & 0x20u8) != 0u8 { 0x20u8 } else { 0u8 }) | (if (b & 0x10u8) != 0u8 {
                0x10u8
            } else {
                0u8
            }) | (if (b & 0x08u8) != 0u8 { 0x08u8 } else { 0u8 }) | (if (b & 0x04u8) != 0u8 {
                0x04u8
            } else {
                0u8
            }) | (if (b & 0x02u8) != 0u8 { 0x02u8 } else { 0u8 }) | (if (b & 0x01u8) != 0u8 {
                0x01u8
            } else {
                0u8
            }),
    ;
}

/// A mutable view over packed, MSB-first bits.
///
/// The view covers the `len` bits of `bytes` starting at bit `offset`.
pub struct BitSliceMut<'a, T = u8, O = Msb0> {
    /// The bytes the view reads and writes.
    pub bytes: &'a mut [u8],
    /// The first bit of the view.
    pub offset: usize,
    /// The number of bits in the view.
    pub len: usize,
    /// The storage and order markers.
    pub _marker: PhantomData<(T, O)>,
}

impl<'a, T, O> BitSliceMut<'a, T, O> {
    /// The view lies within its bytes.
    pub open spec fn wf(&self) -> bool {
        &&& self.offset + self.len <= 8 * self.bytes@.len()
        &&& self.offset + self.len <= usize::MAX
    }

    /// View all bits in `bytes`.
    pub fn from_slice(bytes: &'a mut [u8]) -> (r: Self)
        ensures
            r.wf(),
            r.bytes@ == old(bytes)@,
            final(bytes)@ == final(r.bytes)@,
            r.offset == 0,
            r.len == if 8 * old(bytes)@.len() <= usize::MAX {
                8 * old(bytes)@.len() as int
            } else {
                usize::MAX as int
            },
    {
        let n = bytes.len();
        let len = if n <= usize::MAX / 8 {
            n * 8
        } else {
            usize::MAX
        };
        Self::from_parts(bytes, 0, len)
    }

    /// Create a mutable view over a bit range in `bytes`.
    pub(crate) fn from_parts(bytes: &'a mut [u8], offset: usize, len: usize) -> (r: Self)
        requires
            offset + len <= 8 * old(bytes)@.len(),
            offset + len <= usize::MAX,
        ensures
            r.wf(),
            r.bytes@ == old(bytes)@,
            final(bytes)@ == final(r.bytes)@,
            r.offset == offset,
            r.len == len,
    {
        BitSliceMut { bytes, offset, len, _marker: PhantomData }
    }

    /// Number of bits in this view.
    pub fn len(&self) -> (r: usize)
        ensures
            r == self.len,
    {
        self.len
    }

    /// Whether this view contains no bits.
    pub fn is_empty(&self) -> (r: bool)
        ensures
            r == (self.len == 0),
    {
        self.len == 0
    }

    /// Return the bit at `index`.
    pub fn get(&self, index: usize) -> (r: bool)
        requires
            self.wf(),
            index < self.len,
        ensures
            r == self@[index as int],
    {
        bit_at(self.bytes, self.offset + index)
    }

    /// Set the bit at `index`.
    pub fn set(&mut self, index: usize, value: bool)
        requires
            old(self).wf(),
            index < old(self).len,
        ensures
            final(self).offset == old(self).offset,
            final(self).len == old(self).len,
            bits_replaced(
                old(self).bytes@,
                final(self).bytes@,
                old(self).offset + index,
                seq![value],
            ),
            final(self)@ == old(self)@.update(index as int, value),
            final(final(self).bytes)@ == final(old(self).bytes)@,
    {
        let ghost old_bytes = self.bytes@;
        let pos = self.offset + index;
        set_bit(self.bytes, pos, value);
        proof {
            assert forall|j: int| 0 <= j < 8 * old_bytes.len() implies #[trigger] bit_at_spec(
                self.bytes@,
                j,
            ) == if pos <= j < pos + 1 {
                seq![value][j - pos]
            } else {
                bit_at_spec(old_bytes, j)
            } by {
                lemma_set_bit_effect(old_bytes, pos as int, value, j);
            }
            assert forall|i: int| 0 <= i < self.len implies #[trigger] self@[i] == old(
                self,
            )@.update(index as int, value)[i] by {
                lemma_set_bit_effect(old_bytes, pos as int, value, self.offset + i);
            }
            assert(self@ =~= old(self)@.update(index as int, value));
        }
    }

    /// Copy all bits from `source` into this view.
    pub fn copy_from_bitslice<U, P>(&mut self, source: &BitSlice<'_, U, P>)
        requires
            old(self).wf(),
            source@.len() <= old(self).len,
        ensures
            final(self).offset == old(self).offset,
            final(self).len == old(self).len,
            bits_replaced(old(self).bytes@, final(self).bytes@, old(self).offset as int, source@),
            final(self)@ == source@ + old(self)@.skip(source@.len() as int),
            final(final(self).bytes)@ == final(old(self).bytes)@,
    {
        self.copy_from_bitslice_at(0, source);
        assert(self@ =~= source@ + old(self)@.skip(source@.len() as int));
    }

    /// Copy `source` into this view beginning at `start`.
    pub fn copy_from_bitslice_at<U, P>(&mut self, start: usize, source: &BitSlice<'_, U, P>)
        requires
            old(self).wf(),
            start + source@.len() <= old(self).len,
        ensures
            final(self).offset == old(self).offset,
            final(self).len == old(self).len,
            bits_replaced(
                old(self).bytes@,
                final(self).bytes@,
                old(self).offset + start,
                source@,
            ),
            final(self)@ == old(self)@.take(start as int) + source@ + old(self)@.skip(
                start + source@.len(),
            ),
            final(final(self).bytes)@ == final(old(self).bytes)@,
    {
        let n = source.len();
        let ghost orig = self.bytes@;
        let mut i: usize = 0;
        while i < n
            invariant
                i <= n,
                n == source@.len(),
                start + n <= self.len,
                self.wf(),
                self.offset == old(self).offset,
                self.len == old(self).len,
                orig == old(self).bytes@,
                bits_replaced(orig, self.bytes@, self.offset + start, source@.take(i as int)),
                final(self.bytes)@ == final(old(self).bytes)@,
            decreases n - i,
        {
            let b = source.get(i);
            let ghost before = self.bytes@;
            self.set(start + i, b);
            proof {
                assert forall|j: int| 0 <= j < 8 * orig.len() implies #[trigger] bit_at_spec(
                    self.bytes@,
                    j,
                ) == if self.offset + start <= j < self.offset + start + source@.take(
                    i + 1,
                ).len() {
                    source@.take(i + 1)[j - (self.offset + start)]
                } else {
                    bit_at_spec(orig, j)
                } by {
                    assert(bit_at_spec(self.bytes@, j) == if j == self.offset + start + i {
                        b
                    } else {
                        bit_at_spec(before, j)
                    });
                }
            }
            i = i + 1;
        }
        proof {
            assert(source@.take(n as int) =~= source@);
            assert(self@ =~= old(self)@.take(start as int) + source@ + old(self)@.skip(
                start + source@.len(),
            ));
        }
    }

    /// Return a mutable sub-view with the half-open range `[start, end)`.
    pub fn subslice(&mut self, start: usize, end: usize) -> (r: BitSliceMut<'_, T, O>)
        requires
            old(self).wf(),
            start <= end,
            end <= old(self).len,
        ensures
            r.wf(),
            r.bytes@ == old(self).bytes@,
            r.offset == old(self).offset + start,
            r.len == end - start,
            r@ == old(self)@.subrange(start as int, end as int),
            final(self).offset == old(self).offset,
            final(self).len == old(self).len,
            final(self).bytes@ == final(r.bytes)@,
            final(final(self).bytes)@ == final(old(self).bytes)@,
    {
        let r = BitSliceMut::from_parts(&mut *self.bytes, self.offset + start, end - start);
        assert(r@ =~= old(self)@.subrange(start as int, end as int));
        r
    }

    /// Return an immutable view over the same bits.
    pub fn as_bitslice(&self) -> (r: BitSlice<'_, T, O>)
        requires
            self.wf(),
        ensures
            r@ == self@,
            r.spec_offset() == self.offset,
    {
        BitSlice::from_parts(self.bytes, self.offset, self.len)
    }
}

/// A packed, growable bit vector.
#[derive(Debug)]
pub struct BitVec<T = u8, O = Msb0> {
    bytes: Vec<u8>,
    len: usize,
    _marker: PhantomData<(T, O)>,
}

impl<T, O> View for BitVec<T, O> {
    type V = Seq<bool>;

    /// The stored bits; a bit past the stored bytes reads as zero.
    open spec fn view(&self) -> Seq<bool> {
        Seq::new(
            self.spec_len() as nat,
            |i: int| i / 8 < self.raw_bytes().len() && bit_at_spec(self.raw_bytes(), i),
        )
    }
}

impl<T, O> BitVec<T, O> {
    /// The packed bytes; the bits past the vector's length in the last byte
    /// are padding.
    pub closed spec fn raw_bytes(&self) -> Seq<u8> {
        self.bytes@
    }

    /// The number of bits.
    pub closed spec fn spec_len(&self) -> usize {
        self.len
    }

    /// The bytes hold exactly the bits, rounded up to whole bytes.
    pub open spec fn wf(&self) -> bool {
        &&& self.raw_bytes().len() == (self.spec_len() + 7) / 8
        &&& self@.len() == self.spec_len()
    }

    /// Create an empty bit vector.
    pub fn new() -> (r: Self)
        ensures
            r.wf(),
            r@ == Seq::<bool>::empty(),
    {
        let r = Self { bytes: Vec::new(), len: 0, _marker: PhantomData };
        assert(r@ =~= Seq::<bool>::empty());
        r
    }

    /// Create a bit vector containing `len` copies of `value`.
    pub fn repeat(value: bool, len: usize) -> (r: Self)
        ensures
            r.wf(),
            r@ == Seq::new(len as nat, |i: int| value),
    {
        let nbytes = len / 8 + if len % 8 != 0 {
            1
        } else {
            0
        };
        let fill: u8 = if value {
            0xff
        } else {
            0
        };
        let mut bytes: Vec<u8> = Vec::new();
        let mut i: usize = 0;
        while i < nbytes
            invariant
                i <= nbytes,
                bytes@ == Seq::new(i as nat, |k: int| fill),
            decreases nbytes - i,
        {
            bytes.push(fill);
            assert(bytes@ =~= Seq::new((i + 1) as nat, |k: int| fill));
            i = i + 1;
        }
        let mut result = Self { bytes, len, _marker: PhantomData };
        proof {
            assert forall|k: int| 0 <= k < len implies #[trigger] bit_at_spec(result.bytes@, k)
                == value by {
                let b = result.bytes@[k / 8];
                let j = (k % 8) as u8;
                assert(b == fill);
                assert((0xffu8 & (0x80u8 >> j)) != 0u8) by (bit_vector)
                    requires
                        j < 8,
                ;
                assert((0u8 & (0x80u8 >> j)) == 0u8) by (bit_vector);
            }
            assert(result@ =~= Seq::new(len as nat, |i: int| value));
        }
        result.clear_padding_bits();
        result
    }

    /// Clear the bits past the vector's length in the last byte.
    fn clear_padding_bits(&mut self)
        requires
            old(self).wf(),
        ensures
            final(self).wf(),
            final(self)@ == old(self)@,
            final(self).spec_len() == old(self).spec_len(),
            forall|k: int|
                old(self).spec_len() <= k < 8 * final(self).raw_bytes().len() ==> !#[trigger] bit_at_spec(
                    final(self).raw_bytes(),
                    k,
                ),
            forall|k: int|
                0 <= k < old(self).spec_len() ==> #[trigger] bit_at_spec(final(self).raw_bytes(), k)
                    == bit_at_spec(old(self).raw_bytes(), k),
    {
        let n = self.bytes.len();
        if n > 0 {
            let used = self.len % 8;
            if used != 0 {
                let last = self.bytes[n - 1];
                let sh: u8 = (8 - used) as u8;
                let mask: u8 = 0xffu8 << sh;
                self.bytes.set(n - 1, last & mask);
                proof {
                    let u = used as u8;
                    assert forall|k: int| 0 <= k < 8 * n implies #[trigger] bit_at_spec(
                        self.bytes@,
                        k,
                    ) == if k < self.len {
                        bit_at_spec(old(self).bytes@, k)
                    } else {
                        false
                    } by {
                        if k / 8 == n - 1 {
                            let j = (k % 8) as u8;
                            assert(k % 8 < used <==> k < self.len);
                            assert(((last & (0xffu8 << sh)) & (0x80u8 >> j)) != 0u8 <==> (j < u && (last
                                & (0x80u8 >> j)) != 0u8)) by (bit_vector)
                                requires
                                    0 < u < 8,
                                    sh == 8 - u,
                                    j < 8,
                            ;
                        }
                    }
                    assert(self@ =~= old(self)@);
                }
            }
        }
    }

    /// Return the number of bits in this vector.
    pub fn len(&self) -> (r: usize)
        requires
            self.wf(),
        ensures
            r == self@.len(),
    {
        self.len
    }

    /// Whether this vector contains no bits.
    pub fn is_empty(&self) -> (r: bool)
        requires
            self.wf(),
        ensures
            r == (self@.len() == 0),
    {
        self.len == 0
    }

    /// Return an immutable view over this vector.
    pub fn as_bitslice(&self) -> (r: BitSlice<'_, T, O>)
        requires
            self.wf(),
        ensures
            r@ == self@,
            r.spec_offset() == 0,
            r.spec_bytes() == self.raw_bytes(),
    {
        BitSlice::from_parts(self.bytes.as_slice(), 0, self.len)
    }

    /// Return a mutable view over this vector.
    pub fn as_mut_bitslice(&mut self) -> (r: BitSliceMut<'_, T, O>)
        requires
            old(self).wf(),
        ensures
            r.wf(),
            r.offset == 0,
            r.len == old(self).spec_len(),
            r.bytes@ == old(self).raw_bytes(),
            r@ == old(self)@,
            final(self).raw_bytes() == final(r.bytes)@,
            final(self).spec_len() == old(self).spec_len(),
    {
        let len = self.len;
        BitSliceMut::from_parts(self.bytes.as_mut_slice(), 0, len)
    }

    /// Return the bit at `index`.
    pub fn get(&self, index: usize) -> (r: bool)
        requires
            self.wf(),
            index < self@.len(),
        ensures
            r == self@[index as int],
    {
        bit_at(self.bytes.as_slice(), index)
    }

    /// Append one bit.
    pub fn push(&mut self, value: bool)
        requires
            old(self).wf(),
            old(self)@.len() < usize::MAX,
        ensures
            final(self).wf(),
            final(self)@ == old(self)@.push(value),
    {
        if self.len % 8 == 0 {
            self.bytes.push(0);
        }
        let ghost mid = self.bytes@;
        let mut raw = self.bytes.as_mut_slice();
        set_bit(raw, self.len, value);
        proof {
            assert forall|k: int| 0 <= k <= self.len implies #[trigger] bit_at_spec(
                self.bytes@,
                k,
            ) == old(self)@.push(value)[k] by {
                lemma_set_bit_effect(mid, self.len as int, value, k);
            }
        }
        self.len = self.len + 1;
        assert(self@ =~= old(self)@.push(value));
    }

    /// Append all bits in `source`.
    pub fn extend_from_bitslice<U, P>(&mut self, source: &BitSlice<'_, U, P>)
        requires
            old(self).wf(),
            old(self)@.len() + source@.len() <= usize::MAX,
        ensures
            final(self).wf(),
            final(self)@ == old(self)@ + source@,
    {
        let n = source.len();
        let mut i: usize = 0;
        while i < n
            invariant
                i <= n,
                n == source@.len(),
                old(self)@.len() + n <= usize::MAX,
                self.wf(),
                self@ == old(self)@ + source@.take(i as int),
            decreases n - i,
        {
            let b = source.get(i);
            self.push(b);
            assert(old(self)@ + source@.take(i + 1) =~= old(self)@ + source@.take(i as int) + seq![b]);
            i = i + 1;
        }
        assert(source@.take(n as int) =~= source@);
    }

    /// Create a bit vector from boolean bits.
    pub fn from_bits(bits: &[bool]) -> (r: Self)
        ensures
            r.wf(),
            r@ == bits@,
    {
        let mut result = Self::new();
        let n = bits.len();
        let mut i: usize = 0;
        while i < n
            invariant
                i <= n,
                n == bits@.len(),
                result.wf(),
                result@ == bits@.take(i as int),
            decreases n - i,
        {
            result.push(bits[i]);
            assert(bits@.take(i + 1) =~= bits@.take(i as int).push(bits@[i as int]));
            i = i + 1;
        }
        assert(bits@.take(n as int) =~= bits@);
        result
    }

    /// Create a bit vector from a byte-aligned bit sequence, decoded from the
    /// order `O` stores bytes in.
    pub fn from_slice(bytes: &[u8]) -> (r: Self) where O: BitOrder
        requires
            8 * bytes@.len() <= usize::MAX,
        ensures
            r.wf(),
            r@.len() == 8 * bytes@.len(),
            forall|i: int|
                0 <= i < bytes@.len() ==> #[trigger] r.raw_bytes()[i] == O::stored(bytes@[i]),
    {
        let mut bytes = vstd::slice::slice_to_vec(bytes);
        O::decode(bytes.as_mut_slice());
        let len = bytes.len() * 8;
        let r = Self { bytes, len, _marker: PhantomData };
        assert(r.wf());
        r
    }

    /// Return this vector unchanged.
    pub fn to_bitvec(self) -> (r: Self)
        ensures
            r == self,
    {
        self
    }
}

impl<T, O> PartialEq for BitVec<T, O> {
    fn eq(&self, other: &Self) -> (r: bool) {
        if self.len != other.len {
            return false;
        }
        let n = self.len;
        let mut i: usize = 0;
        while i < n
            invariant
                i <= n,
                n == self@.len(),
                n == other@.len(),
                forall|k: int| 0 <= k < i ==> #[trigger] self@[k] == other@[k],
            decreases n - i,
        {
            let a = i / 8 < self.bytes.len() && bit_at(self.bytes.as_slice(), i);
            let b = i / 8 < other.bytes.len() && bit_at(other.bytes.as_slice(), i);
            if a != b {
                assert(self@[i as int] == a && other@[i as int] == b);
                assert(self@[i as int] != other@[i as int]);
                return false;
            }
            i = i + 1;
        }
        assert(self@ =~= other@);
        true
    }
}

impl<T, O> Eq for BitVec<T, O> {

}

impl<T, O> PartialEqSpecImpl for BitVec<T, O> {
    open spec fn obeys_eq_spec() -> bool {
        true
    }

    open spec fn eq_spec(&self, other: &Self) -> bool {
        self@ == other@
    }
}

impl<T, O> Default for BitVec<T, O> {
    fn default() -> (r: Self)
        ensures
            r.wf(),
            r@ == Seq::<bool>::empty(),
    {
        Self::new()
    }
}

impl<'a, T, O> View for BitSliceMut<'a, T, O> {
    type V = Seq<bool>;

    open spec fn view(&self) -> Seq<bool> {
        bits_range(self.bytes@, self.offset as int, self.len as int)
    }
}

impl<'a, T, O> View for BitSlice<'a, T, O> {
    type V = Seq<bool>;

    closed spec fn view(&self) -> Seq<bool> {
        bits_range(self.bytes@, self.offset as int, self.len as int)
    }
}

/// Bit `k` (0 is the most significant bit) of byte `b`.
pub open spec fn bit_of_byte(b: u8, k: int) -> bool {
    (b & (0x80u8 >> (k as u8))) != 0u8
}

/// Bit `index` of the packed, MSB-first bit string stored in `bytes`.
pub open spec fn bit_at_spec(bytes: Seq<u8>, index: int) -> bool {
    bit_of_byte(bytes[index / 8], index % 8)
}

/// The eight bits of `b`, most significant first.
pub open spec fn byte_bits(b: u8) -> Seq<bool> {
    Seq::new(8, |k: int| bit_of_byte(b, k))
}

/// All bits of `bytes`, each byte most significant bit first.
pub open spec fn bytes_bits(bytes: Seq<u8>) -> Seq<bool> {
    Seq::new(8 * bytes.len(), |i: int| bit_at_spec(bytes, i))
}

/// The `len` bits of `bytes` starting at bit `offset`.
pub open spec fn bits_range(bytes: Seq<u8>, offset: int, len: int) -> Seq<bool> {
    Seq::new(len as nat, |i: int| bit_at_spec(bytes, offset + i))
}

/// All the bits of `bytes`, seen as a range from bit zero.
pub proof fn bits_range_all(bytes: Seq<u8>)
    ensures
        bits_range(bytes, 0, 8 * bytes.len() as int) == bytes_bits(bytes),
        bytes.len() == 1 ==> bytes_bits(bytes) == byte_bits(bytes[0]),
{
    assert(bits_range(bytes, 0, 8 * bytes.len() as int) =~= bytes_bits(bytes));
    if bytes.len() == 1 {
        assert(bytes_bits(bytes) =~= byte_bits(bytes[0]));
    }
}

/// Byte `b` with bit `k` set to `value`.
pub open spec fn byte_with_bit(b: u8, k: int, value: bool) -> u8 {
    if value {
        b | (0x80u8 >> (k as u8))
    } else {
        b & !(0x80u8 >> (k as u8))
    }
}

/// Setting bit `k` of a byte changes bit `k` to `value` and no other bit.
pub proof fn lemma_byte_with_bit(b: u8, k: u8, value: bool, j: u8)
    requires
        k < 8,
        j < 8,
    ensures
        bit_of_byte(byte_with_bit(b, k as int, value), j as int) == if j == k {
            value
        } else {
            bit_of_byte(b, j as int)
        },
{
    if value {
        assert(((b | (0x80u8 >> k)) & (0x80u8 >> j)) != 0u8 <==> (j == k || (b & (0x80u8
            >> j)) != 0u8)) by (bit_vector)
            requires
                k < 8,
                j < 8,
        ;
    } else {
        assert(((b & !(0x80u8 >> k)) & (0x80u8 >> j)) != 0u8 <==> (j != k && (b & (0x80u8
            >> j)) != 0u8)) by (bit_vector)
            requires
                k < 8,
                j < 8,
        ;
    }
}

/// Read bit `index` of the packed bit string in `bytes`.
pub fn bit_at(bytes: &[u8], index: usize) -> (r: bool)
    requires
        index / 8 < bytes@.len(),
    ensures
        r == bit_at_spec(bytes@, index as int),
{
    bytes[index / 8] & (0x80u8 >> ((index % 8) as u8)) != 0
}

/// Byte `b` with bit `k` (0 is the most significant) set to `value`.
pub fn byte_set_bit(b: u8, k: u8, value: bool) -> (r: u8)
    requires
        k < 8,
    ensures
        r == byte_with_bit(b, k as int, value),
{
    let mask: u8 = 0x80u8 >> k;
    if value {
        b | mask
    } else {
        b & !mask
    }
}

/// Set bit `index` of the packed bit string in `bytes` to `value`.
pub fn set_bit(bytes: &mut [u8], index: usize, value: bool)
    requires
        index / 8 < old(bytes)@.len(),
    ensures
        final(bytes)@ == old(bytes)@.update(
            index as int / 8,
            byte_with_bit(old(bytes)@[index as int / 8], index as int % 8, value),
        ),
{
    let mask: u8 = 0x80u8 >> ((index % 8) as u8);
    let i = index / 8;
    if value {
        bytes[i] = bytes[i] | mask;
    } else {
        bytes[i] = bytes[i] & !mask;
    }
}

/// `new_bytes` holds the bits of `old_bytes`, except that the bits from `at`
/// on are replaced by `src`.
pub open spec fn bits_replaced(old_bytes: Seq<u8>, new_bytes: Seq<u8>, at: int, src: Seq<bool>) -> bool {
    &&& new_bytes.len() == old_bytes.len()
    &&& forall|j: int|
        0 <= j < 8 * old_bytes.len() ==> #[trigger] bit_at_spec(new_bytes, j) == if at <= j < at
            + src.len() {
            src[j - at]
        } else {
            bit_at_spec(old_bytes, j)
        }
}

/// Replacing no bits changes nothing.
pub proof fn lemma_bits_replaced_empty(b: Seq<u8>, at: int)
    ensures
        bits_replaced(b, b, at, Seq::empty()),
{
}

/// Two replacements of adjacent runs, the second run after the first, make one.
pub proof fn lemma_bits_replaced_append(
    o: Seq<u8>,
    m: Seq<u8>,
    n: Seq<u8>,
    a: int,
    s1: Seq<bool>,
    s2: Seq<bool>,
)
    requires
        bits_replaced(o, m, a, s1),
        bits_replaced(m, n, a + s1.len(), s2),
    ensures
        bits_replaced(o, n, a, s1 + s2),
{
    assert forall|j: int| 0 <= j < 8 * o.len() implies #[trigger] bit_at_spec(n, j) == if a <= j
        < a + (s1 + s2).len() {
        (s1 + s2)[j - a]
    } else {
        bit_at_spec(o, j)
    } by {
        assert(bit_at_spec(m, j) == if a <= j < a + s1.len() {
            s1[j - a]
        } else {
            bit_at_spec(o, j)
        });
        assert(bit_at_spec(n, j) == if a + s1.len() <= j < a + s1.len() + s2.len() {
            s2[j - (a + s1.len())]
        } else {
            bit_at_spec(m, j)
        });
    }
}

/// Two replacements of adjacent runs, the second run before the first, make one.
pub proof fn lemma_bits_replaced_prepend(
    o: Seq<u8>,
    m: Seq<u8>,
    n: Seq<u8>,
    a: int,
    s1: Seq<bool>,
    s2: Seq<bool>,
)
    requires
        bits_replaced(o, m, a, s1),
        bits_replaced(m, n, a - s2.len(), s2),
    ensures
        bits_replaced(o, n, a - s2.len(), s2 + s1),
{
    let b = a - s2.len();
    assert forall|j: int| 0 <= j < 8 * o.len() implies #[trigger] bit_at_spec(n, j) == if b <= j
        < b + (s2 + s1).len() {
        (s2 + s1)[j - b]
    } else {
        bit_at_spec(o, j)
    } by {
        assert(bit_at_spec(m, j) == if a <= j < a + s1.len() {
            s1[j - a]
        } else {
            bit_at_spec(o, j)
        });
        assert(bit_at_spec(n, j) == if b <= j < b + s2.len() {
            s2[j - b]
        } else {
            bit_at_spec(m, j)
        });
    }
}

/// The bits seen through a view after a replacement inside it.
pub proof fn lemma_bits_replaced_range(
    o: Seq<u8>,
    n: Seq<u8>,
    offset: int,
    len: int,
    at: int,
    s: Seq<bool>,
)
    requires
        bits_replaced(o, n, offset + at, s),
        0 <= offset,
        0 <= at,
        at + s.len() <= len,
        offset + len <= 8 * o.len(),
    ensures
        bits_range(n, offset, len) == bits_range(o, offset, len).take(at) + s + bits_range(
            o,
            offset,
            len,
        ).skip(at + s.len()),
{
    let lhs = bits_range(n, offset, len);
    let rhs = bits_range(o, offset, len).take(at) + s + bits_range(o, offset, len).skip(
        at + s.len(),
    );
    assert forall|i: int| 0 <= i < len implies #[trigger] lhs[i] == rhs[i] by {
        assert(bit_at_spec(n, offset + i) == if offset + at <= offset + i < offset + at
            + s.len() {
            s[offset + i - (offset + at)]
        } else {
            bit_at_spec(o, offset + i)
        });
    }
    assert(lhs =~= rhs);
}

/// The bits of bytes `s` followed by byte `x`.
pub proof fn lemma_bytes_bits_push(s: Seq<u8>, x: u8)
    ensures
        bytes_bits(s.push(x)) == bytes_bits(s) + byte_bits(x),
{
    let l = bytes_bits(s.push(x));
    let r = bytes_bits(s) + byte_bits(x);
    assert forall|i: int| 0 <= i < l.len() implies #[trigger] l[i] == r[i] by {
        if i < 8 * s.len() {
            assert(i / 8 < s.len());
        } else {
            assert(i / 8 == s.len());
            assert(i % 8 == i - 8 * s.len());
        }
    }
    assert(l =~= r);
}

/// A byte's bits, seen through the packed view of a one-byte slice.
pub proof fn lemma_single_byte_range(b: u8, from: int, count: int)
    requires
        0 <= from,
        0 <= count,
        from + count <= 8,
    ensures
        bits_range(seq![b], from, count) == byte_bits(b).subrange(from, from + count),
{
    assert(bits_range(seq![b], from, count) =~= byte_bits(b).subrange(from, from + count));
}

/// After `set_bit`, bit `index` is `value` and every other bit is unchanged.
pub proof fn lemma_set_bit_effect(old_bytes: Seq<u8>, index: int, value: bool, j: int)
    requires
        0 <= index,
        index / 8 < old_bytes.len(),
        0 <= j < 8 * old_bytes.len(),
    ensures
        bit_at_spec(
            old_bytes.update(index / 8, byte_with_bit(old_bytes[index / 8], index % 8, value)),
            j,
        ) == if j == index {
            value
        } else {
            bit_at_spec(old_bytes, j)
        },
{
    let nb = old_bytes.update(index / 8, byte_with_bit(old_bytes[index / 8], index % 8, value));
    if j / 8 == index / 8 {
        lemma_byte_with_bit(old_bytes[index / 8], (index % 8) as u8, value, (j % 8) as u8);
    }
}


/// The index of the first bit of `s` equal to `v`, if any.
pub open spec fn first_index(s: Seq<bool>, v: bool, r: Option<usize>) -> bool {
    match r {
        Some(i) => i < s.len() && s[i as int] == v && forall|j: int| 0 <= j < i ==> #[trigger] s[j] != v,
        None => forall|j: int| 0 <= j < s.len() ==> #[trigger] s[j] != v,
    }
}

/// The index of the last bit of `s` equal to `v`, if any.
pub open spec fn last_index(s: Seq<bool>, v: bool, r: Option<usize>) -> bool {
    match r {
        Some(i) => i < s.len() && s[i as int] == v && forall|j: int| i < j < s.len() ==> #[trigger] s[j] != v,
        None => forall|j: int| 0 <= j < s.len() ==> #[trigger] s[j] != v,
    }
}

impl<'a, T, O> BitSlice<'a, T, O> {
    /// Iterate over consecutive chunks, including a final partial chunk.
    pub fn chunks(&self, chunk_len: usize) -> (r: BitChunks<'a, T, O>)
        requires
            chunk_len != 0,
        ensures
            r.source() == self@,
            r.position() == 0,
            r.chunk_len() == chunk_len,
    {
        BitChunks { slice: *self, chunk_len, index: 0 }
    }

    /// Iterate over the bits in serialization order.
    pub fn iter(&self) -> (r: BitIter<'a, T, O>)
        ensures
            r@ == self@,
    {
        let r = BitIter { slice: *self, index: 0 };
        assert(r@ =~= self@);
        r
    }

    /// The first bit equal to `v`.
    fn position_of(&self, v: bool) -> (r: Option<usize>)
        ensures
            first_index(self@, v, r),
    {
        let n = self.len();
        let mut i: usize = 0;
        while i < n
            invariant
                i <= n,
                n == self@.len(),
                forall|j: int| 0 <= j < i ==> #[trigger] self@[j] != v,
            decreases n - i,
        {
            if self.get(i) == v {
                return Some(i);
            }
            i = i + 1;
        }
        None
    }

    /// The last bit equal to `v`.
    fn rposition_of(&self, v: bool) -> (r: Option<usize>)
        ensures
            last_index(self@, v, r),
    {
        let n = self.len();
        let mut i: usize = n;
        while i > 0
            invariant
                i <= n,
                n == self@.len(),
                forall|j: int| i <= j < n ==> #[trigger] self@[j] != v,
            decreases i,
        {
            if self.get(i - 1) == v {
                return Some(i - 1);
            }
            i = i - 1;
        }
        None
    }

    /// Find the first set bit.
    pub fn first_one(&self) -> (r: Option<usize>)
        ensures
            first_index(self@, true, r),
    {
        self.position_of(true)
    }

    /// Find the first clear bit.
    pub fn first_zero(&self) -> (r: Option<usize>)
        ensures
            first_index(self@, false, r),
    {
        self.position_of(false)
    }

    /// Find the last set bit.
    pub fn last_one(&self) -> (r: Option<usize>)
        ensures
            last_index(self@, true, r),
    {
        self.rposition_of(true)
    }

    /// Find the last clear bit.
    pub fn last_zero(&self) -> (r: Option<usize>)
        ensures
            last_index(self@, false, r),
    {
        self.rposition_of(false)
    }
}

/// Iterator over a [`BitSlice`].
pub struct BitIter<'a, T = u8, O = Msb0> {
    slice: BitSlice<'a, T, O>,
    index: usize,
}

impl<'a, T, O> Clone for BitIter<'a, T, O> {
    fn clone(&self) -> (r: Self)
        ensures
            r == *self,
    {
        proof {
            use_type_invariant(self);
        }
        BitIter { slice: self.slice, index: self.index }
    }
}

impl<'a, T, O> Copy for BitIter<'a, T, O> {

}

impl<'a, T, O> Clone for BitChunks<'a, T, O> {
    fn clone(&self) -> (r: Self)
        ensures
            r == *self,
    {
        proof {
            use_type_invariant(self);
        }
        BitChunks { slice: self.slice, chunk_len: self.chunk_len, index: self.index }
    }
}

impl<'a, T, O> Copy for BitChunks<'a, T, O> {

}

impl<'a, T, O> View for BitIter<'a, T, O> {
    type V = Seq<bool>;

    /// The bits not yet handed out.
    closed spec fn view(&self) -> Seq<bool> {
        self.slice@.subrange(self.index as int, self.slice@.len() as int)
    }
}

impl<'a, T, O> BitIter<'a, T, O> {
    #[verifier::type_invariant]
    closed spec fn inv(&self) -> bool {
        self.index <= self.slice@.len()
    }

    /// Hand out the first bit left.
    pub fn next(&mut self) -> (r: Option<bool>)
        ensures
            old(self)@.len() == 0 ==> r is None && final(self)@ == old(self)@,
            old(self)@.len() > 0 ==> r == Some(old(self)@[0]) && final(self)@ == old(self)@.drop_first(),
    {
        proof {
            use_type_invariant(&*self);
        }
        if self.index == self.slice.len() {
            None
        } else {
            let bit = self.slice.get(self.index);
            self.index = self.index + 1;
            assert(self@ =~= old(self)@.drop_first());
            Some(bit)
        }
    }

    /// The number of bits left, exactly.
    pub fn size_hint(&self) -> (r: (usize, Option<usize>))
        ensures
            r == (self@.len() as usize, Some(self@.len() as usize)),
    {
        proof {
            use_type_invariant(self);
        }
        let remaining = self.slice.len() - self.index;
        (remaining, Some(remaining))
    }

    /// Hand out the last bit left.
    pub fn next_back(&mut self) -> (r: Option<bool>)
        ensures
            old(self)@.len() == 0 ==> r is None && final(self)@ == old(self)@,
            old(self)@.len() > 0 ==> r == Some(old(self)@.last()) && final(self)@ == old(
                self,
            )@.drop_last(),
    {
        proof {
            use_type_invariant(&*self);
        }
        if self.index == self.slice.len() {
            None
        } else {
            let index = self.slice.len() - 1;
            let bit = self.slice.get(index);
            self.slice = self.slice.subslice(0, index);
            assert(self@ =~= old(self)@.drop_last());
            Some(bit)
        }
    }

    /// Compatibility helper for callers that previously used bitvec's
    /// reference-to-value iterator adapter.
    pub fn by_vals(self) -> (r: Self)
        ensures
            r == self,
    {
        self
    }
}

/// Iterator returned by [`BitSlice::chunks`].
pub struct BitChunks<'a, T = u8, O = Msb0> {
    slice: BitSlice<'a, T, O>,
    chunk_len: usize,
    index: usize,
}

impl<'a, T, O> BitChunks<'a, T, O> {
    #[verifier::type_invariant]
    closed spec fn inv(&self) -> bool {
        &&& self.chunk_len > 0
        &&& self.index <= self.slice@.len()
    }

    /// All the bits chunked.
    pub closed spec fn source(&self) -> Seq<bool> {
        self.slice@
    }

    /// Where the next chunk starts.
    pub closed spec fn position(&self) -> nat {
        self.index as nat
    }

    /// The length of a chunk.
    pub closed spec fn chunk_len(&self) -> nat {
        self.chunk_len as nat
    }

    /// Hand out the next chunk: the next `chunk_len` bits, or fewer at the
    /// end.
    pub fn next(&mut self) -> (r: Option<BitSlice<'a, T, O>>)
        ensures
            final(self).source() == old(self).source(),
            final(self).chunk_len() == old(self).chunk_len(),
            old(self).position() >= old(self).source().len() ==> r is None && final(self).position()
                == old(self).position(),
            old(self).position() < old(self).source().len() ==> {
                let end = if old(self).position() + old(self).chunk_len() < old(self).source().len() {
                    (old(self).position() + old(self).chunk_len()) as int
                } else {
                    old(self).source().len() as int
                };
                &&& r matches Some(c) && c@ == old(self).source().subrange(
                    old(self).position() as int,
                    end,
                )
                &&& final(self).position() == end
            },
    {
        proof {
            use_type_invariant(&*self);
        }
        if self.index >= self.slice.len() {
            return None;
        }
        let end = if self.slice.len() - self.index > self.chunk_len {
            self.index + self.chunk_len
        } else {
            self.slice.len()
        };
        let chunk = self.slice.subslice(self.index, end);
        self.index = end;
        Some(chunk)
    }

    /// The number of chunks left, exactly.
    pub fn size_hint(&self) -> (r: (usize, Option<usize>))
        ensures
            ({
                let rem = if self.position() < self.source().len() {
                    self.source().len() - self.position()
                } else {
                    0
                };
                let count = (rem + self.chunk_len() - 1) / self.chunk_len() as int;
                r == (count as usize, Some(count as usize))
            }),
    {
        proof {
            use_type_invariant(self);
        }
        let remaining = if self.index < self.slice.len() {
            self.slice.len() - self.index
        } else {
            0
        };
        proof {
            let c = self.chunk_len as int;
            let rm = remaining as int;
            if rm % c != 0 {
                assert(c >= 2);
                assert(rm > 0);
                vstd::arithmetic::div_mod::lemma_div_decreases(rm, c);
            }
        }
        let count = remaining / self.chunk_len + if remaining % self.chunk_len != 0 {
            1
        } else {
            0
        };
        proof {
            let c = self.chunk_len as int;
            let rm = remaining as int;
            vstd::arithmetic::div_mod::lemma_fundamental_div_mod(rm, c);
            vstd::arithmetic::div_mod::lemma_fundamental_div_mod(rm + c - 1, c);
            vstd::arithmetic::div_mod::lemma_mod_bound(rm, c);
            vstd::arithmetic::div_mod::lemma_mod_bound(rm + c - 1, c);
            assert(count == (rm + c - 1) / c) by (nonlinear_arith)
                requires
                    c > 0,
                    rm >= 0,
                    rm == c * (rm / c) + rm % c,
                    rm + c - 1 == c * ((rm + c - 1) / c) + (rm + c - 1) % c,
                    0 <= rm % c < c,
                    0 <= (rm + c - 1) % c < c,
                    count == rm / c + if rm % c != 0 { 1int } else { 0int },
            ;
        }
        (count, Some(count))
    }
}

/// A read-only source that can be written as packed MSB-first bits.
pub trait BitSource {
    /// The bits of the source.
    spec fn source_bits(&self) -> Seq<bool>;

    /// Borrow the source as a packed bit view.
    fn bit_slice(&self) -> (r: BitSlice<'_, u8, Msb0>)
        ensures
            r@ == self.source_bits(),
    ;
}

impl<'a, T, O> BitSource for BitSlice<'a, T, O> {
    open spec fn source_bits(&self) -> Seq<bool> {
        self@
    }

    fn bit_slice(&self) -> (r: BitSlice<'_, u8, Msb0>) {
        proof {
            use_type_invariant(self);
        }
        BitSlice::from_parts(self.bytes, self.offset, self.len)
    }
}

impl BitSource for [u8] {
    /// All the bits of the bytes, cut short at `usize::MAX`.
    open spec fn source_bits(&self) -> Seq<bool> {
        bits_range(
            self@,
            0,
            if 8 * self@.len() <= usize::MAX {
                8 * self@.len() as int
            } else {
                usize::MAX as int
            },
        )
    }

    fn bit_slice(&self) -> (r: BitSlice<'_, u8, Msb0>) {
        BitSlice::from_slice(self)
    }
}

impl<T, O> BitSource for BitVec<T, O> {
    /// The stored bits, as far as the stored bytes hold them.
    open spec fn source_bits(&self) -> Seq<bool> {
        bits_range(
            self.raw_bytes(),
            0,
            if self.spec_len() <= 8 * self.raw_bytes().len() {
                self.spec_len() as int
            } else {
                8 * self.raw_bytes().len() as int
            },
        )
    }

    fn bit_slice(&self) -> (r: BitSlice<'_, u8, Msb0>) {
        let n = self.bytes.len();
        let len = if n <= usize::MAX / 8 && self.len <= n * 8 {
            self.len
        } else if n <= usize::MAX / 8 {
            n * 8
        } else {
            self.len
        };
        proof {
            if n > usize::MAX / 8 {
                assert(self.len <= 8 * n);
            }
        }
        BitSlice::from_parts(self.bytes.as_slice(), 0, len)
    }
}

impl<T, O> BitVec<T, O> {
    /// A vector's bits as a source are its bits.
    pub proof fn lemma_source_bits(&self)
        requires
            self.wf(),
        ensures
            self.source_bits() == self@,
    {
        assert(self.source_bits() =~= self@);
    }

    /// Iterate over the bits.
    pub fn iter(&self) -> (r: BitIter<'_, T, O>)
        requires
            self.wf(),
        ensures
            r@ == self@,
    {
        self.as_bitslice().iter()
    }
}


/// The value of bits followed by more bits.
pub proof fn lemma_bits_value_append(s: Seq<bool>, t: Seq<bool>)
    ensures
        bits_value(s + t) == bits_value(s) * pow2(t.len()) + bits_value(t),
    decreases t.len(),
{
    vstd::arithmetic::power2::lemma2_to64();
    if t.len() == 0 {
        assert(s + t =~= s);
    } else {
        assert((s + t).drop_last() =~= s + t.drop_last());
        assert((s + t).last() == t.last());
        lemma_bits_value_append(s, t.drop_last());
        vstd::arithmetic::power2::lemma_pow2_unfold(t.len());
        let a = bits_value(s);
        let p = pow2((t.len() - 1) as nat);
        let b = bits_value(t.drop_last());
        assert(2 * (a * p + b) == a * (2 * p) + 2 * b) by (nonlinear_arith);
    }
}

/// A byte's bits are worth the byte.
pub proof fn lemma_byte_bits_value(b: u8)
    ensures
        bits_value(byte_bits(b)) == b as nat,
{
    lemma_byte_of_bits_value(byte_bits(b));
    lemma_byte_bits_packed(b);
}

/// The bits of bytes, most significant first, are worth the bytes taken most
/// significant first.
pub proof fn lemma_be_value_bits(bytes: Seq<u8>)
    ensures
        be_value(bytes) == bits_value(bytes_bits(bytes)),
    decreases bytes.len(),
{
    vstd::arithmetic::power2::lemma2_to64();
    if bytes.len() == 0 {
        assert(bytes_bits(bytes) =~= Seq::<bool>::empty());
    } else {
        let front = bytes.drop_last();
        assert(bytes_bits(bytes) =~= bytes_bits(front) + byte_bits(bytes.last()));
        lemma_be_value_bits(front);
        lemma_bits_value_append(bytes_bits(front), byte_bits(bytes.last()));
        lemma_byte_bits_value(bytes.last());
    }
}

/// The value of bits taken a byte at a time as storage lays them out, least
/// significant piece first: the first piece runs from bit offset `off` to
/// the next byte boundary, each later piece is a whole stored byte, and the
/// last one ends where the bits end.
pub open spec fn le_load_value(s: Seq<bool>, off: int) -> nat
    decreases s.len(),
{
    if s.len() == 0 || off < 0 {
        0
    } else {
        let k = if s.len() < 8 - off % 8 {
            s.len() as int
        } else {
            8 - off % 8
        };
        bits_value(s.take(k)) + pow2(k as nat) * le_load_value(s.skip(k), off + k)
    }
}

/// Bytes' bits from a byte boundary are worth the bytes taken least
/// significant first.
pub proof fn lemma_le_load_value_bytes(bytes: Seq<u8>, off: int)
    requires
        off >= 0,
        off % 8 == 0,
    ensures
        le_load_value(bytes_bits(bytes), off) == le_value(bytes),
    decreases bytes.len(),
{
    vstd::arithmetic::power2::lemma2_to64();
    let s = bytes_bits(bytes);
    if bytes.len() > 0 {
        assert(s.take(8) =~= byte_bits(bytes[0]));
        assert(s.skip(8) =~= bytes_bits(bytes.drop_first()));
        lemma_byte_bits_value(bytes[0]);
        lemma_le_load_value_bytes(bytes.drop_first(), off + 8);
    } else {
        assert(s.len() == 0);
    }
}

/// Loading bits least significant piece first stays below two to the number
/// of bits.
pub proof fn lemma_le_load_value_bound(s: Seq<bool>, off: int)
    requires
        off >= 0,
    ensures
        le_load_value(s, off) < pow2(s.len()),
    decreases s.len(),
{
    vstd::arithmetic::power2::lemma2_to64();
    if s.len() > 0 {
        let k = if s.len() < 8 - off % 8 {
            s.len() as int
        } else {
            8 - off % 8
        };
        lemma_bits_value_bound(s.take(k));
        lemma_le_load_value_bound(s.skip(k), off + k);
        vstd::arithmetic::power2::lemma_pow2_adds(k as nat, (s.len() - k) as nat);
        let a = bits_value(s.take(k));
        let p = pow2(k as nat);
        let b = le_load_value(s.skip(k), off + k);
        let q = pow2((s.len() - k) as nat);
        assert(a + p * b < p * q) by (nonlinear_arith)
            requires
                a < p,
                b < q,
                b >= 0,
        {
            assert(p * b <= p * (q - 1));
        }
    }
}

/// Taking the piece `[a, e)` off the front of the bits from `a` on, when `e`
/// ends them or sits on a byte boundary and `a` starts the byte that holds bit
/// `e - 1` (or the bits, if they start inside it).
proof fn lemma_le_load_step(s: Seq<bool>, off: int, a: int, e: int)
    requires
        off >= 0,
        0 <= a < e <= s.len(),
        e == s.len() || (off + e) % 8 == 0,
        a == if (off + e - 1) / 8 * 8 >= off {
            (off + e - 1) / 8 * 8 - off
        } else {
            0
        },
    ensures
        le_load_value(s.skip(a), off + a) == bits_value(s.subrange(a, e)) + pow2((e - a) as nat)
            * le_load_value(s.skip(e), off + e),
{
    let t = s.skip(a);
    let bs = (off + e - 1) / 8 * 8;
    let x = off + e - 1;
    assert(x == 8 * (x / 8) + x % 8 && 0 <= x % 8 < 8) by {
        vstd::arithmetic::div_mod::lemma_fundamental_div_mod(x, 8);
        vstd::arithmetic::div_mod::lemma_mod_bound(x, 8);
    }
    assert(off == 8 * (off / 8) + off % 8 && 0 <= off % 8 < 8) by {
        vstd::arithmetic::div_mod::lemma_fundamental_div_mod(off, 8);
        vstd::arithmetic::div_mod::lemma_mod_bound(off, 8);
    }
    let k = if t.len() < 8 - (off + a) % 8 {
        t.len() as int
    } else {
        8 - (off + a) % 8
    };
    if bs >= off {
        assert((off + a) % 8 == 0) by {
            assert(off + a == 8 * (x / 8));
            vstd::arithmetic::div_mod::lemma_mod_multiples_basic(x / 8, 8);
        }
        if e != s.len() {
            assert((off + e) == 8 * (x / 8) + 8) by {
                vstd::arithmetic::div_mod::lemma_fundamental_div_mod(off + e, 8);
            }
        }
    } else {
        assert(off / 8 == x / 8) by {
            vstd::arithmetic::div_mod::lemma_div_is_ordered(off, x, 8);
        }
        if e != s.len() {
            assert((off + e) == 8 * (x / 8) + 8) by {
                vstd::arithmetic::div_mod::lemma_fundamental_div_mod(off + e, 8);
            }
        }
    }
    assert(k == e - a);
    assert(t.take(k) =~= s.subrange(a, e));
    assert(t.skip(k) =~= s.skip(e));
}

/// The powers of two up to `2^8`.
fn small_pow2(k: usize) -> (r: u128)
    requires
        k <= 8,
    ensures
        r == pow2(k as nat),
{
    proof {
        vstd::arithmetic::power2::lemma2_to64();
    }
    let mut r: u128 = 1;
    let mut i: usize = 0;
    while i < k
        invariant
            i <= k <= 8,
            r == pow2(i as nat),
            pow2(8) == 256,
        decreases k - i,
    {
        proof {
            vstd::arithmetic::power2::lemma_pow2_unfold((i + 1) as nat);
            vstd::arithmetic::power2::lemma_pow2_strictly_increases(i as nat, 8);
        }
        r = r * 2;
        i = i + 1;
    }
    r
}

impl<'a, T, O> BitSlice<'a, T, O> {
    /// Return the underlying bytes when this view is byte-aligned.
    pub(crate) fn aligned_bytes(&self) -> (r: Option<&'a [u8]>)
        ensures
            r is Some <==> self.spec_offset() % 8 == 0 && self@.len() % 8 == 0,
            r matches Some(b) ==> bytes_bits(b@) == self@,
    {
        proof {
            use_type_invariant(self);
        }
        if self.offset % 8 != 0 || self.len % 8 != 0 {
            return None;
        }
        let start = self.offset / 8;
        let end = start + self.len / 8;
        let b = &self.bytes[start..end];
        proof {
            assert(b@ == self.bytes@.subrange(start as int, end as int));
            assert forall|i: int| 0 <= i < self.len implies #[trigger] bytes_bits(b@)[i] == self@[i] by {
                let o = self.offset as int;
                assert(o == 8 * start);
                assert((o + i) / 8 == start + i / 8 && (o + i) % 8 == i % 8) by {
                    vstd::arithmetic::div_mod::lemma_fundamental_div_mod(i, 8);
                    vstd::arithmetic::div_mod::lemma_mod_bound(i, 8);
                    vstd::arithmetic::div_mod::lemma_div_plus_one(i, 8);
                    vstd::arithmetic::div_mod::lemma_hoist_over_denominator(i, start as int, 8);
                    vstd::arithmetic::div_mod::lemma_mod_multiples_vanish(start as int, i, 8);
                }
                assert(i / 8 < end - start) by {
                    vstd::arithmetic::div_mod::lemma_div_is_ordered(i, self.len as int - 1, 8);
                    vstd::arithmetic::div_mod::lemma_fundamental_div_mod(self.len as int, 8);
                    vstd::arithmetic::div_mod::lemma_fundamental_div_mod(self.len as int - 1, 8);
                }
            }
            assert(bytes_bits(b@) =~= self@);
        }
        Some(b)
    }

    /// Load this bit sequence as a big-endian integer.
    pub fn load_be<V: BitValue>(&self) -> (r: V)
        requires
            self@.len() <= V::spec_bits(),
        ensures
            r.spec_value() == bits_value(self@),
    {
        let nbits = V::bits();
        proof {
            lemma_pow2_values();
            vstd::arithmetic::power2::lemma2_to64();
        }
        if let Some(bytes) = self.aligned_bytes() {
            let mut value: u128 = 0;
            let n = bytes.len();
            let mut i: usize = 0;
            while i < n
                invariant
                    i <= n,
                    n == bytes@.len(),
                    8 * n <= 64,
                    value == be_value(bytes@.take(i as int)),
                    value < pow2(8 * i as nat),
                    pow2(64) == 0x1_0000_0000_0000_0000,
                    pow2(8) == 256,
                decreases n - i,
            {
                proof {
                    vstd::arithmetic::power2::lemma_pow2_adds(8 * i as nat, 8);
                    if i + 1 < 8 {
                        vstd::arithmetic::power2::lemma_pow2_strictly_increases(8 * (i + 1) as nat, 64);
                    }
                    assert(bytes@.take(i + 1).drop_last() =~= bytes@.take(i as int));
                }
                value = value * 256 + bytes[i] as u128;
                i = i + 1;
            }
            proof {
                assert(bytes@.take(n as int) =~= bytes@);
                lemma_be_value_bits(bytes@);
                vstd::arithmetic::power2::lemma_pow2_strictly_increases(nbits as nat, 128);
                if value >= pow2(nbits as nat) {
                    lemma_bits_value_bound(self@);
                    if self@.len() < nbits {
                        vstd::arithmetic::power2::lemma_pow2_strictly_increases(self@.len(), nbits as nat);
                    }
                }
                vstd::arithmetic::div_mod::lemma_small_mod(value as nat, pow2(nbits as nat));
            }
            return V::from_u128(value);
        }
        let mut value: u128 = 0;
        let n = self.len();
        let mut i: usize = 0;
        while i < n
            invariant
                i <= n,
                n == self@.len(),
                n <= 64,
                value == bits_value(self@.take(i as int)),
                value < pow2(i as nat),
                pow2(64) == 0x1_0000_0000_0000_0000,
            decreases n - i,
        {
            proof {
                vstd::arithmetic::power2::lemma_pow2_unfold((i + 1) as nat);
                if i + 1 < 64 {
                    vstd::arithmetic::power2::lemma_pow2_strictly_increases((i + 1) as nat, 64);
                }
                assert(self@.take(i + 1).drop_last() =~= self@.take(i as int));
            }
            let bit = self.get(i);
            value = value * 2 + if bit {
                1
            } else {
                0
            };
            i = i + 1;
        }
        proof {
            assert(self@.take(n as int) =~= self@);
            if n < nbits {
                vstd::arithmetic::power2::lemma_pow2_strictly_increases(n as nat, nbits as nat);
            }
            vstd::arithmetic::div_mod::lemma_small_mod(value as nat, pow2(nbits as nat));
        }
        V::from_u128(value)
    }

    /// Load this bit sequence as a little-endian integer: the bits go in
    /// pieces that end at stored byte boundaries, least significant piece
    /// first.
    pub fn load_le<V: BitValue>(&self) -> (r: V)
        requires
            self@.len() <= V::spec_bits(),
        ensures
            r.spec_value() == le_load_value(self@, self.spec_offset()),
    {
        let nbits = V::bits();
        proof {
            use_type_invariant(self);
            lemma_pow2_values();
            vstd::arithmetic::power2::lemma2_to64();
        }
        if let Some(bytes) = self.aligned_bytes() {
            let mut value: u128 = 0;
            let n = bytes.len();
            let mut k: usize = n;
            while k > 0
                invariant
                    k <= n,
                    n == bytes@.len(),
                    8 * n <= 64,
                    value == le_value(bytes@.subrange(k as int, n as int)),
                    value < pow2(8 * (n - k) as nat),
                    pow2(64) == 0x1_0000_0000_0000_0000,
                    pow2(8) == 256,
                decreases k,
            {
                proof {
                    vstd::arithmetic::power2::lemma_pow2_adds(8, 8 * (n - k) as nat);
                    if n - k + 1 < 8 {
                        vstd::arithmetic::power2::lemma_pow2_strictly_increases(8 * (n - k + 1) as nat, 64);
                    }
                    assert(bytes@.subrange(k - 1, n as int).drop_first() =~= bytes@.subrange(
                        k as int,
                        n as int,
                    ));
                }
                k = k - 1;
                value = value * 256 + bytes[k] as u128;
            }
            proof {
                assert(bytes@.subrange(0, n as int) =~= bytes@);
                lemma_le_load_value_bytes(bytes@, self.offset as int);
                lemma_le_load_value_bound(self@, self.offset as int);
                if self@.len() < nbits {
                    vstd::arithmetic::power2::lemma_pow2_strictly_increases(self@.len(), nbits as nat);
                }
                vstd::arithmetic::div_mod::lemma_small_mod(value as nat, pow2(nbits as nat));
            }
            return V::from_u128(value);
        }
        let mut value: u128 = 0;
        let n = self.len;
        let off = self.offset;
        let mut e: usize = n;
        proof {
            assert(self@.skip(n as int) =~= Seq::<bool>::empty());
        }
        while e > 0
            invariant
                e <= n,
                n == self@.len(),
                n <= 64,
                off == self.spec_offset(),
                off + n <= usize::MAX,
                e == n || e == 0 || (off + e) % 8 == 0,
                value == le_load_value(self@.skip(e as int), off + e),
                value < pow2((n - e) as nat),
                pow2(64) == 0x1_0000_0000_0000_0000,
            decreases e,
        {
            let byte_start = (off + e - 1) / 8 * 8;
            let start = if off > byte_start {
                off
            } else {
                byte_start
            };
            let a = start - off;
            proof {
                vstd::arithmetic::div_mod::lemma_fundamental_div_mod((off + e - 1) as int, 8);
                lemma_le_load_step(self@, off as int, a as int, e as int);
                vstd::arithmetic::div_mod::lemma_mod_multiples_basic(((off + e - 1) / 8) as int, 8);
            }
            let chunk = self.subslice(a, e);
            let k = e - a;
            let piece = chunk.load_be::<u8>();
            let factor = small_pow2(k);
            proof {
                lemma_bits_value_bound(chunk@);
                vstd::arithmetic::power2::lemma_pow2_adds(k as nat, (n - e) as nat);
                vstd::arithmetic::power2::lemma_pow2_strictly_increases((n - a) as nat, 128) ;
                lemma_le_load_value_bound(self@.skip(a as int), off + a);
                assert(self@.skip(a as int).len() == n - a);
                if n - a < 64 {
                    vstd::arithmetic::power2::lemma_pow2_strictly_increases((n - a) as nat, 64);
                }
                assert(value * factor + piece as nat == le_load_value(self@.skip(a as int), off + a)) by (nonlinear_arith)
                    requires
                        le_load_value(self@.skip(a as int), off + a) == bits_value(self@.subrange(a as int, e as int)) + pow2(k as nat) * le_load_value(self@.skip(e as int), off + e),
                        value == le_load_value(self@.skip(e as int), off + e),
                        factor == pow2(k as nat),
                        piece as nat == bits_value(chunk@),
                        chunk@ == self@.subrange(a as int, e as int),
                ;
            }
            value = value * factor + piece as u128;
            e = a;
        }
        proof {
            assert(self@.skip(0) =~= self@);
            if n < nbits {
                vstd::arithmetic::power2::lemma_pow2_strictly_increases(n as nat, nbits as nat);
            }
            vstd::arithmetic::div_mod::lemma_small_mod(value as nat, pow2(nbits as nat));
        }
        V::from_u128(value)
    }

    /// Load this bit sequence using its packed MSB-first representation.
    pub fn load<V: BitValue>(&self) -> (r: V)
        requires
            self@.len() <= V::spec_bits(),
        ensures
            r.spec_value() == bits_value(self@),
    {
        self.load_be()
    }
}

/// Bit `i` of `bytes` when each byte is taken least significant bit first.
pub open spec fn lsb_bit(bytes: Seq<u8>, i: int) -> bool {
    (bytes[i / 8] >> ((i % 8) as u8)) & 1u8 == 1u8
}

/// The bits of `bytes`, each byte least significant bit first.
pub open spec fn lsb_bits(bytes: Seq<u8>) -> Seq<bool> {
    Seq::new(8 * bytes.len(), |i: int| lsb_bit(bytes, i))
}

/// Return the highest index of the requested bit when each byte is traversed LSB-first.
fn last_lsb_matching(bytes: &[u8], set: bool) -> (r: Option<usize>)
    requires
        8 * bytes@.len() <= usize::MAX,
    ensures
        last_index(lsb_bits(bytes@), set, r),
{
    let n = bytes.len();
    let mut k: usize = n;
    while k > 0
        invariant
            k <= n,
            n == bytes@.len(),
            8 * n <= usize::MAX,
            forall|j: int| 8 * k <= j < 8 * n ==> #[trigger] lsb_bits(bytes@)[j] != set,
        decreases k,
    {
        let b0 = bytes[k - 1];
        let byte = if set {
            b0
        } else {
            !b0
        };
        if byte != 0 {
            proof {
                vstd::std_specs::bits::axiom_u8_leading_zeros(byte);
            }
            let lz = byte.leading_zeros();
            let top = 7 - lz as usize;
            let idx = (k - 1) * 8 + top;
            proof {
                let t = top as u8;
                assert((byte >> t) & 1u8 != 0u8);
                assert forall|j: u8| t < j < 8 implies #[trigger] ((byte >> j) & 1u8) == 0u8 by {
                    assert(8 - vstd::std_specs::bits::u8_leading_zeros(byte) <= j);
                }
                assert forall|j: int| idx < j < 8 * n implies #[trigger] lsb_bits(bytes@)[j] != set by {
                    if j < 8 * k {
                        let jj = (j % 8) as u8;
                        assert(j / 8 == k - 1);
                        assert(jj > t);
                        assert((byte >> jj) & 1u8 == 0u8);
                        assert(((b0 >> jj) & 1u8 == 1u8) != set) by (bit_vector)
                            requires
                                jj < 8,
                                byte == if set { b0 } else { !b0 },
                                (byte >> jj) & 1u8 == 0u8,
                        ;
                    }
                }
                assert(idx / 8 == k - 1 && idx % 8 == top);
                assert(((b0 >> t) & 1u8 == 1u8) == set) by (bit_vector)
                    requires
                        t < 8,
                        byte == if set { b0 } else { !b0 },
                        (byte >> t) & 1u8 != 0u8,
                ;
                assert(lsb_bits(bytes@)[idx as int] == set);
            }
            return Some(idx);
        }
        proof {
            assert forall|j: int| 8 * (k - 1) <= j < 8 * n implies #[trigger] lsb_bits(bytes@)[j] != set by {
                if j < 8 * k {
                    let jj = (j % 8) as u8;
                    assert(j / 8 == k - 1);
                    assert(((b0 >> jj) & 1u8 == 1u8) != set) by (bit_vector)
                        requires
                            jj < 8,
                            byte == if set { b0 } else { !b0 },
                            byte == 0u8,
                    ;
                }
            }
        }
        k = k - 1;
    }
    None
}

/// Return the highest set-bit index when each byte is traversed LSB-first.
pub(crate) fn last_one_lsb(bytes: &[u8]) -> (r: Option<usize>)
    requires
        8 * bytes@.len() <= usize::MAX,
    ensures
        last_index(lsb_bits(bytes@), true, r),
{
    last_lsb_matching(bytes, true)
}

/// Return the highest clear-bit index when each byte is traversed LSB-first.
pub(crate) fn last_zero_lsb(bytes: &[u8]) -> (r: Option<usize>)
    requires
        8 * bytes@.len() <= usize::MAX,
    ensures
        last_index(lsb_bits(bytes@), false, r),
{
    last_lsb_matching(bytes, false)
}

/// The bits `s` padded with zero bits to whole bytes, packed most significant
/// bit first.
pub open spec fn padded_bytes(s: Seq<bool>) -> Seq<u8> {
    let pad = ((8 - s.len() % 8) % 8) as nat;
    let t = s + Seq::new(pad, |i: int| false);
    Seq::new(t.len() / 8, |i: int| byte_of_bits(t.subrange(8 * i, 8 * i + 8)))
}

impl<T, O> BitVec<T, O> {
    /// Return a packed byte representation, padding the last byte with zeroes.
    pub fn into_vec(self) -> (r: Vec<u8>) where O: BitOrder
        requires
            self.wf(),
        ensures
            r@.len() == padded_bytes(self@).len(),
            forall|i: int| 0 <= i < r@.len() ==> #[trigger] r@[i] == O::stored(padded_bytes(self@)[i]),
    {
        let mut this = self;
        this.clear_padding_bits();
        let ghost raw = this.bytes@;
        let ghost pb = padded_bytes(self@);
        proof {
            let pad = ((8 - self@.len() % 8) % 8) as nat;
            let t = self@ + Seq::new(pad, |i: int| false);
            assert(t.len() == 8 * raw.len());
            assert forall|i: int| 0 <= i < raw.len() implies #[trigger] raw[i] == pb[i] by {
                assert forall|k: int| 0 <= k < 8 implies #[trigger] t.subrange(8 * i, 8 * i + 8)[k]
                    == byte_bits(raw[i])[k] by {
                    assert((8 * i + k) / 8 == i && (8 * i + k) % 8 == k);
                    assert(bit_at_spec(raw, 8 * i + k) == byte_bits(raw[i])[k]);
                }
                assert(t.subrange(8 * i, 8 * i + 8) =~= byte_bits(raw[i]));
                lemma_byte_bits_packed(raw[i]);
            }
        }
        let mut bytes = this.bytes;
        O::encode(bytes.as_mut_slice());
        bytes
    }

    /// Load this bit vector as a big-endian integer.
    pub fn load_be<V: BitValue>(&self) -> (r: V)
        requires
            self.wf(),
            self@.len() <= V::spec_bits(),
        ensures
            r.spec_value() == bits_value(self@),
    {
        self.as_bitslice().load_be()
    }

    /// Load this bit vector as a little-endian integer.
    pub fn load_le<V: BitValue>(&self) -> (r: V)
        requires
            self.wf(),
            self@.len() <= V::spec_bits(),
        ensures
            r.spec_value() == le_load_value(self@, 0),
    {
        self.as_bitslice().load_le()
    }

    /// Load this bit vector using its packed MSB-first representation.
    pub fn load<V: BitValue>(&self) -> (r: V)
        requires
            self.wf(),
            self@.len() <= V::spec_bits(),
        ensures
            r.spec_value() == bits_value(self@),
    {
        self.as_bitslice().load()
    }
}
/// Both bit orders store a byte so that storing it again gives it back.
pub proof fn lemma_stored_twice(b: u8)
    ensures
        Msb0::stored(Msb0::stored(b)) == b,
        Lsb0::stored(Lsb0::stored(b)) == b,
{
    let r = byte_bits(b).reverse();
    lemma_byte_of_bits(r);
    assert(byte_bits(byte_of_bits(r)).reverse() =~= byte_bits(b));
    lemma_byte_bits_packed(b);
}

/// Law: the bytes of a bit vector made from bytes, in an order that gives a
/// byte back when it stores it twice (as `Msb0` and `Lsb0` do), are those
/// bytes: `from_slice` then `into_vec` gives the bytes back.
pub proof fn lemma_from_slice_into_vec<T, O: BitOrder>(bytes: Seq<u8>, v: BitVec<T, O>, out: Seq<u8>)
    requires
        forall|b: u8| #[trigger] O::stored(O::stored(b)) == b,
        v.wf(),
        v@.len() == 8 * bytes.len(),
        forall|i: int| 0 <= i < bytes.len() ==> #[trigger] v.raw_bytes()[i] == O::stored(bytes[i]),
        out.len() == padded_bytes(v@).len(),
        forall|i: int| 0 <= i < out.len() ==> #[trigger] out[i] == O::stored(padded_bytes(v@)[i]),
    ensures
        out == bytes,
{
    let raw = v.raw_bytes();
    let s = v@;
    let pb = padded_bytes(s);
    assert(s.len() % 8 == 0);
    let t = s + Seq::new(((8 - s.len() % 8) % 8) as nat, |i: int| false);
    assert(t =~= s);
    assert(pb.len() == bytes.len());
    assert forall|i: int| 0 <= i < bytes.len() implies #[trigger] out[i] == bytes[i] by {
        assert forall|k: int| 0 <= k < 8 implies #[trigger] t.subrange(8 * i, 8 * i + 8)[k]
            == byte_bits(raw[i])[k] by {
            assert((8 * i + k) / 8 == i && (8 * i + k) % 8 == k);
        }
        assert(t.subrange(8 * i, 8 * i + 8) =~= byte_bits(raw[i]));
        lemma_byte_bits_packed(raw[i]);
        assert(pb[i] == raw[i]);
        assert(O::stored(O::stored(bytes[i])) == bytes[i]);
    }
    assert(out =~= bytes);
}

} // verus!
