//! Types for context representation
use core::marker::PhantomData;
use vstd::prelude::*;

verus! {

/// Aligned and correctly padded bytes
#[derive(Debug, Copy, Clone, Eq, PartialEq)]
pub struct Aligned;

/// An endian
#[derive(Debug, Copy, Clone, Eq, PartialEq, Structural)]
pub enum Endian {
    /// Little endian
    Little,
    /// Big endian
    Big,
}

/// Bit numbering within a byte
#[derive(Debug, Copy, Clone, Eq, PartialEq, Structural)]
pub enum Order {
    /// Most significant bit first
    Msb0,
    /// Least significant bit first
    Lsb0,
}

/// Error returned when parsing a `Endian` using `from_str`
#[derive(Debug, Clone, PartialEq, Eq)]
pub struct ParseEndianError {}

/// The first byte of the number one in the target's byte order: 1 on a
/// little-endian target, 0 on a big-endian one.
///
/// Trusted: calls `u16::to_ne_bytes`; its result depends on the machine, so
/// the contract only says it is one of the two.
#[verifier::external_body]
fn native_first_byte_of_one() -> (r: u8)
    ensures
        r == 0 || r == 1,
{
    1u16.to_ne_bytes()[0]
}

impl Endian {
    /// The endianness of the target's CPU.
    pub fn new() -> (r: Self)
        ensures
            r == Endian::Little || r == Endian::Big,
    {
        if native_first_byte_of_one() == 1 {
            Endian::Little
        } else {
            Endian::Big
        }
    }

    /// Is it little endian
    pub fn is_le(self) -> (r: bool)
        ensures
            r == (self == Endian::Little),
    {
        self == Endian::Little
    }

    /// Is it big endian
    pub fn is_be(self) -> (r: bool)
        ensures
            r == (self == Endian::Big),
    {
        self == Endian::Big
    }
}

impl Default for Endian {
    /// Return the endianness of the target's CPU.
    fn default() -> (r: Self)
        ensures
            r == Endian::Little || r == Endian::Big,
    {
        Self::new()
    }
}

/// Whether the texts `a` and `b` are equal.
///
/// Trusted: calls `str::eq`, which compares the two texts.
#[verifier::external_body]
fn str_eq(a: &str, b: &str) -> (r: bool)
    ensures
        r == (a@ == b@),
{
    a == b
}

impl Endian {
    /// Parse `"little"` or `"big"`.
    pub fn parse(s: &str) -> (r: Result<Self, ParseEndianError>)
        ensures
            s@ == "little"@ ==> r == Ok::<Endian, ParseEndianError>(Endian::Little),
            s@ == "big"@ ==> r == Ok::<Endian, ParseEndianError>(Endian::Big),
            s@ != "little"@ && s@ != "big"@ ==> r is Err,
    {
        proof {
            reveal_strlit("little");
            reveal_strlit("big");
            assert("little"@[0] != "big"@[0]);
        }
        if str_eq(s, "little") {
            Ok(Endian::Little)
        } else if str_eq(s, "big") {
            Ok(Endian::Big)
        } else {
            Err(ParseEndianError {  })
        }
    }
}

impl core::str::FromStr for Endian {
    type Err = ParseEndianError;

    fn from_str(s: &str) -> (r: Result<Self, Self::Err>)
        ensures
            s@ == "little"@ ==> r == Ok::<Endian, ParseEndianError>(Endian::Little),
            s@ == "big"@ ==> r == Ok::<Endian, ParseEndianError>(Endian::Big),
            s@ != "little"@ && s@ != "big"@ ==> r is Err,
    {
        Self::parse(s)
    }
}

/// A limit placed on a container's elements
#[derive(Debug)]
pub enum Limit<T, Predicate> {
    /// Read a specific count of elements
    Count(usize),
    /// Read until a given predicate holds true
    Until(Predicate, PhantomData<T>),
    /// Read until a given quantity of bytes have been read
    ByteSize(ByteSize),
    /// Read until a given quantity of bits have been read
    BitSize(BitSize),
    /// Read until the end of the input
    End,
}

impl<T, Predicate> Limit<T, Predicate> {
    /// Constructs a new Limit that reads until the given predicate returns true
    /// The predicate is given a reference to the latest read value and must return
    /// true to stop reading
    pub fn new_until(predicate: Predicate) -> (r: Self)
        ensures
            r == Limit::<T, Predicate>::Until(predicate, PhantomData),
    {
        Limit::Until(predicate, PhantomData)
    }

    /// Constructs a new Limit that reads until the given number of elements are read
    pub fn new_count(count: usize) -> (r: Self)
        ensures
            r == Limit::<T, Predicate>::Count(count),
    {
        Limit::Count(count)
    }

    /// Constructs a new Limit that reads until the given size
    pub fn new_bit_size(size: BitSize) -> (r: Self)
        ensures
            r == Limit::<T, Predicate>::BitSize(size),
    {
        Limit::BitSize(size)
    }

    /// Constructs a new Limit that reads until the given size
    pub fn new_byte_size(size: ByteSize) -> (r: Self)
        ensures
            r == Limit::<T, Predicate>::ByteSize(size),
    {
        Limit::ByteSize(size)
    }

    /// Constructs a new Limit that reads until the end of the input
    pub fn end() -> (r: Self)
        ensures
            r == Limit::<T, Predicate>::End,
    {
        Limit::End
    }
}

/// The size of field in bytes
#[derive(Debug, Copy, Clone, Eq, PartialEq, Ord, PartialOrd, Structural)]
pub struct ByteSize(pub usize);

/// The size of field in bits
#[derive(Debug, Copy, Clone, Eq, PartialEq, Ord, PartialOrd, Structural)]
pub struct BitSize(pub usize);

/// Read exactly this many bytes
#[derive(Debug, Copy, Clone, Eq, PartialEq, Structural)]
pub struct ReadExact(pub usize);

impl BitSize {
    /// Convert the size in bytes to a bit size.
    fn bits_from_bytes(byte_size: usize) -> (r: Self)
        requires
            byte_size * 8 <= usize::MAX,
        ensures
            r.0 == byte_size * 8,
    {
        Self(byte_size * 8)
    }

    /// Returns the bit size of a type.
    pub fn of<T>() -> (r: Self)
        requires
            vstd::layout::size_of::<T>() * 8 <= usize::MAX,
        ensures
            r.0 == vstd::layout::size_of::<T>() * 8,
    {
        Self::bits_from_bytes(core::mem::size_of::<T>())
    }

    /// Returns the bit size of the pointed-to value
    pub fn of_val<T: ?Sized>(val: &T) -> (r: Self)
        requires
            vstd::layout::spec_size_of_val::<T>(val) * 8 <= usize::MAX,
        ensures
            r.0 == vstd::layout::spec_size_of_val::<T>(val) * 8,
    {
        Self::bits_from_bytes(core::mem::size_of_val(val))
    }
}

} // verus!
