//! Declarative bit-level reading and writing: packed bit storage, a bit
//! reader and a bit writer over in-memory byte streams, and the primitive
//! encodings built on them.
pub mod bits;
mod bounded;

pub use bounded::BoundedBitVec;
pub mod no_std_io;
pub mod noseek;
pub mod ctx;
pub mod error;

pub use error::DekuError;
pub mod container;
pub mod reader;
pub mod writer;
pub mod properties;
pub mod runs;
pub mod lsb_ints;
pub mod impls;

use crate::reader::{Reader, count_fits};
use crate::bits::{BitVec, Msb0, BitSlice, bytes_bits};
use crate::no_std_io::{Cursor, ErrorKind};
use crate::writer::{Writer, advances, finalize_out, finalized_data, fresh_writer, has_room};
use vstd::prelude::*;

verus! {

/// "Reader" trait: read bytes and bits from a [`Reader`]
pub trait DekuReader<Ctx = ()>: Sized {
    /// Reading with `ctx` from `reader` is defined.
    spec fn can_read(reader: Reader, ctx: Ctx) -> bool;

    /// Reading with `ctx` from `before`, which leaves `after`, gives `r`.
    spec fn reads(before: Reader, after: Reader, ctx: Ctx, r: Result<Self, DekuError>) -> bool;

    /// Construct type from `reader`, with ctx.
    fn from_reader_with_ctx(reader: &mut Reader, ctx: Ctx) -> (r: Result<Self, DekuError>)
        requires
            count_fits(*old(reader)),
            Self::can_read(*old(reader), ctx),
        ensures
            Self::reads(*old(reader), *final(reader), ctx, r),
            count_fits(*final(reader)),
            final(reader).source().data() == old(reader).source().data(),
            final(reader).read_count() >= old(reader).read_count(),
    ;
}

/// "Writer" trait: write from type to bytes
pub trait DekuWriter<Ctx = ()> {
    /// At most this many bits are sent on when `self` is written with `ctx`.
    spec fn write_size(&self, ctx: Ctx) -> nat;

    /// Writing `self` with `ctx` into `before`, which leaves `after`, gives `r`.
    spec fn writes(&self, before: Writer, after: Writer, ctx: Ctx, r: Result<(), DekuError>) -> bool;

    /// Write type to bytes
    fn to_writer(&self, writer: &mut Writer, ctx: Ctx) -> (r: Result<(), DekuError>)
        requires
            old(writer).leftover.0@.len() < 8,
            has_room(*old(writer), self.write_size(ctx) as int),
        ensures
            self.writes(*old(writer), *final(writer), ctx, r),
            final(writer).leftover.0@.len() < 8,
            advances(*old(writer), *final(writer), old(writer).leftover.0@.len() + self.write_size(ctx) as int),
    ;
}

/// "Reader" trait: implemented on DekuRead struct and enum containers. A `container` is a type which
/// doesn't need any context information.
pub trait DekuContainerRead: DekuReader<()> {
    /// Construct type from a stream, skipping its first `input.1` bits.
    ///
    /// Returns the amount of total bits read, and Self.
    fn from_reader(input: (&mut Cursor, usize)) -> Result<(usize, Self), DekuError>;

    /// Read bytes and construct type, skipping the first `input.1` bits.
    ///
    /// Returns the remaining bytes and bit offset after parsing in addition to Self.
    fn from_bytes(input: (&[u8], usize)) -> Result<((&[u8], usize), Self), DekuError>;
}

/// Copy the first bytes of `src` into `buf`, as many as fit.
fn copy_prefix(buf: &mut [u8], src: &[u8])
    ensures
        final(buf)@.len() == old(buf)@.len(),
        src@.len() <= old(buf)@.len() ==> final(buf)@ == src@ + old(buf)@.skip(src@.len() as int),
        src@.len() > old(buf)@.len() ==> final(buf)@ == src@.take(old(buf)@.len() as int),
{
    let n = if src.len() < buf.len() {
        src.len()
    } else {
        buf.len()
    };
    let mut i: usize = 0;
    while i < n
        invariant
            i <= n,
            n <= src@.len(),
            n <= old(buf)@.len(),
            n == src@.len() || n == old(buf)@.len(),
            buf@.len() == old(buf)@.len(),
            buf@ == src@.take(i as int) + old(buf)@.skip(i as int),
        decreases n - i,
    {
        buf[i] = src[i];
        assert(buf@ =~= src@.take(i + 1) + old(buf)@.skip(i + 1));
        i = i + 1;
    }
    assert(old(buf)@.skip(old(buf)@.len() as int) =~= Seq::<u8>::empty());
    assert(src@.take(src@.len() as int) =~= src@);
}

/// A fresh writer has room for a write of `n` bits, and for the byte that
/// finalizing may add after it.
proof fn lemma_fresh_room(w0: Writer, w1: Writer, n: int)
    requires
        fresh_writer(w0),
        0 <= n,
        n + 8 <= usize::MAX,
        w1.leftover.0@.len() < 8,
        advances(w0, w1, n),
    ensures
        has_room(w0, n),
        has_room(w1, (8 - w1.leftover.0@.len()) % 8),
        8 * w1.inner.data().len() <= usize::MAX,
{
}

/// "Writer" trait: implemented on DekuWrite struct and enum containers. A `container` is a type which
/// doesn't need any context information.
pub trait DekuContainerWrite: DekuWriter<()> {
    /// Write struct/enum to Vec<u8>
    ///
    /// The bytes are those the value writes into a fresh writer, then its
    /// pending bits padded to a byte.
    fn to_bytes(&self) -> (r: Result<Vec<u8>, DekuError>)
        requires
            self.write_size(()) + 8 <= usize::MAX,
        ensures
            exists|w0: Writer, w1: Writer, res: Result<(), DekuError>|
                #[trigger] self.writes(w0, w1, (), res) && fresh_writer(w0) && match r {
                    Ok(v) => res is Ok && v@ == finalized_data(w1),
                    Err(e) => res == Err::<(), DekuError>(e),
                },
    {
        let mut writer = Writer::new(Cursor::new(Vec::new()));
        let ghost w0 = writer;
        let res = self.to_writer(&mut writer, ());
        let ghost w1 = writer;
        match res {
            Ok(_) => {},
            Err(e) => {
                return Err(e);
            },
        }
        proof {
            lemma_fresh_room(w0, w1, self.write_size(()) as int);
        }
        match writer.finalize() {
            Ok(()) => {},
            Err(e) => {
                return Err(e);
            },
        }
        let out = writer.inner.into_inner();
        Ok(out)
    }

    /// Write struct/enum to a given slice
    ///
    /// The bytes go into `buf` as far as they fit. When they do not all fit,
    /// the error is `WriteZero`; otherwise an error of the write is returned
    /// as it is, and success gives the number of bytes written.
    fn to_slice(&self, buf: &mut [u8]) -> (r: Result<usize, DekuError>)
        requires
            self.write_size(()) + 8 <= usize::MAX,
        ensures
            exists|w0: Writer, w1: Writer, res: Result<(), DekuError>|
                #[trigger] self.writes(w0, w1, (), res) && fresh_writer(w0) && {
                    let cap = old(buf)@.len();
                    let out = if res is Ok {
                        finalized_data(w1)
                    } else {
                        w1.inner.data()
                    };
                    &&& out.len() <= cap ==> final(buf)@ == out + old(buf)@.skip(out.len() as int)
                    &&& out.len() > cap ==> final(buf)@ == out.take(cap as int)
                    &&& match r {
                        Ok(n) => res is Ok && out.len() <= cap && n == (w1.bits_written + 8
                            * finalize_out(w1.leftover.0@, w1.leftover.1).len()) / 8,
                        Err(e) => if out.len() > cap {
                            e == DekuError::Io(ErrorKind::WriteZero)
                        } else {
                            res == Err::<(), DekuError>(e)
                        },
                    }
                },
    {
        let mut writer = Writer::new(Cursor::new(Vec::new()));
        let ghost w0 = writer;
        let res = self.to_writer(&mut writer, ());
        let ghost w1 = writer;
        proof {
            lemma_fresh_room(w0, w1, self.write_size(()) as int);
        }
        match res {
            Ok(_) => {},
            Err(e) => {
                let out = writer.inner.get_ref();
                copy_prefix(buf, out.as_slice());
                if out.len() > buf.len() {
                    return Err(DekuError::Io(ErrorKind::WriteZero));
                }
                return Err(e);
            },
        }
        match writer.finalize() {
            Ok(()) => {},
            Err(e) => {
                return Err(e);
            },
        }
        let out = writer.inner.get_ref();
        copy_prefix(buf, out.as_slice());
        if out.len() > buf.len() {
            return Err(DekuError::Io(ErrorKind::WriteZero));
        }
        Ok(writer.bits_written / 8)
    }

    /// Write struct/enum to BitVec
    ///
    /// The bits are those of the bytes the value writes into a fresh writer,
    /// then its pending bits, with no padding.
    fn to_bits(&self) -> (r: Result<BitVec<u8, Msb0>, DekuError>)
        requires
            self.write_size(()) + 8 <= usize::MAX,
        ensures
            exists|w0: Writer, w1: Writer, res: Result<(), DekuError>|
                #[trigger] self.writes(w0, w1, (), res) && fresh_writer(w0) && match r {
                    Ok(v) => res is Ok && v.wf() && v@ == bytes_bits(w1.inner.data()) + w1.leftover.0@,
                    Err(e) => res == Err::<(), DekuError>(e),
                },
    {
        let mut writer = Writer::new(Cursor::new(Vec::new()));
        let ghost w0 = writer;
        let res = self.to_writer(&mut writer, ());
        let ghost w1 = writer;
        match res {
            Ok(_) => {},
            Err(e) => {
                return Err(e);
            },
        }
        proof {
            lemma_fresh_room(w0, w1, self.write_size(()) as int);
        }
        let leftover = writer.leftover;
        let out = writer.inner.into_inner();
        let mut bv = BitVec::<u8, Msb0>::from_slice(out.as_slice());
        proof {
            assert(bv@ =~= bytes_bits(out@));
        }
        let pending = leftover.0.as_bitslice();
        bv.extend_from_bitslice(&pending);
        Ok(bv)
    }
}

/// "Updater" trait: apply mutations to a type
pub trait DekuUpdate {
    /// Apply updates
    fn update(&mut self) -> Result<(), DekuError>;
}

/// "Extended Enum" trait: obtain additional enum information
pub trait DekuEnumExt<T> {
    /// Obtain `id` of a given enum variant
    fn deku_id(&self) -> Result<T, DekuError>;
}

/// Trait for types with a known, fixed binary size at compile-time
///
/// Only implemented for fixed-size types. Variable-size types like `Vec` do
/// not implement this.
pub trait DekuSize {
    /// Size in bits when serialized
    const SIZE_BITS: usize;

    /// Size in bytes if byte-aligned, `None` otherwise
    fn size_bytes() -> (r: Option<usize>)
        ensures
            r == if Self::SIZE_BITS % 8 == 0 {
                Some(Self::SIZE_BITS / 8)
            } else {
                None::<usize>
            },
    {
        if Self::SIZE_BITS % 8 == 0 {
            Some(Self::SIZE_BITS / 8)
        } else {
            None
        }
    }
}

} // verus!
