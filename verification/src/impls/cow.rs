//! Reading and writing `Cow`.
use crate::ctx::{ByteSize, Limit, ReadExact};
use crate::error::DekuError;
use crate::reader::Reader;
use crate::writer::Writer;
use crate::{DekuReader, DekuWriter};
use std::borrow::Cow;
use vstd::prelude::*;

verus! {

impl<'a, T: DekuReader<Ctx> + Clone, Ctx: Copy> DekuReader<Ctx> for Cow<'a, T> {
    open spec fn can_read(reader: Reader, ctx: Ctx) -> bool {
        T::can_read(reader, ctx)
    }

    /// The value, read with the same context, owned.
    open spec fn reads(before: Reader, after: Reader, ctx: Ctx, r: Result<Self, DekuError>) -> bool {
        exists|v: Result<T, DekuError>|
            #[trigger] T::reads(before, after, ctx, v) && match v {
                Ok(x) => r == Ok::<Cow<'a, T>, DekuError>(Cow::Owned(x)),
                Err(e) => r == Err::<Cow<'a, T>, DekuError>(e),
            }
    }

    fn from_reader_with_ctx(reader: &mut Reader, inner_ctx: Ctx) -> (r: Result<Self, DekuError>) {
        let val = T::from_reader_with_ctx(reader, inner_ctx);
        match val {
            Ok(x) => Ok(Cow::Owned(x)),
            Err(e) => Err(e),
        }
    }
}

impl<'a, T: DekuWriter<Ctx> + Clone, Ctx: Copy> DekuWriter<Ctx> for Cow<'a, T> {
    open spec fn write_size(&self, ctx: Ctx) -> nat {
        match self {
            Cow::Borrowed(b) => (*b).write_size(ctx),
            Cow::Owned(o) => o.write_size(ctx),
        }
    }

    /// The value, borrowed or owned, written with the same context.
    open spec fn writes(&self, before: Writer, after: Writer, ctx: Ctx, r: Result<(), DekuError>) -> bool {
        match self {
            Cow::Borrowed(b) => (*b).writes(before, after, ctx, r),
            Cow::Owned(o) => o.writes(before, after, ctx, r),
        }
    }

    fn to_writer(&self, writer: &mut Writer, ctx: Ctx) -> (r: Result<(), DekuError>) {
        match self {
            Cow::Borrowed(b) => (*b).to_writer(writer, ctx),
            Cow::Owned(o) => o.to_writer(writer, ctx),
        }
    }
}

impl<'a> DekuReader<ReadExact> for Cow<'a, [u8]> {
    open spec fn can_read(reader: Reader, exact: ReadExact) -> bool {
        <Vec<u8> as DekuReader<ReadExact>>::can_read(reader, exact)
    }

    /// The bytes a `Vec<u8>` reads exactly, owned.
    open spec fn reads(before: Reader, after: Reader, exact: ReadExact, r: Result<Self, DekuError>) -> bool {
        exists|v: Result<Vec<u8>, DekuError>|
            #[trigger] <Vec<u8> as DekuReader<ReadExact>>::reads(before, after, exact, v) && match v {
                Ok(x) => r == Ok::<Cow<'a, [u8]>, DekuError>(Cow::Owned(x)),
                Err(e) => r == Err::<Cow<'a, [u8]>, DekuError>(e),
            }
    }

    fn from_reader_with_ctx(reader: &mut Reader, exact: ReadExact) -> (r: Result<Self, DekuError>) {
        match <Vec<u8> as DekuReader<ReadExact>>::from_reader_with_ctx(reader, exact) {
            Ok(x) => Ok(Cow::Owned(x)),
            Err(e) => Err(e),
        }
    }
}

impl<'a> DekuReader<ByteSize> for Cow<'a, [u8]> {
    open spec fn can_read(reader: Reader, size: ByteSize) -> bool {
        <Vec<u8> as DekuReader<ReadExact>>::can_read(reader, ReadExact(size.0))
    }

    /// The bytes a `Vec<u8>` reads exactly, `size` of them, owned.
    open spec fn reads(before: Reader, after: Reader, size: ByteSize, r: Result<Self, DekuError>) -> bool {
        <Cow<'a, [u8]> as DekuReader<ReadExact>>::reads(before, after, ReadExact(size.0), r)
    }

    fn from_reader_with_ctx(reader: &mut Reader, size: ByteSize) -> (r: Result<Self, DekuError>) {
        <Cow<'a, [u8]> as DekuReader<ReadExact>>::from_reader_with_ctx(reader, ReadExact(size.0))
    }
}

impl<'a, Ctx, P: Fn(&u8) -> bool> DekuReader<(Limit<u8, P>, Ctx)> for Cow<'a, [u8]> {
    open spec fn can_read(reader: Reader, ctx: (Limit<u8, P>, Ctx)) -> bool {
        <Vec<u8> as DekuReader<Limit<u8, P>>>::can_read(reader, ctx.0)
    }

    /// The bytes a `Vec<u8>` reads up to the limit, owned; the context is
    /// not used.
    open spec fn reads(before: Reader, after: Reader, ctx: (Limit<u8, P>, Ctx), r: Result<Self, DekuError>) -> bool {
        exists|v: Result<Vec<u8>, DekuError>|
            #[trigger] <Vec<u8> as DekuReader<Limit<u8, P>>>::reads(before, after, ctx.0, v) && match v {
                Ok(x) => r == Ok::<Cow<'a, [u8]>, DekuError>(Cow::Owned(x)),
                Err(e) => r == Err::<Cow<'a, [u8]>, DekuError>(e),
            }
    }

    fn from_reader_with_ctx(reader: &mut Reader, ctx: (Limit<u8, P>, Ctx)) -> (r: Result<Self, DekuError>) {
        let (limit, _inner_ctx) = ctx;
        match <Vec<u8> as DekuReader<Limit<u8, P>>>::from_reader_with_ctx(reader, limit) {
            Ok(x) => Ok(Cow::Owned(x)),
            Err(e) => Err(e),
        }
    }
}

impl<'a, P: Fn(&u8) -> bool> DekuReader<Limit<u8, P>> for Cow<'a, [u8]> {
    open spec fn can_read(reader: Reader, limit: Limit<u8, P>) -> bool {
        <Cow<'a, [u8]> as DekuReader<(Limit<u8, P>, ())>>::can_read(reader, (limit, ()))
    }

    /// The bytes a `Vec<u8>` reads up to the limit, owned.
    open spec fn reads(before: Reader, after: Reader, limit: Limit<u8, P>, r: Result<Self, DekuError>) -> bool {
        <Cow<'a, [u8]> as DekuReader<(Limit<u8, P>, ())>>::reads(before, after, (limit, ()), r)
    }

    fn from_reader_with_ctx(reader: &mut Reader, limit: Limit<u8, P>) -> (r: Result<Self, DekuError>) {
        <Cow<'a, [u8]> as DekuReader<(Limit<u8, P>, ())>>::from_reader_with_ctx(reader, (limit, ()))
    }
}

impl<'a, Ctx: Copy> DekuWriter<Ctx> for Cow<'a, [u8]> where u8: DekuWriter<Ctx> {
    open spec fn write_size(&self, ctx: Ctx) -> nat {
        match self {
            Cow::Borrowed(b) => (*b).write_size(ctx),
            Cow::Owned(o) => o.write_size(ctx),
        }
    }

    /// The bytes, borrowed or owned, written with the same context.
    open spec fn writes(&self, before: Writer, after: Writer, ctx: Ctx, r: Result<(), DekuError>) -> bool {
        match self {
            Cow::Borrowed(b) => (*b).writes(before, after, ctx, r),
            Cow::Owned(o) => o.writes(before, after, ctx, r),
        }
    }

    fn to_writer(&self, writer: &mut Writer, ctx: Ctx) -> (r: Result<(), DekuError>) {
        match self {
            Cow::Borrowed(b) => (*b).to_writer(writer, ctx),
            Cow::Owned(o) => o.to_writer(writer, ctx),
        }
    }
}

} // verus!
