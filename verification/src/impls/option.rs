//! Reading and writing `Option`.
use crate::{DekuReader, DekuWriter};
use crate::error::DekuError;
use crate::reader::Reader;
use crate::writer::Writer;
use vstd::prelude::*;

verus! {

/// What reading an `Option` gives when reading its value gives `v`.
pub open spec fn some_of<T>(v: Result<T, DekuError>, r: Result<Option<T>, DekuError>) -> bool {
    match v {
        Ok(x) => r == Ok::<Option<T>, DekuError>(Some(x)),
        Err(e) => r == Err::<Option<T>, DekuError>(e),
    }
}

impl<T: DekuReader<Ctx>, Ctx: Copy> DekuReader<Ctx> for Option<T> {
    open spec fn can_read(reader: Reader, ctx: Ctx) -> bool {
        T::can_read(reader, ctx)
    }

    /// The value, read with the same context, is always there.
    open spec fn reads(before: Reader, after: Reader, ctx: Ctx, r: Result<Self, DekuError>) -> bool {
        exists|v: Result<T, DekuError>| #[trigger] T::reads(before, after, ctx, v) && some_of(v, r)
    }

    fn from_reader_with_ctx(reader: &mut Reader, inner_ctx: Ctx) -> (r: Result<Option<T>, DekuError>) {
        let val = T::from_reader_with_ctx(reader, inner_ctx);
        let ghost v = val;
        let r = match val {
            Ok(x) => Ok(Some(x)),
            Err(e) => Err(e),
        };
        assert(some_of(v, r));
        r
    }
}

impl<T: DekuWriter<Ctx>, Ctx: Copy> DekuWriter<Ctx> for Option<T> {
    open spec fn write_size(&self, ctx: Ctx) -> nat {
        match self {
            Some(v) => v.write_size(ctx),
            None => 0,
        }
    }

    /// The value, when there is one, written with the same context; nothing
    /// otherwise.
    open spec fn writes(&self, before: Writer, after: Writer, ctx: Ctx, r: Result<(), DekuError>) -> bool {
        match self {
            Some(v) => v.writes(before, after, ctx, r),
            None => after == before && r == Ok::<(), DekuError>(()),
        }
    }

    fn to_writer(&self, writer: &mut Writer, inner_ctx: Ctx) -> (r: Result<(), DekuError>) {
        match self {
            Some(v) => v.to_writer(writer, inner_ctx),
            None => Ok(()),
        }
    }
}

} // verus!
