//! Reading and writing `Arc`.
use crate::error::DekuError;
use crate::reader::Reader;
use crate::writer::Writer;
use crate::{DekuReader, DekuWriter};
use std::sync::Arc;
use vstd::prelude::*;

verus! {

impl<T: DekuReader<Ctx>, Ctx: Copy> DekuReader<Ctx> for Arc<T> {
    open spec fn can_read(reader: Reader, ctx: Ctx) -> bool {
        T::can_read(reader, ctx)
    }

    /// The value, read with the same context, shared.
    open spec fn reads(before: Reader, after: Reader, ctx: Ctx, r: Result<Self, DekuError>) -> bool {
        exists|v: Result<T, DekuError>|
            #[trigger] T::reads(before, after, ctx, v) && match v {
                Ok(x) => r matches Ok(a) && *a == x,
                Err(e) => r == Err::<Arc<T>, DekuError>(e),
            }
    }

    fn from_reader_with_ctx(reader: &mut Reader, inner_ctx: Ctx) -> (r: Result<Self, DekuError>) {
        let val = T::from_reader_with_ctx(reader, inner_ctx);
        match val {
            Ok(x) => Ok(Arc::new(x)),
            Err(e) => Err(e),
        }
    }
}

impl<T: DekuWriter<Ctx>, Ctx: Copy> DekuWriter<Ctx> for Arc<T> {
    open spec fn write_size(&self, ctx: Ctx) -> nat {
        (**self).write_size(ctx)
    }

    /// The shared value, written with the same context.
    open spec fn writes(&self, before: Writer, after: Writer, ctx: Ctx, r: Result<(), DekuError>) -> bool {
        (**self).writes(before, after, ctx, r)
    }

    fn to_writer(&self, writer: &mut Writer, ctx: Ctx) -> (r: Result<(), DekuError>) {
        let inner: &T = &**self;
        inner.to_writer(writer, ctx)
    }
}

} // verus!
