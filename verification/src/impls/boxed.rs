//! Reading and writing boxed slices.
use super::vec::{items_written_through, sizes_sum, write_items};
use crate::ctx::Limit;
use crate::error::DekuError;
use crate::reader::Reader;
use crate::writer::Writer;
use crate::{DekuReader, DekuWriter};
use vstd::prelude::*;

verus! {

/// Turn a vector into a boxed slice of the same items.
///
/// Trusted: calls `Vec::into_boxed_slice`, which std documents as keeping the
/// items, in order.
#[verifier::external_body]
fn boxed_slice_of<T>(v: Vec<T>) -> (r: Box<[T]>)
    ensures
        r@ == v@,
{
    v.into_boxed_slice()
}

impl<T: DekuReader<Ctx>, Ctx: Copy, P: Fn(&T) -> bool> DekuReader<(Limit<T, P>, Ctx)> for Box<[T]> {
    open spec fn can_read(reader: Reader, ctx: (Limit<T, P>, Ctx)) -> bool {
        <Vec<T> as DekuReader<(Limit<T, P>, Ctx)>>::can_read(reader, ctx)
    }

    /// The items a `Vec` reads with the same limit and context, boxed.
    open spec fn reads(before: Reader, after: Reader, ctx: (Limit<T, P>, Ctx), r: Result<Self, DekuError>) -> bool {
        exists|v: Result<Vec<T>, DekuError>|
            #[trigger] <Vec<T> as DekuReader<(Limit<T, P>, Ctx)>>::reads(before, after, ctx, v) && match v {
                Ok(items) => r matches Ok(b) && b@ == items@,
                Err(e) => r == Err::<Box<[T]>, DekuError>(e),
            }
    }

    fn from_reader_with_ctx(reader: &mut Reader, ctx: (Limit<T, P>, Ctx)) -> (r: Result<Self, DekuError>) {
        let val = <Vec<T> as DekuReader<(Limit<T, P>, Ctx)>>::from_reader_with_ctx(reader, ctx);
        match val {
            Ok(items) => Ok(boxed_slice_of(items)),
            Err(e) => Err(e),
        }
    }
}

impl<T: DekuWriter<Ctx>, Ctx: Copy> DekuWriter<Ctx> for Box<[T]> {
    open spec fn write_size(&self, ctx: Ctx) -> nat {
        sizes_sum(self@, ctx)
    }

    /// Each item written with the same context, in order, up to the first
    /// error.
    open spec fn writes(&self, before: Writer, after: Writer, ctx: Ctx, r: Result<(), DekuError>) -> bool {
        exists|states: Seq<Writer>| #[trigger] items_written_through(self@, states, before, after, ctx, r)
    }

    fn to_writer(&self, writer: &mut Writer, inner_ctx: Ctx) -> (r: Result<(), DekuError>) {
        write_items(&**self, writer, inner_ctx)
    }
}

} // verus!
