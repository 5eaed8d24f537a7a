//! Reading and writing `()`.
use crate::{DekuReader, DekuWriter};
use crate::error::DekuError;
use crate::reader::Reader;
use crate::writer::Writer;
use vstd::prelude::*;

verus! {

impl<Ctx: Copy> DekuReader<Ctx> for () {
    open spec fn can_read(reader: Reader, ctx: Ctx) -> bool {
        true
    }

    /// Nothing is read.
    open spec fn reads(before: Reader, after: Reader, ctx: Ctx, r: Result<Self, DekuError>) -> bool {
        after == before && r == Ok::<(), DekuError>(())
    }

    fn from_reader_with_ctx(reader: &mut Reader, inner_ctx: Ctx) -> (r: Result<Self, DekuError>) {
        Ok(())
    }
}

impl<Ctx: Copy> DekuWriter<Ctx> for () {
    open spec fn write_size(&self, ctx: Ctx) -> nat {
        0
    }

    /// Nothing is written.
    open spec fn writes(&self, before: Writer, after: Writer, ctx: Ctx, r: Result<(), DekuError>) -> bool {
        after == before && r == Ok::<(), DekuError>(())
    }

    fn to_writer(&self, writer: &mut Writer, inner_ctx: Ctx) -> (r: Result<(), DekuError>) {
        Ok(())
    }
}

} // verus!
