//! Reading and writing `bool`.
use crate::{DekuReader, DekuSize, DekuWriter};
use crate::error::{DekuError, described, spec_described, spec_usize_text, usize_text};
use crate::reader::Reader;
use crate::writer::Writer;
use vstd::prelude::*;

verus! {

/// What reading a `bool` gives when the byte read gives `v`: one is true,
/// zero is false, any other value is a parse error naming it.
pub open spec fn bool_of_byte(v: Result<u8, DekuError>, r: Result<bool, DekuError>) -> bool {
    match v {
        Ok(b) => if b == 1 {
            r == Ok::<bool, DekuError>(true)
        } else if b == 0 {
            r == Ok::<bool, DekuError>(false)
        } else {
            r matches Err(DekuError::Parse(m)) && m@ == spec_described(
                "cannot parse bool value"@,
                spec_usize_text(b as usize),
            )
        },
        Err(e) => r == Err::<bool, DekuError>(e),
    }
}

impl<Ctx: Copy> DekuReader<Ctx> for bool where u8: DekuReader<Ctx> {
    open spec fn can_read(reader: Reader, ctx: Ctx) -> bool {
        <u8 as DekuReader<Ctx>>::can_read(reader, ctx)
    }

    /// A byte read with the same context, as [`bool_of_byte`] says.
    open spec fn reads(before: Reader, after: Reader, ctx: Ctx, r: Result<Self, DekuError>) -> bool {
        exists|v: Result<u8, DekuError>|
            #[trigger] <u8 as DekuReader<Ctx>>::reads(before, after, ctx, v) && bool_of_byte(v, r)
    }

    fn from_reader_with_ctx(reader: &mut Reader, inner_ctx: Ctx) -> (r: Result<bool, DekuError>) {
        let val = <u8 as DekuReader<Ctx>>::from_reader_with_ctx(reader, inner_ctx);
        let ghost v = val;
        let val = match val {
            Ok(b) => b,
            Err(e) => return Err(e),
        };
        let ret = match val {
            0x01 => Ok(true),
            0x00 => Ok(false),
            _ => Err(
                DekuError::Parse(
                    described("cannot parse bool value", usize_text(val as usize).as_str()),
                ),
            ),
        };
        assert(bool_of_byte(v, ret));
        ret
    }
}

impl<Ctx: Copy> DekuWriter<Ctx> for bool where u8: DekuWriter<Ctx> {
    open spec fn write_size(&self, ctx: Ctx) -> nat {
        (if *self {
            1u8
        } else {
            0u8
        }).write_size(ctx)
    }

    /// The byte one for true and zero for false, written with the same
    /// context.
    open spec fn writes(&self, before: Writer, after: Writer, ctx: Ctx, r: Result<(), DekuError>) -> bool {
        (if *self {
            1u8
        } else {
            0u8
        }).writes(before, after, ctx, r)
    }

    fn to_writer(&self, writer: &mut Writer, inner_ctx: Ctx) -> (r: Result<(), DekuError>) {
        match self {
            true => (0x01u8).to_writer(writer, inner_ctx),
            false => (0x00u8).to_writer(writer, inner_ctx),
        }
    }
}

impl DekuSize for bool {
    const SIZE_BITS: usize = 8;
}

} // verus!
