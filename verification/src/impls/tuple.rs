//! Reading and writing tuples, an element at a time.
use super::always_readable;
use crate::error::DekuError;
use crate::reader::{Reader, count_fits};
use crate::writer::{Writer, lemma_advances_trans, lemma_room_left, lemma_room_less};
use crate::{DekuReader, DekuWriter};
use vstd::prelude::*;

verus! {

impl<Ctx: Copy, A: DekuReader<Ctx>> DekuReader<Ctx> for (A,) {
    open spec fn can_read(reader: Reader, ctx: Ctx) -> bool {
        A::can_read(reader, ctx)
    }

    /// The element, read with the same context.
    open spec fn reads(before: Reader, after: Reader, ctx: Ctx, r: Result<Self, DekuError>) -> bool {
        exists|ra: Result<A, DekuError>|
            #[trigger] A::reads(before, after, ctx, ra) && match ra {
                Ok(a) => r == Ok::<(A,), DekuError>((a,)),
                Err(e) => r == Err::<(A,), DekuError>(e),
            }
    }

    fn from_reader_with_ctx(reader: &mut Reader, ctx: Ctx) -> (r: Result<Self, DekuError>) {
        let ra = A::from_reader_with_ctx(reader, ctx);
        match ra {
            Ok(a) => Ok((a,)),
            Err(e) => Err(e),
        }
    }
}

impl<Ctx: Copy, A: DekuReader<Ctx>, B: DekuReader<Ctx>> DekuReader<Ctx> for (A, B) {
    /// The first element can be read here, and the second from anywhere.
    open spec fn can_read(reader: Reader, ctx: Ctx) -> bool {
        A::can_read(reader, ctx) && always_readable::<B, Ctx>(ctx)
    }

    /// The elements in turn, read with the same context, up to the first
    /// error.
    open spec fn reads(before: Reader, after: Reader, ctx: Ctx, r: Result<Self, DekuError>) -> bool {
        exists|mid: Reader, ra: Result<A, DekuError>, rb: Result<B, DekuError>|
            #[trigger] pair_read(before, mid, after, ctx, ra, rb, r)
    }

    fn from_reader_with_ctx(reader: &mut Reader, ctx: Ctx) -> (r: Result<Self, DekuError>) {
        let ghost before = *reader;
        let ra = A::from_reader_with_ctx(reader, ctx);
        let ghost mid = *reader;
        let a = match ra {
            Ok(a) => a,
            Err(e) => {
                let r = Err(e);
                let ghost rb: Result<B, DekuError> = Err(e);
                assert(pair_read(before, mid, *reader, ctx, ra, rb, r));
                return r;
            },
        };
        let rb = B::from_reader_with_ctx(reader, ctx);
        let ghost gb = rb;
        let r = match rb {
            Ok(b) => Ok((a, b)),
            Err(e) => Err(e),
        };
        assert(pair_read(before, mid, *reader, ctx, ra, gb, r));
        r
    }
}

/// Reading an `A` from `before` leaves `mid` and gives `ra`; when it succeeds,
/// reading a `B` from `mid` leaves `after` and gives `rb`; `r` is the pair,
/// or the first error.
pub open spec fn pair_read<Ctx, A: DekuReader<Ctx>, B: DekuReader<Ctx>>(
    before: Reader,
    mid: Reader,
    after: Reader,
    ctx: Ctx,
    ra: Result<A, DekuError>,
    rb: Result<B, DekuError>,
    r: Result<(A, B), DekuError>,
) -> bool {
    &&& A::reads(before, mid, ctx, ra)
    &&& match ra {
        Ok(a) => {
            &&& B::reads(mid, after, ctx, rb)
            &&& match rb {
                Ok(b) => r == Ok::<(A, B), DekuError>((a, b)),
                Err(e) => r == Err::<(A, B), DekuError>(e),
            }
        },
        Err(e) => after == mid && r == Err::<(A, B), DekuError>(e),
    }
}

impl<Ctx: Copy, A: DekuWriter<Ctx>> DekuWriter<Ctx> for (A,) {
    open spec fn write_size(&self, ctx: Ctx) -> nat {
        self.0.write_size(ctx)
    }

    /// The element, written with the same context.
    open spec fn writes(&self, before: Writer, after: Writer, ctx: Ctx, r: Result<(), DekuError>) -> bool {
        self.0.writes(before, after, ctx, r)
    }

    fn to_writer(&self, writer: &mut Writer, ctx: Ctx) -> (r: Result<(), DekuError>) {
        self.0.to_writer(writer, ctx)
    }
}

/// Writing `a` then `b` with `ctx` into `before`, through `mid`, leaving
/// `after`, gives `r`: the second is written only when the first succeeds.
pub open spec fn pair_written<Ctx, A: DekuWriter<Ctx>, B: DekuWriter<Ctx>>(
    a: &A,
    b: &B,
    before: Writer,
    mid: Writer,
    after: Writer,
    ctx: Ctx,
    ra: Result<(), DekuError>,
    r: Result<(), DekuError>,
) -> bool {
    &&& a.writes(before, mid, ctx, ra)
    &&& if ra is Ok {
        b.writes(mid, after, ctx, r)
    } else {
        after == mid && r == ra
    }
}

impl<Ctx: Copy, A: DekuWriter<Ctx>, B: DekuWriter<Ctx>> DekuWriter<Ctx> for (A, B) {
    open spec fn write_size(&self, ctx: Ctx) -> nat {
        self.0.write_size(ctx) + self.1.write_size(ctx)
    }

    /// The elements in turn, written with the same context, up to the first
    /// error.
    open spec fn writes(&self, before: Writer, after: Writer, ctx: Ctx, r: Result<(), DekuError>) -> bool {
        exists|mid: Writer, ra: Result<(), DekuError>|
            #[trigger] pair_written(&self.0, &self.1, before, mid, after, ctx, ra, r)
    }

    fn to_writer(&self, writer: &mut Writer, ctx: Ctx) -> (r: Result<(), DekuError>) {
        let ghost w0 = *writer;
        let ghost sa = self.0.write_size(ctx) as int;
        let ghost sb = self.1.write_size(ctx) as int;
        proof {
            lemma_room_less(w0, sa, sa + sb);
        }
        let ra = self.0.to_writer(writer, ctx);
        let ghost mid = *writer;
        match ra {
            Ok(_) => {},
            Err(e) => {
                assert(pair_written(&self.0, &self.1, w0, mid, *writer, ctx, ra, ra));
                return Err(e);
            },
        }
        proof {
            lemma_room_left(w0, mid, sa, sa + sb);
        }
        let r = self.1.to_writer(writer, ctx);
        proof {
            lemma_advances_trans(w0, mid, *writer, sa, sb);
        }
        assert(pair_written(&self.0, &self.1, w0, mid, *writer, ctx, ra, r));
        r
    }
}

} // verus!
