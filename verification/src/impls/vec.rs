//! Reading and writing `Vec`.
use super::{
    Stop, always_readable, items_read, read_chain, collection_read, collection_read_to_end, read_collection_to_end,
    read_collection_with_predicate, reads_progress, until_progress,
};
use crate::{DekuReader, DekuWriter};
use crate::ctx::{BitSize, ByteSize, Limit, Order, ReadExact};
use crate::error::{DekuError, incomplete_error, is_incomplete};
use crate::no_std_io::SeekFrom;
use crate::reader::{
    Leftover, Reader, bytes_read_state, bytes_read_value, count_fits, lemma_bytes_read,
    lemma_bytes_read_fits, unit_result,
};
use crate::writer::{Writer, advances, has_room, lemma_advances_trans, lemma_room_left, lemma_room_less};
use vstd::prelude::*;

verus! {

/// `a` and `b` are the same reader state: the same stream and position,
/// the same pending bits and the same count.
pub open spec fn same_state(a: Reader, b: Reader) -> bool {
    &&& a.source().data() == b.source().data()
    &&& a.source().pos() == b.source().pos()
    &&& a.pending() == b.pending()
    &&& a.read_count() == b.read_count()
}

impl DekuReader<ReadExact> for Vec<u8> {
    /// The stream is not positioned past its end; the size of a shortfall fits
    /// in a `usize`; no pending whole byte meets an empty read.
    open spec fn can_read(reader: Reader, exact: ReadExact) -> bool {
        &&& reader.source().pos() <= reader.source().data().len()
        &&& 8 * exact.0 <= usize::MAX
        &&& exact.0 == 0 ==> !(reader.pending() matches Some(Leftover::Byte(_)))
    }

    /// Fewer bytes left in the stream than asked for is an error asking for
    /// all of them, before anything is read; otherwise the bytes are read
    /// (`Lsb0` when bits are pending).
    open spec fn reads(before: Reader, after: Reader, exact: ReadExact, r: Result<Self, DekuError>) -> bool {
        let room = before.source().data().len() - before.source().pos();
        if room < exact.0 {
            &&& r matches Err(e) && is_incomplete(e, 8 * exact.0)
            &&& same_state(after, before)
        } else {
            &&& bytes_read_state(before, after, exact.0 as int, Order::Lsb0, unit_result(r))
            &&& r matches Ok(v) ==> v@ == bytes_read_value(before, exact.0 as int, Order::Lsb0)
        }
    }

    fn from_reader_with_ctx(reader: &mut Reader, exact: ReadExact) -> (r: Result<Self, DekuError>) {
        // Check remaining bytes via the inner reader before allocating,
        // so a bogus count from untrusted input doesn't cause a huge
        // allocation that will immediately fail on read.
        let ghost before = *reader;
        proof {
            before.source().lemma_bounds();
        }
        let inner = reader.as_mut();
        let pos = match inner.stream_position() {
            Ok(p) => p,
            Err(e) => return Err(DekuError::Io(e)),
        };
        let end = match inner.seek(SeekFrom::End(0)) {
            Ok(e) => e,
            Err(e) => return Err(DekuError::Io(e)),
        };
        match inner.seek(SeekFrom::Start(pos)) {
            Ok(_) => {},
            Err(e) => return Err(DekuError::Io(e)),
        }
        assert(same_state(*reader, before));
        if (end - pos) < exact.0 as u64 {
            return Err(incomplete_error(exact.0 * 8));
        }
        let mut bytes: Vec<u8> = Vec::new();
        let mut i: usize = 0;
        while i < exact.0
            invariant
                i <= exact.0,
                bytes@ == Seq::new(i as nat, |j: int| 0u8),
            decreases exact.0 - i,
        {
            bytes.push(0x00);
            assert(bytes@ =~= Seq::new((i + 1) as nat, |j: int| 0u8));
            i = i + 1;
        }
        let ghost mid = *reader;
        let ghost b0 = bytes@;
        let ret = reader.read_bytes(exact.0, bytes.as_mut_slice(), Order::Lsb0);
        proof {
            lemma_bytes_read(mid, *reader, b0, bytes@, exact.0 as int, Order::Lsb0, unit_result(ret));
            lemma_bytes_read_fits(mid, *reader, exact.0 as int, Order::Lsb0, unit_result(ret));
            assert(bytes@.take(exact.0 as int) =~= bytes@);
        }
        match ret {
            Ok(_) => Ok(bytes),
            Err(e) => Err(e),
        }
    }
}

/// Reading `T`s with `ctx` from `before` as `limit` says, leaving `after`,
/// gives `r`: nothing for a count or size of zero; items up to a count, up to
/// the first one the predicate holds for, or up to exactly a size in bits or
/// bytes, as [`collection_read`] says; or items to the end of the input, as
/// [`collection_read_to_end`] says.
pub open spec fn limit_read<T: DekuReader<Ctx>, Ctx, P: Fn(&T) -> bool>(
    before: Reader,
    after: Reader,
    limit: Limit<T, P>,
    ctx: Ctx,
    r: Result<Vec<T>, DekuError>,
) -> bool {
    match limit {
        Limit::Count(n) => if n == 0 {
            after == before && (r matches Ok(v) && v@.len() == 0)
        } else {
            collection_read(before, after, ctx, Stop::<P>::Count(n), r)
        },
        Limit::Until(p, _) => collection_read(before, after, ctx, Stop::Until(p), r),
        Limit::BitSize(size) => if size.0 == 0 {
            after == before && (r matches Ok(v) && v@.len() == 0)
        } else {
            collection_read(before, after, ctx, Stop::<P>::Bits(size.0), r)
        },
        Limit::ByteSize(size) => if size.0 == 0 {
            after == before && (r matches Ok(v) && v@.len() == 0)
        } else {
            collection_read(before, after, ctx, Stop::<P>::Bits((8 * size.0) as usize), r)
        },
        Limit::End => collection_read_to_end(before, after, ctx, r),
    }
}

/// Law: a read up to a number of bits that succeeds has taken exactly that
/// many bits.
pub proof fn lemma_bit_size_read_count<T: DekuReader<Ctx>, Ctx, P: Fn(&T) -> bool>(
    before: Reader,
    after: Reader,
    bits: usize,
    ctx: Ctx,
    r: Result<Vec<T>, DekuError>,
)
    requires
        limit_read(before, after, Limit::<T, P>::BitSize(BitSize(bits)), ctx, r),
        r is Ok,
    ensures
        after.read_count() == before.read_count() + bits,
{
    if bits > 0 {
        let (states, items, stops) = choose|states: Seq<Reader>, items: Seq<T>, stops: Seq<bool>|
            #[trigger] items_read(before, after, ctx, Stop::<P>::Bits(bits), states, items, stops, r);
        let i = items.len() - 1;
        assert(stops[i]);
        assert(states[i + 1] == states.last());
    }
}

/// Law: reading up to a size in bytes is reading up to eight times as many
/// bits: the same items, the same reader after and the same result; so a read
/// that succeeds has taken exactly eight bits for each byte of the size.
pub proof fn lemma_byte_size_is_bit_size<T: DekuReader<Ctx>, Ctx, P: Fn(&T) -> bool>(
    before: Reader,
    after: Reader,
    k: usize,
    ctx: Ctx,
    r: Result<Vec<T>, DekuError>,
)
    requires
        8 * k <= usize::MAX,
    ensures
        limit_read(before, after, Limit::<T, P>::ByteSize(ByteSize(k)), ctx, r) == limit_read(
            before,
            after,
            Limit::<T, P>::BitSize(BitSize((8 * k) as usize)),
            ctx,
            r,
        ),
        limit_read(before, after, Limit::<T, P>::ByteSize(ByteSize(k)), ctx, r) && r is Ok
            ==> after.read_count() == before.read_count() + 8 * k,
{
    if limit_read(before, after, Limit::<T, P>::ByteSize(ByteSize(k)), ctx, r) && r is Ok {
        lemma_bit_size_read_count::<T, Ctx, P>(before, after, (8 * k) as usize, ctx, r);
    }
}

/// `limit` and `ctx` can drive reads of `T`s from any reader: every read is
/// defined; reads up to a size or to the end make progress; reading until a
/// predicate holds makes progress or reads an item the predicate holds for;
/// a predicate can always be called; a size in bytes fits in a `usize` as
/// bits.
pub open spec fn limit_readable<T: DekuReader<Ctx>, Ctx, P: Fn(&T) -> bool>(limit: Limit<T, P>, ctx: Ctx) -> bool {
    &&& always_readable::<T, Ctx>(ctx)
    &&& (limit is BitSize || limit is ByteSize || limit is End) ==> reads_progress::<T, Ctx>(ctx)
    &&& limit matches Limit::Until(p, _) ==> until_progress::<T, Ctx, P>(ctx, p)
    &&& limit matches Limit::Until(p, _) ==> forall|x: &T| #[trigger] call_requires(p, (x,))
    &&& limit matches Limit::ByteSize(size) ==> 8 * size.0 <= usize::MAX
}

/// Read `T`s with `ctx` as `limit` says.
pub fn read_collection_with_limit<T: DekuReader<Ctx>, Ctx: Copy, P: Fn(&T) -> bool>(
    reader: &mut Reader,
    limit: Limit<T, P>,
    ctx: Ctx,
) -> (r: Result<Vec<T>, DekuError>)
    requires
        count_fits(*old(reader)),
        limit_readable(limit, ctx),
    ensures
        limit_read(*old(reader), *final(reader), limit, ctx, r),
        count_fits(*final(reader)),
        final(reader).source().data() == old(reader).source().data(),
        final(reader).read_count() >= old(reader).read_count(),
{
    match limit {
        Limit::Count(count) => {
            if count == 0 {
                return Ok(Vec::new());
            }
            read_collection_with_predicate(reader, Some(count), ctx, Stop::<P>::Count(count))
        },
        Limit::Until(predicate, _) => {
            read_collection_with_predicate(reader, None, ctx, Stop::Until(predicate))
        },
        Limit::BitSize(size) => {
            let bit_size = size.0;
            if bit_size == 0 {
                return Ok(Vec::new());
            }
            read_collection_with_predicate(reader, None, ctx, Stop::<P>::Bits(bit_size))
        },
        Limit::ByteSize(size) => {
            let bit_size = size.0 * 8;
            if bit_size == 0 {
                return Ok(Vec::new());
            }
            read_collection_with_predicate(reader, None, ctx, Stop::<P>::Bits(bit_size))
        },
        Limit::End => read_collection_to_end(reader, None, ctx),
    }
}

impl<T: DekuReader<Ctx>, Ctx: Copy, P: Fn(&T) -> bool> DekuReader<(Limit<T, P>, Ctx)> for Vec<T> {
    open spec fn can_read(reader: Reader, ctx: (Limit<T, P>, Ctx)) -> bool {
        vstd::layout::size_of::<T>() != 0 ==> limit_readable(ctx.0, ctx.1)
    }

    /// Zero-sized items read nothing; others are read as [`limit_read`] says.
    open spec fn reads(before: Reader, after: Reader, ctx: (Limit<T, P>, Ctx), r: Result<Self, DekuError>) -> bool {
        if vstd::layout::size_of::<T>() == 0 {
            after == before && (r matches Ok(v) && v@.len() == 0)
        } else {
            limit_read(before, after, ctx.0, ctx.1, r)
        }
    }

    fn from_reader_with_ctx(reader: &mut Reader, ctx: (Limit<T, P>, Ctx)) -> (r: Result<Self, DekuError>) {
        let (limit, inner_ctx) = ctx;
        if core::mem::size_of::<T>() == 0 {
            return Ok(Vec::new());
        }
        read_collection_with_limit(reader, limit, inner_ctx)
    }
}

impl<T: DekuReader<()>, P: Fn(&T) -> bool> DekuReader<Limit<T, P>> for Vec<T> {
    open spec fn can_read(reader: Reader, limit: Limit<T, P>) -> bool {
        <Vec<T> as DekuReader<(Limit<T, P>, ())>>::can_read(reader, (limit, ()))
    }

    /// Read `T`s until the given limit from input for types which don't require context.
    open spec fn reads(before: Reader, after: Reader, limit: Limit<T, P>, r: Result<Self, DekuError>) -> bool {
        <Vec<T> as DekuReader<(Limit<T, P>, ())>>::reads(before, after, (limit, ()), r)
    }

    fn from_reader_with_ctx(reader: &mut Reader, limit: Limit<T, P>) -> (r: Result<Self, DekuError>) {
        <Vec<T> as DekuReader<(Limit<T, P>, ())>>::from_reader_with_ctx(reader, (limit, ()))
    }
}

/// The bits sent on by writes of all of `items` with `ctx`, at most.
pub open spec fn sizes_sum<T: DekuWriter<Ctx>, Ctx>(items: Seq<T>, ctx: Ctx) -> nat
    decreases items.len(),
{
    if items.len() == 0 {
        0
    } else {
        sizes_sum(items.drop_last(), ctx) + items.last().write_size(ctx)
    }
}

/// The first items take no more than all of them.
pub proof fn lemma_sizes_sum_prefix<T: DekuWriter<Ctx>, Ctx>(items: Seq<T>, ctx: Ctx, i: int)
    requires
        0 <= i <= items.len(),
    ensures
        sizes_sum(items.take(i), ctx) <= sizes_sum(items, ctx),
    decreases items.len(),
{
    if i < items.len() {
        assert(items.drop_last().take(i) =~= items.take(i));
        lemma_sizes_sum_prefix(items.drop_last(), ctx, i);
    } else {
        assert(items.take(i) =~= items);
    }
}

/// `states` are the writer states around writes of the first items of
/// `items` with `ctx` that succeeded: item `i` is written from state `i`,
/// leaving state `i + 1`.
pub open spec fn write_chain<T: DekuWriter<Ctx>, Ctx>(items: Seq<T>, states: Seq<Writer>, ctx: Ctx) -> bool {
    &&& 1 <= states.len() <= items.len() + 1
    &&& forall|i: int|
        0 <= i < states.len() - 1 ==> #[trigger] items[i].writes(states[i], states[i + 1], ctx, Ok(()))
}

/// Writing `items` in turn with `ctx` into `before`, through `states`,
/// leaving `after`, gives `r`: every item written, or the items before the
/// first that fails and then its error.
pub open spec fn items_written_through<T: DekuWriter<Ctx>, Ctx>(
    items: Seq<T>,
    states: Seq<Writer>,
    before: Writer,
    after: Writer,
    ctx: Ctx,
    r: Result<(), DekuError>,
) -> bool {
    &&& write_chain(items, states, ctx)
    &&& states[0] == before
    &&& match r {
        Ok(()) => states.len() == items.len() + 1 && after == states.last(),
        Err(e) => states.len() <= items.len() && items[states.len() - 1].writes(
            states.last(),
            after,
            ctx,
            Err(e),
        ),
    }
}

impl<T: DekuWriter<Ctx>, Ctx: Copy> DekuWriter<Ctx> for Vec<T> {
    open spec fn write_size(&self, ctx: Ctx) -> nat {
        sizes_sum(self@, ctx)
    }

    /// Each item written with the same context, in order, up to the first
    /// error.
    open spec fn writes(&self, before: Writer, after: Writer, ctx: Ctx, r: Result<(), DekuError>) -> bool {
        exists|states: Seq<Writer>| #[trigger] items_written_through(self@, states, before, after, ctx, r)
    }

    fn to_writer(&self, writer: &mut Writer, inner_ctx: Ctx) -> (r: Result<(), DekuError>) {
        write_items(self.as_slice(), writer, inner_ctx)
    }
}

/// Write `items` in turn with `ctx`, up to the first error.
pub fn write_items<T: DekuWriter<Ctx>, Ctx: Copy>(items_in: &[T], writer: &mut Writer, inner_ctx: Ctx) -> (r: Result<(), DekuError>)
    requires
        old(writer).leftover.0@.len() < 8,
        has_room(*old(writer), sizes_sum(items_in@, inner_ctx) as int),
    ensures
        exists|states: Seq<Writer>|
            #[trigger] items_written_through(items_in@, states, *old(writer), *final(writer), inner_ctx, r),
        final(writer).leftover.0@.len() < 8,
        advances(
            *old(writer),
            *final(writer),
            old(writer).leftover.0@.len() + sizes_sum(items_in@, inner_ctx) as int,
        ),
{
    let ghost w0 = *writer;
    let ghost items = items_in@;
    let ghost total = sizes_sum(items, inner_ctx);
    let ghost mut states: Seq<Writer> = seq![*writer];
    let n = items_in.len();
    let mut i: usize = 0;
    proof {
        assert(items.take(0) =~= Seq::<T>::empty());
    }
    while i < n
        invariant
            i <= n,
            n == items.len(),
            items == items_in@,
            w0 == *old(writer),
            total == sizes_sum(items, inner_ctx),
            w0.leftover.0@.len() < 8,
            has_room(w0, total as int),
            writer.leftover.0@.len() < 8,
            states.len() == i + 1,
            write_chain(items, states, inner_ctx),
            states[0] == w0,
            states.last() == *writer,
            advances(w0, *writer, w0.leftover.0@.len() + sizes_sum(items.take(i as int), inner_ctx) as int),
        decreases n - i,
    {
        let ghost before = *writer;
        let ghost used = sizes_sum(items.take(i as int), inner_ctx);
        let ghost size = items[i as int].write_size(inner_ctx);
        proof {
            assert(items.take(i + 1).drop_last() =~= items.take(i as int));
            lemma_sizes_sum_prefix(items, inner_ctx, i + 1);
            lemma_room_left(w0, before, used as int, total as int);
            lemma_room_less(before, size as int, total - used);
        }
        let res = items_in[i].to_writer(writer, inner_ctx);
        assert(items[i as int].writes(before, *writer, inner_ctx, res));
        match res {
            Ok(_) => {},
            Err(e) => {
                proof {
                    let r = Err::<(), DekuError>(e);
                    assert(items_written_through(items, states, w0, *writer, inner_ctx, r));
                    lemma_advances_trans(w0, before, *writer, used as int, size as int);
                    lemma_sizes_sum_prefix(items, inner_ctx, i + 1);
                }
                return Err(e);
            },
        }
        proof {
            lemma_advances_trans(w0, before, *writer, used as int, size as int);
            let u: () = res->Ok_0;
            assert(res == Ok::<(), DekuError>(u));
            let next = states.push(*writer);
            assert forall|j: int| 0 <= j < next.len() - 1 implies #[trigger] items[j].writes(
                next[j],
                next[j + 1],
                inner_ctx,
                Ok(()),
            ) by {
                if j < states.len() - 1 {
                    assert(items[j].writes(states[j], states[j + 1], inner_ctx, Ok(())));
                } else {
                    assert(next[j] == before);
                    assert(next[j + 1] == *writer);
                }
            }
            states = next;
        }
        i = i + 1;
    }
    proof {
        assert(items.take(n as int) =~= items);
        assert(items_written_through(items, states, w0, *writer, inner_ctx, Ok(())));
    }
    Ok(())
}

impl<T: DekuWriter<Ctx>, Ctx: Copy, const N: usize> DekuWriter<Ctx> for [T; N] {
    open spec fn write_size(&self, ctx: Ctx) -> nat {
        sizes_sum(self@, ctx)
    }

    /// Each item written with the same context, in order, up to the first
    /// error.
    open spec fn writes(&self, before: Writer, after: Writer, ctx: Ctx, r: Result<(), DekuError>) -> bool {
        exists|states: Seq<Writer>| #[trigger] items_written_through(self@, states, before, after, ctx, r)
    }

    fn to_writer(&self, writer: &mut Writer, inner_ctx: Ctx) -> (r: Result<(), DekuError>) {
        write_items(self.as_slice(), writer, inner_ctx)
    }
}

impl<T: DekuWriter<Ctx>, Ctx: Copy> DekuWriter<Ctx> for [T] {
    open spec fn write_size(&self, ctx: Ctx) -> nat {
        sizes_sum(self@, ctx)
    }

    /// Each item written with the same context, in order, up to the first
    /// error.
    open spec fn writes(&self, before: Writer, after: Writer, ctx: Ctx, r: Result<(), DekuError>) -> bool {
        exists|states: Seq<Writer>| #[trigger] items_written_through(self@, states, before, after, ctx, r)
    }

    fn to_writer(&self, writer: &mut Writer, inner_ctx: Ctx) -> (r: Result<(), DekuError>) {
        write_items(self, writer, inner_ctx)
    }
}

/// Reading `N` items with `ctx` from `before`, leaving `after`, gives `r`:
/// the items are read in turn through `states`, each from the state the one
/// before it left; all `N` of them make the array, or the read after fewer
/// of them fails and its error is the result.
pub open spec fn array_read_through<T: DekuReader<Ctx>, Ctx, const N: usize>(
    before: Reader,
    after: Reader,
    ctx: Ctx,
    states: Seq<Reader>,
    items: Seq<T>,
    r: Result<[T; N], DekuError>,
) -> bool {
    &&& read_chain(states, ctx, items)
    &&& states[0] == before
    &&& match r {
        Ok(a) => {
            &&& items.len() == N
            &&& a@ == items
            &&& after == states.last()
        },
        Err(e) => {
            &&& items.len() < N
            &&& T::reads(states.last(), after, ctx, Err(e))
        },
    }
}

/// Turn a vector of exactly `N` items into an array of them.
///
/// Trusted: calls `<[T; N]>::try_from` on a `Vec<T>`, which std documents as
/// succeeding, with the same items in the same order, when the lengths agree.
#[verifier::external_body]
fn vec_into_array<T, const N: usize>(v: Vec<T>) -> (r: [T; N])
    requires
        v@.len() == N,
    ensures
        r@ == v@,
{
    <[T; N]>::try_from(v).ok().unwrap()
}

impl<T: DekuReader<Ctx>, Ctx: Copy, const N: usize> DekuReader<Ctx> for [T; N] {
    /// Every read of a `T` with `ctx` is defined, unless there is none to do.
    open spec fn can_read(reader: Reader, ctx: Ctx) -> bool {
        N == 0 || always_readable::<T, Ctx>(ctx)
    }

    /// `N` items read in turn with the same context, up to the first error,
    /// as [`array_read_through`] says for some states.
    open spec fn reads(before: Reader, after: Reader, ctx: Ctx, r: Result<Self, DekuError>) -> bool {
        exists|states: Seq<Reader>, items: Seq<T>|
            #[trigger] array_read_through::<T, Ctx, N>(before, after, ctx, states, items, r)
    }

    fn from_reader_with_ctx(reader: &mut Reader, ctx: Ctx) -> (r: Result<Self, DekuError>) {
        let mut result: Vec<T> = Vec::with_capacity(N);
        let ghost before = *reader;
        let ghost mut states: Seq<Reader> = seq![*reader];
        let mut n: usize = 0;
        while n < N
            invariant
                n <= N,
                result@.len() == n,
                N > 0 ==> always_readable::<T, Ctx>(ctx),
                count_fits(*reader),
                before == *old(reader),
                read_chain(states, ctx, result@),
                states[0] == before,
                states.last() == *reader,
                reader.source().data() == before.source().data(),
                reader.read_count() >= before.read_count(),
            decreases N - n,
        {
            let item = match T::from_reader_with_ctx(reader, ctx) {
                Ok(v) => v,
                Err(e) => {
                    assert(array_read_through::<T, Ctx, N>(before, *reader, ctx, states, result@, Err(e)));
                    return Err(e);
                },
            };
            let ghost prev_items = result@;
            result.push(item);
            proof {
                states = states.push(*reader);
                assert forall|i: int| 0 <= i < result@.len() implies #[trigger] T::reads(
                    states[i],
                    states[i + 1],
                    ctx,
                    Ok(result@[i]),
                ) by {
                    if i < prev_items.len() {
                        assert(T::reads(states[i], states[i + 1], ctx, Ok(prev_items[i])));
                    }
                }
            }
            n = n + 1;
        }
        let ghost items = result@;
        let array: [T; N] = vec_into_array(result);
        assert(array_read_through::<T, Ctx, N>(before, *reader, ctx, states, items, Ok(array)));
        Ok(array)
    }
}

} // verus!
