//! Implementations of the reader and writer traits.
use crate::DekuReader;
use crate::ctx::Limit;
use crate::error::DekuError;
use crate::reader::{Reader, available_bits, count_fits, end_checked, lemma_end_checked_fits};
use vstd::prelude::*;

pub mod arc;
pub mod boxed;
pub mod cow;
pub mod hash;
pub mod bool;
pub mod option;
pub mod primitive;
pub mod primitive_write;
pub mod tuple;
pub mod unit;
pub mod vec;

verus! {

/// When reading a collection stops.
pub enum Stop<P> {
    /// After this many items.
    Count(usize),
    /// After the first item the predicate holds for.
    Until(P),
    /// Once exactly this many bits have been read.
    Bits(usize),
}

/// `states` are the reader states around reads of `items` with `ctx`: item `i`
/// is read from state `i`, leaving state `i + 1`.
pub open spec fn read_chain<T: DekuReader<Ctx>, Ctx>(states: Seq<Reader>, ctx: Ctx, items: Seq<T>) -> bool {
    &&& states.len() == items.len() + 1
    &&& forall|i: int|
        0 <= i < items.len() ==> #[trigger] T::reads(states[i], states[i + 1], ctx, Ok(items[i]))
}

/// `stops[i]` is whether `stop` ends the read after item `i` of `items`, read
/// through `states` from `before`.
pub open spec fn stops_as<T, P: Fn(&T) -> bool>(
    stop: Stop<P>,
    before: Reader,
    states: Seq<Reader>,
    items: Seq<T>,
    stops: Seq<bool>,
) -> bool {
    forall|i: int|
        0 <= i < stops.len() ==> match stop {
            Stop::Count(n) => #[trigger] stops[i] == (i + 1 == n),
            Stop::Until(p) => call_ensures(p, (&items[i],), stops[i]),
            Stop::Bits(b) => stops[i] == (states[i + 1].read_count() - before.read_count() == b),
        }
}

/// Reading items with `ctx` from `before` until `stop` says to, leaving
/// `after`, gives `r`: the items read through `states`, up to the first one
/// after which `stop` ends the read; or the error of a read after items that
/// did not end it.
pub open spec fn items_read<T: DekuReader<Ctx>, Ctx, P: Fn(&T) -> bool>(
    before: Reader,
    after: Reader,
    ctx: Ctx,
    stop: Stop<P>,
    states: Seq<Reader>,
    items: Seq<T>,
    stops: Seq<bool>,
    r: Result<Vec<T>, DekuError>,
) -> bool {
    &&& read_chain(states, ctx, items)
    &&& states[0] == before
    &&& stops.len() == items.len()
    &&& stops_as(stop, before, states, items, stops)
    &&& forall|i: int| 0 <= i < items.len() - 1 ==> !#[trigger] stops[i]
    &&& match r {
        Ok(v) => {
            &&& v@ == items
            &&& items.len() > 0
            &&& stops.last()
            &&& after == states.last()
        },
        Err(e) => {
            &&& items.len() == 0 || !stops.last()
            &&& T::reads(states.last(), after, ctx, Err(e))
        },
    }
}

/// Reading items with `ctx` from `before` until `stop` says to, leaving
/// `after`, gives `r`, as [`items_read`] says for some states.
pub open spec fn collection_read<T: DekuReader<Ctx>, Ctx, P: Fn(&T) -> bool>(
    before: Reader,
    after: Reader,
    ctx: Ctx,
    stop: Stop<P>,
    r: Result<Vec<T>, DekuError>,
) -> bool {
    exists|states: Seq<Reader>, items: Seq<T>, stops: Seq<bool>|
        #[trigger] items_read(before, after, ctx, stop, states, items, stops, r)
}

/// Every read of a `T` with `ctx` that succeeds takes at least one bit.
pub open spec fn reads_progress<T: DekuReader<Ctx>, Ctx>(ctx: Ctx) -> bool {
    forall|r1: Reader, r2: Reader, v: T|
        #[trigger] T::reads(r1, r2, ctx, Ok(v)) ==> available_bits(r2) < available_bits(r1)
}

/// Every read of a `T` with `ctx` that succeeds and takes no bit reads an
/// item that `p` holds for, so that reading until `p` holds stops.
pub open spec fn until_progress<T: DekuReader<Ctx>, Ctx, P: Fn(&T) -> bool>(ctx: Ctx, p: P) -> bool {
    forall|r1: Reader, r2: Reader, v: T|
        #[trigger] T::reads(r1, r2, ctx, Ok(v)) && available_bits(r2) >= available_bits(r1) ==> forall|
            b: bool,
        | #[trigger] call_ensures(p, (&v,), b) ==> b
}

/// Reading with `stop` ends: reads that are not counted make progress, but
/// reading until a predicate holds may also stop on an item read without
/// taking a bit.
pub open spec fn stop_progress<T: DekuReader<Ctx>, Ctx, P: Fn(&T) -> bool>(ctx: Ctx, stop: Stop<P>) -> bool {
    match stop {
        Stop::Count(_) => true,
        Stop::Until(p) => until_progress::<T, Ctx, P>(ctx, p),
        Stop::Bits(_) => reads_progress::<T, Ctx>(ctx),
    }
}

/// A `T` can be read with `ctx` from any reader.
pub open spec fn always_readable<T: DekuReader<Ctx>, Ctx>(ctx: Ctx) -> bool {
    forall|r: Reader| #[trigger] T::can_read(r, ctx)
}

/// Read items with `ctx` until `stop` says to.
pub fn read_collection_with_predicate<T: DekuReader<Ctx>, Ctx: Copy, P: Fn(&T) -> bool>(
    reader: &mut Reader,
    capacity: Option<usize>,
    ctx: Ctx,
    stop: Stop<P>,
) -> (r: Result<Vec<T>, DekuError>)
    requires
        count_fits(*old(reader)),
        always_readable::<T, Ctx>(ctx),
        stop matches Stop::Count(n) ==> n > 0,
        stop_progress::<T, Ctx, P>(ctx, stop),
        stop matches Stop::Until(p) ==> forall|x: &T| #[trigger] call_requires(p, (x,)),
    ensures
        collection_read(*old(reader), *final(reader), ctx, stop, r),
        count_fits(*final(reader)),
        final(reader).source().data() == old(reader).source().data(),
        final(reader).read_count() >= old(reader).read_count(),
{
    let mut result: Vec<T> = match capacity {
        Some(c) => Vec::with_capacity(c),
        None => Vec::new(),
    };
    let start_bits = reader.bits_read();
    let mut count: usize = match stop {
        Stop::Count(n) => n,
        _ => 0,
    };
    let ghost before = *reader;
    let ghost mut states: Seq<Reader> = seq![*reader];
    let ghost mut stops: Seq<bool> = Seq::empty();
    assert(before.read_count() == start_bits);
    loop
        invariant
            count_fits(*reader),
            always_readable::<T, Ctx>(ctx),
            stop matches Stop::Count(n) ==> n > 0 && count + result@.len() == n && count > 0,
            stop_progress::<T, Ctx, P>(ctx, stop),
            stop matches Stop::Until(p) ==> forall|x: &T| #[trigger] call_requires(p, (x,)),
            before == *old(reader),
            start_bits == before.read_count(),
            read_chain(states, ctx, result@),
            states[0] == before,
            states.last() == *reader,
            stops.len() == result@.len(),
            stops_as(stop, before, states, result@, stops),
            forall|i: int| 0 <= i < result@.len() ==> !#[trigger] stops[i],
            reader.source().data() == before.source().data(),
            reader.read_count() >= before.read_count(),
        decreases
            (match stop {
                Stop::Count(_) => count as int,
                _ => available_bits(*reader),
            }),
    {
        let ghost at = *reader;
        let item = T::from_reader_with_ctx(reader, ctx);
        let item = match item {
            Ok(v) => v,
            Err(e) => {
                assert(items_read(before, *reader, ctx, stop, states, result@, stops, Err(e)));
                return Err(e);
            },
        };
        let stop_now = match &stop {
            Stop::Count(_) => {
                count = count - 1;
                count == 0
            },
            Stop::Until(predicate) => predicate(&item),
            Stop::Bits(bit_size) => reader.bits_read() - start_bits == *bit_size,
        };
        let ghost prev_items = result@;
        result.push(item);
        proof {
            states = states.push(*reader);
            stops = stops.push(stop_now);
            assert(result@ == prev_items.push(item));
            assert forall|i: int| 0 <= i < result@.len() implies #[trigger] T::reads(
                states[i],
                states[i + 1],
                ctx,
                Ok(result@[i]),
            ) by {
                if i < prev_items.len() {
                    assert(T::reads(states[i], states[i + 1], ctx, Ok(prev_items[i])));
                }
            }
            assert forall|i: int| 0 <= i < stops.len() implies match stop {
                Stop::Count(n) => #[trigger] stops[i] == (i + 1 == n),
                Stop::Until(p) => call_ensures(p, (&result@[i],), stops[i]),
                Stop::Bits(b) => stops[i] == (states[i + 1].read_count() - before.read_count() == b),
            } by {
                if i < prev_items.len() {
                    assert(stops[i] == stops.drop_last()[i]);
                }
            }
        }
        if stop_now {
            assert(items_read(before, *reader, ctx, stop, states, result@, stops, Ok(result)));
            return Ok(result);
        }
    }
}

/// Reading items with `ctx` from `before` to the end of the input, leaving
/// `after`, gives `r`: before each item a check finds the end not reached
/// (`mids` are the states after the checks); then either a last check finds
/// the end and the items are the result, or a read after a check fails.
pub open spec fn items_read_to_end<T: DekuReader<Ctx>, Ctx>(
    before: Reader,
    after: Reader,
    ctx: Ctx,
    states: Seq<Reader>,
    mids: Seq<Reader>,
    items: Seq<T>,
    r: Result<Vec<T>, DekuError>,
) -> bool {
    &&& states.len() == items.len() + 1
    &&& mids.len() == items.len() + 1
    &&& states[0] == before
    &&& forall|i: int|
        0 <= i < items.len() ==> end_checked(states[i], #[trigger] mids[i], false) && T::reads(
            mids[i],
            states[i + 1],
            ctx,
            Ok(items[i]),
        )
    &&& match r {
        Ok(v) => v@ == items && end_checked(states.last(), after, true),
        Err(e) => end_checked(states.last(), mids.last(), false) && T::reads(
            mids.last(),
            after,
            ctx,
            Err(e),
        ),
    }
}

/// Reading to the end, as [`items_read_to_end`] says for some states.
pub open spec fn collection_read_to_end<T: DekuReader<Ctx>, Ctx>(
    before: Reader,
    after: Reader,
    ctx: Ctx,
    r: Result<Vec<T>, DekuError>,
) -> bool {
    exists|states: Seq<Reader>, mids: Seq<Reader>, items: Seq<T>|
        #[trigger] items_read_to_end(before, after, ctx, states, mids, items, r)
}

/// Read items with `ctx` until the end of the input.
pub fn read_collection_to_end<T: DekuReader<Ctx>, Ctx: Copy>(
    reader: &mut Reader,
    capacity: Option<usize>,
    ctx: Ctx,
) -> (r: Result<Vec<T>, DekuError>)
    requires
        count_fits(*old(reader)),
        always_readable::<T, Ctx>(ctx),
        reads_progress::<T, Ctx>(ctx),
    ensures
        collection_read_to_end(*old(reader), *final(reader), ctx, r),
        count_fits(*final(reader)),
        final(reader).source().data() == old(reader).source().data(),
        final(reader).read_count() >= old(reader).read_count(),
{
    let mut result: Vec<T> = match capacity {
        Some(c) => Vec::with_capacity(c),
        None => Vec::new(),
    };
    let ghost before = *reader;
    let ghost mut states: Seq<Reader> = seq![*reader];
    let ghost mut mids: Seq<Reader> = Seq::empty();
    loop
        invariant
            count_fits(*reader),
            always_readable::<T, Ctx>(ctx),
            reads_progress::<T, Ctx>(ctx),
            before == *old(reader),
            states.len() == result@.len() + 1,
            mids.len() == result@.len(),
            states[0] == before,
            states.last() == *reader,
            forall|i: int|
                0 <= i < result@.len() ==> end_checked(states[i], #[trigger] mids[i], false)
                    && T::reads(mids[i], states[i + 1], ctx, Ok(result@[i])),
            reader.source().data() == before.source().data(),
            reader.read_count() >= before.read_count(),
        decreases available_bits(*reader),
    {
        let ghost at = *reader;
        let at_end = reader.end();
        proof {
            lemma_end_checked_fits(at, *reader, at_end);
        }
        if at_end {
            assert(items_read_to_end(before, *reader, ctx, states, mids.push(*reader), result@, Ok(result)));
            return Ok(result);
        }
        let ghost mid = *reader;
        let item = T::from_reader_with_ctx(reader, ctx);
        let item = match item {
            Ok(v) => v,
            Err(e) => {
                assert(items_read_to_end(before, *reader, ctx, states, mids.push(mid), result@, Err(e)));
                return Err(e);
            },
        };
        let ghost prev_items = result@;
        result.push(item);
        proof {
            states = states.push(*reader);
            mids = mids.push(mid);
            assert forall|i: int| 0 <= i < result@.len() implies end_checked(
                states[i],
                #[trigger] mids[i],
                false,
            ) && T::reads(mids[i], states[i + 1], ctx, Ok(result@[i])) by {
                if i < prev_items.len() {
                    assert(end_checked(states[i], mids[i], false) && T::reads(
                        mids[i],
                        states[i + 1],
                        ctx,
                        Ok(prev_items[i]),
                    ));
                }
            }
        }
    }
}

} // verus!
