//! Reader for reader functions
use crate::bits::{
    BitSlice, BitSliceMut, BitVec, Msb0, bits_range_all, bits_range, bits_replaced, byte_bits, bytes_bits,
    lemma_bits_replaced_append, lemma_bits_replaced_empty, lemma_bits_replaced_prepend,
    lemma_bits_replaced_range, lemma_bytes_bits_push, lemma_single_byte_range,
};
use crate::bounded::BoundedBitVec;
use crate::ctx::Order;
use crate::error::{DekuError, incomplete_error, is_incomplete};
use crate::no_std_io::{Cursor, ErrorKind, SeekFrom, seek_target, unread_from};
use vstd::prelude::*;

verus! {

/// Bits or Byte stored from previous read, such as the case of id_pat
#[derive(Debug, Clone, Copy)]
pub enum Leftover {
    /// byte value
    Byte(u8),
    /// bit values
    Bits(BoundedBitVec),
}

/// The bits a leftover holds, in stream order.
pub open spec fn pending_bits(l: Option<Leftover>) -> Seq<bool> {
    match l {
        None => Seq::empty(),
        Some(Leftover::Byte(b)) => byte_bits(b),
        Some(Leftover::Bits(v)) => v@,
    }
}

/// `l` holds exactly the bits `bits`: nothing when there are none, and a run of
/// bits otherwise.
pub open spec fn leftover_holds(l: Option<Leftover>, bits: Seq<bool>) -> bool {
    if bits.len() == 0 {
        l is None
    } else {
        l matches Some(Leftover::Bits(v)) && v@ == bits
    }
}

/// The bits of the bytes of `s` taken from the last byte to the first.
pub open spec fn rev_bytes_bits(s: Seq<u8>) -> Seq<bool>
    decreases s.len(),
{
    if s.len() == 0 {
        Seq::empty()
    } else {
        rev_bytes_bits(s.drop_first()) + byte_bits(s[0])
    }
}

/// The bits of bytes `s` followed by byte `x`, taken last byte first.
pub proof fn lemma_rev_bytes_bits_push(s: Seq<u8>, x: u8)
    ensures
        rev_bytes_bits(s.push(x)) == byte_bits(x) + rev_bytes_bits(s),
    decreases s.len(),
{
    if s.len() == 0 {
        assert(s.push(x).drop_first() =~= Seq::<u8>::empty());
        assert(rev_bytes_bits(Seq::<u8>::empty()) =~= Seq::<bool>::empty());
        assert(rev_bytes_bits(s) =~= Seq::<bool>::empty());
        assert(rev_bytes_bits(s.push(x)) =~= byte_bits(x) + rev_bytes_bits(s));
    } else {
        assert(s.push(x).drop_first() =~= s.drop_first().push(x));
        lemma_rev_bytes_bits_push(s.drop_first(), x);
        assert(rev_bytes_bits(s.push(x)) =~= byte_bits(x) + rev_bytes_bits(s));
    }
}

/// Taking whole bytes last byte first keeps eight bits per byte.
pub proof fn lemma_rev_bytes_bits_len(s: Seq<u8>)
    ensures
        rev_bytes_bits(s).len() == 8 * s.len(),
    decreases s.len(),
{
    if s.len() > 0 {
        lemma_rev_bytes_bits_len(s.drop_first());
    }
}

/// A read of `n` bits yields `n` bits and leaves fewer than eight pending.
pub proof fn lemma_read_bits_out_len(p: Seq<bool>, u: Seq<u8>, n: int, order: Order)
    requires
        0 <= n,
        p.len() <= 8,
        bytes_needed(p.len() as int, n) <= u.len(),
    ensures
        read_bits_out(p, u, n, order).0.len() == n,
        n > p.len() ==> read_bits_out(p, u, n, order).1.len() < 8,
        n <= p.len() ==> read_bits_out(p, u, n, order).1.len() == p.len() - n,
        read_bits_out(p, u, n, order).1.len() + n == p.len() + 8 * bytes_needed(p.len() as int, n),
{
    if n > p.len() {
        let need = n - p.len();
        let q = need / 8;
        lemma_rev_bytes_bits_len(u.take(q));
    }
}

/// Copy bits `from..from + count` of `byte` into `dst` at `at`.
fn store_byte_bits(
    dst: &mut BitSliceMut<'_, u8, Msb0>,
    at: usize,
    byte: u8,
    from: usize,
    count: usize,
)
    requires
        old(dst).wf(),
        from + count <= 8,
        at + count <= old(dst).len,
    ensures
        final(dst).offset == old(dst).offset,
        final(dst).len == old(dst).len,
        final(dst).wf(),
        bits_replaced(
            old(dst).bytes@,
            final(dst).bytes@,
            old(dst).offset + at,
            byte_bits(byte).subrange(from as int, from + count),
        ),
        final(final(dst).bytes)@ == final(old(dst).bytes)@,
{
    let arr: [u8; 1] = [byte];
    let s: &[u8] = arr.as_slice();
    assert(s@ =~= seq![byte]);
    let src = BitSlice::<u8, Msb0>::from_parts(s, from, count);
    proof {
        lemma_single_byte_range(byte, from as int, count as int);
    }
    dst.copy_from_bitslice_at(at, &src);
}

/// Bytes that must be read to serve `n` bits when `p` bits are pending.
pub open spec fn bytes_needed(p: int, n: int) -> int {
    if n <= p {
        0
    } else {
        (n - p + 7) / 8
    }
}

/// What a read of `n` bits in `order` yields, with pending bits `p` and then
/// the bytes `u` in the stream: the bits read, and the bits left pending.
///
/// `Msb0` takes bits in stream order. `Lsb0` takes the pending bits last and,
/// from each new byte, bits from its least significant end: whole bytes go in
/// from the back when `n` is not a multiple of eight and from the front when it
/// is, and a partial byte gives up its low bits and keeps its high bits pending.
pub open spec fn read_bits_out(p: Seq<bool>, u: Seq<u8>, n: int, order: Order) -> (
    Seq<bool>,
    Seq<bool>,
) {
    if n <= p.len() {
        match order {
            Order::Msb0 => (p.take(n), p.skip(n)),
            Order::Lsb0 => (p.skip(p.len() - n), p.take(p.len() - n)),
        }
    } else {
        let need = n - p.len();
        let q = need / 8;
        let r = need % 8;
        match order {
            Order::Msb0 => {
                let stream = p + bytes_bits(u.take((need + 7) / 8));
                (stream.take(n), stream.skip(n))
            },
            Order::Lsb0 => {
                let tail = if r > 0 {
                    byte_bits(u[q]).skip(8 - r)
                } else {
                    Seq::empty()
                };
                let rest = if r > 0 {
                    byte_bits(u[q]).take(8 - r)
                } else {
                    Seq::empty()
                };
                let front = if n % 8 != 0 {
                    tail + rev_bytes_bits(u.take(q))
                } else {
                    bytes_bits(u.take(q)) + tail
                };
                (front + p, rest)
            },
        }
    }
}

/// The effect on the reader of reading `n` bits in `order` from `before`,
/// leaving `after`, with result `r`.
///
/// A read of no bits does nothing. A read the pending bits and the stream can
/// serve takes the bits [`read_bits_out`] says, reads the bytes it needs and
/// counts `n` bits as read. Otherwise it fails asking for `n` bits, with
/// nothing left pending and the stream used up.
pub open spec fn bits_read_state(
    before: Reader,
    after: Reader,
    n: int,
    order: Order,
    r: Result<(), DekuError>,
) -> bool {
    let p = pending_bits(before.pending());
    let u = before.unread();
    let k = bytes_needed(p.len() as int, n);
    let res = read_bits_out(p, u, n, order);
    &&& after.source().data() == before.source().data()
    &&& if n == 0 {
        &&& r is Ok
        &&& after.pending() == before.pending()
        &&& after.source().pos() == before.source().pos()
        &&& after.read_count() == before.read_count()
    } else if k <= u.len() {
        &&& r is Ok
        &&& leftover_holds(after.pending(), res.1)
        &&& after.source().pos() == before.source().pos() + k
        &&& after.read_count() == before.read_count() + n
    } else {
        &&& r matches Err(e) && is_incomplete(e, n)
        &&& after.pending() is None
        &&& after.unread().len() == 0
        &&& after.read_count() == before.read_count()
    }
}

/// The effect of reading `n` bits in `order` from `before`, leaving `after`,
/// into the bits from `off` on of a buffer that goes from `dst_before` to
/// `dst_after`, with result `r`: the reader changes as [`bits_read_state`]
/// says, and on success the bits read replace those from `off` on.
pub open spec fn bits_read_into(
    before: Reader,
    after: Reader,
    dst_before: Seq<u8>,
    dst_after: Seq<u8>,
    off: int,
    n: int,
    order: Order,
    r: Result<(), DekuError>,
) -> bool {
    let p = pending_bits(before.pending());
    let u = before.unread();
    let k = bytes_needed(p.len() as int, n);
    let res = read_bits_out(p, u, n, order);
    &&& bits_read_state(before, after, n, order, r)
    &&& dst_after.len() == dst_before.len()
    &&& n == 0 ==> dst_after == dst_before
    &&& n != 0 && k <= u.len() ==> {
        &&& bits_replaced(dst_before, dst_after, off, res.0)
        &&& bits_range(dst_after, off, n) == res.0
    }
}

/// The effect of reading `amt` bytes from `before`, leaving `after`, into a
/// buffer that goes from `buf_before` to `buf_after`, with result `r`.
///
/// With nothing pending the bytes come straight from the stream; a pending
/// whole byte comes first; pending bits make it a read of `8 * amt` bits.
pub open spec fn bytes_read(
    before: Reader,
    after: Reader,
    buf_before: Seq<u8>,
    buf_after: Seq<u8>,
    amt: int,
    order: Order,
    r: Result<(), DekuError>,
) -> bool {
    let u = before.unread();
    &&& after.source().data() == before.source().data()
    &&& buf_after.len() == buf_before.len()
    &&& match before.pending() {
        None => if amt <= u.len() {
            &&& r is Ok
            &&& buf_after == u.take(amt) + buf_before.skip(amt)
            &&& after.pending() is None
            &&& after.source().pos() == before.source().pos() + amt
            &&& after.read_count() == before.read_count() + 8 * amt
        } else {
            &&& r matches Err(e) && is_incomplete(e, 8 * amt)
            &&& buf_after == buf_before
            &&& after.pending() is None
            &&& after.source().pos() == before.source().data().len()
            &&& after.read_count() == before.read_count()
        },
        Some(Leftover::Byte(b)) => if amt - 1 <= u.len() {
            &&& r is Ok
            &&& buf_after == seq![b] + u.take(amt - 1) + buf_before.skip(amt)
            &&& after.pending() is None
            &&& after.source().pos() == before.source().pos() + amt - 1
            &&& after.read_count() == before.read_count() + 8 * amt
        } else {
            &&& r matches Err(e) && is_incomplete(e, 8 * (amt - 1))
            &&& buf_after == buf_before.update(0, b)
            &&& after.pending() is None
            &&& after.source().pos() == before.source().data().len()
            &&& after.read_count() == before.read_count()
        },
        Some(Leftover::Bits(_)) => bits_read_into(
            before,
            after,
            buf_before,
            buf_after,
            0,
            8 * amt,
            order,
            r,
        ),
    }
}

/// `r` with its success value dropped.
pub open spec fn unit_result<T>(r: Result<T, DekuError>) -> Result<(), DekuError> {
    match r {
        Ok(_) => Ok(()),
        Err(e) => Err(e),
    }
}

/// The count of bits read after seeking to `pos` with `count` counted: a seek
/// from the start to a position past it counts the bits before that position,
/// and a seek forward from the current position counts the bits passed over.
pub open spec fn seek_count(count: int, pos: SeekFrom) -> int {
    match pos {
        SeekFrom::Start(n) => if n > 0 {
            8 * n
        } else {
            count
        },
        SeekFrom::End(_) => count,
        SeekFrom::Current(n) => if n > 0 {
            count + 8 * n
        } else {
            count
        },
    }
}

/// The smaller of `a` and `b`.
pub open spec fn least(a: int, b: int) -> int {
    if a < b {
        a
    } else {
        b
    }
}

/// One way a skip of `amt` bits in `order` goes from `before` to `after`
/// through `m1` and `m2`, with result `r`: pending bits serve up to `amt % 8`
/// of the bits first (`m1`); the stream then moves on by `amt / 8` whole bytes,
/// which drops anything still pending (`m2`); then the remaining bits of
/// `amt % 8` are read.
pub open spec fn skipped_via(
    before: Reader,
    m1: Reader,
    m2: Reader,
    after: Reader,
    amt: int,
    order: Order,
    r: Result<(), DekuError>,
) -> bool {
    let first = match before.pending() {
        Some(Leftover::Bits(v)) => least(amt % 8, v@.len() as int),
        _ => 0,
    };
    let bytes = amt / 8;
    &&& bits_read_state(before, m1, first, order, Ok(()))
    &&& if bytes == 0 {
        &&& m2 == m1
        &&& bits_read_state(m2, after, amt % 8 - first, order, r)
    } else {
        &&& m2.pending() is None
        &&& m2.read_count() == m1.read_count() + 8 * bytes
        &&& m2.source().data() == m1.source().data()
        &&& match seek_target(
            m1.source().data().len() as int,
            m1.source().pos() as int,
            SeekFrom::Current(bytes as i64),
        ) {
            Some(t) => {
                &&& m2.source().pos() == t
                &&& bits_read_state(m2, after, amt % 8 - first, order, r)
            },
            None => {
                &&& m2.source().pos() == m1.source().pos()
                &&& after == m2
                &&& r == Err::<(), DekuError>(DekuError::Io(ErrorKind::InvalidInput))
            },
        }
    }
}

/// The effect of skipping `amt` bits in `order` from `before`, leaving
/// `after`, with result `r`, as [`skipped_via`] says.
pub open spec fn bits_skipped(
    before: Reader,
    after: Reader,
    amt: int,
    order: Order,
    r: Result<(), DekuError>,
) -> bool {
    exists|m1: Reader, m2: Reader| #[trigger] skipped_via(before, m1, m2, after, amt, order, r)
}

/// The bits a reader can still serve: those pending and those of the unread
/// bytes.
pub open spec fn available_bits(r: Reader) -> int {
    (pending_bits(r.pending()).len() + 8 * r.unread().len()) as int
}

/// The count of bits read stays within a `usize` however much is read.
pub open spec fn count_fits(r: Reader) -> bool {
    r.read_count() + available_bits(r) <= usize::MAX
}

/// The effect on the reader of reading `amt` bytes in `order` from `before`,
/// leaving `after`, with result `r`, as [`bytes_read`] says.
pub open spec fn bytes_read_state(
    before: Reader,
    after: Reader,
    amt: int,
    order: Order,
    r: Result<(), DekuError>,
) -> bool {
    let u = before.unread();
    &&& after.source().data() == before.source().data()
    &&& match before.pending() {
        None => if amt <= u.len() {
            &&& r is Ok
            &&& after.pending() is None
            &&& after.source().pos() == before.source().pos() + amt
            &&& after.read_count() == before.read_count() + 8 * amt
        } else {
            &&& r matches Err(e) && is_incomplete(e, 8 * amt)
            &&& after.pending() is None
            &&& after.source().pos() == before.source().data().len()
            &&& after.read_count() == before.read_count()
        },
        Some(Leftover::Byte(b)) => if amt - 1 <= u.len() {
            &&& r is Ok
            &&& after.pending() is None
            &&& after.source().pos() == before.source().pos() + amt - 1
            &&& after.read_count() == before.read_count() + 8 * amt
        } else {
            &&& r matches Err(e) && is_incomplete(e, 8 * (amt - 1))
            &&& after.pending() is None
            &&& after.source().pos() == before.source().data().len()
            &&& after.read_count() == before.read_count()
        },
        Some(Leftover::Bits(_)) => bits_read_state(before, after, 8 * amt, order, r),
    }
}

/// The bytes a successful read of `amt` bytes in `order` from `before` yields.
pub open spec fn bytes_read_value(before: Reader, amt: int, order: Order) -> Seq<u8> {
    let u = before.unread();
    match before.pending() {
        None => u.take(amt),
        Some(Leftover::Byte(b)) => seq![b] + u.take(amt - 1),
        Some(Leftover::Bits(v)) => crate::writer::pack_bytes(read_bits_out(v@, u, 8 * amt, order).0),
    }
}

/// A read of bytes changes the reader as [`bytes_read_state`] says, and on
/// success its first `amt` bytes are [`bytes_read_value`].
pub proof fn lemma_bytes_read(
    before: Reader,
    after: Reader,
    b0: Seq<u8>,
    b1: Seq<u8>,
    amt: int,
    order: Order,
    r: Result<(), DekuError>,
)
    requires
        bytes_read(before, after, b0, b1, amt, order, r),
        0 <= amt <= b0.len(),
        before.pending() matches Some(Leftover::Byte(_)) ==> amt >= 1,
    ensures
        bytes_read_state(before, after, amt, order, r),
        r is Ok ==> b1.take(amt) == bytes_read_value(before, amt, order),
{
    let u = before.unread();
    match before.pending() {
        None => {
            if r is Ok {
                assert(b1.take(amt) =~= u.take(amt));
            }
        },
        Some(Leftover::Byte(b)) => {
            if r is Ok {
                assert(b1.take(amt) =~= seq![b] + u.take(amt - 1));
            }
        },
        Some(Leftover::Bits(v)) => {
            if r is Ok {
                let res = read_bits_out(v@, u, 8 * amt, order);
                BoundedBitVec::lemma_len(v);
                lemma_read_bits_out_len(v@, u, 8 * amt, order);
                if amt == 0 {
                    assert(b1.take(0) =~= Seq::<u8>::empty());
                    assert(res.0 =~= Seq::<bool>::empty());
                    crate::writer::lemma_pack_bytes(res.0);
                    assert(crate::writer::pack_bytes(res.0) =~= Seq::<u8>::empty());
                } else {
                    assert(bits_range(b1, 0, 8 * amt) =~= crate::bits::bytes_bits(b1.take(amt)));
                    lemma_pack_bytes_bits(b1.take(amt));
                }
            }
        },
    }
}

/// Packing the bits of bytes gives the bytes back.
pub proof fn lemma_pack_bytes_bits(b: Seq<u8>)
    ensures
        crate::writer::pack_bytes(crate::bits::bytes_bits(b)) == b,
    decreases b.len(),
{
    let s = crate::bits::bytes_bits(b);
    if b.len() == 0 {
        assert(crate::writer::pack_bytes(s) =~= b);
    } else {
        crate::writer::lemma_bytes_bits_prepend(b[0], b.drop_first());
        assert(b =~= seq![b[0]] + b.drop_first());
        assert(s.take(8) =~= byte_bits(b[0]));
        assert(s.skip(8) =~= crate::bits::bytes_bits(b.drop_first()));
        crate::bits::lemma_byte_bits_packed(b[0]);
        lemma_pack_bytes_bits(b.drop_first());
        assert(crate::writer::pack_bytes(s) =~= b);
    }
}

/// A leftover holds at most eight bits.
pub proof fn lemma_pending_len(l: Option<Leftover>)
    ensures
        pending_bits(l).len() <= 8,
{
    if let Some(Leftover::Bits(v)) = l {
        BoundedBitVec::lemma_len(v);
    }
}

/// A read of bits keeps the count of bits read within a `usize`.
pub proof fn lemma_bits_read_fits(
    before: Reader,
    after: Reader,
    n: int,
    order: Order,
    r: Result<(), DekuError>,
)
    requires
        bits_read_state(before, after, n, order, r),
        count_fits(before),
        0 <= n,
    ensures
        count_fits(after),
{
    lemma_pending_len(before.pending());
    let p = pending_bits(before.pending());
    let u = before.unread();
    let k = bytes_needed(p.len() as int, n);
    before.source().lemma_bounds();
    if n != 0 && k <= u.len() {
        lemma_read_bits_out_len(p, u, n, order);
        let d = before.source().data();
        let pos = before.source().pos() as int;
        assert(after.unread().len() == u.len() - k) by {
            if pos + k < d.len() {
            } else {
            }
        }
    }
}

/// A read of bytes keeps the count of bits read within a `usize`.
pub proof fn lemma_bytes_read_fits(
    before: Reader,
    after: Reader,
    amt: int,
    order: Order,
    r: Result<(), DekuError>,
)
    requires
        bytes_read_state(before, after, amt, order, r),
        count_fits(before),
        0 <= amt,
    ensures
        count_fits(after),
{
    match before.pending() {
        Some(Leftover::Bits(_)) => {
            lemma_bits_read_fits(before, after, 8 * amt, order, r);
        },
        _ => {
            before.source().lemma_bounds();
        },
    }
}

/// Checking for the end from `before`, leaving `after`, answers `at_end`:
/// the end is reached when nothing is pending and the stream has no byte
/// left. A byte read to find out stays pending and is not counted.
pub open spec fn end_checked(before: Reader, after: Reader, at_end: bool) -> bool {
    &&& after.source().data() == before.source().data()
    &&& after.read_count() == before.read_count()
    &&& at_end == (before.pending() is None && before.unread().len() == 0)
    &&& before.pending() is Some ==> {
        &&& after.pending() == before.pending()
        &&& after.source().pos() == before.source().pos()
    }
    &&& before.pending() is None ==> if before.unread().len() > 0 {
        &&& after.pending() == Some(Leftover::Byte(before.unread()[0]))
        &&& after.source().pos() == before.source().pos() + 1
    } else {
        &&& after.pending() is None
        &&& after.source().pos() == before.source().data().len()
    }
}

/// Checking for the end keeps the count of bits read within a `usize`, and
/// the bits available the same.
pub proof fn lemma_end_checked_fits(before: Reader, after: Reader, at_end: bool)
    requires
        end_checked(before, after, at_end),
    ensures
        available_bits(after) == available_bits(before),
        count_fits(before) ==> count_fits(after),
{
    before.source().lemma_bounds();
    if before.pending() is None && before.unread().len() > 0 {
        let d = before.source().data();
        let p = before.source().pos() as int;
        assert(after.unread() =~= before.unread().skip(1));
    }
}

/// What a read of `amt` bytes that succeeded returns, once `buf` holds the
/// bytes: read while byte aligned (with nothing pending, or a whole pending
/// byte) they are `Bytes`; read with pending bits they are `Bits`, the
/// `8 * amt` bits that `buf` now starts with.
pub open spec fn ret_holds(
    pending: Option<Leftover>,
    buf: Seq<u8>,
    amt: int,
    r: Result<ReaderRet, DekuError>,
) -> bool {
    r is Ok ==> match pending {
        Some(Leftover::Bits(_)) => r matches Ok(ReaderRet::Bits(Some(v))) && v.wf() && v@
            == bits_range(buf, 0, 8 * amt),
        _ => r matches Ok(ReaderRet::Bytes),
    }
}

/// The first `8 * amt` bits of `buf`, as a bit vector.
fn leading_bits(buf: &[u8], amt: usize) -> (r: BitVec<u8, Msb0>)
    requires
        amt <= buf@.len(),
        8 * amt <= usize::MAX,
    ensures
        r.wf(),
        r@ == bits_range(buf@, 0, 8 * amt),
{
    let view = BitSlice::<u8, Msb0>::from_slice(buf);
    let part = view.subslice(0, amt * 8);
    let mut v = BitVec::<u8, Msb0>::new();
    v.extend_from_bitslice(&part);
    assert(v@ =~= bits_range(buf@, 0, 8 * amt));
    v
}

/// Reading `amt` bits in `order` from `before`, leaving `after`, gives `r`.
///
/// No bits read is an empty vector and no change. When the pending bits and
/// the stream can serve the read, the bits are those [`read_bits_out`] says,
/// the bytes needed are read, the rest is left pending and `amt` bits are
/// counted. Otherwise the read fails asking for `amt` bits, with nothing left
/// pending and the stream used up.
pub open spec fn bits_read_result(
    before: Reader,
    after: Reader,
    amt: int,
    order: Order,
    r: Result<Option<BitVec<u8, Msb0>>, DekuError>,
) -> bool {
    let p = pending_bits(before.pending());
    let u = before.unread();
    let k = bytes_needed(p.len() as int, amt);
    let res = read_bits_out(p, u, amt, order);
    &&& after.source().data() == before.source().data()
    &&& if amt == 0 {
        &&& r matches Ok(Some(v)) && v.wf() && v@ == Seq::<bool>::empty()
        &&& after.pending() == before.pending()
        &&& after.source().pos() == before.source().pos()
        &&& after.read_count() == before.read_count()
    } else if k <= u.len() {
        &&& r matches Ok(Some(v)) && v.wf() && v@ == res.0
        &&& leftover_holds(after.pending(), res.1)
        &&& after.source().pos() == before.source().pos() + k
        &&& after.read_count() == before.read_count() + amt
    } else {
        &&& r matches Err(e) && is_incomplete(e, amt)
        &&& after.pending() is None
        &&& after.unread().len() == 0
        &&& after.read_count() == before.read_count()
    }
}

/// Return from `read_bytes`
pub enum ReaderRet {
    /// Successfully read bytes
    Bytes,
    /// Successfully read bits
    Bits(Option<BitVec<u8, Msb0>>),
}

/// Reader to use with `from_reader_with_ctx`
pub struct Reader {
    inner: Cursor,
    /// bits stored from previous reads that didn't read to the end of a byte size
    pub leftover: Option<Leftover>,
    /// Amount of bits read during the use of [read_bits](Reader::read_bits) and [read_bytes](Reader::read_bytes)
    pub bits_read: usize,
}

impl Reader {
    /// The stream the reader reads from.
    pub closed spec fn source(&self) -> Cursor {
        self.inner
    }

    /// The leftover from earlier reads.
    pub closed spec fn pending(&self) -> Option<Leftover> {
        self.leftover
    }

    /// The count of bits read.
    pub closed spec fn read_count(&self) -> usize {
        self.bits_read
    }

    /// The bytes not yet read from the stream.
    pub open spec fn unread(&self) -> Seq<u8> {
        self.source().unread()
    }

    /// Create a new `Reader`
    pub fn new(inner: Cursor) -> (r: Self)
        ensures
            r.source() == inner,
            r.pending() is None,
            r.read_count() == 0,
    {
        Self { inner, leftover: None, bits_read: 0 }
    }

    /// A reader over `inner` with `leftover` pending from earlier reads and
    /// `bits_read` bits counted, as if earlier reads had left it so.
    pub fn with_leftover(inner: Cursor, leftover: Option<Leftover>, bits_read: usize) -> (r: Self)
        ensures
            r.source() == inner,
            r.pending() == leftover,
            r.read_count() == bits_read,
    {
        Self { inner, leftover, bits_read }
    }

    /// Consume self, returning inner Reader
    pub fn into_inner(self) -> (r: Cursor)
        ensures
            r == self.source(),
    {
        self.inner
    }

    /// The count of bits read.
    pub fn bits_read(&self) -> (r: usize)
        ensures
            r == self.read_count(),
    {
        self.bits_read
    }

    /// Borrow the stream the reader reads from.
    pub fn as_mut(&mut self) -> (r: &mut Cursor)
        ensures
            *r == old(self).source(),
            final(self).source() == *final(r),
            final(self).pending() == old(self).pending(),
            final(self).read_count() == old(self).read_count(),
    {
        &mut self.inner
    }

    /// Return the unused bits
    ///
    /// Once the parsing is complete for a struct, if the total size of the field using the `bits` attribute
    /// isn't byte aligned the returned values could be unexpected as the "Read" will always read
    /// to a full byte.
    pub fn rest(&mut self) -> (r: Vec<bool>)
        ensures
            *final(self) == *old(self),
            r@ == pending_bits(old(self).pending()),
    {
        let mut out: Vec<bool> = Vec::new();
        match self.leftover {
            Some(Leftover::Bits(bits)) => {
                let view = bits.as_bitslice();
                push_all_bits(&mut out, &view);
                assert(out@ =~= bits@);
            },
            Some(Leftover::Byte(byte)) => {
                let one: [u8; 1] = [byte];
                let bytes: &[u8] = one.as_slice();
                let view = BitSlice::<u8, Msb0>::from_slice(bytes);
                push_all_bits(&mut out, &view);
                proof {
                    assert(bytes@ =~= seq![byte]);
                    bits_range_all(seq![byte]);
                    assert(out@ =~= byte_bits(byte));
                }
            },
            None => {
                assert(out@ =~= Seq::<bool>::empty());
            },
        }
        out
    }

    /// Return true if we are at the end of a reader and there are no cached bits in the reader.
    /// This reads one byte, which is kept pending and not counted in `bits_read`, when nothing is
    /// pending and the stream is not at its end.
    pub fn end(&mut self) -> (r: bool)
        ensures
            end_checked(*old(self), *final(self), r),
    {
        if self.leftover.is_some() {
            false
        } else {
            let mut buf: [u8; 1] = [0u8];
            if let Err(e) = self.read_one(&mut buf) {
                if e == ErrorKind::UnexpectedEof {
                    return true;
                }
            }
            self.leftover = Some(Leftover::Byte(buf[0]));
            false
        }
    }

    /// Move the stream position as `pos` says.
    ///
    /// Anything pending is dropped. Seeking from the start to a later position
    /// counts the bits before it as read; seeking forward from the current
    /// position counts the bits passed over.
    pub fn seek(&mut self, pos: SeekFrom) -> (r: Result<u64, ErrorKind>)
        requires
            pos matches SeekFrom::Start(n) ==> 8 * n <= usize::MAX,
            pos matches SeekFrom::Current(n) ==> (n > 0 ==> {
                &&& 8 * n <= i64::MAX
                &&& 8 * n <= usize::MAX
                &&& old(self).read_count() + 8 * n <= usize::MAX
            }),
        ensures
            final(self).pending() is None,
            final(self).read_count() == seek_count(old(self).read_count() as int, pos),
            final(self).source().data() == old(self).source().data(),
            match seek_target(
                old(self).source().data().len() as int,
                old(self).source().pos() as int,
                pos,
            ) {
                Some(t) => r == Ok::<u64, ErrorKind>(t) && final(self).source().pos() == t,
                None => r == Err::<u64, ErrorKind>(ErrorKind::InvalidInput) && final(self).source().pos() == old(self).source().pos(),
            },
    {
        self.leftover = None;
        match pos {
            SeekFrom::Start(n) => {
                if n > 0 {
                    self.bits_read = (n * 8) as usize;
                }
            },
            SeekFrom::End(_) => {},
            SeekFrom::Current(n) => {
                if n > 0 {
                    self.bits_read = self.bits_read + (n * 8) as usize;
                }
            },
        }
        self.inner.seek(pos)
    }

    /// Used at the beginning of `from_reader`.
    ///
    /// This will increment `bits_read`; its effect is as [`bits_skipped`] says.
    pub fn skip_bits(&mut self, amt: usize, order: Order) -> (r: Result<(), DekuError>)
        requires
            old(self).read_count() + amt <= usize::MAX,
            8 * (amt / 8) <= i64::MAX,
        ensures
            bits_skipped(*old(self), *final(self), amt as int, order, r),
    {
        let bytes_amt = amt / 8;
        let mut bits_amt = amt % 8;
        let ghost mut m1 = *self;
        if let Some(Leftover::Bits(bits)) = self.leftover {
            let mut buf = BitVec::<u8, Msb0>::repeat(false, 8);
            let needed = if bits_amt < bits.len() {
                bits_amt
            } else {
                bits.len()
            };
            bits_amt = bits_amt - needed;
            let mut all = buf.as_mut_bitslice();
            let mut part = all.subslice(0, needed);
            let res = self.read_bits_into(&mut part, order);
            proof {
                m1 = *self;
            }
            if let Err(e) = res {
                return Err(e);
            }
        }
        let ghost mut m2 = *self;
        if bytes_amt != 0 {
            let delta = bytes_amt as i64;
            let res = self.seek(SeekFrom::Current(delta));
            proof {
                m2 = *self;
            }
            if let Err(e) = res {
                assert(skipped_via(*old(self), m1, m2, *self, amt as int, order, Err(DekuError::Io(e))));
                return Err(DekuError::Io(e));
            }
        }
        let mut buf = BitVec::<u8, Msb0>::repeat(false, 8);
        let mut all = buf.as_mut_bitslice();
        let mut part = all.subslice(0, bits_amt);
        let res = self.read_bits_into(&mut part, order);
        assert(skipped_via(*old(self), m1, m2, *self, amt as int, order, res));
        res
    }

    /// Attempt to read bits from `Reader`. If enough bits are already "Read",
    /// we just grab enough bits to satisfy `dst.len()`, but will also "Read"
    /// more from the stream and store the leftovers if enough are not already
    /// "Read".
    ///
    /// On success `dst` holds the bits read and `self.bits_read` grows by
    /// `dst.len()`; the bits read, and those left over, are as
    /// [`read_bits_out`] says. When the stream ends first, the error asks for
    /// `dst.len()` bits, nothing is left over and the stream is used up.
    pub fn read_bits_into(&mut self, dst: &mut BitSliceMut<'_, u8, Msb0>, order: Order) -> (r:
        Result<(), DekuError>)
        requires
            old(dst).wf(),
            old(self).read_count() + least(old(dst).len as int, available_bits(*old(self))) <= usize::MAX,
        ensures
            final(dst).offset == old(dst).offset,
            final(dst).len == old(dst).len,
            final(dst).wf(),
            final(final(dst).bytes)@ == final(old(dst).bytes)@,
            bits_read_into(*old(self), *final(self), old(dst).bytes@, final(dst).bytes@, old(dst).offset as int, old(dst).len as int, order, r),
    {
        if dst.is_empty() {
            return Ok(());
        }
        let ghost p = pending_bits(self.leftover);
        let ghost u = self.unread();
        let ghost orig = dst.bytes@;
        let mut leftover: Option<Leftover> = None;
        core::mem::swap(&mut leftover, &mut self.leftover);
        let mut bits = match leftover {
            Some(Leftover::Byte(byte)) => BoundedBitVec::from_byte_array([byte]),
            Some(Leftover::Bits(bits)) => bits,
            None => BoundedBitVec::new(),
        };
        assert(bits@ == p);
        let previous_len = bits.len();
        let n = dst.len;
        let ghost res = read_bits_out(p, u, n as int, order);
        if n < previous_len {
            match order {
                Order::Lsb0 => {
                    let used = bits.split_off(previous_len - n);
                    dst.copy_from_bitslice(&used.as_bitslice());
                    self.leftover = Some(Leftover::Bits(bits));
                },
                Order::Msb0 => {
                    let used = bits.split_off(n);
                    dst.copy_from_bitslice(&bits.as_bitslice());
                    self.leftover = Some(Leftover::Bits(used));
                },
            }
        } else if n == previous_len {
            dst.copy_from_bitslice(&bits.as_bitslice());
            proof {
                assert(p.take(n as int) =~= p);
                assert(p.skip(n as int) =~= Seq::<bool>::empty());
                assert(p.skip(0) =~= p);
                assert(p.take(0) =~= Seq::<bool>::empty());
            }
        } else {
            let result = match order {
                Order::Lsb0 => self.read_bits_lsb_more(dst, &bits),
                Order::Msb0 => self.read_bits_msb_more(dst, &bits),
            };
            if let Err(e) = result {
                return Err(e);
            }
        }
        proof {
            lemma_read_bits_out_len(p, u, n as int, order);
            lemma_bits_replaced_range(orig, dst.bytes@, dst.offset as int, n as int, 0, res.0);
            assert(bits_range(orig, dst.offset as int, n as int).take(0) + res.0 + bits_range(
                orig,
                dst.offset as int,
                n as int,
            ).skip(n as int) =~= res.0);
        }
        self.bits_read = self.bits_read + n;
        Ok(())
    }

    /// Attempt to read bits from `Reader`. If enough bits are already "Read", we just grab
    /// enough bits to satisfy `amt`, but will also "Read" more from the stream and store the
    /// leftovers if enough are not already "Read".
    ///
    /// The result holds the `amt` bits that [`read_bits_out`] says.
    pub fn read_bits(&mut self, amt: usize, order: Order) -> (r: Result<
        Option<BitVec<u8, Msb0>>,
        DekuError,
    >)
        requires
            old(self).read_count() + least(amt as int, available_bits(*old(self))) <= usize::MAX,
        ensures
            bits_read_result(*old(self), *final(self), amt as int, order, r),
    {
        let mut vec = BitVec::<u8, Msb0>::repeat(false, amt);
        let ghost before = vec;
        let mut view = vec.as_mut_bitslice();
        let res = self.read_bits_into(&mut view, order);
        proof {
            assert(vec.raw_bytes() == view.bytes@);
            assert(vec@ == view@);
            if amt == 0 {
                assert(vec@ =~= Seq::<bool>::empty());
            }
        }
        match res {
            Ok(()) => Ok(Some(vec)),
            Err(e) => Err(e),
        }
    }

    /// Attempt to read bytes from `Reader`. This will return `ReaderRet::Bytes` with a valid
    /// `buf` of bytes if we have no "leftover" bytes and thus are byte aligned. If we are not byte
    /// aligned, this reads `amt * 8` bits and returns them as `ReaderRet::Bits(_)`.
    ///
    /// Either way `buf[..amt]` receives the bytes, as [`bytes_read`] says, and
    /// the result is as [`ret_holds`] says.
    pub fn read_bytes(&mut self, amt: usize, buf: &mut [u8], order: Order) -> (r: Result<
        ReaderRet,
        DekuError,
    >)
        requires
            amt <= old(buf)@.len(),
            8 * amt <= usize::MAX,
            old(self).read_count() + least(8 * amt, available_bits(*old(self))) <= usize::MAX,
            old(self).pending() matches Some(Leftover::Byte(_)) ==> amt >= 1,
        ensures
            ret_holds(old(self).pending(), final(buf)@, amt as int, r),
            bytes_read(*old(self), *final(self), old(buf)@, final(buf)@, amt as int, order, unit_result(r)),
    {
        if self.leftover.is_none() {
            if let Err(e) = self.inner.read_exact_at(buf, 0, amt) {
                if e == ErrorKind::UnexpectedEof {
                    return Err(incomplete_error(amt * 8));
                }
                return Err(DekuError::Io(e));
            }
            let bits_read = amt * 8;
            self.bits_read = self.bits_read + bits_read;
            assert(buf@ =~= old(self).unread().take(amt as int) + old(buf)@.skip(amt as int));
            return Ok(ReaderRet::Bytes);
        }
        self.read_bytes_other(amt, buf, order)
    }

    fn read_bytes_other(&mut self, amt: usize, buf: &mut [u8], order: Order) -> (r: Result<
        ReaderRet,
        DekuError,
    >)
        requires
            old(self).pending() is Some,
            amt <= old(buf)@.len(),
            8 * amt <= usize::MAX,
            old(self).read_count() + least(8 * amt, available_bits(*old(self))) <= usize::MAX,
            old(self).pending() matches Some(Leftover::Byte(_)) ==> amt >= 1,
        ensures
            ret_holds(old(self).pending(), final(buf)@, amt as int, r),
            bytes_read(*old(self), *final(self), old(buf)@, final(buf)@, amt as int, order, unit_result(r)),
    {
        match self.leftover {
            Some(Leftover::Byte(byte)) => self.read_bytes_leftover(buf, byte, amt),
            Some(Leftover::Bits(_)) => {
                let mut slice = BitSliceMut::<u8, Msb0>::from_parts(buf, 0, amt * 8);
                let res = self.read_bits_into(&mut slice, order);
                match res {
                    Ok(()) => Ok(ReaderRet::Bits(Some(leading_bits(buf, amt)))),
                    Err(e) => Err(e),
                }
            },
            None => {
                assert(false);
                Err(DekuError::AssertionNoStr)
            },
        }
    }

    fn read_bytes_leftover(&mut self, buf: &mut [u8], byte: u8, amt: usize) -> (r: Result<
        ReaderRet,
        DekuError,
    >)
        requires
            old(self).pending() == Some(Leftover::Byte(byte)),
            1 <= amt <= old(buf)@.len(),
            8 * amt <= usize::MAX,
            old(self).read_count() + least(8 * amt, available_bits(*old(self))) <= usize::MAX,
        ensures
            r is Ok ==> r matches Ok(ReaderRet::Bytes),
            bytes_read(*old(self), *final(self), old(buf)@, final(buf)@, amt as int, Order::Msb0, unit_result(r)),
    {
        buf[0] = byte;
        self.leftover = None;
        let remaining = amt - 1;
        if remaining == 0 {
            self.bits_read = self.bits_read + amt * 8;
            assert(buf@ =~= seq![byte] + old(self).unread().take(0) + old(buf)@.skip(amt as int));
            return Ok(ReaderRet::Bytes);
        }
        let buf_len = buf.len();
        if buf_len < remaining {
            return Err(incomplete_error(remaining * 8));
        }
        let ghost mid = buf@;
        if let Err(e) = self.inner.read_exact_at(buf, amt - remaining, remaining) {
            if e == ErrorKind::UnexpectedEof {
                return Err(incomplete_error(remaining * 8));
            }
            return Err(DekuError::Io(e));
        }
        self.bits_read = self.bits_read + amt * 8;
        assert(buf@ =~= seq![byte] + old(self).unread().take(amt - 1) + old(buf)@.skip(amt as int));
        Ok(ReaderRet::Bytes)
    }

    /// Attempt to read `N` bytes from `Reader` into `buf`, as [`bytes_read`] says.
    /// Byte aligned this returns `ReaderRet::Bytes`; not byte aligned it reads
    /// `N * 8` bits and returns them as `ReaderRet::Bits(_)`, as [`ret_holds`] says.
    pub fn read_bytes_const<const N: usize>(&mut self, buf: &mut [u8; N], order: Order) -> (r:
        Result<ReaderRet, DekuError>)
        requires
            8 * N <= usize::MAX,
            old(self).read_count() + least(8 * N, available_bits(*old(self))) <= usize::MAX,
            old(self).pending() matches Some(Leftover::Byte(_)) ==> N >= 1,
        ensures
            ret_holds(old(self).pending(), final(buf)@, N as int, r),
            bytes_read(*old(self), *final(self), old(buf)@, final(buf)@, N as int, order, unit_result(r)),
    {
        if self.leftover.is_none() {
            if let Err(e) = self.inner.read_exact(buf) {
                if e == ErrorKind::UnexpectedEof {
                    return Err(incomplete_error(N * 8));
                }
                return Err(DekuError::Io(e));
            }
            self.bits_read = self.bits_read + N * 8;
            assert(buf@ =~= old(self).unread().take(N as int) + old(buf)@.skip(N as int));
            return Ok(ReaderRet::Bytes);
        }
        self.read_bytes_const_other::<N>(buf, order)
    }

    fn read_bytes_const_other<const N: usize>(&mut self, buf: &mut [u8; N], order: Order) -> (r:
        Result<ReaderRet, DekuError>)
        requires
            old(self).pending() is Some,
            8 * N <= usize::MAX,
            old(self).read_count() + least(8 * N, available_bits(*old(self))) <= usize::MAX,
            old(self).pending() matches Some(Leftover::Byte(_)) ==> N >= 1,
        ensures
            ret_holds(old(self).pending(), final(buf)@, N as int, r),
            bytes_read(*old(self), *final(self), old(buf)@, final(buf)@, N as int, order, unit_result(r)),
    {
        match self.leftover {
            Some(Leftover::Byte(byte)) => {
                match self.read_bytes_const_leftover(buf, byte) {
                    Ok(()) => Ok(ReaderRet::Bytes),
                    Err(e) => Err(e),
                }
            },
            Some(Leftover::Bits(_)) => {
                let mut slice = BitSliceMut::<u8, Msb0>::from_slice(buf);
                let res = self.read_bits_into(&mut slice, order);
                match res {
                    Ok(()) => Ok(ReaderRet::Bits(Some(leading_bits(buf.as_slice(), N)))),
                    Err(e) => Err(e),
                }
            },
            None => {
                assert(false);
                Err(DekuError::AssertionNoStr)
            },
        }
    }

    /// Attempt to read bytes from `Reader` into `buf`, taking care of the case
    /// where we're not byte-aligned with respect to the data source.
    pub fn read_bytes_const_into<const N: usize>(&mut self, buf: &mut [u8; N], order: Order) -> (r:
        Result<(), DekuError>)
        requires
            8 * N <= usize::MAX,
            old(self).read_count() + least(8 * N, available_bits(*old(self))) <= usize::MAX,
            old(self).pending() matches Some(Leftover::Byte(_)) ==> N >= 1,
        ensures
            bytes_read(*old(self), *final(self), old(buf)@, final(buf)@, N as int, order, r),
    {
        if self.leftover.is_none() {
            if let Err(e) = self.inner.read_exact(buf) {
                if e == ErrorKind::UnexpectedEof {
                    return Err(incomplete_error(N * 8));
                }
                return Err(DekuError::Io(e));
            }
            self.bits_read = self.bits_read + N * 8;
            assert(buf@ =~= old(self).unread().take(N as int) + old(buf)@.skip(N as int));
            return Ok(());
        }
        match self.leftover {
            Some(Leftover::Byte(byte)) => self.read_bytes_const_leftover(buf, byte),
            Some(Leftover::Bits(_)) => {
                let mut slice = BitSliceMut::<u8, Msb0>::from_slice(buf);
                self.read_bits_into(&mut slice, order)
            },
            None => {
                assert(false);
                Err(DekuError::AssertionNoStr)
            },
        }
    }

    fn read_bytes_const_leftover<const N: usize>(&mut self, buf: &mut [u8; N], byte: u8) -> (r:
        Result<(), DekuError>)
        requires
            old(self).pending() == Some(Leftover::Byte(byte)),
            1 <= N,
            8 * N <= usize::MAX,
            old(self).read_count() + least(8 * N, available_bits(*old(self))) <= usize::MAX,
        ensures
            bytes_read(*old(self), *final(self), old(buf)@, final(buf)@, N as int, Order::Msb0, r),
    {
        buf[0] = byte;
        self.leftover = None;
        let remaining = N - 1;
        if remaining == 0 {
            self.bits_read = self.bits_read + N * 8;
            assert(buf@ =~= seq![byte] + old(self).unread().take(0) + old(buf)@.skip(N as int));
            return Ok(());
        }
        let buf_len = buf.len();
        if buf_len < remaining {
            return Err(incomplete_error(remaining * 8));
        }
        if let Err(e) = self.inner.read_exact_at(buf, N - remaining, remaining) {
            if e == ErrorKind::UnexpectedEof {
                return Err(incomplete_error(remaining * 8));
            }
            return Err(DekuError::Io(e));
        }
        self.bits_read = self.bits_read + N * 8;
        assert(buf@ =~= seq![byte] + old(self).unread().take(N - 1) + old(buf)@.skip(N as int));
        Ok(())
    }

    /// The `Lsb0` read of more bits than are pending.
    fn read_bits_lsb_more(
        &mut self,
        dst: &mut BitSliceMut<'_, u8, Msb0>,
        bits: &BoundedBitVec,
    ) -> (r: Result<(), DekuError>)
        requires
            old(self).pending() is None,
            old(dst).wf(),
            bits@.len() < old(dst).len,
        ensures
            final(dst).offset == old(dst).offset,
            final(dst).len == old(dst).len,
            final(dst).wf(),
            final(dst).bytes@.len() == old(dst).bytes@.len(),
            final(final(dst).bytes)@ == final(old(dst).bytes)@,
            final(self).source().data() == old(self).source().data(),
            final(self).read_count() == old(self).read_count(),
            ({
                let p = bits@;
                let u = old(self).unread();
                let n = old(dst).len as int;
                let k = bytes_needed(p.len() as int, n);
                let res = read_bits_out(p, u, n, Order::Lsb0);
                if k <= u.len() {
                    &&& r is Ok
                    &&& bits_replaced(old(dst).bytes@, final(dst).bytes@, old(dst).offset as int, res.0)
                    &&& leftover_holds(final(self).pending(), res.1)
                    &&& final(self).source().pos() == old(self).source().pos() + k
                } else {
                    &&& r matches Err(e) && is_incomplete(e, n)
                    &&& final(self).pending() is None
                    &&& final(self).unread().len() == 0
                }
            }),
    {
        let n = dst.len;
        let prev = bits.len();
        let need = n - prev;
        let q = need / 8;
        let rem = need % 8;
        let ghost u = self.unread();
        let ghost pos0 = self.source().pos();
        let ghost orig = dst.bytes@;
        let ghost off = dst.offset as int;
        let ghost k = bytes_needed(prev as int, n as int);
        assert(k == q + if rem > 0 { 1int } else { 0int });
        proof {
            lemma_bits_replaced_empty(orig, off + need);
            lemma_bits_replaced_empty(orig, off);
        }
        // Whole bytes fill `dst[..need]`, from its back when `n` is not a
        // multiple of eight and from its front when it is.
        let backward = n % 8 != 0;
        let mut j: usize = 0;
        while j < q
            invariant
                j <= q,
                q == need / 8,
                rem == need % 8,
                need == n - prev,
                prev == bits@.len(),
                u == old(self).unread(),
                k == bytes_needed(prev as int, n as int),
                k == q + if rem > 0 { 1int } else { 0int },
                n == dst.len,
                dst.wf(),
                dst.offset == old(dst).offset,
                dst.len == old(dst).len,
                final(dst.bytes)@ == final(old(dst).bytes)@,
                off == dst.offset,
                orig == old(dst).bytes@,
                self.pending() is None,
                self.read_count() == old(self).read_count(),
                self.source().data() == old(self).source().data(),
                self.source().pos() == pos0 + j,
                j <= u.len(),
                self.unread() == u.skip(j as int),
                backward ==> bits_replaced(orig, dst.bytes@, off + need - 8 * j, rev_bytes_bits(u.take(j as int))),
                !backward ==> bits_replaced(orig, dst.bytes@, off, bytes_bits(u.take(j as int))),
            decreases q - j,
        {
            let mut buf: [u8; 1] = [0u8];
            let ghost before = dst.bytes@;
            if let Err(e) = self.read_one(&mut buf) {
                if e == ErrorKind::UnexpectedEof {
                    assert(u.skip(j as int).len() == 0);
                    return Err(incomplete_error(n));
                }
            }
            let at = if backward {
                need - 8 * (j + 1)
            } else {
                8 * j
            };
            store_byte_bits(dst, at, buf[0], 0, 8);
            proof {
                assert(byte_bits(buf[0]).subrange(0, 8) =~= byte_bits(buf[0]));
                assert(u.take(j + 1) =~= u.take(j as int).push(buf[0]));
                assert(u.skip(j as int).skip(1) =~= u.skip(j + 1));
                if backward {
                    lemma_rev_bytes_bits_push(u.take(j as int), buf[0]);
                    lemma_bits_replaced_prepend(orig, before, dst.bytes@, off + need - 8 * j, rev_bytes_bits(u.take(j as int)), byte_bits(buf[0]));
                } else {
                    lemma_bytes_bits_push(u.take(j as int), buf[0]);
                    lemma_bits_replaced_append(orig, before, dst.bytes@, off, bytes_bits(u.take(j as int)), byte_bits(buf[0]));
                }
            }
            j = j + 1;
        }
        let ghost full = if backward {
            rev_bytes_bits(u.take(q as int))
        } else {
            bytes_bits(u.take(q as int))
        };
        let ghost tail: Seq<bool> = Seq::empty();
        let ghost mid = dst.bytes@;
        proof {
            lemma_rev_bytes_bits_len(u.take(q as int));
        }
        // A partial byte gives up its low bits and keeps its high bits pending.
        if rem != 0 {
            let mut buf: [u8; 1] = [0u8];
            match self.read_one(&mut buf) {
                Ok(()) => {},
                Err(e) => {
                    if e == ErrorKind::UnexpectedEof {
                        assert(u.skip(q as int).len() == 0);
                        return Err(incomplete_error(n));
                    }
                    return Err(DekuError::Io(e));
                },
            }
            let at = if backward {
                0
            } else {
                8 * q
            };
            store_byte_bits(dst, at, buf[0], 8 - rem, rem);
            self.leftover = Some(Leftover::Bits(BoundedBitVec::from_msb0_byte(buf[0], 8 - rem)));
            proof {
                tail = byte_bits(buf[0]).subrange(8 - rem, 8);
                assert(tail =~= byte_bits(buf[0]).skip(8 - rem));
                assert(buf[0] == u[q as int]);
                if backward {
                    lemma_bits_replaced_prepend(orig, mid, dst.bytes@, off + rem, full, tail);
                } else {
                    lemma_bits_replaced_append(orig, mid, dst.bytes@, off, full, tail);
                }
            }
        }
        let ghost front = if backward {
            tail + full
        } else {
            full + tail
        };
        assert(front.len() == need);
        proof {
            if rem == 0 {
                assert(tail + full =~= full);
                assert(full + tail =~= full);
            }
            assert(bits_replaced(orig, dst.bytes@, off, front));
        }
        let ghost before_pending = dst.bytes@;
        let pending = bits.as_bitslice();
        dst.copy_from_bitslice_at(need, &pending);
        proof {
            lemma_bits_replaced_append(orig, before_pending, dst.bytes@, off, front, bits@);
            let res = read_bits_out(bits@, u, n as int, Order::Lsb0);
            assert(res.0 =~= front + bits@);
        }
        Ok(())
    }

    /// The `Msb0` read of more bits than are pending.
    fn read_bits_msb_more(
        &mut self,
        dst: &mut BitSliceMut<'_, u8, Msb0>,
        bits: &BoundedBitVec,
    ) -> (r: Result<(), DekuError>)
        requires
            old(self).pending() is None,
            old(dst).wf(),
            bits@.len() < old(dst).len,
        ensures
            final(dst).offset == old(dst).offset,
            final(dst).len == old(dst).len,
            final(dst).wf(),
            final(dst).bytes@.len() == old(dst).bytes@.len(),
            final(final(dst).bytes)@ == final(old(dst).bytes)@,
            final(self).source().data() == old(self).source().data(),
            final(self).read_count() == old(self).read_count(),
            ({
                let p = bits@;
                let u = old(self).unread();
                let n = old(dst).len as int;
                let k = bytes_needed(p.len() as int, n);
                let res = read_bits_out(p, u, n, Order::Msb0);
                if k <= u.len() {
                    &&& r is Ok
                    &&& bits_replaced(old(dst).bytes@, final(dst).bytes@, old(dst).offset as int, res.0)
                    &&& leftover_holds(final(self).pending(), res.1)
                    &&& final(self).source().pos() == old(self).source().pos() + k
                } else {
                    &&& r matches Err(e) && is_incomplete(e, n)
                    &&& final(self).pending() is None
                    &&& final(self).unread().len() == 0
                }
            }),
    {
        let n = dst.len;
        let prev = bits.len();
        let need = n - prev;
        let q = need / 8;
        let rem = need % 8;
        let ghost u = self.unread();
        let ghost pos0 = self.source().pos();
        let ghost orig = dst.bytes@;
        let ghost off = dst.offset as int;
        let ghost k = bytes_needed(prev as int, n as int);
        assert(k == q + if rem > 0 { 1int } else { 0int });
        // The pending bits come first.
        let pending = bits.as_bitslice();
        dst.copy_from_bitslice_at(0, &pending);
        let ghost after_pending = dst.bytes@;
        proof {
            lemma_bits_replaced_empty(after_pending, off + prev);
            lemma_bits_replaced_append(orig, after_pending, after_pending, off, bits@, Seq::empty());
            assert(bits@ + bytes_bits(u.take(0)) =~= bits@);
        }
        let start = prev;
        let mut j: usize = 0;
        while j < q
            invariant
                j <= q,
                q == need / 8,
                rem == need % 8,
                need == n - prev,
                start == prev,
                prev == bits@.len(),
                u == old(self).unread(),
                k == bytes_needed(prev as int, n as int),
                k == q + if rem > 0 { 1int } else { 0int },
                n == dst.len,
                dst.wf(),
                dst.offset == old(dst).offset,
                dst.len == old(dst).len,
                final(dst.bytes)@ == final(old(dst).bytes)@,
                off == dst.offset,
                orig == old(dst).bytes@,
                self.pending() is None,
                self.read_count() == old(self).read_count(),
                self.source().data() == old(self).source().data(),
                self.source().pos() == pos0 + j,
                j <= u.len(),
                self.unread() == u.skip(j as int),
                bits_replaced(orig, dst.bytes@, off, bits@ + bytes_bits(u.take(j as int))),
            decreases q - j,
        {
            let mut buf: [u8; 1] = [0u8];
            let ghost before = dst.bytes@;
            if let Err(e) = self.read_one(&mut buf) {
                if e == ErrorKind::UnexpectedEof {
                    assert(u.skip(j as int).len() == 0);
                    return Err(incomplete_error(n));
                }
            }
            store_byte_bits(dst, start + 8 * j, buf[0], 0, 8);
            proof {
                assert(byte_bits(buf[0]).subrange(0, 8) =~= byte_bits(buf[0]));
                assert(u.take(j + 1) =~= u.take(j as int).push(buf[0]));
                assert(u.skip(j as int).skip(1) =~= u.skip(j + 1));
                lemma_bytes_bits_push(u.take(j as int), buf[0]);
                lemma_bits_replaced_append(orig, before, dst.bytes@, off, bits@ + bytes_bits(u.take(j as int)), byte_bits(buf[0]));
                assert(bits@ + bytes_bits(u.take(j + 1)) =~= bits@ + bytes_bits(u.take(j as int)) + byte_bits(buf[0]));
            }
            j = j + 1;
        }
        let ghost mid = dst.bytes@;
        let ghost head = bits@ + bytes_bits(u.take(q as int));
        // A partial byte gives up its high bits and keeps its low bits pending.
        if rem != 0 {
            let mut buf: [u8; 1] = [0u8];
            match self.read_one(&mut buf) {
                Ok(()) => {},
                Err(e) => {
                    if e == ErrorKind::UnexpectedEof {
                        assert(u.skip(q as int).len() == 0);
                        return Err(incomplete_error(n));
                    }
                    return Err(DekuError::Io(e));
                },
            }
            store_byte_bits(dst, start + 8 * q, buf[0], 0, rem);
            let arr: [u8; 1] = [buf[0]];
            let sl: &[u8] = arr.as_slice();
            assert(sl@ =~= seq![buf[0]]);
            let rest_bits = BitSlice::<u8, Msb0>::from_parts(sl, rem, 8 - rem);
            let mut rest = BoundedBitVec::new();
            rest.extend_from_bitslice(&rest_bits);
            self.leftover = Some(Leftover::Bits(rest));
            proof {
                lemma_single_byte_range(buf[0], rem as int, 8 - rem);
                assert(buf[0] == u[q as int]);
                lemma_bits_replaced_append(orig, mid, dst.bytes@, off, head, byte_bits(buf[0]).subrange(0, rem as int));
                lemma_bytes_bits_push(u.take(q as int), buf[0]);
                assert(u.take(q + 1) =~= u.take(q as int).push(buf[0]));
                let stream = bits@ + bytes_bits(u.take(q + 1));
                assert(stream =~= head + byte_bits(buf[0]));
                assert(stream.take(n as int) =~= head + byte_bits(buf[0]).subrange(0, rem as int));
                assert(stream.skip(n as int) =~= byte_bits(buf[0]).subrange(rem as int, 8));
            }
        } else {
            proof {
                let stream = bits@ + bytes_bits(u.take(q as int));
                assert(stream.take(n as int) =~= stream);
                assert(stream.skip(n as int) =~= Seq::<bool>::empty());
            }
        }
        Ok(())
    }

    /// Read one byte from the stream into `buf[0]`.
    fn read_one(&mut self, buf: &mut [u8; 1]) -> (r: Result<(), ErrorKind>)
        ensures
            final(self).pending() == old(self).pending(),
            final(self).read_count() == old(self).read_count(),
            final(self).source().data() == old(self).source().data(),
            r is Ok <==> old(self).unread().len() >= 1,
            r is Ok ==> final(buf)[0] == old(self).unread()[0],
            r is Ok ==> final(self).source().pos() == old(self).source().pos() + 1,
            r is Ok ==> final(self).unread() == old(self).unread().skip(1),
            r is Err ==> r == Err::<(), ErrorKind>(ErrorKind::UnexpectedEof),
            r is Err ==> final(self).source().pos() == old(self).source().data().len(),
    {
        let r = self.inner.read_exact(buf);
        proof {
            if r is Ok {
                let d = old(self).source().data();
                let p = old(self).source().pos() as int;
                assert(p < d.len());
                if p + 1 < d.len() {
                    assert(d.skip(p + 1) =~= d.skip(p).skip(1));
                } else {
                    assert(d.skip(p).skip(1) =~= Seq::<u8>::empty());
                }
            }
        }
        r
    }
}

/// Append the bits of `bits` to `out`.
fn push_all_bits(out: &mut Vec<bool>, bits: &BitSlice<'_, u8, Msb0>)
    ensures
        final(out)@ == old(out)@ + bits@,
{
    let n = bits.len();
    let mut i: usize = 0;
    while i < n
        invariant
            i <= n,
            n == bits@.len(),
            out@ == old(out)@ + bits@.take(i as int),
        decreases n - i,
    {
        out.push(bits.get(i));
        assert(bits@.take(i + 1) =~= bits@.take(i as int).push(bits@[i as int]));
        i = i + 1;
    }
    assert(bits@.take(n as int) =~= bits@);
}

} // verus!
