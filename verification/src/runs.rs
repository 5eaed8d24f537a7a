//! Laws over runs of reads and writes: what a reader hands out over many
//! reads, what a writer holds over many writes, and that fields written one
//! after another read back one after another.
use crate::bits::{
    BitVec, Msb0, byte_bits, byte_of_bits, bytes_bits, lemma_byte_of_bits, lemma_bytes_bits_push, lsb_bits,
};
use crate::error::DekuError;
use crate::ctx::Order;
use crate::impls::primitive_write::{lemma_pieces_written_push, pieces_out, pieces_written};
use crate::no_std_io::lemma_after_writes_append;
use crate::properties::{
    lemma_after_writes_empty, lemma_bytes_bits_append, lemma_msb0_pieces, lemma_msb0_pieces_written,
    lemma_msb0_write_finalize, pieces_bits, zero_padded,
};
use crate::reader::{
    Leftover, Reader, bits_read_result, bits_read_state, bits_skipped, bytes_needed, bytes_read, end_checked,
    pending_bits, read_bits_out, skipped_via,
};
use crate::no_std_io::{SeekFrom, seek_target};
use crate::writer::{
    Writer, bits_order_written, bytes_emitted, finalize_out, fresh_writer, lemma_pack_bytes,
    lemma_write_bits_out_len, pack_bytes, pack_bytes_rev, write_bits_out,
};
use vstd::prelude::*;

verus! {

/// The bits a reader hands out when read `Msb0`: the pending bits, then each
/// unread byte of its stream, most significant bit first.
pub open spec fn msb_stream(r: Reader) -> Seq<bool> {
    pending_bits(r.pending()) + bytes_bits(r.unread())
}

/// The sum of `amts`.
pub open spec fn total(amts: Seq<int>) -> int
    decreases amts.len(),
{
    if amts.len() == 0 {
        0
    } else {
        total(amts.drop_last()) + amts.last()
    }
}

/// The bytes needed for a read fit in what is there exactly when the bits
/// asked for do.
proof fn lemma_bytes_needed_fits(p: int, n: int, u: int)
    requires
        0 <= p,
        0 <= n,
        0 <= u,
    ensures
        (bytes_needed(p, n) <= u) == (n <= p + 8 * u),
        bytes_needed(p, n) >= 0,
{
}

/// A read of `n` bits `Msb0` takes the next `n` bits of the pending bits and
/// then the bytes, and what it leaves pending, followed by the bytes it did
/// not read, is the rest of them.
proof fn lemma_msb0_read_out_stream(p: Seq<bool>, u: Seq<u8>, n: int)
    requires
        0 <= n <= p.len() + 8 * u.len(),
    ensures
        read_bits_out(p, u, n, Order::Msb0).0 == (p + bytes_bits(u)).take(n),
        read_bits_out(p, u, n, Order::Msb0).1 + bytes_bits(u.skip(bytes_needed(p.len() as int, n)))
            == (p + bytes_bits(u)).skip(n),
{
    let k = bytes_needed(p.len() as int, n);
    lemma_bytes_needed_fits(p.len() as int, n, u.len() as int);
    assert(u =~= u.take(k) + u.skip(k));
    lemma_bytes_bits_append(u.take(k), u.skip(k));
    let all = p + bytes_bits(u);
    let head = p + bytes_bits(u.take(k));
    assert(all =~= head + bytes_bits(u.skip(k)));
    assert(n <= head.len());
    let out = read_bits_out(p, u, n, Order::Msb0);
    if n <= p.len() {
        assert(u.take(k) =~= Seq::<u8>::empty());
        assert(out.0 =~= all.take(n));
        assert(out.1 + bytes_bits(u.skip(k)) =~= all.skip(n));
    } else {
        assert(out.0 =~= all.take(n));
        assert(out.1 + bytes_bits(u.skip(k)) =~= all.skip(n));
    }
}

/// The unread bytes of a reader moved on by `k` bytes of its stream.
proof fn lemma_unread_skip(before: Reader, after: Reader, k: int)
    requires
        0 <= k <= before.unread().len(),
        after.source().data() == before.source().data(),
        after.source().pos() == before.source().pos() + k,
    ensures
        after.unread() == before.unread().skip(k),
{
    let d = before.source().data();
    let p = before.source().pos() as int;
    if k > 0 {
        assert(p < d.len());
    }
    if p < d.len() {
        assert(after.unread() =~= before.unread().skip(k));
    } else {
        assert(after.unread() =~= before.unread().skip(k));
    }
}

/// Law: a read of `amt` bits `Msb0` succeeds exactly when the reader has
/// that many bits; it then hands out the next `amt` bits of its stream,
/// leaves the rest of them, and counts `amt` bits as read.
pub proof fn lemma_msb0_read_step(
    before: Reader,
    after: Reader,
    amt: int,
    r: Result<Option<BitVec<u8, Msb0>>, DekuError>,
)
    requires
        0 <= amt,
        bits_read_result(before, after, amt, Order::Msb0, r),
    ensures
        (r is Ok) == (amt <= msb_stream(before).len()),
        r matches Ok(Some(v)) ==> {
            &&& v@ == msb_stream(before).take(amt)
            &&& msb_stream(after) == msb_stream(before).skip(amt)
            &&& after.read_count() == before.read_count() + amt
        },
{
    let p = pending_bits(before.pending());
    let u = before.unread();
    let k = bytes_needed(p.len() as int, amt);
    lemma_bytes_needed_fits(p.len() as int, amt, u.len() as int);
    if amt == 0 {
        assert(msb_stream(before).take(0) =~= Seq::<bool>::empty());
        assert(msb_stream(before).skip(0) =~= msb_stream(before));
    } else if k <= u.len() {
        lemma_msb0_read_out_stream(p, u, amt);
        lemma_unread_skip(before, after, k);
        let res = read_bits_out(p, u, amt, Order::Msb0);
        if res.1.len() == 0 {
            assert(pending_bits(after.pending()) =~= res.1);
        }
        assert(pending_bits(after.pending()) == res.1);
    }
}

/// Law: a run of reads `Msb0`, each taking up where the one before left
/// off, hands out the reader's stream in turn: read `j` gets the `amts[j]`
/// bits after those of the reads before it, and the count of bits read grows
/// by as many. From a fresh reader the stream is the bits of the input.
pub proof fn lemma_msb0_read_run(
    states: Seq<Reader>,
    amts: Seq<int>,
    vals: Seq<BitVec<u8, Msb0>>,
)
    requires
        states.len() == amts.len() + 1,
        vals.len() == amts.len(),
        forall|j: int| 0 <= j < amts.len() ==> 0 <= #[trigger] amts[j],
        forall|j: int|
            0 <= j < amts.len() ==> #[trigger] bits_read_result(
                states[j],
                states[j + 1],
                amts[j],
                Order::Msb0,
                Ok(Some(vals[j])),
            ),
    ensures
        0 <= total(amts) <= msb_stream(states[0]).len(),
        msb_stream(states.last()) == msb_stream(states[0]).skip(total(amts)),
        states.last().read_count() == states[0].read_count() + total(amts),
        forall|j: int|
            0 <= j < amts.len() ==> (#[trigger] vals[j])@ == msb_stream(states[0]).subrange(
                total(amts.take(j)),
                total(amts.take(j)) + amts[j],
            ),
    decreases amts.len(),
{
    let s0 = msb_stream(states[0]);
    if amts.len() == 0 {
        assert(s0.skip(0) =~= s0);
    } else {
        let m = amts.len() - 1;
        let front_states = states.drop_last();
        let front_amts = amts.drop_last();
        let front_vals = vals.drop_last();
        assert forall|j: int| 0 <= j < front_amts.len() implies #[trigger] bits_read_result(
            front_states[j],
            front_states[j + 1],
            front_amts[j],
            Order::Msb0,
            Ok(Some(front_vals[j])),
        ) by {
            assert(bits_read_result(states[j], states[j + 1], amts[j], Order::Msb0, Ok(Some(vals[j]))));
        }
        assert forall|j: int| 0 <= j < front_amts.len() implies 0 <= #[trigger] front_amts[j] by {
            assert(0 <= amts[j]);
        }
        lemma_msb0_read_run(front_states, front_amts, front_vals);
        let c = total(front_amts);
        assert(bits_read_result(states[m], states[m + 1], amts[m], Order::Msb0, Ok(Some(vals[m]))));
        assert(0 <= amts[m]);
        lemma_msb0_read_step(states[m], states[m + 1], amts[m], Ok(Some(vals[m])));
        assert(front_states.last() == states[m]);
        assert(states.last() == states[m + 1]);
        assert(total(amts) == c + amts[m]);
        assert(msb_stream(states[m]) == s0.skip(c));
        assert(c + amts[m] <= s0.len());
        assert(s0.skip(c).take(amts[m]) =~= s0.subrange(c, c + amts[m]));
        assert(s0.skip(c).skip(amts[m]) =~= s0.skip(c + amts[m]));
        assert(amts.take(m) =~= front_amts);
        assert forall|j: int| 0 <= j < amts.len() implies (#[trigger] vals[j])@ == s0.subrange(
            total(amts.take(j)),
            total(amts.take(j)) + amts[j],
        ) by {
            if j < m {
                assert(amts.take(j) =~= front_amts.take(j));
                assert(vals[j] == front_vals[j]);
                assert(amts[j] == front_amts[j]);
            }
        }
    }
}

/// The bits a reader hands out when read `Lsb0` a byte or less at a time:
/// the pending bits, last first, then each unread byte of its stream, least
/// significant bit first.
pub open spec fn lsb_stream(r: Reader) -> Seq<bool> {
    pending_bits(r.pending()).reverse() + lsb_bits(r.unread())
}

/// Bit `i` of a byte counted from its least significant end is bit `7 - i`
/// counted from its most significant end.
proof fn lemma_lsb_bit_of_byte(b: u8, i: u8, j: u8)
    by (bit_vector)
    requires
        i < 8,
        i + j == 7,
    ensures
        ((b >> i) & 1u8 == 1u8) == ((b & (0x80u8 >> j)) != 0u8),
{
}

/// The bits of one byte taken least significant first are its bits taken
/// most significant first, reversed.
pub(crate) proof fn lemma_lsb_bits_byte(b: u8)
    ensures
        lsb_bits(seq![b]) == byte_bits(b).reverse(),
{
    assert forall|i: int| 0 <= i < 8 implies #[trigger] lsb_bits(seq![b])[i] == byte_bits(b).reverse()[i] by {
        lemma_lsb_bit_of_byte(b, i as u8, (7 - i) as u8);
        assert(i / 8 == 0 && i % 8 == i);
    }
    assert(lsb_bits(seq![b]) =~= byte_bits(b).reverse());
}

/// The bits of two runs of bytes, each byte least significant bit first, are
/// those of the first run and then those of the second.
pub(crate) proof fn lemma_lsb_bits_append(a: Seq<u8>, b: Seq<u8>)
    ensures
        lsb_bits(a + b) == lsb_bits(a) + lsb_bits(b),
{
    let n = 8 * a.len();
    assert forall|i: int| 0 <= i < lsb_bits(a + b).len() implies #[trigger] lsb_bits(a + b)[i] == (
    lsb_bits(a) + lsb_bits(b))[i] by {
        if i < n {
            assert(i / 8 < a.len());
        } else {
            let j = i - n;
            assert(j / 8 == i / 8 - a.len() && j % 8 == i % 8);
            assert((a + b)[i / 8] == b[j / 8]);
        }
    }
    assert(lsb_bits(a + b) =~= lsb_bits(a) + lsb_bits(b));
}

/// A read of `n` bits `Lsb0`, a byte or less, takes the next `n` bits of the
/// pending bits, last first, and then of the bytes, each least significant
/// bit first; it hands them out last first. What it leaves pending, last
/// first, followed by the bytes it did not read, is the rest of them.
proof fn lemma_lsb0_read_out_stream(p: Seq<bool>, u: Seq<u8>, n: int)
    requires
        p.len() <= 8,
        0 <= n <= 8,
        n <= p.len() + 8 * u.len(),
    ensures
        read_bits_out(p, u, n, Order::Lsb0).0 == (p.reverse() + lsb_bits(u)).take(n).reverse(),
        read_bits_out(p, u, n, Order::Lsb0).1.reverse() + lsb_bits(
            u.skip(bytes_needed(p.len() as int, n)),
        ) == (p.reverse() + lsb_bits(u)).skip(n),
{
    let k = bytes_needed(p.len() as int, n);
    let all = p.reverse() + lsb_bits(u);
    let out = read_bits_out(p, u, n, Order::Lsb0);
    if n <= p.len() {
        assert(k == 0);
        assert(u.skip(0) =~= u);
        assert(out.0 =~= all.take(n).reverse());
        assert(out.1.reverse() + lsb_bits(u) =~= all.skip(n));
    } else {
        let need = n - p.len();
        assert(k == 1);
        assert(u.len() >= 1);
        let b = byte_bits(u[0]);
        assert(u =~= seq![u[0]] + u.skip(1));
        lemma_lsb_bits_append(seq![u[0]], u.skip(1));
        lemma_lsb_bits_byte(u[0]);
        let rest_bits = lsb_bits(u.skip(1));
        assert(all =~= p.reverse() + b.reverse() + rest_bits);
        assert(u.take(0) =~= Seq::<u8>::empty());
        assert(bytes_bits(Seq::<u8>::empty()) =~= Seq::<bool>::empty());
        assert(crate::reader::rev_bytes_bits(Seq::<u8>::empty()) =~= Seq::<bool>::empty());
        if need % 8 > 0 {
            let r = need % 8;
            assert(r == need);
            let tail = b.skip(8 - r);
            let rest = b.take(8 - r);
            assert(out.0 =~= tail + p);
            assert(out.1 =~= rest);
            assert(out.0 =~= all.take(n).reverse());
            assert(out.1.reverse() + rest_bits =~= all.skip(n));
        } else {
            assert(need == 8 && p.len() == 0);
            assert(u.take(1) =~= seq![u[0]]);
            lemma_bytes_bits_push(Seq::<u8>::empty(), u[0]);
            assert(Seq::<u8>::empty().push(u[0]) =~= seq![u[0]]);
            assert(bytes_bits(seq![u[0]]) =~= b);
            assert(out.0 =~= b);
            assert(out.1 =~= Seq::<bool>::empty());
            assert(out.0 =~= all.take(n).reverse());
            assert(out.1.reverse() + rest_bits =~= all.skip(n));
        }
    }
}

/// The bytes `s`, each least significant bit first, read backwards, are the
/// bytes from the last to the first, each most significant bit first.
proof fn lemma_lsb_bits_reversed(s: Seq<u8>)
    ensures
        lsb_bits(s).reverse() == crate::reader::rev_bytes_bits(s),
    decreases s.len(),
{
    if s.len() == 0 {
        assert(lsb_bits(s).reverse() =~= Seq::<bool>::empty());
        assert(crate::reader::rev_bytes_bits(s) =~= Seq::<bool>::empty());
    } else {
        let rest = s.drop_first();
        lemma_lsb_bits_reversed(rest);
        assert(s =~= seq![s[0]] + rest);
        lemma_lsb_bits_append(seq![s[0]], rest);
        lemma_lsb_bits_byte(s[0]);
        assert(byte_bits(s[0]).reverse().reverse() =~= byte_bits(s[0]));
        assert((byte_bits(s[0]).reverse() + lsb_bits(rest)).reverse() =~= lsb_bits(rest).reverse()
            + byte_bits(s[0]));
    }
}

/// A read of `n` bits `Lsb0`, of any length, takes the next `n` bits of the
/// `Lsb0` stream (the pending bits, last first, then each byte least
/// significant bit first) and leaves the rest. When `n` is not a whole
/// number of bytes it hands them out last first; when it is, it hands out
/// the whole bytes it reads in stream order, each most significant bit
/// first, then the low bits of the next byte, then the pending bits.
pub(crate) proof fn lemma_lsb0_read_out_any(p: Seq<bool>, u: Seq<u8>, n: int)
    requires
        p.len() <= 8,
        0 <= n <= p.len() + 8 * u.len(),
    ensures
        read_bits_out(p, u, n, Order::Lsb0).1.reverse() + lsb_bits(
            u.skip(bytes_needed(p.len() as int, n)),
        ) == (p.reverse() + lsb_bits(u)).skip(n),
        n % 8 != 0 ==> read_bits_out(p, u, n, Order::Lsb0).0 == (p.reverse() + lsb_bits(u)).take(
            n,
        ).reverse(),
        n % 8 == 0 && p.len() <= n ==> read_bits_out(p, u, n, Order::Lsb0).0 == bytes_bits(
            u.take((n - p.len()) / 8),
        ) + (p.reverse() + lsb_bits(u)).subrange(p.len() + 8 * ((n - p.len()) / 8), n).reverse()
            + p,
{
    let k = bytes_needed(p.len() as int, n);
    let all = p.reverse() + lsb_bits(u);
    let out = read_bits_out(p, u, n, Order::Lsb0);
    lemma_bytes_needed_fits(p.len() as int, n, u.len() as int);
    if n <= p.len() {
        assert(k == 0);
        assert(u.skip(0) =~= u);
        assert(out.1.reverse() + lsb_bits(u) =~= all.skip(n));
        if n % 8 != 0 {
            assert(out.0 =~= all.take(n).reverse());
        }
        if n % 8 == 0 && p.len() <= n {
            assert(n == p.len());
            assert(u.take(0) =~= Seq::<u8>::empty());
            assert(bytes_bits(Seq::<u8>::empty()) =~= Seq::<bool>::empty());
            assert(p.reverse().reverse() =~= p);
            assert(out.0 =~= bytes_bits(u.take(0)) + all.subrange(n, n).reverse() + p);
        }
    } else {
        let kp = p.len() as int;
        let need = n - kp;
        let q = need / 8;
        let r = need % 8;
        assert(u =~= u.take(q) + u.skip(q));
        lemma_lsb_bits_append(u.take(q), u.skip(q));
        lemma_lsb_bits_reversed(u.take(q));
        let lq = lsb_bits(u.take(q));
        assert(lq.len() == 8 * q);
        assert(bytes_bits(u.take(q)).len() == 8 * q);
        assert(p.reverse().reverse() =~= p);
        if r > 0 {
            assert(k == q + 1);
            let b = byte_bits(u[q]);
            assert(u.skip(q) =~= seq![u[q]] + u.skip(q + 1));
            lemma_lsb_bits_append(seq![u[q]], u.skip(q + 1));
            lemma_lsb_bits_byte(u[q]);
            let rest_bits = lsb_bits(u.skip(q + 1));
            assert(all =~= p.reverse() + lq + b.reverse() + rest_bits);
            let tail = b.skip(8 - r);
            let rest = b.take(8 - r);
            assert(all.take(n) =~= p.reverse() + lq + b.reverse().take(r));
            assert(b.reverse().take(r).reverse() =~= tail);
            assert(rest.reverse() =~= b.reverse().skip(r));
            assert(out.1 =~= rest);
            assert(out.1.reverse() + rest_bits =~= all.skip(n));
            if n % 8 != 0 {
                assert(out.0 =~= tail + crate::reader::rev_bytes_bits(u.take(q)) + p);
                assert((p.reverse() + lq + b.reverse().take(r)).reverse() =~= b.reverse().take(
                    r,
                ).reverse() + lq.reverse() + p.reverse().reverse());
                assert(out.0 =~= all.take(n).reverse());
            } else {
                assert(out.0 =~= bytes_bits(u.take(q)) + tail + p);
                assert(all.subrange(kp + 8 * q, n) =~= b.reverse().take(r));
                assert(out.0 =~= bytes_bits(u.take(q)) + all.subrange(kp + 8 * q, n).reverse() + p);
            }
        } else {
            assert(k == q);
            assert(all =~= p.reverse() + lq + lsb_bits(u.skip(q)));
            assert(all.take(n) =~= p.reverse() + lq);
            assert(out.1 =~= Seq::<bool>::empty());
            assert(out.1.reverse() + lsb_bits(u.skip(q)) =~= all.skip(n));
            if n % 8 != 0 {
                assert(out.0 =~= crate::reader::rev_bytes_bits(u.take(q)) + p);
                assert((p.reverse() + lq).reverse() =~= lq.reverse() + p.reverse().reverse());
                assert(out.0 =~= all.take(n).reverse());
            } else {
                assert(out.0 =~= bytes_bits(u.take(q)) + p);
                assert(all.subrange(kp + 8 * q, n) =~= Seq::<bool>::empty());
                assert(out.0 =~= bytes_bits(u.take(q)) + all.subrange(kp + 8 * q, n).reverse() + p);
            }
        }
    }
}

/// A read of `amt` bits `Lsb0`, as its effect on the reader: it succeeds
/// exactly when the reader has that many bits, and then leaves the rest of
/// its `Lsb0` stream and counts `amt` bits as read.
pub(crate) proof fn lemma_lsb0_state_step(before: Reader, after: Reader, amt: int, r: Result<(), DekuError>)
    requires
        0 <= amt,
        bits_read_state(before, after, amt, Order::Lsb0, r),
    ensures
        (r is Ok) == (amt <= lsb_stream(before).len()),
        r is Ok ==> {
            &&& lsb_stream(after) == lsb_stream(before).skip(amt)
            &&& after.read_count() == before.read_count() + amt
        },
{
    let p = pending_bits(before.pending());
    let u = before.unread();
    let k = bytes_needed(p.len() as int, amt);
    lemma_pending_len(before);
    lemma_bytes_needed_fits(p.len() as int, amt, u.len() as int);
    if amt == 0 {
        assert(lsb_stream(before).skip(0) =~= lsb_stream(before));
    } else if k <= u.len() {
        lemma_lsb0_read_out_any(p, u, amt);
        lemma_unread_skip(before, after, k);
        let res = read_bits_out(p, u, amt, Order::Lsb0);
        if res.1.len() == 0 {
            assert(pending_bits(after.pending()) =~= res.1);
        }
        assert(pending_bits(after.pending()) == res.1);
    }
}

/// Law: a read of `amt` bits `Lsb0`, of any length, succeeds exactly when the
/// reader has that many bits; it then takes the next `amt` bits of the
/// reader's `Lsb0` stream, leaves the rest and counts `amt` bits as read.
/// Read in a number of bits that is not a whole number of bytes, the bits are
/// handed out last first. Read in whole bytes, they are the whole bytes that
/// follow in the stream, in stream order and each most significant bit first,
/// then the low bits of the next byte (last first), then the bits that were
/// pending.
pub proof fn lemma_lsb0_read_any(
    before: Reader,
    after: Reader,
    amt: int,
    r: Result<Option<BitVec<u8, Msb0>>, DekuError>,
)
    requires
        0 <= amt,
        bits_read_result(before, after, amt, Order::Lsb0, r),
    ensures
        (r is Ok) == (amt <= lsb_stream(before).len()),
        r matches Ok(Some(v)) ==> {
            &&& lsb_stream(after) == lsb_stream(before).skip(amt)
            &&& after.read_count() == before.read_count() + amt
            &&& amt % 8 != 0 ==> v@ == lsb_stream(before).take(amt).reverse()
            &&& ({
                let k = pending_bits(before.pending()).len() as int;
                let q = (amt - k) / 8;
                amt % 8 == 0 && k <= amt ==> v@ == bytes_bits(before.unread().take(q))
                    + lsb_stream(before).subrange(k + 8 * q, amt).reverse() + pending_bits(
                    before.pending(),
                )
            })
        },
{
    let p = pending_bits(before.pending());
    let u = before.unread();
    let k = bytes_needed(p.len() as int, amt);
    lemma_pending_len(before);
    lemma_bytes_needed_fits(p.len() as int, amt, u.len() as int);
    if amt == 0 {
        assert(lsb_stream(before).skip(0) =~= lsb_stream(before));
        if p.len() == 0 {
            assert(u.take(0) =~= Seq::<u8>::empty());
            assert(bytes_bits(Seq::<u8>::empty()) =~= Seq::<bool>::empty());
            assert(bytes_bits(u.take(0)) + lsb_stream(before).subrange(0, 0).reverse() + p
                =~= Seq::<bool>::empty());
        }
    } else if k <= u.len() {
        lemma_lsb0_read_out_any(p, u, amt);
        lemma_unread_skip(before, after, k);
        let res = read_bits_out(p, u, amt, Order::Lsb0);
        if res.1.len() == 0 {
            assert(pending_bits(after.pending()) =~= res.1);
        }
        assert(pending_bits(after.pending()) == res.1);
    }
}

/// Law: a read of `amt` bits `Lsb0`, a byte or less, succeeds exactly when
/// the reader has that many bits; it then hands out the next `amt` bits of
/// its `Lsb0` stream, last first, leaves the rest of them, and counts `amt`
/// bits as read.
pub proof fn lemma_lsb0_read_step(
    before: Reader,
    after: Reader,
    amt: int,
    r: Result<Option<BitVec<u8, Msb0>>, DekuError>,
)
    requires
        0 <= amt <= 8,
        bits_read_result(before, after, amt, Order::Lsb0, r),
    ensures
        (r is Ok) == (amt <= lsb_stream(before).len()),
        r matches Ok(Some(v)) ==> {
            &&& v@ == lsb_stream(before).take(amt).reverse()
            &&& lsb_stream(after) == lsb_stream(before).skip(amt)
            &&& after.read_count() == before.read_count() + amt
        },
{
    let p = pending_bits(before.pending());
    let u = before.unread();
    let k = bytes_needed(p.len() as int, amt);
    lemma_pending_len(before);
    lemma_bytes_needed_fits(p.len() as int, amt, u.len() as int);
    if amt == 0 {
        assert(lsb_stream(before).take(0).reverse() =~= Seq::<bool>::empty());
        assert(lsb_stream(before).skip(0) =~= lsb_stream(before));
    } else if k <= u.len() {
        lemma_lsb0_read_out_stream(p, u, amt);
        lemma_unread_skip(before, after, k);
        let res = read_bits_out(p, u, amt, Order::Lsb0);
        if res.1.len() == 0 {
            assert(pending_bits(after.pending()) =~= res.1);
        }
        assert(pending_bits(after.pending()) == res.1);
    }
}

/// A reader holds at most eight pending bits.
proof fn lemma_pending_len(r: Reader)
    ensures
        pending_bits(r.pending()).len() <= 8,
{
    match r.pending() {
        Some(crate::reader::Leftover::Bits(v)) => crate::bounded::BoundedBitVec::lemma_len(v),
        _ => {},
    }
}

/// Law: a run of reads `Lsb0` of a byte or less each, each taking up where
/// the one before left off, hands out the reader's `Lsb0` stream in turn:
/// read `j` gets the `amts[j]` bits after those of the reads before it, last
/// first, and the count of bits read grows by as many. From a fresh reader
/// the stream is the bits of the input, each byte least significant first.
pub proof fn lemma_lsb0_read_run(
    states: Seq<Reader>,
    amts: Seq<int>,
    vals: Seq<BitVec<u8, Msb0>>,
)
    requires
        states.len() == amts.len() + 1,
        vals.len() == amts.len(),
        forall|j: int| 0 <= j < amts.len() ==> 0 <= #[trigger] amts[j] <= 8,
        forall|j: int|
            0 <= j < amts.len() ==> #[trigger] bits_read_result(
                states[j],
                states[j + 1],
                amts[j],
                Order::Lsb0,
                Ok(Some(vals[j])),
            ),
    ensures
        0 <= total(amts) <= lsb_stream(states[0]).len(),
        lsb_stream(states.last()) == lsb_stream(states[0]).skip(total(amts)),
        states.last().read_count() == states[0].read_count() + total(amts),
        forall|j: int|
            0 <= j < amts.len() ==> (#[trigger] vals[j])@ == lsb_stream(states[0]).subrange(
                total(amts.take(j)),
                total(amts.take(j)) + amts[j],
            ).reverse(),
    decreases amts.len(),
{
    let s0 = lsb_stream(states[0]);
    if amts.len() == 0 {
        assert(s0.skip(0) =~= s0);
    } else {
        let m = amts.len() - 1;
        let front_states = states.drop_last();
        let front_amts = amts.drop_last();
        let front_vals = vals.drop_last();
        assert forall|j: int| 0 <= j < front_amts.len() implies #[trigger] bits_read_result(
            front_states[j],
            front_states[j + 1],
            front_amts[j],
            Order::Lsb0,
            Ok(Some(front_vals[j])),
        ) by {
            assert(bits_read_result(states[j], states[j + 1], amts[j], Order::Lsb0, Ok(Some(vals[j]))));
        }
        assert forall|j: int| 0 <= j < front_amts.len() implies 0 <= #[trigger] front_amts[j] <= 8 by {
            assert(0 <= amts[j] <= 8);
        }
        lemma_lsb0_read_run(front_states, front_amts, front_vals);
        let c = total(front_amts);
        assert(bits_read_result(states[m], states[m + 1], amts[m], Order::Lsb0, Ok(Some(vals[m]))));
        assert(0 <= amts[m] <= 8);
        lemma_lsb0_read_step(states[m], states[m + 1], amts[m], Ok(Some(vals[m])));
        assert(front_states.last() == states[m]);
        assert(states.last() == states[m + 1]);
        assert(total(amts) == c + amts[m]);
        assert(lsb_stream(states[m]) == s0.skip(c));
        assert(c + amts[m] <= s0.len());
        assert(s0.skip(c).take(amts[m]) =~= s0.subrange(c, c + amts[m]));
        assert(s0.skip(c).skip(amts[m]) =~= s0.skip(c + amts[m]));
        assert(amts.take(m) =~= front_amts);
        assert forall|j: int| 0 <= j < amts.len() implies (#[trigger] vals[j])@ == s0.subrange(
            total(amts.take(j)),
            total(amts.take(j)) + amts[j],
        ).reverse() by {
            if j < m {
                assert(amts.take(j) =~= front_amts.take(j));
                assert(vals[j] == front_vals[j]);
                assert(amts[j] == front_amts[j]);
            }
        }
    }
}

/// Law: a run of writes, each on the writer the one before left, writes the
/// bit strings one after another, as [`pieces_written`] says of them all.
pub proof fn lemma_write_run(ws: Seq<Writer>, pieces: Seq<Seq<bool>>, order: Order)
    requires
        ws.len() == pieces.len() + 1,
        forall|j: int|
            0 <= j < pieces.len() ==> #[trigger] bits_order_written(ws[j], ws[j + 1], pieces[j], order),
    ensures
        pieces_written(ws[0], ws.last(), pieces, order),
    decreases pieces.len(),
{
    if pieces.len() == 0 {
        assert(ws.last() == ws[0]);
    } else {
        let m = pieces.len() - 1;
        let front_ws = ws.drop_last();
        let front = pieces.drop_last();
        assert forall|j: int| 0 <= j < front.len() implies #[trigger] bits_order_written(
            front_ws[j],
            front_ws[j + 1],
            front[j],
            order,
        ) by {
            assert(bits_order_written(ws[j], ws[j + 1], pieces[j], order));
        }
        lemma_write_run(front_ws, front, order);
        assert(bits_order_written(ws[m], ws[m + 1], pieces[m], order));
        assert(front_ws.last() == ws[m]);
        lemma_pieces_written_push(ws[0], ws[m], ws[m + 1], front, pieces[m], order);
        assert(front.push(pieces[m]) =~= pieces);
    }
}

/// A writer that is settled: fewer than eight bits pending, an empty
/// leftover marked `Msb0`, and whole bytes counted as written. `Writer::new`
/// makes one, and every write keeps it so.
pub open spec fn writer_settled(w: Writer) -> bool {
    &&& w.leftover.0@.len() < 8
    &&& w.leftover.0@.len() == 0 ==> w.leftover.1 == Order::Msb0
    &&& w.bits_written % 8 == 0
}

/// Law: a new writer, with nothing pending and nothing counted, is settled.
pub proof fn lemma_new_writer_settled(w: Writer)
    requires
        w.leftover.0@.len() == 0,
        w.leftover.1 == Order::Msb0,
        w.bits_written == 0,
    ensures
        writer_settled(w),
{
}

/// Law: finalizing keeps a writer settled, with nothing left pending.
pub proof fn lemma_finalize_keeps_settled(before: Writer, after: Writer)
    requires
        writer_settled(before),
        bytes_emitted(before, after, finalize_out(before.leftover.0@, before.leftover.1)),
        after.leftover.0@.len() == 0,
        after.leftover.1 == Order::Msb0,
    ensures
        writer_settled(after),
{
}

/// Law: a write keeps a writer settled. Every bit it takes is accounted for:
/// the bits counted as written and those pending grow by the bits written,
/// and the stream moves on by the bytes counted.
pub proof fn lemma_write_keeps_settled(before: Writer, after: Writer, bits: Seq<bool>, order: Order)
    requires
        writer_settled(before),
        bits_order_written(before, after, bits, order),
    ensures
        writer_settled(after),
        after.bits_written + after.leftover.0@.len() == before.bits_written + before.leftover.0@.len()
            + bits.len(),
        8 * (after.inner.pos() - before.inner.pos()) == after.bits_written - before.bits_written,
{
    lemma_write_bits_out_len(before.leftover.0@, before.leftover.1, bits, order);
}

/// The bit strings `pieces`, each reversed.
pub open spec fn reversed_pieces(pieces: Seq<Seq<bool>>) -> Seq<Seq<bool>> {
    pieces.map_values(|s: Seq<bool>| s.reverse())
}

/// The length of each of `pieces`.
pub open spec fn piece_lens(pieces: Seq<Seq<bool>>) -> Seq<int> {
    pieces.map_values(|s: Seq<bool>| s.len() as int)
}

/// The bits of `pieces` are as many as their lengths add up to.
pub proof fn lemma_pieces_bits_len(pieces: Seq<Seq<bool>>)
    ensures
        pieces_bits(pieces).len() == total(piece_lens(pieces)),
    decreases pieces.len(),
{
    if pieces.len() == 0 {
        assert(piece_lens(pieces) =~= Seq::<int>::empty());
    } else {
        let m = pieces.len() - 1;
        let lens = piece_lens(pieces);
        lemma_pieces_bits_len(pieces.drop_last());
        assert(lens.drop_last() =~= piece_lens(pieces.drop_last()));
        assert(lens[m] == pieces[m].len());
    }
}

/// Piece `j` of `pieces` stands in their bits after the pieces before it.
pub proof fn lemma_pieces_bits_piece(pieces: Seq<Seq<bool>>, j: int)
    requires
        0 <= j < pieces.len(),
    ensures
        0 <= total(piece_lens(pieces).take(j)),
        total(piece_lens(pieces).take(j)) + pieces[j].len() <= pieces_bits(pieces).len(),
        pieces_bits(pieces).subrange(
            total(piece_lens(pieces).take(j)),
            total(piece_lens(pieces).take(j)) + pieces[j].len(),
        ) == pieces[j],
    decreases pieces.len(),
{
    let m = pieces.len() - 1;
    let front = pieces.drop_last();
    let lens = piece_lens(pieces);
    let pf = pieces_bits(front);
    let all = pieces_bits(pieces);
    assert(all == pf + pieces[m]);
    lemma_pieces_bits_len(front);
    if j < m {
        lemma_pieces_bits_piece(front, j);
        assert(lens.take(j) =~= piece_lens(front).take(j));
        assert(pieces[j] == front[j]);
        let c = total(lens.take(j));
        assert(all.subrange(c, c + pieces[j].len()) =~= pf.subrange(c, c + pieces[j].len()));
    } else {
        assert(lens.take(j) =~= piece_lens(front));
        lemma_total_nonneg(piece_lens(front));
        assert(all.subrange(pf.len() as int, (pf.len() + pieces[m].len()) as int) =~= pieces[m]);
    }
}

/// Lengths add up to no less than zero.
proof fn lemma_total_nonneg(lens: Seq<int>)
    requires
        forall|j: int| 0 <= j < lens.len() ==> 0 <= #[trigger] lens[j],
    ensures
        0 <= total(lens),
    decreases lens.len(),
{
    if lens.len() > 0 {
        let front = lens.drop_last();
        assert forall|j: int| 0 <= j < front.len() implies 0 <= #[trigger] front[j] by {
            assert(0 <= lens[j]);
        }
        lemma_total_nonneg(front);
        assert(0 <= lens[lens.len() - 1]);
    }
}

/// The bytes a writer holds after a fresh start and writes of `pieces`.
proof fn lemma_fresh_written(w0: Writer, w1: Writer, pieces: Seq<Seq<bool>>, order: Order, wf: Writer)
    requires
        fresh_writer(w0),
        pieces_written(w0, w1, pieces, order),
        bytes_emitted(w1, wf, finalize_out(w1.leftover.0@, w1.leftover.1)),
    ensures
        ({
            let po = pieces_out(Seq::empty(), Order::Msb0, pieces, order);
            let fin = finalize_out(po.1, po.2);
            &&& wf.inner.data() == po.0 + fin
            &&& wf.bits_written == 8 * wf.inner.data().len()
        }),
{
    let po = pieces_out(Seq::empty(), Order::Msb0, pieces, order);
    assert(w0.leftover.0@ =~= Seq::<bool>::empty());
    assert(w0.inner.data() =~= Seq::<u8>::empty());
    let fin = finalize_out(po.1, po.2);
    lemma_after_writes_empty(po.0);
    assert(w1.inner.data() == po.0);
    lemma_after_writes_append(Seq::empty(), 0, po.0, fin);
    lemma_after_writes_empty(po.0 + fin);
}

/// Law: a fresh writer that takes bit strings `Msb0` one after another and
/// is then finalized holds their bits in order, padded with zero bits to a
/// whole byte, and counts every byte it holds as written.
pub proof fn lemma_msb0_write_run_finalize(ws: Seq<Writer>, pieces: Seq<Seq<bool>>, wf: Writer)
    requires
        ws.len() == pieces.len() + 1,
        fresh_writer(ws[0]),
        forall|j: int|
            0 <= j < pieces.len() ==> #[trigger] bits_order_written(ws[j], ws[j + 1], pieces[j], Order::Msb0),
        bytes_emitted(ws.last(), wf, finalize_out(ws.last().leftover.0@, ws.last().leftover.1)),
    ensures
        bytes_bits(wf.inner.data()) == zero_padded(pieces_bits(pieces)),
        wf.bits_written == 8 * wf.inner.data().len(),
{
    lemma_write_run(ws, pieces, Order::Msb0);
    lemma_msb0_pieces(pieces);
    lemma_msb0_pieces_written(ws[0], ws.last(), pieces);
    lemma_fresh_written(ws[0], ws.last(), pieces, Order::Msb0, wf);
    lemma_msb0_write_finalize(pieces_bits(pieces));
}

/// One write `Lsb0` of a byte or less: what it puts out, each byte least
/// significant bit first, then what it leaves pending, reversed, is what was
/// pending, reversed, then the new bits reversed.
proof fn lemma_lsb0_write_step(p: Seq<bool>, p_order: Order, x: Seq<bool>)
    requires
        p.len() < 8,
        x.len() <= 8,
        p.len() == 0 ==> p_order == Order::Msb0,
        p.len() > 0 ==> p_order == Order::Lsb0,
    ensures
        ({
            let step = write_bits_out(p, p_order, x, Order::Lsb0);
            &&& lsb_bits(step.0) + step.1.reverse() == p.reverse() + x.reverse()
            &&& step.1.len() < 8
        }),
{
    let step = write_bits_out(p, p_order, x, Order::Lsb0);
    lemma_write_bits_out_len(p, p_order, x, Order::Lsb0);
    if p.len() == 0 {
        lemma_pack_bytes(x);
        if x.len() == 8 {
            assert(x.take(8) =~= x);
            assert(x.skip(8) =~= Seq::<bool>::empty());
            assert(pack_bytes(x.skip(8)) =~= Seq::<u8>::empty());
            assert(step.0 =~= seq![byte_of_bits(x)]);
            lemma_byte_of_bits(x);
            lemma_lsb_bits_byte(byte_of_bits(x));
            assert(step.1 =~= Seq::<bool>::empty());
        } else {
            assert(step.0 =~= Seq::<u8>::empty());
            assert(step.1 =~= x);
            assert(lsb_bits(step.0) =~= Seq::<bool>::empty());
        }
        assert(p.reverse() =~= Seq::<bool>::empty());
        assert(lsb_bits(step.0) + step.1.reverse() =~= p.reverse() + x.reverse());
    } else {
        let t = x + p;
        assert(t.reverse() =~= p.reverse() + x.reverse());
        if t.len() >= 8 {
            let hi = t.skip(t.len() - 8);
            let lo = t.take(t.len() - 8);
            assert(lo.len() < 8);
            assert(pack_bytes_rev(lo) =~= Seq::<u8>::empty());
            assert(step.0 =~= seq![byte_of_bits(hi)]);
            assert(step.1 =~= lo);
            lemma_byte_of_bits(hi);
            lemma_lsb_bits_byte(byte_of_bits(hi));
            assert(hi.reverse() + lo.reverse() =~= t.reverse());
        } else {
            assert(step.0 =~= Seq::<u8>::empty());
            assert(step.1 =~= t);
            assert(lsb_bits(step.0) =~= Seq::<bool>::empty());
        }
        assert(lsb_bits(step.0) + step.1.reverse() =~= p.reverse() + x.reverse());
    }
}

/// Writing bit strings of a byte or less `Lsb0`, from nothing pending, puts
/// out each of them reversed, in turn, in bytes taken least significant bit
/// first, followed by the pending bits reversed.
pub(crate) proof fn lemma_lsb0_pieces_out(pieces: Seq<Seq<bool>>)
    requires
        forall|j: int| 0 <= j < pieces.len() ==> (#[trigger] pieces[j]).len() <= 8,
    ensures
        ({
            let po = pieces_out(Seq::empty(), Order::Msb0, pieces, Order::Lsb0);
            &&& lsb_bits(po.0) + po.1.reverse() == pieces_bits(reversed_pieces(pieces))
            &&& po.1.len() < 8
            &&& po.1.len() == 0 ==> po.2 == Order::Msb0
            &&& po.1.len() > 0 ==> po.2 == Order::Lsb0
        }),
    decreases pieces.len(),
{
    let po = pieces_out(Seq::empty(), Order::Msb0, pieces, Order::Lsb0);
    if pieces.len() == 0 {
        assert(lsb_bits(Seq::<u8>::empty()) =~= Seq::<bool>::empty());
        assert(pieces_bits(reversed_pieces(pieces)) =~= Seq::<bool>::empty());
        assert(lsb_bits(po.0) + po.1.reverse() =~= Seq::<bool>::empty());
    } else {
        let m = pieces.len() - 1;
        let front = pieces.drop_last();
        let x = pieces[m];
        assert forall|j: int| 0 <= j < front.len() implies (#[trigger] front[j]).len() <= 8 by {
            assert(pieces[j].len() <= 8);
        }
        lemma_lsb0_pieces_out(front);
        assert(x.len() <= 8);
        let prev = pieces_out(Seq::empty(), Order::Msb0, front, Order::Lsb0);
        let step = write_bits_out(prev.1, prev.2, x, Order::Lsb0);
        assert(reversed_pieces(pieces).drop_last() =~= reversed_pieces(front));
        assert(pieces_bits(reversed_pieces(pieces)) == pieces_bits(reversed_pieces(front)) + x.reverse());
        lemma_lsb_bits_append(prev.0, step.0);
        lemma_lsb0_write_step(prev.1, prev.2, x);
        assert(pieces.last() == x);
        assert(po.0 == prev.0 + step.0);
        assert(po.1 == step.1);
        assert(lsb_bits(step.0) + step.1.reverse() == prev.1.reverse() + x.reverse());
        assert(lsb_bits(po.0) == lsb_bits(prev.0) + lsb_bits(step.0));
        assert((lsb_bits(prev.0) + lsb_bits(step.0)) + step.1.reverse() =~= lsb_bits(prev.0) + (
        lsb_bits(step.0) + step.1.reverse()));
        assert(lsb_bits(prev.0) + (prev.1.reverse() + x.reverse()) =~= (lsb_bits(prev.0)
            + prev.1.reverse()) + x.reverse());
    }
}

/// Finalizing after writes `Lsb0` that put out `out` and left `p` pending:
/// the bytes, each least significant bit first, are the bits `q` written,
/// padded with zero bits to a whole byte.
pub(crate) proof fn lemma_lsb0_finalize(out: Seq<u8>, p: Seq<bool>, p_order: Order, q: Seq<bool>)
    requires
        lsb_bits(out) + p.reverse() == q,
        p.len() < 8,
        p.len() == 0 ==> p_order == Order::Msb0,
        p.len() > 0 ==> p_order == Order::Lsb0,
    ensures
        lsb_bits(out + finalize_out(p, p_order)) == zero_padded(q),
{
    let fin = finalize_out(p, p_order);
    lemma_lsb_bits_append(out, fin);
    if p.len() == 0 {
        assert(fin =~= Seq::<u8>::empty());
        assert(lsb_bits(fin) =~= Seq::<bool>::empty());
        assert(p.reverse() =~= Seq::<bool>::empty());
        assert(q =~= lsb_bits(out));
        assert(q.len() % 8 == 0);
        assert(zero_padded(q) =~= q);
        assert(lsb_bits(out + fin) =~= zero_padded(q));
    } else {
        let zeros = Seq::new((8 - p.len()) as nat, |i: int| false);
        assert(fin =~= seq![byte_of_bits(zeros + p)]);
        lemma_byte_of_bits(zeros + p);
        lemma_lsb_bits_byte(byte_of_bits(zeros + p));
        assert((zeros + p).reverse() =~= p.reverse() + zeros);
        assert(q.len() == 8 * out.len() + p.len());
        assert(q.len() % 8 == p.len());
        assert(zero_padded(q) =~= lsb_bits(out) + p.reverse() + zeros);
        assert(lsb_bits(out + fin) =~= zero_padded(q));
    }
}

/// Law: a fresh writer that takes bit strings of a byte or less `Lsb0` one
/// after another and is then finalized holds, each byte taken least
/// significant bit first, each string reversed, in turn, padded with zero
/// bits to a whole byte; and it counts every byte it holds as written.
pub proof fn lemma_lsb0_write_run_finalize(ws: Seq<Writer>, pieces: Seq<Seq<bool>>, wf: Writer)
    requires
        ws.len() == pieces.len() + 1,
        fresh_writer(ws[0]),
        forall|j: int| 0 <= j < pieces.len() ==> (#[trigger] pieces[j]).len() <= 8,
        forall|j: int|
            0 <= j < pieces.len() ==> #[trigger] bits_order_written(ws[j], ws[j + 1], pieces[j], Order::Lsb0),
        bytes_emitted(ws.last(), wf, finalize_out(ws.last().leftover.0@, ws.last().leftover.1)),
    ensures
        lsb_bits(wf.inner.data()) == zero_padded(pieces_bits(reversed_pieces(pieces))),
        wf.bits_written == 8 * wf.inner.data().len(),
{
    lemma_write_run(ws, pieces, Order::Lsb0);
    lemma_lsb0_pieces_out(pieces);
    lemma_fresh_written(ws[0], ws.last(), pieces, Order::Lsb0, wf);
    let po = pieces_out(Seq::empty(), Order::Msb0, pieces, Order::Lsb0);
    lemma_lsb0_finalize(po.0, po.1, po.2, pieces_bits(reversed_pieces(pieces)));
}

/// Reads `Msb0` of the lengths of `pieces`, in turn, up to read `i`, from a
/// reader whose stream starts with their bits: each of them gives its piece,
/// and the stream left is the rest.
proof fn lemma_msb0_reads_back_upto(
    rs: Seq<Reader>,
    results: Seq<Result<Option<BitVec<u8, Msb0>>, DekuError>>,
    pieces: Seq<Seq<bool>>,
    i: int,
)
    requires
        0 <= i <= pieces.len(),
        rs.len() == pieces.len() + 1,
        results.len() == pieces.len(),
        pieces_bits(pieces).len() <= msb_stream(rs[0]).len(),
        msb_stream(rs[0]).take(pieces_bits(pieces).len() as int) == pieces_bits(pieces),
        forall|j: int|
            0 <= j < pieces.len() ==> #[trigger] bits_read_result(
                rs[j],
                rs[j + 1],
                pieces[j].len() as int,
                Order::Msb0,
                results[j],
            ),
    ensures
        msb_stream(rs[i]) == msb_stream(rs[0]).skip(total(piece_lens(pieces).take(i))),
        forall|j: int| 0 <= j < i ==> ((#[trigger] results[j]) matches Ok(Some(v)) && v@ == pieces[j]),
    decreases i,
{
    let s0 = msb_stream(rs[0]);
    let lens = piece_lens(pieces);
    if i == 0 {
        assert(lens.take(0) =~= Seq::<int>::empty());
        assert(s0.skip(0) =~= s0);
    } else {
        let j = i - 1;
        lemma_msb0_reads_back_upto(rs, results, pieces, j);
        lemma_pieces_bits_piece(pieces, j);
        let c = total(lens.take(j));
        let n = pieces[j].len() as int;
        assert(lens.take(i).drop_last() =~= lens.take(j));
        assert(total(lens.take(i)) == c + n);
        assert(bits_read_result(rs[j], rs[j + 1], n, Order::Msb0, results[j]));
        lemma_msb0_read_step(rs[j], rs[j + 1], n, results[j]);
        let pb = pieces_bits(pieces);
        assert(s0.skip(c).take(n) =~= pb.subrange(c, c + n));
        assert(s0.skip(c).skip(n) =~= s0.skip(c + n));
    }
}

/// Law: a reader whose `Msb0` stream starts with the bits of `pieces`, one
/// after another, reads them back, each by a read `Msb0` of its length, in
/// order.
pub proof fn lemma_msb0_reads_back(
    rs: Seq<Reader>,
    results: Seq<Result<Option<BitVec<u8, Msb0>>, DekuError>>,
    pieces: Seq<Seq<bool>>,
)
    requires
        rs.len() == pieces.len() + 1,
        results.len() == pieces.len(),
        pieces_bits(pieces).len() <= msb_stream(rs[0]).len(),
        msb_stream(rs[0]).take(pieces_bits(pieces).len() as int) == pieces_bits(pieces),
        forall|j: int|
            0 <= j < pieces.len() ==> #[trigger] bits_read_result(
                rs[j],
                rs[j + 1],
                pieces[j].len() as int,
                Order::Msb0,
                results[j],
            ),
    ensures
        forall|j: int|
            0 <= j < pieces.len() ==> ((#[trigger] results[j]) matches Ok(Some(v)) && v@ == pieces[j]),
{
    lemma_msb0_reads_back_upto(rs, results, pieces, pieces.len() as int);
}

/// Reads `Lsb0` of the lengths of `pieces`, a byte or less each, in turn, up
/// to read `i`, from a reader whose `Lsb0` stream starts with the bits of the
/// pieces reversed: each of them gives its piece, and the stream left is the
/// rest.
proof fn lemma_lsb0_reads_back_upto(
    rs: Seq<Reader>,
    results: Seq<Result<Option<BitVec<u8, Msb0>>, DekuError>>,
    pieces: Seq<Seq<bool>>,
    i: int,
)
    requires
        0 <= i <= pieces.len(),
        rs.len() == pieces.len() + 1,
        results.len() == pieces.len(),
        forall|j: int| 0 <= j < pieces.len() ==> (#[trigger] pieces[j]).len() <= 8,
        pieces_bits(reversed_pieces(pieces)).len() <= lsb_stream(rs[0]).len(),
        lsb_stream(rs[0]).take(pieces_bits(reversed_pieces(pieces)).len() as int) == pieces_bits(
            reversed_pieces(pieces),
        ),
        forall|j: int|
            0 <= j < pieces.len() ==> #[trigger] bits_read_result(
                rs[j],
                rs[j + 1],
                pieces[j].len() as int,
                Order::Lsb0,
                results[j],
            ),
    ensures
        lsb_stream(rs[i]) == lsb_stream(rs[0]).skip(total(piece_lens(pieces).take(i))),
        forall|j: int| 0 <= j < i ==> ((#[trigger] results[j]) matches Ok(Some(v)) && v@ == pieces[j]),
    decreases i,
{
    let s0 = lsb_stream(rs[0]);
    let rp = reversed_pieces(pieces);
    let lens = piece_lens(pieces);
    assert(piece_lens(rp) =~= lens);
    if i == 0 {
        assert(lens.take(0) =~= Seq::<int>::empty());
        assert(s0.skip(0) =~= s0);
    } else {
        let j = i - 1;
        lemma_lsb0_reads_back_upto(rs, results, pieces, j);
        lemma_pieces_bits_piece(rp, j);
        let c = total(lens.take(j));
        let n = pieces[j].len() as int;
        assert(rp[j] == pieces[j].reverse());
        assert(lens.take(i).drop_last() =~= lens.take(j));
        assert(total(lens.take(i)) == c + n);
        assert(bits_read_result(rs[j], rs[j + 1], n, Order::Lsb0, results[j]));
        assert(n <= 8);
        lemma_lsb0_read_step(rs[j], rs[j + 1], n, results[j]);
        let pb = pieces_bits(rp);
        assert(s0.skip(c).take(n) =~= pb.subrange(c, c + n));
        assert(pieces[j].reverse().reverse() =~= pieces[j]);
        assert(s0.skip(c).skip(n) =~= s0.skip(c + n));
    }
}

/// Law: a reader whose `Lsb0` stream starts with the bits of `pieces`, a
/// byte or less each, each reversed, one after another, reads them back,
/// each by a read `Lsb0` of its length, in order.
pub proof fn lemma_lsb0_reads_back(
    rs: Seq<Reader>,
    results: Seq<Result<Option<BitVec<u8, Msb0>>, DekuError>>,
    pieces: Seq<Seq<bool>>,
)
    requires
        rs.len() == pieces.len() + 1,
        results.len() == pieces.len(),
        forall|j: int| 0 <= j < pieces.len() ==> (#[trigger] pieces[j]).len() <= 8,
        pieces_bits(reversed_pieces(pieces)).len() <= lsb_stream(rs[0]).len(),
        lsb_stream(rs[0]).take(pieces_bits(reversed_pieces(pieces)).len() as int) == pieces_bits(
            reversed_pieces(pieces),
        ),
        forall|j: int|
            0 <= j < pieces.len() ==> #[trigger] bits_read_result(
                rs[j],
                rs[j + 1],
                pieces[j].len() as int,
                Order::Lsb0,
                results[j],
            ),
    ensures
        forall|j: int|
            0 <= j < pieces.len() ==> ((#[trigger] results[j]) matches Ok(Some(v)) && v@ == pieces[j]),
{
    lemma_lsb0_reads_back_upto(rs, results, pieces, pieces.len() as int);
}

/// Law (symmetric reading and writing): bit strings written one after
/// another in one order into a fresh writer, which is then finalized, are
/// read back each as it was written, in the same order, by reads in that
/// order of their lengths from a reader with nothing pending over the bytes
/// written. Strings written `Lsb0` are a byte or less each; those written
/// `Msb0` are of any length.
pub proof fn lemma_fields_roundtrip(
    ws: Seq<Writer>,
    pieces: Seq<Seq<bool>>,
    order: Order,
    wf: Writer,
    rs: Seq<Reader>,
    results: Seq<Result<Option<BitVec<u8, Msb0>>, DekuError>>,
)
    requires
        ws.len() == pieces.len() + 1,
        fresh_writer(ws[0]),
        order == Order::Lsb0 ==> forall|j: int| 0 <= j < pieces.len() ==> (#[trigger] pieces[j]).len() <= 8,
        forall|j: int|
            0 <= j < pieces.len() ==> #[trigger] bits_order_written(ws[j], ws[j + 1], pieces[j], order),
        bytes_emitted(ws.last(), wf, finalize_out(ws.last().leftover.0@, ws.last().leftover.1)),
        rs.len() == pieces.len() + 1,
        results.len() == pieces.len(),
        rs[0].pending() is None,
        rs[0].unread() == wf.inner.data(),
        forall|j: int|
            0 <= j < pieces.len() ==> #[trigger] bits_read_result(
                rs[j],
                rs[j + 1],
                pieces[j].len() as int,
                order,
                results[j],
            ),
    ensures
        forall|j: int|
            0 <= j < pieces.len() ==> ((#[trigger] results[j]) matches Ok(Some(v)) && v@ == pieces[j]),
{
    assert(pending_bits(rs[0].pending()) =~= Seq::<bool>::empty());
    match order {
        Order::Msb0 => {
            lemma_msb0_write_run_finalize(ws, pieces, wf);
            let q = pieces_bits(pieces);
            assert(msb_stream(rs[0]) =~= zero_padded(q));
            assert(zero_padded(q).take(q.len() as int) =~= q);
            lemma_msb0_reads_back(rs, results, pieces);
        },
        Order::Lsb0 => {
            lemma_lsb0_write_run_finalize(ws, pieces, wf);
            let q = pieces_bits(reversed_pieces(pieces));
            assert(Seq::<bool>::empty().reverse() =~= Seq::<bool>::empty());
            assert(lsb_stream(rs[0]) =~= zero_padded(q));
            assert(zero_padded(q).take(q.len() as int) =~= q);
            lemma_lsb0_reads_back(rs, results, pieces);
        },
    }
}

/// A read of `amt` bits `Msb0`, as its effect on the reader: it succeeds
/// exactly when the reader has that many bits, and then leaves the rest of
/// its stream and counts `amt` bits as read.
proof fn lemma_msb0_state_step(
    before: Reader,
    after: Reader,
    amt: int,
    r: Result<(), DekuError>,
)
    requires
        0 <= amt,
        bits_read_state(before, after, amt, Order::Msb0, r),
    ensures
        (r is Ok) == (amt <= msb_stream(before).len()),
        r is Ok ==> {
            &&& msb_stream(after) == msb_stream(before).skip(amt)
            &&& after.read_count() == before.read_count() + amt
        },
{
    let p = pending_bits(before.pending());
    let u = before.unread();
    let k = bytes_needed(p.len() as int, amt);
    lemma_bytes_needed_fits(p.len() as int, amt, u.len() as int);
    if amt == 0 {
        assert(msb_stream(before).skip(0) =~= msb_stream(before));
    } else if k <= u.len() {
        lemma_msb0_read_out_stream(p, u, amt);
        lemma_unread_skip(before, after, k);
        let res = read_bits_out(p, u, amt, Order::Msb0);
        if res.1.len() == 0 {
            assert(pending_bits(after.pending()) =~= res.1);
        }
        assert(pending_bits(after.pending()) == res.1);
    }
}

/// Law: skipping `amt` bits `Msb0` with nothing pending, when the reader has
/// that many bits, succeeds, counts them as read and leaves the rest of its
/// stream: the reads after it give what follows the skipped bits.
pub proof fn lemma_msb0_skip(before: Reader, after: Reader, amt: int, r: Result<(), DekuError>)
    requires
        before.pending() is None,
        0 <= amt <= msb_stream(before).len(),
        bits_skipped(before, after, amt, Order::Msb0, r),
    ensures
        r is Ok,
        msb_stream(after) == msb_stream(before).skip(amt),
        after.read_count() == before.read_count() + amt,
{
    let (m1, m2) = choose|m1: Reader, m2: Reader| #[trigger] skipped_via(before, m1, m2, after, amt, Order::Msb0, r);
    let u = before.unread();
    let bytes = amt / 8;
    let s0 = msb_stream(before);
    assert(pending_bits(before.pending()) =~= Seq::<bool>::empty());
    assert(s0 =~= bytes_bits(u));
    lemma_msb0_state_step(before, m1, 0, Ok(()));
    assert(s0.skip(0) =~= s0);
    if bytes == 0 {
        lemma_msb0_state_step(m2, after, amt % 8, r);
    } else {
        before.source().lemma_bounds();
        assert(8 * bytes <= 8 * u.len());
        assert(m1.unread() == u);
        assert(seek_target(
            m1.source().data().len() as int,
            m1.source().pos() as int,
            SeekFrom::Current(bytes as i64),
        ) == Some((m1.source().pos() + bytes) as u64));
        lemma_unread_skip(m1, m2, bytes);
        assert(u =~= u.take(bytes) + u.skip(bytes));
        lemma_bytes_bits_append(u.take(bytes), u.skip(bytes));
        assert(pending_bits(m2.pending()) =~= Seq::<bool>::empty());
        assert(msb_stream(m2) =~= s0.skip(8 * bytes));
        lemma_msb0_state_step(m2, after, amt % 8, r);
        assert(s0.skip(8 * bytes).skip(amt % 8) =~= s0.skip(amt));
    }
}

/// The stream a reader hands out in `order`: `Msb0` or `Lsb0`.
pub open spec fn stream_in(r: Reader, order: Order) -> Seq<bool> {
    match order {
        Order::Msb0 => msb_stream(r),
        Order::Lsb0 => lsb_stream(r),
    }
}

/// A read in `order`, as its effect on the reader, for reads `Msb0` of any
/// length and reads `Lsb0` of any length.
proof fn lemma_state_step(before: Reader, after: Reader, amt: int, order: Order, r: Result<(), DekuError>)
    requires
        0 <= amt,
        bits_read_state(before, after, amt, order, r),
    ensures
        (r is Ok) == (amt <= stream_in(before, order).len()),
        r is Ok ==> {
            &&& stream_in(after, order) == stream_in(before, order).skip(amt)
            &&& after.read_count() == before.read_count() + amt
        },
{
    match order {
        Order::Msb0 => lemma_msb0_state_step(before, after, amt, r),
        Order::Lsb0 => lemma_lsb0_state_step(before, after, amt, r),
    }
}

/// Law: skipping `amt` bits in either order, when the reader has that many
/// bits, succeeds, counts them as read and leaves the rest of its stream in
/// that order: a read after it gives what follows the skipped bits. This
/// holds when the skip is shorter than a byte, or nothing is pending, or the
/// pending bits are no more than the part of the skip short of whole bytes
/// (a skip of whole bytes moves the stream and drops what is pending).
pub proof fn lemma_skip(before: Reader, after: Reader, amt: int, order: Order, r: Result<(), DekuError>)
    requires
        0 <= amt <= stream_in(before, order).len(),
        amt < 8 || before.pending() is None || (before.pending() matches Some(Leftover::Bits(v))
            && v@.len() <= amt % 8),
        bits_skipped(before, after, amt, order, r),
    ensures
        r is Ok,
        stream_in(after, order) == stream_in(before, order).skip(amt),
        after.read_count() == before.read_count() + amt,
{
    let (m1, m2) = choose|m1: Reader, m2: Reader| #[trigger] skipped_via(before, m1, m2, after, amt, order, r);
    let s0 = stream_in(before, order);
    let bytes = amt / 8;
    let first = match before.pending() {
        Some(Leftover::Bits(v)) => if amt % 8 < v@.len() {
            amt % 8
        } else {
            v@.len() as int
        },
        _ => 0,
    };
    lemma_pending_len(before);
    lemma_state_step(before, m1, first, order, Ok(()));
    let s1 = stream_in(m1, order);
    assert(s1 == s0.skip(first));
    if bytes == 0 {
        lemma_state_step(m2, after, amt % 8 - first, order, r);
        assert(s0.skip(first).skip(amt % 8 - first) =~= s0.skip(amt));
    } else {
        lemma_skip_whole_bytes(before, m1, m2, after, amt, order, r, first);
    }
}

/// The part of a skip of whole bytes: when nothing is left pending after the
/// first read, the stream moves on by the whole bytes and the last read
/// takes the rest.
#[verifier::spinoff_prover]
#[verifier::rlimit(40)]
proof fn lemma_skip_whole_bytes(
    before: Reader,
    m1: Reader,
    m2: Reader,
    after: Reader,
    amt: int,
    order: Order,
    r: Result<(), DekuError>,
    first: int,
)
    requires
        0 <= first <= amt % 8,
        amt / 8 > 0,
        amt <= stream_in(before, order).len(),
        stream_in(m1, order) == stream_in(before, order).skip(first),
        m1.read_count() == before.read_count() + first,
        first == pending_bits(before.pending()).len(),
        m1.source().pos() == before.source().pos() + bytes_needed(pending_bits(before.pending()).len() as int, first),
        m1.source().data() == before.source().data(),
        skipped_via(before, m1, m2, after, amt, order, r),
    ensures
        r is Ok,
        stream_in(after, order) == stream_in(before, order).skip(amt),
        after.read_count() == before.read_count() + amt,
{
    let s0 = stream_in(before, order);
    let s1 = stream_in(m1, order);
    let bytes = amt / 8;
    lemma_pending_len(before);
    lemma_pending_len(m1);
    let p1 = pending_bits(m1.pending());
    let u1 = m1.unread();
    assert(p1.len() == 0) by {
        assert(s1.len() == s0.len() - first);
        assert(s0.len() == pending_bits(before.pending()).len() + 8 * before.unread().len());
        assert(s1.len() == p1.len() + 8 * u1.len());
        assert(m1.source().pos() == before.source().pos() + bytes_needed(
            pending_bits(before.pending()).len() as int,
            first,
        ));
    }
    m1.source().lemma_bounds();
    assert(8 * bytes <= 8 * u1.len());
    assert(seek_target(
        m1.source().data().len() as int,
        m1.source().pos() as int,
        SeekFrom::Current(bytes as i64),
    ) == Some((m1.source().pos() + bytes) as u64));
    lemma_unread_skip(m1, m2, bytes);
    assert(u1 =~= u1.take(bytes) + u1.skip(bytes));
    assert(pending_bits(m2.pending()) =~= Seq::<bool>::empty());
    assert(p1 =~= Seq::<bool>::empty());
    match order {
        Order::Msb0 => {
            lemma_bytes_bits_append(u1.take(bytes), u1.skip(bytes));
            assert(s1 =~= bytes_bits(u1));
        },
        Order::Lsb0 => {
            lemma_lsb_bits_append(u1.take(bytes), u1.skip(bytes));
            assert(p1.reverse() =~= Seq::<bool>::empty());
            assert(s1 =~= lsb_bits(u1));
            assert(Seq::<bool>::empty().reverse() =~= Seq::<bool>::empty());
        },
    }
    assert(stream_in(m2, order) =~= s1.skip(8 * bytes));
    lemma_state_step(m2, after, amt % 8 - first, order, r);
    assert(s0.skip(first).skip(8 * bytes).skip(amt % 8 - first) =~= s0.skip(amt));
}

/// Law: a check for the end that finds more to read leaves the reader's
/// streams, in both orders, and its count as they were.
pub proof fn lemma_end_keeps_streams(before: Reader, after: Reader)
    requires
        end_checked(before, after, false),
    ensures
        msb_stream(after) == msb_stream(before),
        lsb_stream(after) == lsb_stream(before),
        after.read_count() == before.read_count(),
{
    if before.pending() is None {
        let u = before.unread();
        lemma_unread_skip(before, after, 1);
        assert(u =~= seq![u[0]] + u.skip(1));
        lemma_bytes_bits_push(Seq::<u8>::empty(), u[0]);
        assert(Seq::<u8>::empty().push(u[0]) =~= seq![u[0]]);
        assert(bytes_bits(Seq::<u8>::empty()) =~= Seq::<bool>::empty());
        lemma_bytes_bits_append(seq![u[0]], u.skip(1));
        lemma_lsb_bits_append(seq![u[0]], u.skip(1));
        lemma_lsb_bits_byte(u[0]);
        assert(pending_bits(before.pending()) =~= Seq::<bool>::empty());
        assert(msb_stream(after) =~= msb_stream(before));
        assert(lsb_stream(after) =~= lsb_stream(before));
    }
}

/// Law: after a check for the end that finds more to read, a read of bits
/// `Msb0`, or `Lsb0` of a byte or less, gives just what it would have given
/// without the check: it succeeds or fails alike, hands out the same bits,
/// and leaves the same stream in its order, and the same count.
pub proof fn lemma_end_then_read(
    before: Reader,
    mid: Reader,
    amt: int,
    order: Order,
    a1: Reader,
    r1: Result<Option<BitVec<u8, Msb0>>, DekuError>,
    a2: Reader,
    r2: Result<Option<BitVec<u8, Msb0>>, DekuError>,
)
    requires
        end_checked(before, mid, false),
        0 <= amt,
        order == Order::Lsb0 ==> amt <= 8,
        bits_read_result(before, a1, amt, order, r1),
        bits_read_result(mid, a2, amt, order, r2),
    ensures
        (r1 is Ok) == (r2 is Ok),
        r1 matches Ok(Some(v1)) ==> r2 matches Ok(Some(v2)) && v1@ == v2@,
        r1 is Ok ==> a1.read_count() == a2.read_count(),
        r1 is Ok && order == Order::Msb0 ==> msb_stream(a1) == msb_stream(a2),
        r1 is Ok && order == Order::Lsb0 ==> lsb_stream(a1) == lsb_stream(a2),
{
    lemma_end_keeps_streams(before, mid);
    match order {
        Order::Msb0 => {
            lemma_msb0_read_step(before, a1, amt, r1);
            lemma_msb0_read_step(mid, a2, amt, r2);
        },
        Order::Lsb0 => {
            lemma_lsb0_read_step(before, a1, amt, r1);
            lemma_lsb0_read_step(mid, a2, amt, r2);
        },
    }
}

/// Law: after a check for the end that read a byte to find more to read, a
/// read of one or more bytes gives just what it would have given without
/// the check: it succeeds or fails alike, fills the buffer alike, and leaves
/// the same stream and count.
pub proof fn lemma_end_then_read_bytes(
    before: Reader,
    mid: Reader,
    buf: Seq<u8>,
    amt: int,
    order: Order,
    a1: Reader,
    b1: Seq<u8>,
    r1: Result<(), DekuError>,
    a2: Reader,
    b2: Seq<u8>,
    r2: Result<(), DekuError>,
)
    requires
        before.pending() is None,
        end_checked(before, mid, false),
        1 <= amt <= buf.len(),
        bytes_read(before, a1, buf, b1, amt, order, r1),
        bytes_read(mid, a2, buf, b2, amt, order, r2),
    ensures
        (r1 is Ok) == (r2 is Ok),
        r1 is Ok ==> {
            &&& b1 == b2
            &&& a1.read_count() == a2.read_count()
            &&& msb_stream(a1) == msb_stream(a2)
        },
{
    let u = before.unread();
    lemma_unread_skip(before, mid, 1);
    if amt <= u.len() {
        assert(u.take(amt) =~= seq![u[0]] + u.skip(1).take(amt - 1));
        lemma_unread_skip(before, a1, amt);
        lemma_unread_skip(mid, a2, amt - 1);
        assert(u.skip(1).skip(amt - 1) =~= u.skip(amt));
    }
}

} // verus!
