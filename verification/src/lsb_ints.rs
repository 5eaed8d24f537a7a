//! Laws for integers written and read a bit at a time from the least
//! significant end (`Lsb0`): what such bits are worth, and that an integer
//! written so is read back.
use crate::bits::{bits_value, byte_bits, bytes_bits, le_value, lemma_bits_value_append, lsb_bits};
use crate::bits::BitValue;
use crate::ctx::{BitSize, Endian, Order};
use crate::error::DekuError;
use crate::impls::primitive::{bits_int_read_value, bits_taken, le_pieces_value, lsb_int_value, read_int_value, width_of};
use crate::impls::primitive_write::{chunk_pieces, int_bytes, le_bytes_of, pieces_out, pieces_written};
use crate::no_std_io::lemma_after_writes_append;
use crate::properties::{
    le_bits_written, lemma_after_writes_empty, lemma_chunk_pieces_bits, lemma_le_bits_written_value,
    pieces_bits, zero_padded,
};
use crate::reader::{Reader, pending_bits, read_bits_out};
use crate::runs::{lemma_lsb0_finalize, lemma_lsb0_pieces_out, lemma_lsb0_read_out_any, lemma_lsb0_state_step, lsb_stream, reversed_pieces};
use crate::writer::{Writer, finalize_out, finalized_data, fresh_writer};
use crate::{DekuReader, DekuWriter};
use vstd::arithmetic::power2::pow2;
use vstd::prelude::*;

verus! {

/// The value of bits taken least significant first.
pub open spec fn lsb_first_value(s: Seq<bool>) -> nat {
    bits_value(s.reverse())
}

/// `n` zero bits.
pub open spec fn zero_bits(n: nat) -> Seq<bool> {
    Seq::new(n, |i: int| false)
}

/// Zero bits are worth nothing.
proof fn lemma_bits_value_zeros(n: nat)
    ensures
        bits_value(zero_bits(n)) == 0,
    decreases n,
{
    if n > 0 {
        assert(zero_bits(n).drop_last() =~= zero_bits((n - 1) as nat));
        lemma_bits_value_zeros((n - 1) as nat);
    }
}

/// Zero bits in front do not change a value taken most significant first.
proof fn lemma_bits_value_leading_zeros(n: nat, t: Seq<bool>)
    ensures
        bits_value(zero_bits(n) + t) == bits_value(t),
{
    lemma_bits_value_append(zero_bits(n), t);
    lemma_bits_value_zeros(n);
    assert(bits_value(zero_bits(n)) * pow2(t.len()) == 0);
}

/// Bytes taken least significant first, as bits each least significant
/// first, are worth their little-endian value.
proof fn lemma_le_value_lsb_bits(d: Seq<u8>)
    ensures
        le_value(d) == lsb_first_value(lsb_bits(d)),
    decreases d.len(),
{
    if d.len() == 0 {
        assert(lsb_bits(d).reverse() =~= Seq::<bool>::empty());
    } else {
        let rest = d.drop_first();
        lemma_le_value_lsb_bits(rest);
        assert(d =~= seq![d[0]] + rest);
        crate::runs::lemma_lsb_bits_append(seq![d[0]], rest);
        crate::runs::lemma_lsb_bits_byte(d[0]);
        assert(byte_bits(d[0]).reverse().reverse() =~= byte_bits(d[0]));
        assert(lsb_bits(d).reverse() =~= lsb_bits(rest).reverse() + byte_bits(d[0]));
        lemma_bits_value_append(lsb_bits(rest).reverse(), byte_bits(d[0]));
        crate::bits::lemma_byte_bits_value(d[0]);
        crate::bits::lemma_pow2_values();
    }
}

/// Bytes' bits, taken a byte at a time from the front, least significant
/// byte first, are worth the bytes' little-endian value.
proof fn lemma_le_pieces_bytes(d: Seq<u8>)
    ensures
        crate::impls::primitive::le_pieces_value(bytes_bits(d)) == le_value(d),
    decreases d.len(),
{
    if d.len() == 0 {
        assert(bytes_bits(d) =~= Seq::<bool>::empty());
        assert(bits_value(Seq::<bool>::empty()) == 0);
    } else {
        let rest = d.drop_first();
        lemma_le_pieces_bytes(rest);
        assert(d =~= seq![d[0]] + rest);
        crate::writer::lemma_bytes_bits_prepend(d[0], rest);
        let b = bytes_bits(d);
        assert(b.take(8) =~= byte_bits(d[0]));
        assert(b.skip(8) =~= bytes_bits(rest));
        crate::bits::lemma_byte_bits_value(d[0]);
    }
}

/// Trailing zero bytes do not change a little-endian value.
proof fn lemma_le_value_trailing_zeros(d: Seq<u8>, n: nat)
    ensures
        le_value(d + Seq::new(n, |i: int| 0u8)) == le_value(d),
    decreases d.len(), n,
{
    let z = Seq::new(n, |i: int| 0u8);
    if d.len() == 0 {
        assert(d + z =~= z);
        if n > 0 {
            assert(z.drop_first() =~= Seq::new((n - 1) as nat, |i: int| 0u8));
            lemma_le_value_trailing_zeros(d, (n - 1) as nat);
            assert(Seq::<u8>::empty() + Seq::new((n - 1) as nat, |i: int| 0u8) =~= Seq::new(
                (n - 1) as nat,
                |i: int| 0u8,
            ));
        }
    } else {
        lemma_le_value_trailing_zeros(d.drop_first(), n);
        assert((d + z).drop_first() =~= d.drop_first() + z);
    }
}

/// Bytes' bits, each least significant first, read backwards and packed
/// from the back, give the bytes.
proof fn lemma_pack_rev_lsb(d: Seq<u8>)
    ensures
        crate::writer::pack_bytes_rev(lsb_bits(d).reverse()) == d,
    decreases d.len(),
{
    let s = lsb_bits(d).reverse();
    if d.len() == 0 {
        assert(s =~= Seq::<bool>::empty());
        assert(crate::writer::pack_bytes_rev(s) =~= d);
    } else {
        let rest = d.drop_first();
        lemma_pack_rev_lsb(rest);
        assert(d =~= seq![d[0]] + rest);
        crate::runs::lemma_lsb_bits_append(seq![d[0]], rest);
        crate::runs::lemma_lsb_bits_byte(d[0]);
        assert(byte_bits(d[0]).reverse().reverse() =~= byte_bits(d[0]));
        assert(s =~= lsb_bits(rest).reverse() + byte_bits(d[0]));
        assert(s.skip(s.len() - 8) =~= byte_bits(d[0]));
        assert(s.take(s.len() - 8) =~= lsb_bits(rest).reverse());
        crate::bits::lemma_byte_bits_packed(d[0]);
        assert(crate::writer::pack_bytes_rev(s) =~= d);
    }
}

/// Bits taken a byte at a time from the front, a whole number of bytes and
/// then more: the value of the first part, and the value of the rest above it.
proof fn lemma_le_pieces_append(a: Seq<bool>, z: Seq<bool>)
    requires
        a.len() % 8 == 0,
    ensures
        crate::impls::primitive::le_pieces_value(a + z) == crate::impls::primitive::le_pieces_value(a)
            + pow2(a.len()) * crate::impls::primitive::le_pieces_value(z),
    decreases a.len(),
{
    if a.len() == 0 {
        assert(a + z =~= z);
        vstd::arithmetic::power2::lemma2_to64();
    } else {
        let a2 = a.skip(8);
        lemma_le_pieces_append(a2, z);
        assert((a + z).take(8) =~= a.take(8));
        assert((a + z).skip(8) =~= a2 + z);
        vstd::arithmetic::power2::lemma_pow2_adds(8, a2.len());
        crate::bits::lemma_pow2_values();
        let x = bits_value(a.take(8));
        let la = crate::impls::primitive::le_pieces_value(a2);
        let lz = crate::impls::primitive::le_pieces_value(z);
        let p = pow2(a2.len());
        assert(256 * (la + p * lz) == 256 * la + (256 * p) * lz) by (nonlinear_arith);
    }
}

/// Pieces that are whole bytes but for the last, each reversed and put one
/// after another, are worth, least significant bit first, what the pieces in
/// order are worth a byte at a time from the front.
#[verifier::rlimit(40)]
proof fn lemma_reversed_pieces_value(ps: Seq<Seq<bool>>)
    requires
        forall|i: int| 0 <= i < ps.len() ==> (#[trigger] ps[i]).len() <= 8,
        forall|i: int| 0 <= i < ps.len() - 1 ==> (#[trigger] ps[i]).len() == 8,
    ensures
        lsb_first_value(pieces_bits(crate::runs::reversed_pieces(ps))) == crate::impls::primitive::le_pieces_value(
            pieces_bits(ps),
        ),
        pieces_bits(crate::runs::reversed_pieces(ps)).len() == pieces_bits(ps).len(),
    decreases ps.len(),
{
    let rps = crate::runs::reversed_pieces(ps);
    if ps.len() == 0 {
        assert(pieces_bits(rps).reverse() =~= Seq::<bool>::empty());
    } else {
        let front = ps.drop_last();
        let x = ps.last();
        assert forall|i: int| 0 <= i < front.len() implies (#[trigger] front[i]).len() <= 8 by {
            assert(ps[i].len() <= 8);
        }
        assert forall|i: int| 0 <= i < front.len() - 1 implies (#[trigger] front[i]).len() == 8 by {
            assert(ps[i].len() == 8);
        }
        lemma_reversed_pieces_value(front);
        lemma_front_bytes(ps);
        assert(rps.drop_last() =~= crate::runs::reversed_pieces(front));
        let rf = pieces_bits(crate::runs::reversed_pieces(front));
        let af = pieces_bits(front);
        assert(pieces_bits(rps) == rf + x.reverse());
        assert(pieces_bits(ps) == af + x);
        lemma_piece_value(af, rf, x);
    }
}

/// The pieces before the last are whole bytes.
proof fn lemma_front_bytes(ps: Seq<Seq<bool>>)
    requires
        ps.len() > 0,
        forall|i: int| 0 <= i < ps.len() - 1 ==> (#[trigger] ps[i]).len() == 8,
    ensures
        pieces_bits(ps.drop_last()).len() == 8 * (ps.len() - 1),
    decreases ps.len(),
{
    let front = ps.drop_last();
    if front.len() > 0 {
        assert forall|i: int| 0 <= i < front.len() - 1 implies (#[trigger] front[i]).len() == 8 by {
            assert(ps[i].len() == 8);
        }
        lemma_front_bytes(front);
        assert(front[front.len() - 1].len() == 8);
        assert(pieces_bits(front) == pieces_bits(front.drop_last()) + front.last());
    }
}

/// One more piece `x` of a byte or less after whole bytes `af`, reversed as
/// `rf`, adds its value above them.
proof fn lemma_piece_value(af: Seq<bool>, rf: Seq<bool>, x: Seq<bool>)
    requires
        af.len() % 8 == 0,
        rf.len() == af.len(),
        x.len() <= 8,
        lsb_first_value(rf) == crate::impls::primitive::le_pieces_value(af),
    ensures
        lsb_first_value(rf + x.reverse()) == crate::impls::primitive::le_pieces_value(af + x),
{
    assert((rf + x.reverse()).reverse() =~= x + rf.reverse());
    lemma_bits_value_append(x, rf.reverse());
    lemma_le_pieces_append(af, x);
    if x.len() == 8 {
        assert(x.take(8) =~= x);
        assert(x.skip(8) =~= Seq::<bool>::empty());
        assert(bits_value(x.skip(8)) == 0);
        assert(crate::impls::primitive::le_pieces_value(x.skip(8)) == 0);
    }
    assert(crate::impls::primitive::le_pieces_value(x) == bits_value(x));
    let bx = bits_value(x);
    let pw = pow2(af.len());
    assert(bx * pw == pw * bx) by (nonlinear_arith);
}

/// The pieces a little-endian integer's bits go out in, `Lsb0`: whole bytes
/// but for the last, each a byte or less.
proof fn lemma_chunk_piece_lens(bits: Seq<bool>, n: int)
    requires
        bits.len() % 8 == 0,
        0 <= n <= bits.len(),
    ensures
        forall|i: int| 0 <= i < chunk_pieces(bits, n).len() ==> (#[trigger] chunk_pieces(bits, n)[i]).len() <= 8,
        forall|i: int| 0 <= i < chunk_pieces(bits, n).len() - 1 ==> (#[trigger] chunk_pieces(bits, n)[i]).len() == 8,
{
}

/// What a fresh writer holds, once finalized, after taking `pieces` in
/// `order`.
proof fn lemma_fresh_finalized(w0: Writer, w1: Writer, pieces: Seq<Seq<bool>>, order: Order)
    requires
        fresh_writer(w0),
        pieces_written(w0, w1, pieces, order),
    ensures
        ({
            let po = pieces_out(Seq::empty(), Order::Msb0, pieces, order);
            finalized_data(w1) == po.0 + finalize_out(po.1, po.2)
        }),
{
    let po = pieces_out(Seq::empty(), Order::Msb0, pieces, order);
    assert(w0.leftover.0@ =~= Seq::<bool>::empty());
    assert(w0.inner.data() =~= Seq::<u8>::empty());
    let fin = finalize_out(po.1, po.2);
    lemma_after_writes_empty(po.0);
    lemma_after_writes_append(Seq::empty(), 0, po.0, fin);
    lemma_after_writes_empty(po.0 + fin);
}

/// What a fresh writer holds, once finalized, after an integer is written
/// little endian in `n` bits `Lsb0`: bytes whose bits, each least
/// significant first, are the integer's low `n` bits, least significant
/// first, then zero bits to a whole byte.
proof fn lemma_lsb0_int_written<T: BitValue>(x: T, n: usize, w0: Writer, w1: Writer) -> (q: Seq<bool>)
    requires
        x.spec_value() < pow2(n as nat),
        fresh_writer(w0),
        <T as DekuWriter<(Endian, BitSize, Order)>>::writes(
            &x,
            w0,
            w1,
            (Endian::Little, BitSize(n), Order::Lsb0),
            Ok(()),
        ),
    ensures
        lsb_bits(finalized_data(w1)) == zero_padded(q),
        q.len() == n,
        lsb_first_value(q) == x.spec_value(),
        n <= T::spec_bits(),
{
    x.lemma_value_bound();
    let w = width_of::<T>() as nat;
    let v = x.spec_value();
    assert(T::spec_bits() == 8 * w);
    assert(n <= 8 * w);
    let bytes = int_bytes(v, w, Endian::Little);
    assert(bytes == le_bytes_of(v, w));
    crate::properties::lemma_le_bytes_of_value(v, w);
    let bits = bytes_bits(bytes);
    assert(bits.len() == 8 * w);
    let ps = chunk_pieces(bits, n as int);
    if w == 1 {
        assert(seq![bits.skip(8 * w - n)] =~= ps);
    }
    assert(pieces_written(w0, w1, ps, Order::Lsb0));
    lemma_chunk_piece_lens(bits, n as int);
    lemma_lsb0_pieces_out(ps);
    lemma_fresh_finalized(w0, w1, ps, Order::Lsb0);
    let po = pieces_out(Seq::empty(), Order::Msb0, ps, Order::Lsb0);
    let q = pieces_bits(reversed_pieces(ps));
    lemma_lsb0_finalize(po.0, po.1, po.2, q);
    lemma_reversed_pieces_value(ps);
    lemma_chunk_pieces_bits(bits, n as int);
    lemma_le_bits_written_value(v, w, n as int);
    q
}

/// Bytes whose bits, each least significant first, are `q` then zero bits to
/// a whole byte, read `Lsb0` in `q.len()` bits from the start for an
/// unsigned integer of `w` bytes, little endian, are worth what `q` is
/// worth least significant bit first; unless the read is of a whole number
/// of bytes, more than one and fewer than `w`.
#[verifier::rlimit(40)]
proof fn lemma_lsb0_read_value(d: Seq<u8>, q: Seq<bool>, w: int)
    requires
        lsb_bits(d) == zero_padded(q),
        1 <= q.len() <= 8 * w,
        q.len() % 8 != 0 || q.len() <= 8 || q.len() == 8 * w,
    ensures
        read_int_value(read_bits_out(Seq::empty(), d, q.len() as int, Order::Lsb0).0, w, Endian::Little, Order::Lsb0)
            == lsb_first_value(q),
{
    let n = q.len() as int;
    assert(8 * d.len() == zero_padded(q).len());
    assert(zero_padded(q).take(n) =~= q);
    assert(Seq::<bool>::empty().reverse() =~= Seq::<bool>::empty());
    assert(Seq::<bool>::empty().reverse() + lsb_bits(d) =~= lsb_bits(d));
    lemma_lsb0_read_out_any(Seq::empty(), d, n);
    let s = read_bits_out(Seq::<bool>::empty(), d, n, Order::Lsb0).0;
    if n % 8 == 0 {
        assert(d.len() == n / 8);
        assert(d.take(n / 8) =~= d);
        assert(zero_padded(q) =~= q);
        assert(lsb_bits(d).subrange(n, n).reverse() =~= Seq::<bool>::empty());
        assert(s =~= bytes_bits(d));
        lemma_le_pieces_bytes(d);
        lemma_le_value_lsb_bits(d);
    } else {
        assert(s =~= q.reverse());
        if n < 8 {
            assert(le_pieces_value(s) == bits_value(s));
        } else {
            let pad = ((8 - s.len() % 8) % 8) as nat;
            let padded = Seq::new(pad, |i: int| false) + s;
            assert(zero_padded(q) =~= q + zero_bits(pad));
            assert(padded =~= lsb_bits(d).reverse());
            lemma_pack_rev_lsb(d);
            assert(padded.len() / 8 == d.len());
            lemma_le_value_trailing_zeros(d, (w - padded.len() / 8) as nat);
            lemma_le_value_lsb_bits(d);
            assert(lsb_bits(d).reverse() =~= zero_bits(pad) + q.reverse());
            lemma_bits_value_leading_zeros(pad, q.reverse());
            assert(lsb_int_value(s, w, Endian::Little) == le_value(d));
        }
    }
}

/// Law: an unsigned integer that fits in `n` bits, written little endian in
/// `n` bits `Lsb0` into a fresh writer, then padded to a byte, and read back
/// little endian in `n` bits `Lsb0` from the start of what was written, gives
/// the integer. This holds for every size but a whole number of bytes that is
/// more than one and less than the integer's width: such a read hands out its
/// bytes in stream order, and they are then taken a byte at a time from the
/// back.
pub proof fn lemma_int_bits_lsb0_roundtrip<T: BitValue>(
    x: T,
    n: usize,
    w0: Writer,
    w1: Writer,
    r0: Reader,
    r1: Reader,
    res: Result<T, DekuError>,
)
    requires
        !T::spec_signed(),
        1 <= n,
        x.spec_value() < pow2(n as nat),
        n % 8 != 0 || n <= 8 || n == T::spec_bits(),
        fresh_writer(w0),
        <T as DekuWriter<(Endian, BitSize, Order)>>::writes(
            &x,
            w0,
            w1,
            (Endian::Little, BitSize(n), Order::Lsb0),
            Ok(()),
        ),
        r0.source().data() == finalized_data(w1),
        r0.source().pos() == 0,
        r0.pending() is None,
        <T as DekuReader<(Endian, BitSize, Order)>>::reads(
            r0,
            r1,
            (Endian::Little, BitSize(n), Order::Lsb0),
            res,
        ),
    ensures
        res matches Ok(y) && y.spec_value() == x.spec_value(),
{
    x.lemma_value_bound();
    let w = width_of::<T>();
    let q = lemma_lsb0_int_written(x, n, w0, w1);
    let d = finalized_data(w1);
    assert(T::spec_bits() == 8 * w);
    assert(r0.unread() =~= d);
    assert(pending_bits(r0.pending()) =~= Seq::<bool>::empty());
    assert(Seq::<bool>::empty().reverse() =~= Seq::<bool>::empty());
    assert(lsb_stream(r0) =~= lsb_bits(d));
    assert(8 * d.len() == zero_padded(q).len());
    lemma_lsb0_state_step(r0, r1, n as int, crate::reader::unit_result(res));
    assert(res is Ok);
    lemma_lsb0_read_value(d, q, w);
    assert(bits_taken(r0, n as int, Order::Lsb0) == read_bits_out(Seq::<bool>::empty(), d, n as int, Order::Lsb0).0);
}

} // verus!
