//! Properties that tie the bit writer and the bit reader together.
use crate::bits::{byte_bits, byte_of_bits, bytes_bits, lemma_byte_of_bits};
use crate::ctx::Order;
use crate::reader::{bytes_needed, lemma_rev_bytes_bits_len, read_bits_out, rev_bytes_bits};
use crate::writer::{
    finalize_out, lemma_bytes_bits_prepend, lemma_pack_bytes, lemma_pack_bytes_whole,
    lsb_lsb_out, msb_lsb_out, msb_msb_out, pack_bytes, write_bits_out,
};
use crate::bits::{BitValue, be_value, bits_value, le_value, lemma_be_value_bits, lemma_bits_value_append, lemma_bits_value_bound};
use crate::ctx::{BitSize, Endian};
use crate::error::DekuError;
use crate::impls::primitive::{bytes_value, shifted_back, width_of};
use crate::impls::primitive_write::{chunk_pieces, int_bytes, le_bytes_of, pieces_out, pieces_written};
use crate::no_std_io::{after_writes, lemma_after_writes_append};
use crate::reader::Reader;
use crate::writer::{Writer, finalized_data, fresh_writer};
use crate::{DekuReader, DekuWriter};
use vstd::arithmetic::power2::pow2;
use vstd::prelude::*;

verus! {

/// The bits of two runs of bytes are the bits of the first run and then
/// those of the second.
pub proof fn lemma_bytes_bits_append(a: Seq<u8>, b: Seq<u8>)
    ensures
        bytes_bits(a + b) == bytes_bits(a) + bytes_bits(b),
    decreases a.len(),
{
    if a.len() == 0 {
        assert(a + b =~= b);
        assert(bytes_bits(a) =~= Seq::<bool>::empty());
        assert(bytes_bits(a) + bytes_bits(b) =~= bytes_bits(b));
    } else {
        lemma_bytes_bits_append(a.drop_first(), b);
        assert(a + b =~= seq![a[0]] + (a.drop_first() + b));
        assert(a =~= seq![a[0]] + a.drop_first());
        lemma_bytes_bits_prepend(a[0], a.drop_first() + b);
        lemma_bytes_bits_prepend(a[0], a.drop_first());
    }
}

/// Packing whole bytes' worth of bits and then more packs each part.
pub proof fn lemma_pack_bytes_append(x: Seq<bool>, y: Seq<bool>)
    requires
        x.len() % 8 == 0,
    ensures
        pack_bytes(x + y) == pack_bytes(x) + pack_bytes(y),
    decreases x.len(),
{
    if x.len() == 0 {
        assert(x + y =~= y);
        assert(pack_bytes(x) =~= Seq::<u8>::empty());
        assert(pack_bytes(x) + pack_bytes(y) =~= pack_bytes(y));
    } else {
        lemma_pack_bytes_append(x.skip(8), y);
        assert((x + y).take(8) =~= x.take(8));
        assert((x + y).skip(8) =~= x.skip(8) + y);
        assert(pack_bytes(x + y) =~= pack_bytes(x) + pack_bytes(y));
    }
}

/// Bytes that hold exactly the bits `s`: `s`, then as many zero bits as fill
/// the last byte.
pub open spec fn zero_padded(s: Seq<bool>) -> Seq<bool> {
    s + Seq::new(((8 - s.len() % 8) % 8) as nat, |i: int| false)
}

/// Writing bits `Msb0` on a writer with nothing pending and then finalizing
/// writes the bits in stream order, padded with zero bits to a whole byte.
pub proof fn lemma_msb0_write_finalize(bits: Seq<bool>)
    ensures
        ({
            let out = write_bits_out(Seq::empty(), Order::Msb0, bits, Order::Msb0);
            bytes_bits(out.0 + finalize_out(out.1, Order::Msb0)) == zero_padded(bits)
        }),
{
    let out = write_bits_out(Seq::empty(), Order::Msb0, bits, Order::Msb0);
    let s = Seq::<bool>::empty() + bits;
    assert(s =~= bits);
    lemma_pack_bytes(bits);
    let q = bits.len() / 8;
    let l1 = bits.skip(8 * q as int);
    assert(out.1 == l1);
    let fin = finalize_out(l1, Order::Msb0);
    lemma_bytes_bits_append(out.0, fin);
    let zeros = Seq::new((8 - l1.len()) as nat, |i: int| false);
    if l1.len() == 0 {
        assert(fin =~= Seq::<u8>::empty());
        assert(bytes_bits(fin) =~= Seq::<bool>::empty());
        assert(bits.take(8 * q as int) =~= bits);
        assert(zero_padded(bits) =~= bits);
    } else {
        lemma_byte_of_bits(l1 + zeros);
        assert(bytes_bits(fin) =~= byte_bits(byte_of_bits(l1 + zeros)));
        assert(zero_padded(bits) =~= bits.take(8 * q as int) + (l1 + zeros));
    }
}

/// Symmetry of `Msb0`: bits written `Msb0` from an empty writer and finalized
/// are read back, `Msb0`, by a reader with nothing pending over the bytes
/// written, and the bytes suffice.
pub proof fn lemma_msb0_roundtrip(bits: Seq<bool>)
    ensures
        ({
            let out = write_bits_out(Seq::empty(), Order::Msb0, bits, Order::Msb0);
            let written = out.0 + finalize_out(out.1, Order::Msb0);
            &&& bytes_needed(0, bits.len() as int) <= written.len()
            &&& read_bits_out(Seq::empty(), written, bits.len() as int, Order::Msb0).0 == bits
        }),
{
    let out = write_bits_out(Seq::empty(), Order::Msb0, bits, Order::Msb0);
    let written = out.0 + finalize_out(out.1, Order::Msb0);
    let n = bits.len() as int;
    lemma_msb0_write_finalize(bits);
    assert(bytes_bits(written).len() == 8 * written.len());
    assert(zero_padded(bits).len() == n + (8 - n % 8) % 8);
    if n > 0 {
        let need = n;
        let k = (need + 7) / 8;
        assert(8 * written.len() == n + (8 - n % 8) % 8);
        assert(k == written.len());
        assert(written.take(k) =~= written);
        let stream = Seq::<bool>::empty() + bytes_bits(written.take(k));
        assert(stream =~= zero_padded(bits));
        assert(stream.take(n) =~= bits);
    } else {
        assert(bits =~= Seq::<bool>::empty());
        assert(Seq::<bool>::empty().take(0) =~= bits);
    }
}

/// Writing bits `Msb0` in two runs does what writing them in one run does.
pub proof fn lemma_msb0_write_concat(p: Seq<bool>, a: Seq<bool>, b: Seq<bool>)
    ensures
        ({
            let first = msb_msb_out(p, a);
            let second = msb_msb_out(first.1, b);
            let whole = msb_msb_out(p, a + b);
            &&& whole.0 == first.0 + second.0
            &&& whole.1 == second.1
        }),
{
    let s1 = p + a;
    let q1 = s1.len() / 8;
    let l1 = s1.skip(8 * q1 as int);
    let s2 = l1 + b;
    let head = s1.take(8 * q1 as int);
    assert(p + (a + b) =~= head + s2);
    lemma_pack_bytes_append(head, s2);
    lemma_pack_bytes_whole(s1);
    let t = head + s2;
    assert(8 * (t.len() / 8) == 8 * q1 + 8 * (s2.len() / 8));
    assert(t.skip((8 * (t.len() / 8)) as int) =~= s2.skip((8 * (s2.len() / 8)) as int));
}

/// Symmetry of `Lsb0` for runs of fewer than eight bits or of whole bytes:
/// bits written `Lsb0` from an empty writer and finalized are read back,
/// `Lsb0`, by a reader with nothing pending over the bytes written.
pub proof fn lemma_lsb0_roundtrip(bits: Seq<bool>)
    requires
        bits.len() < 8 || bits.len() % 8 == 0,
    ensures
        ({
            let out = write_bits_out(Seq::empty(), Order::Msb0, bits, Order::Lsb0);
            let order = if out.1.len() == 0 {
                Order::Msb0
            } else {
                Order::Lsb0
            };
            let written = out.0 + finalize_out(out.1, order);
            &&& bytes_needed(0, bits.len() as int) <= written.len()
            &&& read_bits_out(Seq::empty(), written, bits.len() as int, Order::Lsb0).0 == bits
        }),
{
    let out = write_bits_out(Seq::empty(), Order::Msb0, bits, Order::Lsb0);
    let n = bits.len() as int;
    lemma_pack_bytes(bits);
    assert(out.0 == pack_bytes(bits));
    if n == 0 {
        assert(bits =~= Seq::<bool>::empty());
        assert(Seq::<bool>::empty().skip(0) =~= bits);
    } else if n % 8 == 0 {
        let q = n / 8;
        assert(out.1 =~= Seq::<bool>::empty());
        let written = out.0 + finalize_out(out.1, Order::Msb0);
        assert(written =~= out.0);
        assert(written.take(q) =~= written);
        assert(bits.take(8 * q) =~= bits);
        let front = bytes_bits(written.take(q)) + Seq::<bool>::empty();
        assert(front + Seq::<bool>::empty() =~= bits);
    } else {
        assert(out.1 =~= bits);
        assert(pack_bytes(bits) =~= Seq::<u8>::empty());
        let zeros = Seq::new((8 - n) as nat, |i: int| false);
        let byte = byte_of_bits(zeros + bits);
        let written = out.0 + finalize_out(out.1, Order::Lsb0);
        assert(written =~= seq![byte]);
        lemma_byte_of_bits(zeros + bits);
        let tail = byte_bits(written[0]).skip(8 - n);
        assert(tail =~= bits);
        assert(written.take(0) =~= Seq::<u8>::empty());
        assert(rev_bytes_bits(written.take(0)) =~= Seq::<bool>::empty());
        assert(tail + rev_bytes_bits(written.take(0)) + Seq::<bool>::empty() =~= bits);
    }
}

/// Every bit written is either in a whole byte written out or left pending,
/// and fewer than eight are left pending.
pub proof fn lemma_writer_keeps_bits(p: Seq<bool>, p_order: Order, bits: Seq<bool>, order: Order)
    requires
        p.len() < 8,
    ensures
        8 * write_bits_out(p, p_order, bits, order).0.len() + write_bits_out(
            p,
            p_order,
            bits,
            order,
        ).1.len() == p.len() + bits.len(),
        write_bits_out(p, p_order, bits, order).1.len() < 8,
{
    crate::writer::lemma_write_bits_out_len(p, p_order, bits, order);
}

/// Reading `Msb0` in two steps reads what one read of both counts reads, and
/// leaves the same bits pending.
pub proof fn lemma_msb0_read_concat(p: Seq<bool>, u: Seq<u8>, n1: int, n2: int)
    requires
        0 <= n1,
        0 <= n2,
        p.len() <= 8,
        bytes_needed(p.len() as int, n1 + n2) <= u.len(),
    ensures
        ({
            let k1 = bytes_needed(p.len() as int, n1);
            let first = read_bits_out(p, u, n1, Order::Msb0);
            let second = read_bits_out(first.1, u.skip(k1), n2, Order::Msb0);
            let whole = read_bits_out(p, u, n1 + n2, Order::Msb0);
            &&& first.1.len() <= 8
            &&& k1 + bytes_needed(first.1.len() as int, n2) == bytes_needed(p.len() as int, n1 + n2)
            &&& whole.0 == first.0 + second.0
            &&& whole.1 == second.1
        }),
{
    let k1 = bytes_needed(p.len() as int, n1);
    let k = bytes_needed(p.len() as int, n1 + n2);
    let first = read_bits_out(p, u, n1, Order::Msb0);
    assert(k1 <= k);
    // Everything is a prefix of the stream of pending bits followed by the
    // bits of the bytes.
    let full = p + bytes_bits(u.take(k));
    assert(bytes_bits(u.take(k)).len() == 8 * k);
    lemma_bytes_bits_append(u.take(k1), u.skip(k1).take(k - k1));
    assert(u.take(k) =~= u.take(k1) + u.skip(k1).take(k - k1));
    if n1 <= p.len() {
        assert(first.0 =~= full.take(n1));
        assert(first.1 =~= p.skip(n1));
    } else {
        assert(first.0 =~= full.take(n1));
        assert(first.1 =~= (p + bytes_bits(u.take(k1))).skip(n1));
    }
    let p1 = first.1;
    let k2 = bytes_needed(p1.len() as int, n2);
    assert(p1.len() <= 8);
    assert(k1 + k2 == k);
    let second = read_bits_out(p1, u.skip(k1), n2, Order::Msb0);
    let rest = p1 + bytes_bits(u.skip(k1).take(k2));
    assert(u.skip(k1).take(k2) =~= u.skip(k1).take(k - k1));
    assert(rest =~= full.skip(n1));
    if n2 <= p1.len() {
        assert(second.0 =~= rest.take(n2));
        assert(second.1 =~= rest.skip(n2));
    } else {
        assert(second.0 =~= rest.take(n2));
        assert(second.1 =~= rest.skip(n2));
    }
    let whole = read_bits_out(p, u, n1 + n2, Order::Msb0);
    if n1 + n2 <= p.len() {
        assert(whole.0 =~= full.take(n1 + n2));
        assert(whole.1 =~= p.skip(n1 + n2));
        assert(whole.1 =~= rest.skip(n2));
    } else {
        assert(whole.0 =~= full.take(n1 + n2));
        assert(whole.1 =~= full.skip(n1 + n2));
    }
    assert(whole.0 =~= first.0 + second.0);
    assert(whole.1 =~= second.1);
}


/// The bytes of a number, least significant first, are worth the number, cut
/// to as many bytes as there are.
pub proof fn lemma_le_bytes_of_value(v: nat, w: nat)
    ensures
        le_bytes_of(v, w).len() == w,
        le_value(le_bytes_of(v, w)) == v % pow2(8 * w),
    decreases w,
{
    vstd::arithmetic::power2::lemma2_to64();
    if w == 0 {
        assert(pow2(0) == 1);
        vstd::arithmetic::div_mod::lemma_mod_bound(v as int, 1);
    } else {
        let b = le_bytes_of(v, w);
        lemma_le_bytes_of_value(v / 256, (w - 1) as nat);
        assert(b.drop_first() =~= le_bytes_of(v / 256, (w - 1) as nat));
        vstd::arithmetic::power2::lemma_pow2_adds(8, 8 * (w - 1) as nat);
        assert(8 * w == 8 + 8 * (w - 1));
        vstd::arithmetic::power2::lemma_pow2_pos(8 * (w - 1) as nat);
        vstd::arithmetic::div_mod::lemma_mod_breakdown(v as int, 256, pow2(8 * (w - 1) as nat) as int);
        assert((v % 256) as u8 as nat == v % 256);
    }
}

/// Bytes taken most significant first from the back are worth the bytes
/// taken least significant first from the front.
pub proof fn lemma_be_value_reverse(b: Seq<u8>)
    ensures
        be_value(b.reverse()) == le_value(b),
    decreases b.len(),
{
    if b.len() > 0 {
        let r = b.reverse();
        assert(r.drop_last() =~= b.drop_first().reverse());
        assert(r.last() == b[0]);
        lemma_be_value_reverse(b.drop_first());
    }
}

/// Law: an integer's bytes, in either endianness, read back in the same
/// endianness give the integer.
pub proof fn lemma_int_bytes_value(v: nat, w: nat, endian: Endian)
    requires
        v < pow2(8 * w),
    ensures
        int_bytes(v, w, endian).len() == w,
        bytes_value(int_bytes(v, w, endian), endian) == v,
{
    lemma_le_bytes_of_value(v, w);
    vstd::arithmetic::div_mod::lemma_small_mod(v, pow2(8 * w));
    lemma_be_value_reverse(le_bytes_of(v, w));
}

/// Writing `e` into an empty stream from its start leaves just `e`.
pub(crate) proof fn lemma_after_writes_empty(e: Seq<u8>)
    ensures
        after_writes(Seq::empty(), 0, e) == e,
{
    if e.len() > 0 {
        assert(crate::no_std_io::written_at(Seq::empty(), 0, e) =~= e);
    }
}

/// Moving a value of `n` bits to the top of an integer of `bits` bits and
/// back leaves it as it is when it fills the integer or its top bit is clear.
pub proof fn lemma_shifted_back_fits(v: nat, n: nat, bits: nat)
    requires
        1 <= bits,
        n <= bits,
        v < pow2(n),
        n == bits || (n >= 1 && v < pow2((n - 1) as nat)),
    ensures
        shifted_back(v, (bits - n) as nat, bits) == v,
{
    let sh = (bits - n) as nat;
    vstd::arithmetic::power2::lemma_pow2_pos(bits);
    vstd::arithmetic::power2::lemma_pow2_pos(sh);
    if n == bits {
        assert(pow2(0) == 1) by {
            vstd::arithmetic::power2::lemma2_to64();
        }
        vstd::arithmetic::div_mod::lemma_small_mod(v, pow2(bits));
    } else {
        vstd::arithmetic::power2::lemma_pow2_adds((n - 1) as nat, sh);
        assert((n - 1) as nat + sh == (bits - 1) as nat);
        let p = pow2(sh);
        let h = pow2((bits - 1) as nat);
        assert(v * p < h) by (nonlinear_arith)
            requires
                v < pow2((n - 1) as nat),
                pow2((n - 1) as nat) * p == h,
                p > 0,
        ;
        vstd::arithmetic::power2::lemma_pow2_strictly_increases((bits - 1) as nat, bits);
        vstd::arithmetic::div_mod::lemma_small_mod(v * p, pow2(bits));
        vstd::arithmetic::div_mod::lemma_div_multiples_vanish(v as int, p as int);
        assert(v * p == p * v) by (nonlinear_arith);
    }
}

/// Law: an integer written whole, in an endianness, into a fresh writer and
/// read back whole in the same endianness from the start of what was written
/// gives the integer.
pub proof fn lemma_int_endian_roundtrip<T: BitValue>(
    x: T,
    endian: Endian,
    w0: Writer,
    w1: Writer,
    r0: Reader,
    r1: Reader,
    res: Result<T, DekuError>,
)
    requires
        fresh_writer(w0),
        <T as DekuWriter<Endian>>::writes(&x, w0, w1, endian, Ok(())),
        r0.source().data() == w1.inner.data(),
        r0.source().pos() == 0,
        r0.pending() is None,
        <T as DekuReader<Endian>>::reads(r0, r1, endian, res),
    ensures
        res matches Ok(y) && y.spec_value() == x.spec_value(),
{
    x.lemma_value_bound();
    let w = width_of::<T>() as nat;
    assert(T::spec_bits() == 8 * w);
    lemma_int_bytes_value(x.spec_value(), w, endian);
    let bytes = int_bytes(x.spec_value(), w, endian);
    lemma_shifted_back_fits(x.spec_value(), T::spec_bits(), T::spec_bits());
    assert(pow2(0) == 1) by {
        vstd::arithmetic::power2::lemma2_to64();
    }
    assert(crate::no_std_io::written_at(Seq::empty(), 0, bytes) =~= bytes);
    assert(w0.inner.data() =~= Seq::<u8>::empty());
    assert(r0.unread() =~= bytes);
    assert(bytes.take(w as int) =~= bytes);
    assert(crate::impls::primitive::int_bytes_read(r0, r1, width_of::<T>(), endian, Order::Msb0, res));
    assert(bytes.len() == w);
    assert(crate::reader::bytes_read_value(r0, w as int, Order::Msb0) == bytes);
    assert(res is Ok);
    let y = res->Ok_0;
    assert(y.spec_value() == crate::impls::primitive::bytes_int_value::<T>(bytes, endian));
    assert(y.spec_value() == x.spec_value());
}

/// The low bits of a number's bits are worth the number, when it fits in
/// them.
proof fn lemma_bits_value_low(s: Seq<bool>, k: int, v: nat)
    requires
        0 <= k <= s.len(),
        bits_value(s) == v,
        v < pow2((s.len() - k) as nat),
    ensures
        bits_value(s.skip(k)) == v,
{
    let a = s.take(k);
    let b = s.skip(k);
    assert(a + b =~= s);
    lemma_bits_value_append(a, b);
    lemma_bits_value_bound(b);
    if bits_value(a) > 0 {
        let p = pow2(b.len());
        assert(bits_value(a) * p >= p) by (nonlinear_arith)
            requires
                bits_value(a) >= 1,
                p >= 0,
        ;
    }
}

/// The bits of `pieces`, one after another.
pub open spec fn pieces_bits(pieces: Seq<Seq<bool>>) -> Seq<bool>
    decreases pieces.len(),
{
    if pieces.len() == 0 {
        Seq::empty()
    } else {
        pieces_bits(pieces.drop_last()) + pieces.last()
    }
}

/// Writing runs of bits `Msb0` one after another, from nothing pending,
/// does what writing them as one run does.
pub proof fn lemma_msb0_pieces(pieces: Seq<Seq<bool>>)
    ensures
        ({
            let po = pieces_out(Seq::empty(), Order::Msb0, pieces, Order::Msb0);
            let whole = msb_msb_out(Seq::empty(), pieces_bits(pieces));
            &&& po.0 == whole.0
            &&& po.1 == whole.1
            &&& po.2 == Order::Msb0
        }),
    decreases pieces.len(),
{
    if pieces.len() == 0 {
        let e = Seq::<bool>::empty();
        assert(e + e =~= e);
        lemma_pack_bytes(e);
        assert(e.skip(0) =~= e);
    } else {
        let front = pieces.drop_last();
        lemma_msb0_pieces(front);
        lemma_msb0_write_concat(Seq::empty(), pieces_bits(front), pieces.last());
    }
}

/// A fresh writer that took runs of bits `Msb0` holds, once finalized, the
/// whole bytes of those bits and then the rest padded to a byte.
pub(crate) proof fn lemma_msb0_pieces_written(w0: Writer, w1: Writer, pieces: Seq<Seq<bool>>)
    requires
        fresh_writer(w0),
        pieces_written(w0, w1, pieces, Order::Msb0),
    ensures
        ({
            let out = write_bits_out(Seq::empty(), Order::Msb0, pieces_bits(pieces), Order::Msb0);
            finalized_data(w1) == out.0 + finalize_out(out.1, Order::Msb0)
        }),
{
    lemma_msb0_pieces(pieces);
    assert(w0.leftover.0@ =~= Seq::<bool>::empty());
    let out = write_bits_out(Seq::empty(), Order::Msb0, pieces_bits(pieces), Order::Msb0);
    let fin = finalize_out(out.1, Order::Msb0);
    assert(w0.inner.data() =~= Seq::<u8>::empty());
    lemma_after_writes_empty(out.0);
    assert(w1.inner.data() == out.0);
    assert(w1.leftover.1 == Order::Msb0);
    lemma_after_writes_append(Seq::empty(), 0, out.0, fin);
    lemma_after_writes_empty(out.0 + fin);
}

/// Law: an integer that fits in `n` bits, written big endian in `n` bits into
/// a fresh writer, then padded to a byte, and read back big endian in `n`
/// bits from the start of what was written, gives the integer; a signed one
/// must also fill the integer or leave the top of its `n` bits clear, as
/// reading sign-extends.
#[verifier::spinoff_prover]
#[verifier::rlimit(40)]
pub proof fn lemma_int_bits_roundtrip<T: BitValue>(
    x: T,
    n: usize,
    w0: Writer,
    w1: Writer,
    r0: Reader,
    r1: Reader,
    res: Result<T, DekuError>,
)
    requires
        fresh_writer(w0),
        <T as DekuWriter<(Endian, BitSize)>>::writes(&x, w0, w1, (Endian::Big, BitSize(n)), Ok(())),
        r0.source().data() == finalized_data(w1),
        r0.source().pos() == 0,
        r0.pending() is None,
        T::spec_signed() ==> n == T::spec_bits() || (n >= 1 && x.spec_value() < pow2((n - 1) as nat)),
        <T as DekuReader<(Endian, BitSize)>>::reads(r0, r1, (Endian::Big, BitSize(n)), res),
    ensures
        res matches Ok(y) && y.spec_value() == x.spec_value(),
{
    x.lemma_value_bound();
    let w = width_of::<T>() as nat;
    let v = x.spec_value();
    assert(T::spec_bits() == 8 * w);
    lemma_int_bytes_value(v, w, Endian::Big);
    let bytes = int_bytes(v, w, Endian::Big);
    let bits = bytes_bits(bytes);
    let piece = bits.skip(8 * w - n);
    // what the write put out: the piece, then the pending bits padded
    let out = write_bits_out(Seq::empty(), Order::Msb0, piece, Order::Msb0);
    let written = out.0 + finalize_out(out.1, Order::Msb0);
    assert(n <= 8 * w);
    let pieces: Seq<Seq<bool>> = seq![piece];
    assert(pieces.drop_last() =~= Seq::<Seq<bool>>::empty());
    assert(Seq::<bool>::empty() + piece =~= piece);
    assert(pieces_bits(pieces) == piece) by {
        reveal_with_fuel(pieces_bits, 2);
    }
    lemma_msb0_pieces_written(w0, w1, pieces);
    lemma_msb0_roundtrip(piece);
    assert(r0.unread() =~= written);
    // the piece is worth the value
    lemma_be_value_bits(bytes);
    lemma_bits_value_low(bits, 8 * w - n, v);
    if T::spec_signed() {
        lemma_shifted_back_fits(x.spec_value(), n as nat, T::spec_bits());
    }
}

/// The bits a little-endian write of `n` bits of the whole bytes `bits` puts
/// out: the whole bytes that `n` covers, then the low bits of the next byte
/// that make up `n`.
pub open spec fn le_bits_written(bits: Seq<bool>, n: int) -> Seq<bool> {
    let q = n / 8;
    bits.take(8 * q) + if q < bits.len() / 8 {
        bits.subrange(8 * q + 8 - n % 8, 8 * q + 8)
    } else {
        Seq::empty()
    }
}

/// The pieces of [`chunk_pieces`], one after another, are the bits of
/// [`le_bits_written`].
pub(crate) proof fn lemma_chunk_pieces_bits(bits: Seq<bool>, n: int)
    requires
        bits.len() % 8 == 0,
        0 <= n <= bits.len(),
    ensures
        pieces_bits(chunk_pieces(bits, n)) == le_bits_written(bits, n),
{
    let ps = chunk_pieces(bits, n);
    let q = n / 8;
    let w = bits.len() / 8;
    assert(q <= w);
    assert forall|i: int| 0 <= i <= q && i <= ps.len() implies #[trigger] pieces_bits(ps.take(i))
        == bits.take(8 * i) by {
        lemma_chunk_prefix(bits, n, i);
    }
    if q < w {
        assert(ps.len() == q + 1);
        assert(ps.drop_last() =~= ps.take(q));
        assert(pieces_bits(ps.take(q)) == bits.take(8 * q));
    } else {
        assert(ps.len() == q);
        assert(ps.take(q) =~= ps);
        assert(pieces_bits(ps.take(q)) == bits.take(8 * q));
        assert(bits.take(8 * q) + Seq::<bool>::empty() =~= bits.take(8 * q));
    }
}

/// The first whole-byte pieces of [`chunk_pieces`] are the first bytes' bits.
proof fn lemma_chunk_prefix(bits: Seq<bool>, n: int, i: int)
    requires
        bits.len() % 8 == 0,
        0 <= n <= bits.len(),
        0 <= i <= n / 8,
        i <= chunk_pieces(bits, n).len(),
    ensures
        pieces_bits(chunk_pieces(bits, n).take(i)) == bits.take(8 * i),
    decreases i,
{
    let ps = chunk_pieces(bits, n);
    if i == 0 {
        assert(ps.take(0) =~= Seq::<Seq<bool>>::empty());
        assert(bits.take(0) =~= Seq::<bool>::empty());
    } else {
        lemma_chunk_prefix(bits, n, i - 1);
        assert(ps.take(i).drop_last() =~= ps.take(i - 1));
        assert(ps.take(i).last() == bits.subrange(8 * (i - 1), 8 * i));
        assert(bits.take(8 * (i - 1)) + bits.subrange(8 * (i - 1), 8 * i) =~= bits.take(8 * i));
    }
}

/// The bits a little-endian write of `n` bits puts out, read back a byte at a
/// time from the front, least significant first, give the value when it fits.
pub(crate) proof fn lemma_le_bits_written_value(v: nat, w: nat, n: int)
    requires
        0 <= n <= 8 * w,
        v < pow2(n as nat),
    ensures
        le_bits_written(bytes_bits(le_bytes_of(v, w)), n).len() == n,
        crate::impls::primitive::le_pieces_value(le_bits_written(bytes_bits(le_bytes_of(v, w)), n)) == v,
    decreases w,
{
    vstd::arithmetic::power2::lemma2_to64();
    crate::bits::lemma_pow2_values();
    lemma_le_bytes_of_value(v, w);
    let bytes = le_bytes_of(v, w);
    let bits = bytes_bits(bytes);
    let flat = le_bits_written(bits, n);
    if w == 0 {
        assert(n == 0);
        assert(flat =~= Seq::<bool>::empty());
        assert(pow2(0) == 1);
    } else {
        let b0 = (v % 256) as u8;
        let rest = le_bytes_of(v / 256, (w - 1) as nat);
        assert(bytes == seq![b0] + rest);
        crate::writer::lemma_bytes_bits_prepend(b0, rest);
        assert(bits == byte_bits(b0) + bytes_bits(rest));
        if n < 8 {
            assert(flat =~= byte_bits(b0).skip(8 - n));
            vstd::arithmetic::power2::lemma_pow2_strictly_increases(n as nat, 8);
            vstd::arithmetic::div_mod::lemma_small_mod(v, 256);
            crate::bits::lemma_byte_bits_value(b0);
            lemma_bits_value_low(byte_bits(b0), 8 - n, v);
        } else {
            let flat2 = le_bits_written(bytes_bits(rest), n - 8);
            assert((n - 8) / 8 == n / 8 - 1);
            assert((n - 8) % 8 == n % 8);
            assert(flat.take(8) =~= byte_bits(b0));
            assert(flat.skip(8) =~= flat2);
            vstd::arithmetic::power2::lemma_pow2_adds(8, (n - 8) as nat);
            vstd::arithmetic::power2::lemma_pow2_pos((n - 8) as nat);
            vstd::arithmetic::div_mod::lemma_fundamental_div_mod(v as int, 256);
            vstd::arithmetic::div_mod::lemma_mod_bound(v as int, 256);
            let pp = pow2((n - 8) as nat) as int;
            let qq = v as int / 256;
            assert(qq < pp) by (nonlinear_arith)
                requires
                    v as int == 256 * qq + v as int % 256,
                    0 <= v as int % 256,
                    (v as int) < 256 * pp,
            ;
            lemma_le_bits_written_value(v / 256, (w - 1) as nat, n - 8);
            crate::bits::lemma_byte_bits_value(b0);
            vstd::arithmetic::div_mod::lemma_fundamental_div_mod(v as int, 256);
        }
    }
}

/// Law: an integer that fits in `n` bits, written little endian in `n` bits
/// into a fresh writer, then padded to a byte, and read back little endian in
/// `n` bits from the start of what was written, gives the integer; a signed
/// one must also fill the integer or leave the top of its `n` bits clear, as
/// reading sign-extends.
#[verifier::spinoff_prover]
#[verifier::rlimit(40)]
pub proof fn lemma_int_bits_le_roundtrip<T: BitValue>(
    x: T,
    n: usize,
    w0: Writer,
    w1: Writer,
    r0: Reader,
    r1: Reader,
    res: Result<T, DekuError>,
)
    requires
        fresh_writer(w0),
        <T as DekuWriter<(Endian, BitSize)>>::writes(&x, w0, w1, (Endian::Little, BitSize(n)), Ok(())),
        r0.source().data() == finalized_data(w1),
        r0.source().pos() == 0,
        r0.pending() is None,
        T::spec_signed() ==> n == T::spec_bits() || (n >= 1 && x.spec_value() < pow2((n - 1) as nat)),
        <T as DekuReader<(Endian, BitSize)>>::reads(r0, r1, (Endian::Little, BitSize(n)), res),
    ensures
        res matches Ok(y) && y.spec_value() == x.spec_value(),
{
    x.lemma_value_bound();
    let w = width_of::<T>() as nat;
    let v = x.spec_value();
    assert(T::spec_bits() == 8 * w);
    assert(n <= 8 * w);
    let bytes = int_bytes(v, w, Endian::Little);
    let bits = bytes_bits(bytes);
    lemma_le_bytes_of_value(v, w);
    let flat = le_bits_written(bits, n as int);
    if w == 1 {
        let piece = bits.skip(8 * w - n);
        let pieces: Seq<Seq<bool>> = seq![piece];
        assert(pieces.drop_last() =~= Seq::<Seq<bool>>::empty());
        assert(Seq::<bool>::empty() + piece =~= piece);
        assert(pieces_bits(pieces) == piece) by {
            reveal_with_fuel(pieces_bits, 2);
        }
        assert(piece =~= flat);
        lemma_msb0_pieces_written(w0, w1, pieces);
    } else {
        lemma_chunk_pieces_bits(bits, n as int);
        lemma_msb0_pieces_written(w0, w1, chunk_pieces(bits, n as int));
    }
    lemma_le_bits_written_value(v, w, n as int);
    let out = write_bits_out(Seq::empty(), Order::Msb0, flat, Order::Msb0);
    let written = out.0 + finalize_out(out.1, Order::Msb0);
    lemma_msb0_roundtrip(flat);
    assert(r0.unread() =~= written);
    if T::spec_signed() {
        lemma_shifted_back_fits(x.spec_value(), n as nat, T::spec_bits());
    }
}
} // verus!
