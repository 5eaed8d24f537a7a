//! Writer for writer functions
use crate::bits::{BitSlice, Msb0, byte_bits, byte_of_bits, bytes_bits, lemma_byte_of_bits};
use crate::bounded::BoundedBitVec;
use crate::ctx::Order;
use crate::error::{DekuError, described, exceeds, spec_described, spec_exceeds, spec_usize_text, usize_text};
use crate::no_std_io::{Cursor, ErrorKind, SeekFrom, after_writes, lemma_after_writes_append};
use crate::reader::rev_bytes_bits;
use vstd::prelude::*;

verus! {

/// The whole bytes of `s`, taken from the front: each byte holds eight bits,
/// most significant first, and a last partial byte is left out.
pub open spec fn pack_bytes(s: Seq<bool>) -> Seq<u8>
    decreases s.len(),
{
    if s.len() < 8 {
        Seq::empty()
    } else {
        seq![byte_of_bits(s.take(8))] + pack_bytes(s.skip(8))
    }
}

/// The whole bytes of `s`, taken from the back: the first byte holds the last
/// eight bits, and a first partial byte is left out.
pub open spec fn pack_bytes_rev(s: Seq<bool>) -> Seq<u8>
    decreases s.len(),
{
    if s.len() < 8 {
        Seq::empty()
    } else {
        seq![byte_of_bits(s.skip(s.len() - 8))] + pack_bytes_rev(s.take(s.len() - 8))
    }
}

/// Packing from the front makes one byte per eight bits, and their bits are
/// the whole bytes' worth of `s`.
pub proof fn lemma_pack_bytes(s: Seq<bool>)
    ensures
        pack_bytes(s).len() == s.len() / 8,
        bytes_bits(pack_bytes(s)) == s.take((8 * (s.len() / 8)) as int),
    decreases s.len(),
{
    if s.len() < 8 {
        assert(s.take(0) =~= Seq::<bool>::empty());
        assert(bytes_bits(Seq::<u8>::empty()) =~= Seq::<bool>::empty());
    } else {
        let t = s.skip(8);
        lemma_pack_bytes(t);
        lemma_byte_of_bits(s.take(8));
        let b = byte_of_bits(s.take(8));
        let rest = pack_bytes(t);
        assert(pack_bytes(s) == seq![b] + rest);
        lemma_bytes_bits_prepend(b, rest);
        assert(s.take((8 * (s.len() / 8)) as int) =~= s.take(8) + t.take((8 * (t.len() / 8)) as int));
    }
}

/// The bits of byte `b` followed by bytes `s`.
pub proof fn lemma_bytes_bits_prepend(b: u8, s: Seq<u8>)
    ensures
        bytes_bits(seq![b] + s) == byte_bits(b) + bytes_bits(s),
{
    let l = bytes_bits(seq![b] + s);
    let r = byte_bits(b) + bytes_bits(s);
    assert forall|i: int| 0 <= i < l.len() implies #[trigger] l[i] == r[i] by {
        if i >= 8 {
            assert((i - 8) / 8 == i / 8 - 1);
            assert((i - 8) % 8 == i % 8);
        }
    }
    assert(l =~= r);
}

/// Packing from the back makes one byte per eight bits; read last byte first,
/// their bits are `s` without its first partial byte.
pub proof fn lemma_pack_bytes_rev(s: Seq<bool>)
    ensures
        pack_bytes_rev(s).len() == s.len() / 8,
        rev_bytes_bits(pack_bytes_rev(s)) == s.skip((s.len() % 8) as int),
    decreases s.len(),
{
    if s.len() < 8 {
        assert(s.skip(s.len() as int) =~= Seq::<bool>::empty());
        assert(rev_bytes_bits(Seq::<u8>::empty()) =~= Seq::<bool>::empty());
    } else {
        let t = s.take(s.len() - 8);
        lemma_pack_bytes_rev(t);
        lemma_byte_of_bits(s.skip(s.len() - 8));
        let b = byte_of_bits(s.skip(s.len() - 8));
        let rest = pack_bytes_rev(t);
        assert(pack_bytes_rev(s) == seq![b] + rest);
        assert((seq![b] + rest).drop_first() =~= rest);
        assert(rev_bytes_bits(seq![b] + rest) == rev_bytes_bits(rest) + byte_bits(b));
        assert(((t.len() % 8) as int) == ((s.len() % 8) as int)) by {
            assert(t.len() == s.len() - 8);
        }
        assert(s.skip((s.len() % 8) as int) =~= t.skip((t.len() % 8) as int) + s.skip(s.len() - 8));
    }
}

/// Packing one more byte's worth of bits from the front adds one byte at the end.
pub proof fn lemma_pack_bytes_step(s: Seq<bool>, k: int)
    requires
        0 <= k,
        8 * (k + 1) <= s.len(),
    ensures
        pack_bytes(s.take(8 * (k + 1))) == pack_bytes(s.take(8 * k)).push(
            byte_of_bits(s.subrange(8 * k, 8 * k + 8)),
        ),
    decreases k,
{
    let u = s.take(8 * (k + 1));
    if k == 0 {
        assert(u.take(8) =~= s.subrange(0, 8));
        assert(u.skip(8) =~= Seq::<bool>::empty());
        assert(s.take(0) =~= Seq::<bool>::empty());
        assert(pack_bytes(u) =~= pack_bytes(s.take(0)).push(byte_of_bits(s.subrange(0, 8))));
    } else {
        let t = s.skip(8);
        lemma_pack_bytes_step(t, k - 1);
        assert(u.take(8) =~= s.take(8));
        assert(u.skip(8) =~= t.take(8 * k));
        let v = s.take(8 * k);
        assert(v.take(8) =~= s.take(8));
        assert(v.skip(8) =~= t.take(8 * (k - 1)));
        assert(t.subrange(8 * (k - 1), 8 * (k - 1) + 8) =~= s.subrange(8 * k, 8 * k + 8));
        assert(pack_bytes(u) =~= pack_bytes(v).push(byte_of_bits(s.subrange(8 * k, 8 * k + 8))));
    }
}

/// Packing from the front ignores a last partial byte.
pub proof fn lemma_pack_bytes_whole(s: Seq<bool>)
    ensures
        pack_bytes(s) == pack_bytes(s.take((8 * (s.len() / 8)) as int)),
    decreases s.len(),
{
    if s.len() < 8 {
        assert(s.take(0) =~= Seq::<bool>::empty());
    } else {
        let w = s.take((8 * (s.len() / 8)) as int);
        lemma_pack_bytes_whole(s.skip(8));
        assert(w.take(8) =~= s.take(8));
        assert(w.skip(8) =~= s.skip(8).take((8 * (s.skip(8).len() / 8)) as int));
    }
}

/// Eight bits in front of whole bytes, packed from the back, come out last.
pub proof fn lemma_pack_bytes_rev_prepend(c: Seq<bool>, v: Seq<bool>)
    requires
        c.len() == 8,
        v.len() % 8 == 0,
    ensures
        pack_bytes_rev(c + v) == pack_bytes_rev(v).push(byte_of_bits(c)),
    decreases v.len(),
{
    let u = c + v;
    if v.len() == 0 {
        assert(u =~= c);
        assert(u.skip(0) =~= c);
        assert(u.take(0) =~= Seq::<bool>::empty());
        assert(pack_bytes_rev(Seq::<bool>::empty()) =~= Seq::<u8>::empty());
        assert(v =~= Seq::<bool>::empty());
        assert(pack_bytes_rev(u) == seq![byte_of_bits(u.skip(0))] + pack_bytes_rev(u.take(0)));
        assert(pack_bytes_rev(u) =~= pack_bytes_rev(v).push(byte_of_bits(c)));
    } else {
        let v2 = v.take(v.len() - 8);
        lemma_pack_bytes_rev_prepend(c, v2);
        assert(u.skip(u.len() - 8) =~= v.skip(v.len() - 8));
        assert(u.take(u.len() - 8) =~= c + v2);
        assert(pack_bytes_rev(u) =~= pack_bytes_rev(v).push(byte_of_bits(c)));
    }
}

/// Packing from the back ignores a first partial byte.
pub proof fn lemma_pack_bytes_rev_whole(s: Seq<bool>)
    ensures
        pack_bytes_rev(s) == pack_bytes_rev(s.skip((s.len() % 8) as int)),
    decreases s.len(),
{
    let w = s.skip((s.len() % 8) as int);
    if s.len() < 8 {
        assert(w =~= Seq::<bool>::empty());
    } else {
        let t = s.take(s.len() - 8);
        lemma_pack_bytes_rev_whole(t);
        assert(t.len() % 8 == (s.len() % 8) as int);
        assert(w.skip(w.len() - 8) =~= s.skip(s.len() - 8));
        assert(w.take(w.len() - 8) =~= t.skip((t.len() % 8) as int));
    }
}

/// The number of significant bits of `value`: its bit length.
pub open spec fn significant_bits(value: u64) -> int {
    64 - vstd::std_specs::bits::u64_leading_zeros(value)
}

/// The message for a value of `significant` bits that does not fit in
/// `bits` bits; `ordered` picks the wording.
pub open spec fn bit_size_message(ordered: bool, significant: usize, bits: usize) -> Seq<char> {
    let desc = if ordered {
        "bit size of input is larger than requested size"@
    } else {
        "bit size of input is larger than bit requested size"@
    };
    spec_described(desc, spec_exceeds(spec_usize_text(significant), spec_usize_text(bits)))
}

/// Errors unless `value` fits in `bits` bits.
///
/// `ORDERED` picks the wording of the message.
pub fn check_bit_size<const ORDERED: bool>(value: u64, bits: usize) -> (r: Result<(), DekuError>)
    ensures
        r is Ok <==> (bits >= 64 || value >> (bits as u64) == 0),
        r matches Err(e) ==> e matches DekuError::InvalidParam(msg) && msg@ == bit_size_message(
            ORDERED,
            significant_bits(value) as usize,
            bits,
        ),
{
    if bits >= 64 || (value >> (bits as u64)) == 0 {
        return Ok(());
    }
    Err(bit_size_error::<ORDERED>(value, bits))
}

/// The error for a value that does not fit in `bits` bits.
fn bit_size_error<const ORDERED: bool>(value: u64, bits: usize) -> (r: DekuError)
    ensures
        r matches DekuError::InvalidParam(msg) && msg@ == bit_size_message(
            ORDERED,
            significant_bits(value) as usize,
            bits,
        ),
{
    proof {
        vstd::std_specs::bits::axiom_u64_leading_zeros(value);
    }
    let significant = (64 - value.leading_zeros()) as usize;
    let detail = exceeds(usize_text(significant).as_str(), usize_text(bits).as_str());
    let msg = if ORDERED {
        described("bit size of input is larger than requested size", detail.as_str())
    } else {
        described("bit size of input is larger than bit requested size", detail.as_str())
    };
    DekuError::InvalidParam(msg)
}

/// `after` is `before` with the bytes `e` written, one at a time, at its
/// position.
pub open spec fn stream_written(before: Cursor, after: Cursor, e: Seq<u8>) -> bool {
    &&& after.data() == after_writes(before.data(), before.pos() as int, e)
    &&& after.pos() == before.pos() + e.len()
}

/// `after` is `before` with the bytes `e` written to its stream and their bits
/// counted as written.
pub open spec fn bytes_emitted(before: Writer, after: Writer, e: Seq<u8>) -> bool {
    &&& stream_written(before.inner, after.inner, e)
    &&& after.bits_written == before.bits_written + 8 * e.len()
}

/// Two emissions in turn make one.
pub proof fn lemma_bytes_emitted_append(a: Writer, b: Writer, c: Writer, e1: Seq<u8>, e2: Seq<u8>)
    requires
        bytes_emitted(a, b, e1),
        bytes_emitted(b, c, e2),
    ensures
        bytes_emitted(a, c, e1 + e2),
{
    lemma_after_writes_append(a.inner.data(), a.inner.pos() as int, e1, e2);
}

/// The smaller of `a` and `b`.
pub open spec fn smaller(a: int, b: int) -> int {
    if a < b {
        a
    } else {
        b
    }
}

/// Pending `Msb0` bits `p`, then `bits` written `Msb0`: all of them in stream
/// order, whole bytes out and the rest pending.
pub open spec fn msb_msb_out(p: Seq<bool>, bits: Seq<bool>) -> (Seq<u8>, Seq<bool>) {
    let s = p + bits;
    (pack_bytes(s), s.skip((8 * (s.len() / 8)) as int))
}

/// Pending `Lsb0` bits `p`, then `bits` written `Lsb0`: the new bits go in
/// front of the pending ones, and whole bytes come off the back.
pub open spec fn lsb_lsb_out(p: Seq<bool>, bits: Seq<bool>) -> (Seq<u8>, Seq<bool>) {
    let t = bits + p;
    (pack_bytes_rev(t), t.take((t.len() % 8) as int))
}

/// Pending `Lsb0` bits `p`, then `bits` written `Msb0`: whole bytes of `bits`
/// come off its back; its first partial byte is followed by as many pending
/// bits as fill a byte, and the pending bits past those stay pending.
pub open spec fn lsb_msb_out(p: Seq<bool>, bits: Seq<bool>) -> (Seq<u8>, Seq<bool>) {
    let r = (bits.len() % 8) as int;
    let cl = smaller(8 - r, p.len() as int);
    let a = bits.take(r) + p.take(cl);
    if a.len() == 8 {
        (pack_bytes_rev(bits).push(byte_of_bits(a)), p.skip(cl))
    } else {
        (pack_bytes_rev(bits), a + p.skip(cl))
    }
}

/// Pending `Msb0` bits `p`, then `bits` written `Lsb0`.
///
/// With nothing pending, whole bytes of `bits` go out from its front and its
/// last partial byte stays pending. Otherwise the first `cl` pending bits and
/// the first bits of `bits` fill a byte; the rest of `bits` goes out in whole
/// bytes from the front; and its last partial byte, followed by the pending
/// bits past `cl`, fills what it can of one more byte.
pub open spec fn msb_lsb_out(p: Seq<bool>, bits: Seq<bool>) -> (Seq<u8>, Seq<bool>) {
    if p.len() == 0 {
        (pack_bytes(bits), bits.skip((8 * (bits.len() / 8)) as int))
    } else {
        let r = (bits.len() % 8) as int;
        let cl = smaller(8 - r, p.len() as int);
        let f = smaller(bits.len() as int, 8 - cl);
        let a = p.take(cl) + bits.take(f);
        let head = if a.len() == 8 {
            seq![byte_of_bits(a)]
        } else {
            Seq::empty()
        };
        let acc = if a.len() == 8 {
            Seq::empty()
        } else {
            a
        };
        let bulk = bits.skip(f);
        let rem = bulk.skip((8 * (bulk.len() / 8)) as int);
        let last = p.skip(cl);
        let c2 = smaller(8 - rem.len(), last.len() as int);
        let b = acc + rem + last.take(c2);
        let e = head + pack_bytes(bulk);
        if b.len() == 8 {
            (e.push(byte_of_bits(b)), last.skip(c2))
        } else {
            (e, b + last.skip(c2))
        }
    }
}

/// What writing `bits` in `order` does with pending bits `p`, pending in
/// order `p_order`: the bytes written out, and the bits left pending.
pub open spec fn write_bits_out(p: Seq<bool>, p_order: Order, bits: Seq<bool>, order: Order) -> (
    Seq<u8>,
    Seq<bool>,
) {
    match p_order {
        Order::Msb0 => match order {
            Order::Msb0 => msb_msb_out(p, bits),
            Order::Lsb0 => msb_lsb_out(p, bits),
        },
        Order::Lsb0 => match order {
            Order::Msb0 => lsb_msb_out(p, bits),
            Order::Lsb0 => lsb_lsb_out(p, bits),
        },
    }
}

/// Every bit is either in a whole byte written out or left pending, and fewer
/// than eight are left pending.
pub proof fn lemma_write_bits_out_len(p: Seq<bool>, p_order: Order, bits: Seq<bool>, order: Order)
    requires
        p.len() < 8,
    ensures
        8 * write_bits_out(p, p_order, bits, order).0.len() + write_bits_out(
            p,
            p_order,
            bits,
            order,
        ).1.len() == p.len() + bits.len(),
        write_bits_out(p, p_order, bits, order).1.len() < 8,
{
    let n = bits.len() as int;
    let r = (bits.len() % 8) as int;
    assert(n == 8 * (n / 8) + r);
    lemma_pack_bytes(p + bits);
    lemma_pack_bytes(bits);
    lemma_pack_bytes_rev(bits + p);
    lemma_pack_bytes_rev(bits);
    if p.len() > 0 {
        let cl = smaller(8 - r, p.len() as int);
        let f = smaller(n, 8 - cl);
        lemma_pack_bytes(bits.skip(f));
    }
}

/// What finalizing writes with pending bits `p`, pending in `order`: nothing
/// when none are pending, and otherwise one byte, the pending bits padded with
/// zero bits after them (`Msb0`) or before them (`Lsb0`).
pub open spec fn finalize_out(p: Seq<bool>, order: Order) -> Seq<u8> {
    let zeros = Seq::new((8 - p.len()) as nat, |i: int| false);
    if p.len() == 0 {
        Seq::empty()
    } else {
        match order {
            Order::Msb0 => seq![byte_of_bits(p + zeros)],
            Order::Lsb0 => seq![byte_of_bits(zeros + p)],
        }
    }
}

/// The low `amt` bits of `value`, most significant first.
pub open spec fn uint_bits(value: u64, amt: nat) -> Seq<bool> {
    Seq::new(amt, |i: int| (value >> ((amt - 1 - i) as u64)) & 1u64 == 1u64)
}

/// Bit `j` of `x`, counting from the least significant bit.
pub open spec fn bit128(x: u128, j: u128) -> bool {
    (x >> j) & 1u128 == 1u128
}

/// The bits of a byte's first `ll` bits, moved down to the bottom.
proof fn lemma_lead_bit(lead: u8, ll: u8, i: u8)
    by (bit_vector)
    requires
        1 <= ll <= 8,
        i < ll,
    ensures
        bit128((lead >> ((8u8 - ll) as u8)) as u128, (ll - 1u8 - i) as u128) == ((lead & (0x80u8 >> i))
            != 0u8),
        ((lead >> ((8u8 - ll) as u8)) as u128) < 256u128,
{
}

/// The bits of `(a << amt) | (v & mask)`: those of `v` below `amt` and those
/// of `a` above.
proof fn lemma_joined_bit(a: u128, v: u64, amt: u128, j: u128)
    by (bit_vector)
    requires
        a < 256u128,
        1u128 <= amt <= 64u128,
        j < amt + 8u128,
    ensures
        j < amt ==> bit128((a << amt) | ((v & (0xffff_ffff_ffff_ffffu64 >> ((64u128 - amt) as u64))) as u128), j) == ((v >> (j as u64)) & 1u64 == 1u64),
        j >= amt ==> bit128((a << amt) | ((v & (0xffff_ffff_ffff_ffffu64 >> ((64u128 - amt) as u64))) as u128), j) == bit128(a, (j - amt) as u128),
{
}

/// Shifting right twice shifts by the sum.
proof fn lemma_shr_shr(x: u128, r: u128, t: u128)
    requires
        r + t < 128u128,
    ensures
        (x >> r) >> t == x >> ((r + t) as u128),
{
    let y = x >> r;
    vstd::bits::lemma_u128_shr_is_div(x, r);
    vstd::bits::lemma_u128_shr_is_div(y, t);
    vstd::bits::lemma_u128_shr_is_div(x, (r + t) as u128);
    vstd::arithmetic::power2::lemma_pow2_pos(r as nat);
    vstd::arithmetic::power2::lemma_pow2_pos(t as nat);
    vstd::arithmetic::power2::lemma_pow2_adds(r as nat, t as nat);
    vstd::arithmetic::div_mod::lemma_div_denominator(
        x as int,
        vstd::arithmetic::power2::pow2(r as nat) as int,
        vstd::arithmetic::power2::pow2(t as nat) as int,
    );
}

/// Bit `j` of a value shifted right by `t` is bit `t + j` of the value.
proof fn lemma_shr_bit(x: u128, t: u128, j: u128)
    by (bit_vector)
    requires
        t + j < 128u128,
    ensures
        bit128(x >> t, j) == bit128(x, (t + j) as u128),
{
}

/// Bit `k` of the low byte of `y`, most significant first, is bit `7 - k` of `y`.
proof fn lemma_low_byte_bit(y: u128, k: u8)
    by (bit_vector)
    requires
        k < 8u8,
    ensures
        (((y as u8) & (0x80u8 >> k)) != 0u8) == bit128(y, (7u8 - k) as u128),
{
}

/// The bits of a byte cut out of a wide value.
proof fn lemma_cut_byte_bit(x: u128, r: u128, s: u128, k: u8)
    requires
        k < 8u8,
        r + s + 8u128 <= 128u128,
    ensures
        (((((x >> r) >> s) as u8) & (0x80u8 >> k)) != 0u8) == bit128(x, (r + s + 7u128 - (k as u128)) as u128),
{
    lemma_shr_shr(x, r, s);
    let y = x >> ((r + s) as u128);
    lemma_low_byte_bit(y, k);
    lemma_shr_bit(x, (r + s) as u128, (7u8 - k) as u128);
}

/// The bits of the low `rest` bits of a value, moved to the top of a byte.
proof fn lemma_tail_bit(acc: u128, rest: u128, k: u8)
    by (bit_vector)
    requires
        1u128 <= rest <= 7u128,
        (k as u128) < rest,
    ensures
        ((((acc & (((1u128 << rest) - 1u128) as u128)) as u8) << ((8u128 - rest) as u8)) & (0x80u8 >> k))
            != 0u8 == bit128(acc, (rest - 1u128 - (k as u128)) as u128),
        ((acc & (((1u128 << rest) - 1u128) as u128)) as u8) < (1u8 << (rest as u8)),
        (1u128 << rest) >= 1u128,
{
}

/// The sum of `widths`.
pub open spec fn sum_widths(widths: Seq<usize>) -> int
    decreases widths.len(),
{
    if widths.len() == 0 {
        0
    } else {
        sum_widths(widths.drop_last()) + widths.last()
    }
}

/// The big-endian bytes of `x`.
fn be_bytes(x: u64) -> (r: [u8; 8])
    ensures
        forall|i: int|
            0 <= i < 64 ==> #[trigger] crate::bits::bit_at_spec(r@, i) == ((x >> ((63 - i) as u64))
                & 1u64 == 1u64),
{
    let r = [
        (x >> 56u64) as u8,
        (x >> 48u64) as u8,
        (x >> 40u64) as u8,
        (x >> 32u64) as u8,
        (x >> 24u64) as u8,
        (x >> 16u64) as u8,
        (x >> 8u64) as u8,
        x as u8,
    ];
    assert forall|i: int| 0 <= i < 64 implies #[trigger] crate::bits::bit_at_spec(r@, i) == ((x
        >> ((63 - i) as u64)) & 1u64 == 1u64) by {
        let b = i / 8;
        let k = i % 8;
        lemma_be_byte_bit(x, b as u64, k as u64);
        assert(r@[b] == (x >> ((56 - 8 * b) as u64)) as u8) by {
            if b == 0 {
            } else if b == 1 {
            } else if b == 2 {
            } else if b == 3 {
            } else if b == 4 {
            } else if b == 5 {
            } else if b == 6 {
            } else {
                assert((x >> 0u64) == x) by (bit_vector);
            }
        }
        assert(63 - (8 * b + k) == 63 - i);
    }
    r
}

/// Bit `k` of byte `b` of the big-endian bytes of `x`.
proof fn lemma_be_byte_bit(x: u64, b: u64, k: u64)
    by (bit_vector)
    requires
        b < 8u64,
        k < 8u64,
    ensures
        ((((x >> ((56u64 - 8u64 * b) as u64)) as u8) & (0x80u8 >> (k as u8))) != 0u8) == ((x >> ((63u64
            - (8u64 * b + k)) as u64)) & 1u64 == 1u64),
{
}

/// The low-bit mask of `amt` bits, with all bits for `amt == 64`.
pub open spec fn low_mask(amt: u64) -> u64 {
    if amt >= 64u64 {
        0xffff_ffff_ffff_ffffu64
    } else {
        ((1u64 << amt) - 1u64) as u64
    }
}

/// Bit `j` of a masked right shift of `value`.
proof fn lemma_masked_bit(value: u64, shift: u64, amt: u64, j: u64)
    by (bit_vector)
    requires
        1u64 <= amt <= 64u64,
        shift + amt <= 64u64,
        j < amt,
    ensures
        (((((value >> shift) & low_mask(amt)) >> j) & 1u64) == 1u64) == (((value >> ((shift + j) as u64))
            & 1u64) == 1u64),
        amt < 64u64 ==> (1u64 << amt) >= 1u64,
{
}

/// Bit `63 - i` of a value of `amt` bits moved to the top is bit `amt - 1 - i`.
proof fn lemma_top_bit(f: u64, amt: u64, i: u64)
    by (bit_vector)
    requires
        1u64 <= amt <= 64u64,
        i < amt,
    ensures
        ((((f << ((64u64 - amt) as u64)) >> ((63u64 - i) as u64)) & 1u64) == 1u64) == (((f >> ((amt - 1u64
            - i) as u64)) & 1u64) == 1u64),
{
}

/// Writing no bits `Msb0` after fewer than eight pending bits writes nothing.
proof fn lemma_msb_msb_out_nothing(p: Seq<bool>)
    requires
        p.len() < 8,
    ensures
        msb_msb_out(p, Seq::empty()) == (Seq::<u8>::empty(), p),
{
    assert(p + Seq::<bool>::empty() =~= p);
    lemma_pack_bytes(p);
    assert(pack_bytes(p) =~= Seq::<u8>::empty());
    assert(p.skip(0) =~= p);
}

/// Packing from the front: byte `m` holds bits `8 * m` to `8 * m + 8`.
pub proof fn lemma_pack_bytes_index(s: Seq<bool>, m: int)
    requires
        0 <= m < s.len() / 8,
    ensures
        pack_bytes(s)[m] == byte_of_bits(s.subrange(8 * m, 8 * m + 8)),
    decreases m,
{
    lemma_pack_bytes(s);
    if m > 0 {
        lemma_pack_bytes(s.skip(8));
        lemma_pack_bytes_index(s.skip(8), m - 1);
        assert(s.skip(8).subrange(8 * (m - 1), 8 * (m - 1) + 8) =~= s.subrange(8 * m, 8 * m + 8));
    } else {
        assert(s.take(8) =~= s.subrange(0, 8));
    }
}

/// The room a write of `n` more bits needs: the stream position and the count
/// of bits written stay within a `usize`.
pub open spec fn has_room(w: Writer, n: int) -> bool {
    let total = w.leftover.0@.len() + n;
    &&& w.inner.pos() + total / 8 <= usize::MAX
    &&& w.bits_written + 8 * (total / 8) <= usize::MAX
}

/// `after` is `before` moved on by whole bytes, each counted as eight bits
/// written, with at most `budget` bits sent on: those bytes and the bits left
/// pending. The stream grows no further than the new position.
pub open spec fn advances(before: Writer, after: Writer, budget: int) -> bool {
    &&& after.inner.pos() >= before.inner.pos()
    &&& after.inner.data().len() <= before.inner.data().len() || after.inner.data().len()
        <= after.inner.pos()
    &&& after.bits_written == before.bits_written + 8 * (after.inner.pos() - before.inner.pos())
    &&& 8 * (after.inner.pos() - before.inner.pos()) + after.leftover.0@.len() <= budget
}

/// Two advances in turn make one, within the sum of what they sent on.
pub proof fn lemma_advances_trans(a: Writer, b: Writer, c: Writer, used1: int, used2: int)
    requires
        advances(a, b, a.leftover.0@.len() + used1),
        advances(b, c, b.leftover.0@.len() + used2),
    ensures
        advances(a, c, a.leftover.0@.len() + used1 + used2),
{
}

/// A writer moved on by `used` of the `n` bits it had room for has room for
/// the rest.
pub proof fn lemma_room_left(a: Writer, b: Writer, used: int, n: int)
    requires
        0 <= used <= n,
        has_room(a, n),
        advances(a, b, a.leftover.0@.len() + used),
    ensures
        has_room(b, n - used),
{
    let d = b.inner.pos() - a.inner.pos();
    let la = a.leftover.0@.len() as int;
    let lb = b.leftover.0@.len() as int;
    let x = lb + n - used;
    vstd::arithmetic::div_mod::lemma_hoist_over_denominator(x, d, 8);
    vstd::arithmetic::div_mod::lemma_div_is_ordered(x + d * 8, la + n, 8);
    assert(x / 8 + d <= (la + n) / 8);
}

/// Room for `n` bits is room for fewer.
pub proof fn lemma_room_less(w: Writer, m: int, n: int)
    requires
        0 <= m <= n,
        has_room(w, n),
    ensures
        has_room(w, m),
{
    let l = w.leftover.0@.len() as int;
    vstd::arithmetic::div_mod::lemma_div_is_ordered(l + m, l + n, 8);
}

/// A write that sends out the bytes and keeps pending what
/// [`write_bits_out`] says advances by the bits it was given.
pub proof fn lemma_bits_write_advances(a: Writer, b: Writer, bits: Seq<bool>, order: Order)
    requires
        a.leftover.0@.len() < 8,
        bytes_emitted(a, b, write_bits_out(a.leftover.0@, a.leftover.1, bits, order).0),
        b.leftover.0@ == write_bits_out(a.leftover.0@, a.leftover.1, bits, order).1,
    ensures
        advances(a, b, a.leftover.0@.len() + bits.len() as int),
{
    lemma_write_bits_out_len(a.leftover.0@, a.leftover.1, bits, order);
    let e = write_bits_out(a.leftover.0@, a.leftover.1, bits, order).0;
    if e.len() > 0 {
        crate::no_std_io::lemma_written_at_len(a.inner.data(), a.inner.pos() as int, e);
    }
}

/// What [`Writer::write_bytes`] does with `buf`: with nothing pending the bytes
/// go straight to the stream; otherwise they are written as their bits, `Msb0`.
pub open spec fn bytes_put(before: Writer, after: Writer, buf: Seq<u8>) -> bool {
    if before.leftover.0@.len() == 0 {
        &&& after.inner.data() == crate::no_std_io::written_at(
            before.inner.data(),
            before.inner.pos() as int,
            buf,
        )
        &&& after.inner.pos() == before.inner.pos() + buf.len()
        &&& after.bits_written == before.bits_written + 8 * buf.len()
        &&& after.leftover == before.leftover
    } else {
        let out = write_bits_out(before.leftover.0@, before.leftover.1, bytes_bits(buf), Order::Msb0);
        &&& bytes_emitted(before, after, out.0)
        &&& after.leftover.0@ == out.1
        &&& after.leftover.1 == Order::Msb0
    }
}

/// Putting bytes advances by their bits.
pub proof fn lemma_bytes_put_advances(a: Writer, b: Writer, buf: Seq<u8>)
    requires
        a.leftover.0@.len() < 8,
        bytes_put(a, b, buf),
    ensures
        advances(a, b, a.leftover.0@.len() + 8 * buf.len() as int),
{
    if a.leftover.0@.len() != 0 {
        lemma_bits_write_advances(a, b, bytes_bits(buf), Order::Msb0);
    } else {
        crate::no_std_io::lemma_written_at_len(a.inner.data(), a.inner.pos() as int, buf);
    }
}

/// A writer over an empty stream, with nothing written and nothing pending.
pub open spec fn fresh_writer(w: Writer) -> bool {
    &&& w.inner.data().len() == 0
    &&& w.inner.pos() == 0
    &&& w.leftover.0@.len() == 0
    &&& w.leftover.1 == Order::Msb0
    &&& w.bits_written == 0
}

/// The stream of `w` once its pending bits go out, padded to a byte.
pub open spec fn finalized_data(w: Writer) -> Seq<u8> {
    after_writes(w.inner.data(), w.inner.pos() as int, finalize_out(w.leftover.0@, w.leftover.1))
}

/// Writing `bits` in `order` on `before` leaves `after`: the whole bytes that
/// [`write_bits_out`] says go out, and the rest stays pending, in `order`
/// (or `Msb0` when nothing is pending).
pub open spec fn bits_order_written(before: Writer, after: Writer, bits: Seq<bool>, order: Order) -> bool {
    let out = write_bits_out(before.leftover.0@, before.leftover.1, bits, order);
    &&& bytes_emitted(before, after, out.0)
    &&& after.leftover.0@ == out.1
    &&& after.leftover.1 == if out.1.len() == 0 {
        Order::Msb0
    } else {
        order
    }
}

/// Container to use with `from_reader`
pub struct Writer {
    /// The stream written to.
    pub inner: Cursor,
    /// Leftover bits
    pub leftover: (BoundedBitVec, Order),
    /// Total bits written
    pub bits_written: usize,
}

impl Writer {
    /// Create a new `Writer`
    pub fn new(inner: Cursor) -> (r: Self)
        ensures
            r.inner == inner,
            r.leftover.0@ == Seq::<bool>::empty(),
            r.leftover.1 == Order::Msb0,
            r.bits_written == 0,
    {
        Self { inner, leftover: (BoundedBitVec::new(), Order::Msb0), bits_written: 0 }
    }

    /// Return the unused bits
    pub fn rest(&mut self) -> (r: Vec<bool>)
        ensures
            *final(self) == *old(self),
            r@ == old(self).leftover.0@,
    {
        let bits = self.leftover.0.as_bitslice();
        let n = bits.len();
        let mut out: Vec<bool> = Vec::new();
        let mut i: usize = 0;
        while i < n
            invariant
                i <= n,
                n == bits@.len(),
                out@ == bits@.take(i as int),
            decreases n - i,
        {
            out.push(bits.get(i));
            assert(bits@.take(i + 1) =~= bits@.take(i as int).push(bits@[i as int]));
            i = i + 1;
        }
        assert(bits@.take(n as int) =~= bits@);
        out
    }

    /// Write the pending bits out as a byte when they fill one.
    fn flush_full(&mut self)
        requires
            old(self).leftover.0@.len() <= 8,
            old(self).leftover.0@.len() == 8 ==> old(self).inner.pos() + 1 <= usize::MAX,
            old(self).leftover.0@.len() == 8 ==> old(self).bits_written + 8 <= usize::MAX,
        ensures
            old(self).leftover.0@.len() == 8 ==> {
                &&& bytes_emitted(*old(self), *final(self), seq![byte_of_bits(old(self).leftover.0@)])
                &&& final(self).leftover.0@ == Seq::<bool>::empty()
                &&& final(self).leftover.1 == Order::Msb0
            },
            old(self).leftover.0@.len() < 8 ==> *final(self) == *old(self),
    {
        if self.leftover.0.is_full() {
            let full = self.leftover.0;
            let raw = full.as_raw_slice();
            proof {
                crate::bits::lemma_byte_bits_packed(full.storage());
                assert(bytes_bits(raw@) =~= byte_bits(full.storage()));
            }
            // A write to the in-memory stream cannot fail.
            let _ = self.inner.write_all(raw);
            self.bits_written = self.bits_written + full.len();
            self.leftover = (BoundedBitVec::new(), Order::Msb0);
        }
    }

    /// Write the whole bytes of `bits`, taken from the front.
    fn write_chunks(&mut self, bits: &BitSlice<'_, u8, Msb0>)
        requires
            old(self).inner.pos() + bits@.len() / 8 <= usize::MAX,
        ensures
            stream_written(old(self).inner, final(self).inner, pack_bytes(bits@)),
            final(self).leftover == old(self).leftover,
            final(self).bits_written == old(self).bits_written,
    {
        let n = bits.len();
        let count = n / 8;
        let mut i: usize = 0;
        proof {
            lemma_pack_bytes(bits@);
            assert(bits@.take(0) =~= Seq::<bool>::empty());
            assert(after_writes(old(self).inner.data(), old(self).inner.pos() as int, Seq::empty())
                == old(self).inner.data());
        }
        while i < count
            invariant
                i <= count,
                count == n / 8,
                n == bits@.len(),
                old(self).inner.pos() + count <= usize::MAX,
                stream_written(old(self).inner, self.inner, pack_bytes(bits@.take(8 * i))),
                self.leftover == old(self).leftover,
                self.bits_written == old(self).bits_written,
            decreases count - i,
        {
            let byte = bits.load_byte(8 * i);
            let one: [u8; 1] = [byte];
            let ghost before = self.inner;
            proof {
                lemma_pack_bytes(bits@.take(8 * i));
                assert(bits@.take(8 * i).len() == 8 * i);
            }
            let one_slice: &[u8] = one.as_slice();
            assert(one_slice@ =~= seq![byte]);
            let _ = self.inner.write_all(one_slice);
            proof {
                lemma_pack_bytes_step(bits@, i as int);
                lemma_after_writes_append(
                    old(self).inner.data(),
                    old(self).inner.pos() as int,
                    pack_bytes(bits@.take(8 * i)),
                    seq![byte],
                );
                assert(pack_bytes(bits@.take(8 * i)) + seq![byte] =~= pack_bytes(
                    bits@.take(8 * i),
                ).push(byte));
            }
            i = i + 1;
        }
        proof {
            lemma_pack_bytes_whole(bits@);
        }
    }

    /// Write the whole bytes of `bits`, taken from the back.
    fn write_rchunks(&mut self, bits: &BitSlice<'_, u8, Msb0>)
        requires
            old(self).inner.pos() + bits@.len() / 8 <= usize::MAX,
        ensures
            stream_written(old(self).inner, final(self).inner, pack_bytes_rev(bits@)),
            final(self).leftover == old(self).leftover,
            final(self).bits_written == old(self).bits_written,
    {
        let n = bits.len();
        let count = n / 8;
        let mut i: usize = 0;
        proof {
            assert(bits@.skip(n as int) =~= Seq::<bool>::empty());
            assert(after_writes(old(self).inner.data(), old(self).inner.pos() as int, Seq::empty())
                == old(self).inner.data());
        }
        while i < count
            invariant
                i <= count,
                count == n / 8,
                n == bits@.len(),
                old(self).inner.pos() + count <= usize::MAX,
                stream_written(old(self).inner, self.inner, pack_bytes_rev(bits@.skip(n - 8 * i))),
                self.leftover == old(self).leftover,
                self.bits_written == old(self).bits_written,
            decreases count - i,
        {
            let byte = bits.load_byte(n - 8 * (i + 1));
            let one: [u8; 1] = [byte];
            proof {
                lemma_pack_bytes_rev(bits@.skip(n - 8 * i));
            }
            let one_slice: &[u8] = one.as_slice();
            assert(one_slice@ =~= seq![byte]);
            let _ = self.inner.write_all(one_slice);
            proof {
                let c = bits@.subrange(n - 8 * (i + 1), n - 8 * i);
                let v = bits@.skip(n - 8 * i);
                lemma_pack_bytes_rev_prepend(c, v);
                assert(bits@.skip(n - 8 * (i + 1)) =~= c + v);
                lemma_after_writes_append(
                    old(self).inner.data(),
                    old(self).inner.pos() as int,
                    pack_bytes_rev(v),
                    seq![byte],
                );
                assert(pack_bytes_rev(v) + seq![byte] =~= pack_bytes_rev(v).push(byte));
            }
            i = i + 1;
        }
        proof {
            lemma_pack_bytes_rev_whole(bits@);
            assert(n - 8 * count == n % 8);
        }
    }

    fn write_bits_order_msb_msb(&mut self, bits: &BitSlice<'_, u8, Msb0>, order: Order) -> (r:
        Result<(), DekuError>)
        requires
            old(self).leftover.1 == Order::Msb0,
            order == Order::Msb0,
            old(self).leftover.0@.len() < 8,
            has_room(*old(self), bits@.len() as int),
        ensures
            r is Ok,
            bytes_emitted(*old(self), *final(self), msb_msb_out(old(self).leftover.0@, bits@).0),
            final(self).leftover.0@ == msb_msb_out(old(self).leftover.0@, bits@).1,
            final(self).leftover.1 == order,
    {
        let mut leftover = (BoundedBitVec::new(), Order::Msb0);
        core::mem::swap(&mut self.leftover, &mut leftover);
        let ghost p = leftover.0@;
        let ghost s = p + bits@;
        let ghost start = *self;
        let ghost mut e1: Seq<u8> = Seq::empty();
        proof {
            lemma_after_writes_append(start.inner.data(), start.inner.pos() as int, Seq::empty(), Seq::empty());
            assert(bytes_emitted(*old(self), start, Seq::empty()));
        }
        let rest = if leftover.0.is_empty() {
            assert(s =~= bits@);
            *bits
        } else {
            let complement = 8 - leftover.0.len();
            let complement = if complement < bits.len() {
                complement
            } else {
                bits.len()
            };
            let (complement, rest) = bits.split_at(complement);
            self.leftover.0.extend_from_bitslice(&leftover.0.as_bitslice());
            self.leftover.0.extend_from_bitslice(&complement);
            let ghost filled = *self;
            self.flush_full();
            proof {
                if filled.leftover.0@.len() == 8 {
                    e1 = seq![byte_of_bits(filled.leftover.0@)];
                    assert(s.take(8) =~= filled.leftover.0@);
                    assert(s.skip(8) =~= rest@);
                } else {
                    assert(rest@.len() == 0);
                    assert(s =~= filled.leftover.0@);
                }
                lemma_bytes_emitted_append(*old(self), start, *self, Seq::empty(), e1);
                assert(Seq::<u8>::empty() + e1 =~= e1);
            }
            rest
        };
        let n = rest.len();
        proof {
            lemma_pack_bytes(s);
            lemma_pack_bytes(rest@);
            if e1.len() == 1 {
                assert(pack_bytes(s) == e1 + pack_bytes(rest@));
            } else if p.len() > 0 {
                assert(pack_bytes(rest@) =~= Seq::<u8>::empty());
            } else {
                assert(rest@ == s);
            }
        }
        let ghost before_chunks = *self;
        self.write_chunks(&rest);
        let whole = 8 * (n / 8);
        let remainder = rest.subslice(whole, n);
        self.bits_written = self.bits_written + (n - remainder.len());
        proof {
            lemma_bytes_emitted_append(*old(self), before_chunks, *self, e1, pack_bytes(rest@));
        }
        self.leftover.0.extend_from_bitslice(&remainder);
        self.leftover.1 = order;
        proof {
            if e1.len() == 1 {
                assert(s.skip((8 * (s.len() / 8)) as int) =~= rest@.skip((8 * (rest@.len() / 8)) as int));
            } else if p.len() > 0 {
                assert(s.skip((8 * (s.len() / 8)) as int) =~= s);
                assert(self.leftover.0@ =~= s);
            } else {
                assert(self.leftover.0@ =~= s.skip((8 * (s.len() / 8)) as int));
            }
        }
        Ok(())
    }

    fn write_bits_order_lsb_lsb(&mut self, bits: &BitSlice<'_, u8, Msb0>, order: Order) -> (r:
        Result<(), DekuError>)
        requires
            old(self).leftover.1 == Order::Lsb0,
            order == Order::Lsb0,
            old(self).leftover.0@.len() < 8,
            has_room(*old(self), bits@.len() as int),
        ensures
            r is Ok,
            bytes_emitted(*old(self), *final(self), lsb_lsb_out(old(self).leftover.0@, bits@).0),
            final(self).leftover.0@ == lsb_lsb_out(old(self).leftover.0@, bits@).1,
            final(self).leftover.1 == order,
    {
        let mut leftover = (BoundedBitVec::new(), Order::Msb0);
        core::mem::swap(&mut self.leftover, &mut leftover);
        let ghost p = leftover.0@;
        let ghost t = bits@ + p;
        let ghost start = *self;
        let ghost mut e1: Seq<u8> = Seq::empty();
        proof {
            lemma_after_writes_append(start.inner.data(), start.inner.pos() as int, Seq::empty(), Seq::empty());
            assert(bytes_emitted(*old(self), start, Seq::empty()));
        }
        let rest = if leftover.0.is_empty() {
            assert(t =~= bits@);
            *bits
        } else {
            let complement = 8 - leftover.0.len();
            let complement = if complement < bits.len() {
                complement
            } else {
                bits.len()
            };
            let (rest, complement) = bits.split_at(bits.len() - complement);
            self.leftover.0.extend_from_bitslice(&complement);
            self.leftover.0.extend_from_bitslice(&leftover.0.as_bitslice());
            let ghost filled = *self;
            self.flush_full();
            proof {
                if filled.leftover.0@.len() == 8 {
                    e1 = seq![byte_of_bits(filled.leftover.0@)];
                    assert(t.skip(t.len() - 8) =~= filled.leftover.0@);
                    assert(t.take(t.len() - 8) =~= rest@);
                } else {
                    assert(rest@.len() == 0);
                    assert(t =~= filled.leftover.0@);
                }
                lemma_bytes_emitted_append(*old(self), start, *self, Seq::empty(), e1);
                assert(Seq::<u8>::empty() + e1 =~= e1);
            }
            rest
        };
        let n = rest.len();
        proof {
            lemma_pack_bytes_rev(t);
            lemma_pack_bytes_rev(rest@);
            if e1.len() == 1 {
                assert(pack_bytes_rev(t) == e1 + pack_bytes_rev(rest@));
            } else if p.len() > 0 {
                assert(pack_bytes_rev(rest@) =~= Seq::<u8>::empty());
            } else {
                assert(rest@ == t);
            }
        }
        let ghost before_chunks = *self;
        self.write_rchunks(&rest);
        let remainder = rest.subslice(0, n % 8);
        self.bits_written = self.bits_written + (n - remainder.len());
        proof {
            lemma_bytes_emitted_append(*old(self), before_chunks, *self, e1, pack_bytes_rev(rest@));
        }
        self.leftover.0.extend_from_bitslice(&remainder);
        self.leftover.1 = order;
        proof {
            if e1.len() == 1 {
                assert(t.take((t.len() % 8) as int) =~= rest@.take((rest@.len() % 8) as int));
            } else if p.len() > 0 {
                assert(t.take((t.len() % 8) as int) =~= t);
                assert(self.leftover.0@ =~= t);
            } else {
                assert(self.leftover.0@ =~= t.take((t.len() % 8) as int));
            }
        }
        Ok(())
    }

    fn write_bits_order_lsb_msb(&mut self, bits: &BitSlice<'_, u8, Msb0>, order: Order) -> (r:
        Result<(), DekuError>)
        requires
            old(self).leftover.1 == Order::Lsb0,
            order == Order::Msb0,
            old(self).leftover.0@.len() < 8,
            has_room(*old(self), bits@.len() as int),
        ensures
            r is Ok,
            bytes_emitted(*old(self), *final(self), lsb_msb_out(old(self).leftover.0@, bits@).0),
            final(self).leftover.0@ == lsb_msb_out(old(self).leftover.0@, bits@).1,
            final(self).leftover.1 == order,
    {
        let mut leftover = (BoundedBitVec::new(), Order::Msb0);
        core::mem::swap(&mut self.leftover, &mut leftover);
        let ghost p = leftover.0@;
        let ghost r = (bits@.len() % 8) as int;
        let ghost cl = smaller(8 - r, p.len() as int);
        let pending = leftover.0.as_bitslice();
        let (first, complement, rest) = if leftover.0.is_empty() {
            (*bits, BitSlice::empty(), BitSlice::empty())
        } else {
            let remainder = bits.len() % 8;
            let complement = 8 - remainder;
            let complement = if complement < leftover.0.len() {
                complement
            } else {
                leftover.0.len()
            };
            let (complement, rest) = pending.split_at(complement);
            (*bits, complement, rest)
        };
        assert(complement@ == p.take(cl) && rest@ == p.skip(cl)) by {
            if p.len() == 0 {
                assert(p.take(0) =~= Seq::<bool>::empty());
                assert(p.skip(0) =~= Seq::<bool>::empty());
            }
        }
        let n = first.len();
        let ghost start = *self;
        proof {
            lemma_pack_bytes_rev(bits@);
            lemma_after_writes_append(start.inner.data(), start.inner.pos() as int, Seq::empty(), Seq::empty());
            assert(bytes_emitted(*old(self), start, Seq::empty()));
            assert(n == 8 * (n / 8) + r);
        }
        self.write_rchunks(&first);
        let remainder = first.subslice(0, n % 8);
        self.bits_written = self.bits_written + (n - remainder.len());
        let ghost after_chunks = *self;
        proof {
            lemma_bytes_emitted_append(*old(self), start, after_chunks, Seq::empty(), pack_bytes_rev(bits@));
            assert(Seq::<u8>::empty() + pack_bytes_rev(bits@) =~= pack_bytes_rev(bits@));
        }
        self.leftover.0.extend_from_bitslice(&remainder);
        self.leftover.0.extend_from_bitslice(&complement);
        self.leftover.1 = order;
        let ghost filled = *self;
        let ghost a = bits@.take(r) + p.take(cl);
        assert(filled.leftover.0@ =~= a);
        proof {
            if a.len() == 8 {
                assert(p.len() + n >= 8 * (n / 8) + 8);
            }
        }
        self.flush_full();
        self.leftover.0.extend_from_bitslice(&rest);
        proof {
            if a.len() == 8 {
                lemma_bytes_emitted_append(*old(self), after_chunks, *self, pack_bytes_rev(bits@), seq![byte_of_bits(a)]);
                assert(pack_bytes_rev(bits@) + seq![byte_of_bits(a)] =~= pack_bytes_rev(bits@).push(byte_of_bits(a)));
                assert(self.leftover.0@ =~= p.skip(cl));
            } else {
                assert(self.leftover.0@ =~= a + p.skip(cl));
            }
        }
        Ok(())
    }

    #[verifier::spinoff_prover]
    #[verifier::rlimit(60)]
    fn write_bits_order_msb_lsb(&mut self, bits: &BitSlice<'_, u8, Msb0>, order: Order) -> (r:
        Result<(), DekuError>)
        requires
            old(self).leftover.1 == Order::Msb0,
            order == Order::Lsb0,
            old(self).leftover.0@.len() < 8,
            has_room(*old(self), bits@.len() as int),
        ensures
            r is Ok,
            bytes_emitted(*old(self), *final(self), msb_lsb_out(old(self).leftover.0@, bits@).0),
            final(self).leftover.0@ == msb_lsb_out(old(self).leftover.0@, bits@).1,
            final(self).leftover.1 == order,
    {
        let mut leftover = (BoundedBitVec::new(), Order::Msb0);
        core::mem::swap(&mut self.leftover, &mut leftover);
        let ghost p = leftover.0@;
        let ghost nb = bits@.len() as int;
        let ghost r = (bits@.len() % 8) as int;
        let ghost cl = smaller(8 - r, p.len() as int);
        let ghost f = smaller(nb, 8 - cl);
        let pending = leftover.0.as_bitslice();
        let (first, complement, bulk, last) = if leftover.0.is_empty() {
            (BitSlice::empty(), BitSlice::empty(), *bits, BitSlice::empty())
        } else {
            let remainder = bits.len() % 8;
            let complement = 8 - remainder;
            let complement = if complement < leftover.0.len() {
                complement
            } else {
                leftover.0.len()
            };
            let front = if bits.len() < 8 - complement {
                bits.len()
            } else {
                8 - complement
            };
            let (complement, rest) = pending.split_at(complement);
            let (front, back) = bits.split_at(front);
            (complement, front, back, rest)
        };
        let ghost start = *self;
        proof {
            lemma_after_writes_append(start.inner.data(), start.inner.pos() as int, Seq::empty(), Seq::empty());
            assert(bytes_emitted(*old(self), start, Seq::empty()));
        }
        self.leftover.0.extend_from_bitslice(&first);
        self.leftover.0.extend_from_bitslice(&complement);
        let ghost filled = *self;
        proof {
            if p.len() > 0 {
                assert(filled.leftover.0@ =~= p.take(cl) + bits@.take(f));
                if filled.leftover.0@.len() == 8 {
                    assert(p.len() + nb >= 8);
                }
            } else {
                assert(filled.leftover.0@ =~= Seq::<bool>::empty());
            }
        }
        self.flush_full();
        let ghost mut e1: Seq<u8> = Seq::empty();
        proof {
            if filled.leftover.0@.len() == 8 {
                e1 = seq![byte_of_bits(filled.leftover.0@)];
            }
            lemma_bytes_emitted_append(*old(self), start, *self, Seq::empty(), e1);
            assert(Seq::<u8>::empty() + e1 =~= e1);
        }
        let n = bulk.len();
        let ghost before_chunks = *self;
        proof {
            lemma_pack_bytes(bulk@);
            if p.len() > 0 {
                assert(bulk@ == bits@.skip(f));
            }
            assert(8 * e1.len() + 8 * (n / 8) <= p.len() + nb);
        }
        self.write_chunks(&bulk);
        let whole = 8 * (n / 8);
        let remainder = bulk.subslice(whole, n);
        self.bits_written = self.bits_written + (n - remainder.len());
        let ghost after_chunks = *self;
        proof {
            lemma_bytes_emitted_append(*old(self), before_chunks, after_chunks, e1, pack_bytes(bulk@));
        }
        let complement = 8 - remainder.len();
        let complement = if complement < last.len() {
            complement
        } else {
            last.len()
        };
        let (complement, rest) = last.split_at(complement);
        proof {
            if p.len() > 0 && filled.leftover.0@.len() < 8 {
                assert(n == 0);
            }
        }
        self.leftover.0.extend_from_bitslice(&remainder);
        self.leftover.0.extend_from_bitslice(&complement);
        let ghost filled2 = *self;
        proof {
            if filled2.leftover.0@.len() == 8 {
                assert(p.len() + nb >= 8 * e1.len() + 8 * (n / 8) + 8);
            }
        }
        self.flush_full();
        self.leftover.0.extend_from_bitslice(&rest);
        self.leftover.1 = order;
        proof {
            let e2 = e1 + pack_bytes(bulk@);
            if filled2.leftover.0@.len() == 8 {
                lemma_bytes_emitted_append(*old(self), after_chunks, *self, e2, seq![byte_of_bits(filled2.leftover.0@)]);
                assert(e2 + seq![byte_of_bits(filled2.leftover.0@)] =~= e2.push(byte_of_bits(filled2.leftover.0@)));
            }
            if p.len() == 0 {
                assert(e2 =~= pack_bytes(bits@));
                assert(self.leftover.0@ =~= bits@.skip((8 * (bits@.len() / 8)) as int));
            } else {
                let a = p.take(cl) + bits@.take(f);
                let acc = if a.len() == 8 { Seq::<bool>::empty() } else { a };
                let rem = bulk@.skip((8 * (bulk@.len() / 8)) as int);
                let lst = p.skip(cl);
                let c2 = smaller(8 - rem.len(), lst.len() as int);
                assert(filled2.leftover.0@ =~= acc + rem + lst.take(c2));
                if filled2.leftover.0@.len() == 8 {
                    assert(self.leftover.0@ =~= lst.skip(c2));
                } else {
                    assert(self.leftover.0@ =~= acc + rem + lst.take(c2) + lst.skip(c2));
                }
            }
        }
        Ok(())
    }

    /// Write all bits to `Writer` buffer if bits can fit into a byte buffer
    ///
    /// The bytes written and the bits left pending are as [`write_bits_out`]
    /// says; pending bits are kept in `order`, and none pending count as
    /// `Msb0`.
    pub fn write_bits_order(&mut self, bits: &BitSlice<'_, u8, Msb0>, order: Order) -> (r: Result<
        (),
        DekuError,
    >)
        requires
            old(self).leftover.0@.len() < 8,
            has_room(*old(self), bits@.len() as int),
        ensures
            r is Ok,
            bits_order_written(*old(self), *final(self), bits@, order),
            final(self).leftover.0@.len() < 8,
    {
        proof {
            lemma_write_bits_out_len(self.leftover.0@, self.leftover.1, bits@, order);
        }
        let result = match self.leftover.1 {
            Order::Msb0 => match order {
                Order::Msb0 => self.write_bits_order_msb_msb(bits, order),
                Order::Lsb0 => self.write_bits_order_msb_lsb(bits, order),
            },
            Order::Lsb0 => match order {
                Order::Msb0 => self.write_bits_order_lsb_msb(bits, order),
                Order::Lsb0 => self.write_bits_order_lsb_lsb(bits, order),
            },
        };
        // An empty leftover has no order: take it as `Msb0`, so that the next
        // write is not steered into a `Lsb0` path.
        if self.leftover.0.is_empty() {
            self.leftover.1 = Order::Msb0;
        }
        result
    }

    /// Write all bits to `Writer` buffer if bits can fit into a byte buffer
    ///
    /// The same as [`Writer::write_bits_order`] in `Msb0`.
    pub fn write_bits(&mut self, bits: &BitSlice<'_, u8, Msb0>) -> (r: Result<(), DekuError>)
        requires
            old(self).leftover.0@.len() < 8,
            has_room(*old(self), bits@.len() as int),
        ensures
            r is Ok,
            ({
                let out = write_bits_out(
                    old(self).leftover.0@,
                    old(self).leftover.1,
                    bits@,
                    Order::Msb0,
                );
                &&& bytes_emitted(*old(self), *final(self), out.0)
                &&& final(self).leftover.0@ == out.1
                &&& final(self).leftover.1 == Order::Msb0
            }),
            final(self).leftover.0@.len() < 8,
    {
        self.write_bits_order(bits, Order::Msb0)
    }

    /// Write `buf` into `Writer`
    ///
    /// With no bits pending the bytes go straight to the stream; otherwise
    /// they are written as their bits, `Msb0`.
    pub fn write_bytes(&mut self, buf: &[u8]) -> (r: Result<(), DekuError>)
        requires
            old(self).leftover.0@.len() < 8,
            8 * buf@.len() <= usize::MAX,
            has_room(*old(self), 8 * buf@.len() as int),
        ensures
            r is Ok,
            final(self).leftover.0@.len() < 8,
            bytes_put(*old(self), *final(self), buf@),
    {
        if !self.leftover.0.is_empty() {
            let bits = BitSlice::<u8, Msb0>::from_slice(buf);
            assert(bits@ =~= bytes_bits(buf@));
            self.write_bits(&bits)
        } else {
            if let Err(e) = self.inner.write_all(buf) {
                return Err(DekuError::Io(e));
            }
            self.bits_written = self.bits_written + buf.len() * 8;
            Ok(())
        }
    }

    /// Write all remaining bits into `Writer`, adding empty bits to the end so that we can write
    /// into a byte buffer
    ///
    /// Pending bits go out as one byte padded with zero bits: after them when
    /// they are `Msb0`, before them when they are `Lsb0`. Nothing is left
    /// pending.
    pub fn finalize(&mut self) -> (r: Result<(), DekuError>)
        requires
            old(self).leftover.0@.len() < 8,
            has_room(*old(self), (8 - old(self).leftover.0@.len()) % 8),
        ensures
            r is Ok,
            bytes_emitted(*old(self), *final(self), finalize_out(old(self).leftover.0@, old(self).leftover.1)),
            final(self).leftover.0@ == Seq::<bool>::empty(),
            final(self).leftover.1 == Order::Msb0,
    {
        let padded = crate::bits::BitVec::<u8, Msb0>::repeat(false, 8);
        let len = (8 - self.leftover.0.len()) % 8;
        let all = padded.as_bitslice();
        let pad = all.subslice(0, len);
        let order = self.leftover.1;
        let ghost p = self.leftover.0@;
        let ghost zeros = Seq::new((8 - p.len()) as nat, |i: int| false);
        proof {
            if p.len() > 0 {
                assert(pad@ =~= zeros);
                lemma_pack_bytes(p + zeros);
                lemma_pack_bytes_rev(zeros + p);
                let s = p + zeros;
                assert(s.take(8) =~= s);
                assert(s.skip(8) =~= Seq::<bool>::empty());
                assert(pack_bytes(s) == seq![byte_of_bits(s.take(8))] + pack_bytes(s.skip(8)));
                let t = zeros + p;
                assert(t.skip(0) =~= t);
                assert(t.take(0) =~= Seq::<bool>::empty());
                assert(pack_bytes_rev(t) == seq![byte_of_bits(t.skip(0))] + pack_bytes_rev(t.take(0)));
                assert(s.skip((8 * (s.len() / 8)) as int) =~= Seq::<bool>::empty());
                assert(t.take((t.len() % 8) as int) =~= Seq::<bool>::empty());
            } else {
                assert(pad@ =~= Seq::<bool>::empty());
                assert(p + pad@ =~= Seq::<bool>::empty());
                assert(pad@ + p =~= Seq::<bool>::empty());
            }
        }
        self.write_bits_order(&pad, order)
    }

    /// Move the stream position as `pos` says; pending bits are dropped unless
    /// the position stays where it is.
    pub fn seek(&mut self, pos: SeekFrom) -> (r: Result<u64, ErrorKind>)
        ensures
            final(self).inner.data() == old(self).inner.data(),
            final(self).bits_written == old(self).bits_written,
            match crate::no_std_io::seek_target(
                old(self).inner.data().len() as int,
                old(self).inner.pos() as int,
                pos,
            ) {
                Some(t) => r == Ok::<u64, ErrorKind>(t) && final(self).inner.pos() == t,
                None => r == Err::<u64, ErrorKind>(ErrorKind::InvalidInput) && final(self).inner.pos() == old(self).inner.pos(),
            },
            if pos == SeekFrom::Current(0) {
                final(self).leftover == old(self).leftover
            } else {
                &&& final(self).leftover.0@ == Seq::<bool>::empty()
                &&& final(self).leftover.1 == Order::Msb0
            },
    {
        if pos != SeekFrom::Current(0) {
            self.leftover.0.clear();
            self.leftover.1 = Order::Msb0;
        }
        self.inner.seek(pos)
    }

    /// The stream position; pending bits are kept.
    pub fn stream_position(&mut self) -> (r: Result<u64, ErrorKind>)
        ensures
            final(self).inner.data() == old(self).inner.data(),
            final(self).inner.pos() == old(self).inner.pos(),
            final(self).leftover == old(self).leftover,
            final(self).bits_written == old(self).bits_written,
            r == Ok::<u64, ErrorKind>(old(self).inner.pos() as u64),
    {
        proof {
            old(self).inner.lemma_bounds();
        }
        let r = self.seek(SeekFrom::Current(0));
        proof {
            assert(self.inner.pos() == old(self).inner.pos());
        }
        r
    }

    /// Writes the low `amt` bits (`1..=64`) of `value`, most-significant-bit
    /// first.
    ///
    /// The same as `write_bits_order(.., Order::Msb0)` over those bits: the
    /// pending bits and the value's bits go out in stream order, whole bytes
    /// in one write, and the rest stays pending.
    pub fn write_bits_uint_msb0(&mut self, value: u64, amt: usize) -> (r: Result<(), DekuError>)
        requires
            1 <= amt <= 64,
            old(self).leftover.1 == Order::Msb0 || old(self).leftover.0@.len() == 0,
            old(self).leftover.0@.len() < 8,
            has_room(*old(self), amt as int),
        ensures
            r is Ok,
            ({
                let out = msb_msb_out(old(self).leftover.0@, uint_bits(value, amt as nat));
                &&& bytes_emitted(*old(self), *final(self), out.0)
                &&& final(self).leftover.0@ == out.1
                &&& final(self).leftover.1 == Order::Msb0
            }),
            final(self).leftover.0@.len() < 8,
    {
        let (lead, lead_len) = self.leftover.0.as_msb0_byte();
        let ghost p = self.leftover.0@;
        let ghost vb = uint_bits(value, amt as nat);
        let ghost s = p + vb;
        let mut acc: u128 = if lead_len == 0 {
            0
        } else {
            (lead >> ((8 - lead_len) as u8)) as u128
        };
        let ghost a = acc;
        proof {
            if lead_len > 0 {
                lemma_lead_bit(lead, lead_len as u8, 0);
            }
        }
        acc = (acc << (amt as u128)) | ((value & (u64::MAX >> ((64 - amt) as u64))) as u128);
        let have = lead_len + amt;
        let whole = have / 8;
        let rest = have % 8;
        // Bit `i` of the stream is bit `have - 1 - i` of `acc`.
        assert forall|i: int| 0 <= i < have implies #[trigger] s[i] == bit128(
            acc,
            (have - 1 - i) as u128,
        ) by {
            let j = (have - 1 - i) as u128;
            lemma_joined_bit(a, value, amt as u128, j);
            if i < lead_len {
                lemma_lead_bit(lead, lead_len as u8, i as u8);
                assert(s[i] == p[i]);
                assert((j - amt) as u128 == (lead_len - 1 - i) as u128);
            } else {
                assert(s[i] == vb[i - lead_len]);
            }
        }
        let ghost start = *self;
        let ghost mut e: Seq<u8> = Seq::empty();
        proof {
            lemma_pack_bytes(s);
            assert(bytes_emitted(start, start, Seq::empty())) by {
                lemma_after_writes_append(start.inner.data(), start.inner.pos() as int, Seq::empty(), Seq::empty());
            }
        }
        if whole != 0 {
            let mut buf = [0u8; 9];
            let aligned = acc >> (rest as u128);
            let mut i: usize = 0;
            while i < whole
                invariant
                    i <= whole,
                    whole == have / 8,
                    rest == have % 8,
                    have == s.len(),
                    1 <= whole <= 9,
                    pack_bytes(s).len() == whole,
                    aligned == acc >> (rest as u128),
                    forall|i: int| 0 <= i < have ==> #[trigger] s[i] == bit128(acc, (have - 1 - i) as u128),
                    forall|m: int| 0 <= m < i ==> #[trigger] buf[m] == pack_bytes(s)[m],
                decreases whole - i,
            {
                let byte = (aligned >> (((whole - 1 - i) * 8) as u128)) as u8;
                proof {
                    let m = i as int;
                    let sub = s.subrange(8 * m, 8 * m + 8);
                    assert forall|k: int| 0 <= k < 8 implies #[trigger] byte_bits(byte)[k] == sub[k] by {
                        lemma_cut_byte_bit(acc, rest as u128, ((whole - 1 - i) * 8) as u128, k as u8);
                        assert(s[8 * m + k] == bit128(acc, (have - 1 - (8 * m + k)) as u128));
                    }
                    assert(byte_bits(byte) =~= sub);
                    crate::bits::lemma_byte_bits_packed(byte);
                    lemma_pack_bytes_index(s, m);
                }
                buf[i] = byte;
                i = i + 1;
            }
            let out = vstd::slice::slice_subrange(buf.as_slice(), 0, whole);
            assert(out@ =~= pack_bytes(s));
            if let Err(err) = self.inner.write_all(out) {
                return Err(DekuError::Io(err));
            }
            self.bits_written = self.bits_written + whole * 8;
            proof {
                e = pack_bytes(s);
            }
        }
        proof {
            assert(e == pack_bytes(s));
        }
        if rest == 0 {
            self.leftover.0.clear();
            assert(s.skip(8 * whole) =~= Seq::<bool>::empty());
        } else {
            proof {
                lemma_tail_bit(acc, rest as u128, 0);
            }
            let tail = (acc & ((1u128 << (rest as u128)) - 1)) as u8;
            let byte = tail << ((8 - rest) as u8);
            self.leftover.0 = BoundedBitVec::from_msb0_byte(byte, rest);
            proof {
                assert forall|k: int| 0 <= k < rest implies #[trigger] self.leftover.0@[k] == s.skip(8 * whole)[k] by {
                    lemma_tail_bit(acc, rest as u128, k as u8);
                    assert(s[8 * whole + k] == bit128(acc, (have - 1 - (8 * whole + k)) as u128));
                }
                assert(self.leftover.0@ =~= s.skip(8 * whole));
            }
        }
        self.leftover.1 = Order::Msb0;
        Ok(())
    }

    /// Whether [`Writer::write_bits_uint_msb0`] can serve the next write: false
    /// only with a partial `Lsb0` byte pending.
    pub fn can_write_bits_uint_msb0(&self) -> (r: bool)
        ensures
            r == (self.leftover.1 == Order::Msb0 || self.leftover.0@.len() == 0),
    {
        match self.leftover.1 {
            Order::Msb0 => true,
            Order::Lsb0 => self.leftover.0.is_empty(),
        }
    }

    /// Writes the fields packed into `value` one at a time through the general bit
    /// path, `widths` giving each field's width most-significant first.
    ///
    /// The fields fill the low `sum(widths)` bits of `value`. The first goes
    /// through [`Writer::write_bits_order`] in `Msb0`; the others then follow
    /// as one `Msb0` run.
    #[verifier::spinoff_prover]
    #[verifier::rlimit(100)]
    pub fn write_bits_uint_fields(&mut self, value: u64, widths: &[usize]) -> (r: Result<(), DekuError>)
        requires
            1 <= sum_widths(widths@) <= 64,
            forall|i: int| 0 <= i < widths@.len() ==> #[trigger] widths@[i] >= 1,
            old(self).leftover.0@.len() < 8,
            has_room(*old(self), sum_widths(widths@)),
        ensures
            r is Ok,
            ({
                let total = sum_widths(widths@);
                let bits = uint_bits(value, total as nat);
                let w0 = widths@[0] as int;
                let first = write_bits_out(old(self).leftover.0@, old(self).leftover.1, bits.take(w0), Order::Msb0);
                let second = msb_msb_out(first.1, bits.skip(w0));
                &&& bytes_emitted(*old(self), *final(self), first.0 + second.0)
                &&& final(self).leftover.0@ == second.1
                &&& final(self).leftover.1 == Order::Msb0
            }),
            final(self).leftover.0@.len() < 8,
    {
        let n = widths.len();
        let mut total: usize = 0;
        let mut t: usize = 0;
        while t < n
            invariant
                t <= n,
                n == widths@.len(),
                total == sum_widths(widths@.take(t as int)),
                1 <= sum_widths(widths@) <= 64,
                forall|i: int| 0 <= i < widths@.len() ==> #[trigger] widths@[i] >= 1,
            decreases n - t,
        {
            proof {
                lemma_sum_widths_prefix(widths@, t as int + 1);
                lemma_sum_widths_monotone(widths@, t as int + 1, n as int);
                assert(widths@.take(n as int) =~= widths@);
            }
            total = total + widths[t];
            t = t + 1;
        }
        assert(widths@.take(n as int) =~= widths@);
        let ghost bits = uint_bits(value, total as nat);
        let ghost l = old(self).leftover.0@.len();
        let ghost start = *self;
        let ghost mut first: (Seq<u8>, Seq<bool>) = (Seq::empty(), Seq::empty());
        let ghost mut e: Seq<u8> = Seq::empty();
        proof {
            lemma_after_writes_append(start.inner.data(), start.inner.pos() as int, Seq::empty(), Seq::empty());
        }
        let mut consumed: usize = 0;
        let mut j: usize = 0;
        while j < n
            invariant
                j <= n,
                n == widths@.len(),
                n >= 1,
                total == sum_widths(widths@),
                1 <= total <= 64,
                bits == uint_bits(value, total as nat),
                consumed == sum_widths(widths@.take(j as int)),
                consumed <= total,
                forall|i: int| 0 <= i < widths@.len() ==> #[trigger] widths@[i] >= 1,
                l == old(self).leftover.0@.len(),
                l < 8,
                has_room(*old(self), total as int),
                self.leftover.0@.len() < 8,
                bytes_emitted(*old(self), *self, e),
                8 * e.len() + self.leftover.0@.len() == l + consumed,
                j == 0 ==> {
                    &&& e == Seq::<u8>::empty()
                    &&& self.leftover == old(self).leftover
                },
                j > 0 ==> {
                    let w0 = widths@[0] as int;
                    &&& first == write_bits_out(old(self).leftover.0@, old(self).leftover.1, bits.take(w0), Order::Msb0)
                    &&& e == first.0 + msb_msb_out(first.1, bits.subrange(w0, consumed as int)).0
                    &&& self.leftover.0@ == msb_msb_out(first.1, bits.subrange(w0, consumed as int)).1
                    &&& self.leftover.1 == Order::Msb0
                },
            decreases n - j,
        {
            let amt = widths[j];
            proof {
                lemma_sum_widths_prefix(widths@, j as int + 1);
                assert(widths@.take(j + 1).drop_last() =~= widths@.take(j as int));
                lemma_sum_widths_prefix(widths@, n as int);
                lemma_sum_widths_monotone(widths@, j as int + 1, n as int);
            }
            let shift = total - consumed - amt;
            let mask: u64 = if amt >= 64 {
                u64::MAX
            } else {
                proof {
                    lemma_masked_bit(value, shift as u64, amt as u64, 0);
                }
                (1u64 << (amt as u64)) - 1
            };
            assert(mask == low_mask(amt as u64));
            let field = ((value >> (shift as u64)) & mask) << ((64 - amt) as u64);
            let bytes = be_bytes(field);
            let bytes_slice: &[u8] = bytes.as_slice();
            let all = BitSlice::<u8, Msb0>::from_slice(bytes_slice);
            let part = all.subslice(0, amt);
            let ghost run = bits.subrange(consumed as int, consumed + amt);
            proof {
                assert(bytes_slice@ =~= bytes@);
                let f = (value >> (shift as u64)) & mask;
                assert forall|i: int| 0 <= i < amt implies #[trigger] part@[i] == run[i] by {
                    lemma_top_bit(f, amt as u64, i as u64);
                    lemma_masked_bit(value, shift as u64, amt as u64, (amt - 1 - i) as u64);
                    assert(part@[i] == crate::bits::bit_at_spec(bytes_slice@, i));
                }
                assert(part@ =~= run);
            }
            let ghost before = *self;
            proof {
                crate::writer::lemma_write_bits_out_len(self.leftover.0@, self.leftover.1, part@, Order::Msb0);
                assert(8 * e.len() + (self.leftover.0@.len() + amt) <= l + total);
            }
            let res = self.write_bits_order(&part, Order::Msb0);
            proof {
                let out = write_bits_out(before.leftover.0@, before.leftover.1, run, Order::Msb0);
                lemma_bytes_emitted_append(*old(self), before, *self, e, out.0);
                crate::writer::lemma_write_bits_out_len(before.leftover.0@, before.leftover.1, run, Order::Msb0);
                let w0 = widths@[0] as int;
                if j > 0 {
                    assert(widths@.take(1) =~= seq![widths@[0]]);
                    assert(sum_widths(seq![widths@[0]]) == widths@[0]) by {
                        assert(seq![widths@[0]].drop_last() =~= Seq::<usize>::empty());
                        assert(sum_widths(Seq::<usize>::empty()) == 0);
                        assert(sum_widths(seq![widths@[0]]) == sum_widths(seq![widths@[0]].drop_last()) + seq![widths@[0]].last());
                    }
                    lemma_sum_widths_monotone(widths@, 1, j as int);
                } else {
                    assert(widths@.take(0) =~= Seq::<usize>::empty());
                }
                lemma_fields_next(
                    old(self).leftover.0@,
                    old(self).leftover.1,
                    bits,
                    w0,
                    consumed as int,
                    amt as int,
                    first,
                    e,
                    before.leftover.0@,
                    before.leftover.1,
                    j == 0,
                );
                if j == 0 {
                    first = out;
                }
                e = e + out.0;
            }
            if let Err(err) = res {
                return Err(err);
            }
            consumed = consumed + amt;
            j = j + 1;
        }
        proof {
            let w0 = widths@[0] as int;
            assert(bits.subrange(w0, total as int) =~= bits.skip(w0));
        }
        Ok(())
    }
}

/// One more field written `Msb0` keeps the bytes written and the pending bits
/// those of the first field's write followed by one `Msb0` run of the rest.
proof fn lemma_fields_next(
    p: Seq<bool>,
    po: Order,
    bits: Seq<bool>,
    w0: int,
    consumed: int,
    amt: int,
    first: (Seq<u8>, Seq<bool>),
    e: Seq<u8>,
    cur: Seq<bool>,
    cur_order: Order,
    is_first: bool,
)
    requires
        0 < w0,
        0 < amt,
        consumed + amt <= bits.len(),
        p.len() < 8,
        is_first ==> {
            &&& e == Seq::<u8>::empty()
            &&& cur == p
            &&& cur_order == po
            &&& consumed == 0
            &&& amt == w0
        },
        !is_first ==> {
            &&& first == write_bits_out(p, po, bits.take(w0), Order::Msb0)
            &&& w0 <= consumed
            &&& e == first.0 + msb_msb_out(first.1, bits.subrange(w0, consumed)).0
            &&& cur == msb_msb_out(first.1, bits.subrange(w0, consumed)).1
            &&& cur_order == Order::Msb0
        },
    ensures
        ({
            let out = write_bits_out(cur, cur_order, bits.subrange(consumed, consumed + amt), Order::Msb0);
            let first2 = if is_first {
                out
            } else {
                first
            };
            &&& first2 == write_bits_out(p, po, bits.take(w0), Order::Msb0)
            &&& e + out.0 == first2.0 + msb_msb_out(first2.1, bits.subrange(w0, consumed + amt)).0
            &&& out.1 == msb_msb_out(first2.1, bits.subrange(w0, consumed + amt)).1
        }),
{
    let run = bits.subrange(consumed, consumed + amt);
    let out = write_bits_out(cur, cur_order, run, Order::Msb0);
    if is_first {
        assert(run =~= bits.take(w0));
        assert(bits.subrange(w0, w0) =~= Seq::<bool>::empty());
        lemma_write_bits_out_len(p, po, run, Order::Msb0);
        lemma_msb_msb_out_nothing(out.1);
        assert(Seq::<u8>::empty() + out.0 =~= out.0 + Seq::<u8>::empty());
    } else {
        let before_run = bits.subrange(w0, consumed);
        crate::properties::lemma_msb0_write_concat(first.1, before_run, run);
        assert(before_run + run =~= bits.subrange(w0, consumed + amt));
        assert(e + out.0 =~= first.0 + msb_msb_out(first.1, bits.subrange(w0, consumed + amt)).0);
    }
}

/// The sum of a prefix of `widths`, one item longer.
pub proof fn lemma_sum_widths_prefix(widths: Seq<usize>, k: int)
    requires
        0 < k <= widths.len(),
    ensures
        sum_widths(widths.take(k)) == sum_widths(widths.take(k - 1)) + widths[k - 1],
{
    assert(widths.take(k).drop_last() =~= widths.take(k - 1));
}

/// A longer prefix of `widths` sums to at least as much.
pub proof fn lemma_sum_widths_monotone(widths: Seq<usize>, j: int, k: int)
    requires
        0 <= j <= k <= widths.len(),
    ensures
        sum_widths(widths.take(j)) <= sum_widths(widths.take(k)),
    decreases k - j,
{
    if j < k {
        lemma_sum_widths_prefix(widths, k);
        lemma_sum_widths_monotone(widths, j, k - 1);
    }
}

} // verus!
