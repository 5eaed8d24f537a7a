//! Reading and writing integers.
use crate::bits::{
    BitSlice, BitValue, BitVec, Msb0, be_value, bits_value, byte_of_bits, le_value,
    lemma_be_value_bound, lemma_bits_value_bound, lemma_byte_of_bits_value, lemma_le_value_bound,
};
use crate::DekuReader;
use crate::ctx::{BitSize, ByteSize, Endian, Order};
use crate::error::{DekuError, spec_too_much_data, too_much_data};
use crate::reader::{
    Reader, available_bits, bits_read_state, bytes_read_state, bytes_read_value, count_fits,
    lemma_bits_read_fits, lemma_bytes_read, lemma_bytes_read_fits, lemma_pending_len, least,
    pending_bits, read_bits_out, unit_result, Leftover, ReaderRet,
};
use crate::writer::{lemma_pack_bytes_rev, lemma_pack_bytes_rev_prepend, lemma_pack_bytes_rev_whole, pack_bytes_rev};
use vstd::arithmetic::power2::{lemma2_to64, lemma_pow2_adds, lemma_pow2_strictly_increases, pow2};
use vstd::prelude::*;

verus! {

/// The value of bytes in `endian` order.
pub open spec fn bytes_value(b: Seq<u8>, endian: Endian) -> nat {
    match endian {
        Endian::Little => le_value(b),
        Endian::Big => be_value(b),
    }
}

/// The value of bits taken a byte at a time from the front, least significant
/// byte first; a last partial byte counts as the number its bits make.
pub open spec fn le_pieces_value(s: Seq<bool>) -> nat
    decreases s.len(),
{
    if s.len() < 8 {
        bits_value(s)
    } else {
        bits_value(s.take(8)) + 256 * le_pieces_value(s.skip(8))
    }
}

/// The value of bits read for an integer: most significant bit first in big
/// endian, and a byte at a time from the front, least significant first, in
/// little endian.
pub open spec fn bits_int_value(s: Seq<bool>, endian: Endian) -> nat {
    match endian {
        Endian::Big => bits_value(s),
        Endian::Little => le_pieces_value(s),
    }
}

/// The value of bits read `Lsb0` for an integer of `width` bytes: the bits,
/// padded in front with zero bits to whole bytes, taken a byte at a time from
/// the back, then padded with zero bytes to the width.
pub open spec fn lsb_int_value(s: Seq<bool>, width: int, endian: Endian) -> nat {
    let pad = ((8 - s.len() % 8) % 8) as nat;
    let padded = Seq::new(pad, |i: int| false) + s;
    let bytes = pack_bytes_rev(padded) + Seq::new((width - padded.len() / 8) as nat, |i: int| 0u8);
    bytes_value(bytes, endian)
}

/// The power of two `pow2(n)` is at most `pow2(m)` when `n <= m`.
proof fn lemma_pow2_le(n: nat, m: nat)
    requires
        n <= m,
    ensures
        pow2(n) <= pow2(m),
{
    if n < m {
        lemma_pow2_strictly_increases(n, m);
    }
}

/// The value of the first `n` bytes of `bytes` in `endian` order.
pub fn value_of_bytes(bytes: &[u8], n: usize, endian: Endian) -> (r: u128)
    requires
        n <= bytes@.len(),
        n <= 16,
    ensures
        r == bytes_value(bytes@.take(n as int), endian),
{
    proof {
        lemma2_to64();
        crate::bits::lemma_pow2_values();
    }
    match endian {
        Endian::Big => {
            let mut r: u128 = 0;
            let mut i: usize = 0;
            while i < n
                invariant
                    i <= n <= 16,
                    n <= bytes@.len(),
                    r == be_value(bytes@.take(i as int)),
                    r < pow2(8 * i as nat),
                    pow2(8) == 256,
                    pow2(128) == 0x1_0000_0000_0000_0000_0000_0000_0000_0000,
                decreases n - i,
            {
                proof {
                    lemma_pow2_adds(8 * i as nat, 8);
                    lemma_pow2_le(8 * (i + 1) as nat, 128);
                    assert(bytes@.take(i + 1).drop_last() =~= bytes@.take(i as int));
                }
                r = r * 256 + bytes[i] as u128;
                i = i + 1;
            }
            r
        },
        Endian::Little => {
            let mut r: u128 = 0;
            let mut k: usize = n;
            while k > 0
                invariant
                    k <= n <= 16,
                    n <= bytes@.len(),
                    r == le_value(bytes@.subrange(k as int, n as int)),
                    r < pow2(8 * (n - k) as nat),
                    pow2(8) == 256,
                    pow2(128) == 0x1_0000_0000_0000_0000_0000_0000_0000_0000,
                decreases k,
            {
                proof {
                    lemma_pow2_adds(8, 8 * (n - k) as nat);
                    lemma_pow2_le(8 * (n - k + 1) as nat, 128);
                    assert(bytes@.subrange(k - 1, n as int).drop_first() =~= bytes@.subrange(
                        k as int,
                        n as int,
                    ));
                }
                k = k - 1;
                r = r * 256 + bytes[k] as u128;
            }
            assert(bytes@.subrange(0, n as int) =~= bytes@.take(n as int));
            r
        },
    }
}

/// The value of `bits`, most significant bit first.
fn value_of_bits_be(bits: &BitSlice<'_, u8, Msb0>, start: usize, end: usize) -> (r: u128)
    requires
        start <= end <= bits@.len(),
        end - start <= 128,
    ensures
        r == bits_value(bits@.subrange(start as int, end as int)),
{
    proof {
        crate::bits::lemma_pow2_values();
        lemma2_to64();
    }
    let mut r: u128 = 0;
    let mut i: usize = start;
    while i < end
        invariant
            start <= i <= end <= bits@.len(),
            end - start <= 128,
            r == bits_value(bits@.subrange(start as int, i as int)),
            r < pow2((i - start) as nat),
            pow2(128) == 0x1_0000_0000_0000_0000_0000_0000_0000_0000,
        decreases end - i,
    {
        proof {
            vstd::arithmetic::power2::lemma_pow2_unfold((i + 1 - start) as nat);
            lemma_pow2_le((i + 1 - start) as nat, 128);
            assert(bits@.subrange(start as int, i + 1).drop_last() =~= bits@.subrange(
                start as int,
                i as int,
            ));
        }
        let b = bits.get(i);
        r = r * 2 + if b {
            1
        } else {
            0
        };
        i = i + 1;
    }
    r
}

/// The value of bits taken a byte at a time from the front, least significant
/// byte first, stays below two to the number of bits.
pub proof fn lemma_le_pieces_value_bound(s: Seq<bool>)
    ensures
        le_pieces_value(s) < pow2(s.len()),
    decreases s.len(),
{
    if s.len() < 8 {
        lemma_bits_value_bound(s);
    } else {
        lemma_bits_value_bound(s.take(8));
        lemma_le_pieces_value_bound(s.skip(8));
        lemma2_to64();
        lemma_pow2_adds(8, (s.len() - 8) as nat);
    }
}

/// The value of bits read for an integer in `endian`.
pub fn value_of_bits(bits: &BitSlice<'_, u8, Msb0>, endian: Endian) -> (r: u128)
    requires
        bits@.len() <= 128,
    ensures
        r == bits_int_value(bits@, endian),
{
    let n = bits.len();
    proof {
        crate::bits::lemma_pow2_values();
        assert(bits@.subrange(0, n as int) =~= bits@);
    }
    match endian {
        Endian::Big => value_of_bits_be(bits, 0, n),
        Endian::Little => {
            let q = n / 8;
            let mut r: u128 = value_of_bits_be(bits, 8 * q, n);
            let mut j: usize = q;
            proof {
                assert(bits@.skip(8 * q) =~= bits@.subrange(8 * q as int, n as int));
                lemma_le_pieces_value_bound(bits@.skip(8 * q));
            }
            while j > 0
                invariant
                    j <= q,
                    q == n / 8,
                    n == bits@.len(),
                    n <= 128,
                    r == le_pieces_value(bits@.skip(8 * j)),
                    r < pow2((n - 8 * j) as nat),
                    pow2(128) == 0x1_0000_0000_0000_0000_0000_0000_0000_0000,
                decreases j,
            {
                j = j - 1;
                let byte = bits.load_byte(8 * j);
                proof {
                    let t = bits@.skip(8 * j);
                    assert(t.take(8) =~= bits@.subrange(8 * j, 8 * j + 8));
                    assert(t.skip(8) =~= bits@.skip(8 * (j + 1)));
                    lemma_byte_of_bits_value(bits@.subrange(8 * j, 8 * j + 8));
                    lemma_le_pieces_value_bound(t);
                    lemma_pow2_le(t.len(), 128);
                }
                r = byte as u128 + 256 * r;
            }
            assert(bits@.skip(0) =~= bits@);
            r
        },
    }
}

/// The value of bits read `Lsb0` for an integer of `width` bytes.
#[verifier::spinoff_prover]
pub fn value_of_lsb_bits(bits: &BitSlice<'_, u8, Msb0>, width: usize, endian: Endian) -> (r: u128)
    requires
        bits@.len() <= 8 * width,
        width <= 16,
    ensures
        r == lsb_int_value(bits@, width as int, endian),
{
    let n = bits.len();
    let pad = (8 - n % 8) % 8;
    let mut padded = BitVec::<u8, Msb0>::repeat(false, pad);
    padded.extend_from_bitslice(bits);
    let all = padded.as_bitslice();
    let len = all.len();
    let m = len / 8;
    let ghost zeros = Seq::new(pad as nat, |i: int| false);
    assert(padded@.len() == pad + n);
    assert(all@ =~= zeros + bits@);
    assert(len % 8 == 0) by {
        assert(len == pad + n);
    }
    let mut buf: Vec<u8> = Vec::new();
    let mut j: usize = 0;
    proof {
        assert(all@.skip(len as int) =~= Seq::<bool>::empty());
    }
    while j < m
        invariant
            j <= m,
            m == len / 8,
            len == all@.len(),
            len % 8 == 0,
            buf@ == pack_bytes_rev(all@.skip(len - 8 * j)),
        decreases m - j,
    {
        let byte = all.load_byte(len - 8 * (j + 1));
        proof {
            let c = all@.subrange(len - 8 * (j + 1), len - 8 * j);
            let v = all@.skip(len - 8 * j);
            lemma_pack_bytes_rev_prepend(c, v);
            assert(all@.skip(len - 8 * (j + 1)) =~= c + v);
        }
        buf.push(byte);
        j = j + 1;
    }
    assert(all@.skip(0) =~= all@);
    let ghost packed = buf@;
    proof {
        lemma_pack_bytes_rev(all@);
    }
    while buf.len() < width
        invariant
            buf@.len() <= width,
            buf@ == packed + Seq::new((buf@.len() - packed.len()) as nat, |i: int| 0u8),
            packed.len() == m,
        decreases width - buf@.len(),
    {
        buf.push(0u8);
        assert(buf@ =~= packed + Seq::new((buf@.len() - packed.len()) as nat, |i: int| 0u8));
    }
    let r = value_of_bytes(buf.as_slice(), width, endian);
    assert(buf@.take(width as int) =~= buf@);
    r
}

/// The value an integer of `width` bytes reads from bits `s` read in
/// `order`: whole-width reads and `Msb0` reads go by [`bits_int_value`];
/// other `Lsb0` reads of more than a byte by [`lsb_int_value`].
pub open spec fn read_int_value(s: Seq<bool>, width: int, endian: Endian, order: Order) -> nat {
    if order == Order::Lsb0 && s.len() > 8 && s.len() != 8 * width {
        lsb_int_value(s, width, endian)
    } else {
        bits_int_value(s, endian)
    }
}

/// The bits a read of `n` bits in `order` takes from `before` when it
/// succeeds.
pub open spec fn bits_taken(before: Reader, n: int, order: Order) -> Seq<bool> {
    read_bits_out(pending_bits(before.pending()), before.unread(), n, order).0
}

/// The number of bytes of an integer type.
pub open spec fn width_of<T: BitValue>() -> int {
    (T::spec_bits() / 8) as int
}

/// Whether the integer type is the unsigned byte.
pub open spec fn is_u8<T: BitValue>() -> bool {
    T::spec_bits() == 8 && !T::spec_signed()
}

/// The bits of `a` shifted left by `sh` and back right by `sh` within an
/// integer of `bits` bits, the right shift copying the sign bit: the low
/// `bits - sh` bits of `a`, sign-extended.
pub open spec fn shifted_back(a: nat, sh: nat, bits: nat) -> nat {
    let y = (a * pow2(sh)) % pow2(bits);
    if y >= pow2((bits - 1) as nat) {
        (y / pow2(sh) + pow2(bits) - pow2((bits - sh) as nat)) as nat
    } else {
        y / pow2(sh)
    }
}

/// The value an integer takes from the bytes `b` read for it in `endian`
/// order: their value, and for a signed integer that value moved to the top
/// of the integer and back, which sign-extends it (big endian bytes start at
/// the top of the integer's bytes).
pub open spec fn bytes_int_value<T: BitValue>(b: Seq<u8>, endian: Endian) -> nat {
    if T::spec_signed() {
        let sh = (8 * (width_of::<T>() - b.len())) as nat;
        let a = match endian {
            Endian::Little => le_value(b),
            Endian::Big => be_value(b) * pow2(sh),
        };
        shifted_back(a, sh, T::spec_bits())
    } else {
        bytes_value(b, endian)
    }
}

/// The powers of two below `2^128`.
fn pow2_u128(k: usize) -> (r: u128)
    requires
        k < 128,
    ensures
        r == pow2(k as nat),
{
    proof {
        crate::bits::lemma_pow2_values();
        vstd::arithmetic::power2::lemma2_to64();
    }
    let mut r: u128 = 1;
    let mut i: usize = 0;
    while i < k
        invariant
            i <= k < 128,
            r == pow2(i as nat),
            pow2(128) == 0x1_0000_0000_0000_0000_0000_0000_0000_0000,
        decreases k - i,
    {
        proof {
            vstd::arithmetic::power2::lemma_pow2_unfold((i + 1) as nat);
            lemma_pow2_le((i + 1) as nat, 127);
            vstd::arithmetic::power2::lemma_pow2_strictly_increases(127, 128);
        }
        r = r * 2;
        i = i + 1;
    }
    r
}

/// Shift `a` left by `sh` and back right, sign-extending, within `bits` bits.
fn shift_back(a: u128, sh: usize, bits: usize) -> (r: u128)
    requires
        1 <= bits <= 64,
        sh < bits,
        a < pow2(bits as nat),
    ensures
        r == shifted_back(a as nat, sh as nat, bits as nat),
        r < pow2(bits as nat),
{
    proof {
        crate::bits::lemma_pow2_values();
        vstd::arithmetic::power2::lemma_pow2_adds(bits as nat, sh as nat);
        lemma_pow2_le((bits + sh) as nat, 128);
        vstd::arithmetic::power2::lemma_pow2_pos(sh as nat);
        vstd::arithmetic::power2::lemma_pow2_pos(bits as nat);
        vstd::arithmetic::power2::lemma_pow2_adds((bits - sh) as nat, sh as nat);
        lemma_pow2_le((bits - sh) as nat, bits as nat);
        lemma_pow2_le((bits - 1) as nat, bits as nat);
    }
    let p = pow2_u128(sh);
    let full = pow2_u128(bits);
    let half = pow2_u128(bits - 1);
    let top = pow2_u128(bits - sh);
    assert(a * p < pow2(128)) by (nonlinear_arith)
        requires
            a < pow2(bits as nat),
            p == pow2(sh as nat),
            pow2(bits as nat) * pow2(sh as nat) == pow2((bits + sh) as nat),
            pow2((bits + sh) as nat) <= pow2(128),
            p > 0,
    ;
    let y = (a * p) % full;
    proof {
        let fi = full as int;
        let pi = p as int;
        let ti = top as int;
        vstd::arithmetic::div_mod::lemma_mod_bound((a * p) as int, fi);
        vstd::arithmetic::div_mod::lemma_div_is_ordered(y as int, fi - 1, pi);
        vstd::arithmetic::div_mod::lemma_fundamental_div_mod(fi - 1, pi);
        vstd::arithmetic::div_mod::lemma_mod_bound(fi - 1, pi);
        let q = (fi - 1) / pi;
        let m = (fi - 1) % pi;
        assert(q == ti - 1) by (nonlinear_arith)
            requires
                fi == ti * pi,
                fi - 1 == pi * q + m,
                0 <= m,
                m < pi,
                pi >= 1,
        ;
    }
    if y >= half {
        y / p + (full - top)
    } else {
        y / p
    }
}

/// A byte read of `amt` bytes in `order` from `before`, leaving `after`, gives
/// `r`: an integer whose value [`bytes_int_value`] takes from the bytes.
pub open spec fn int_bytes_read<T: BitValue>(
    before: Reader,
    after: Reader,
    amt: int,
    endian: Endian,
    order: Order,
    r: Result<T, DekuError>,
) -> bool {
    &&& bytes_read_state(before, after, amt, order, unit_result(r))
    &&& r matches Ok(v) ==> v.spec_value() == bytes_int_value::<T>(bytes_read_value(before, amt, order), endian)
}

/// A read of `size` bits in `order` from `before`, leaving `after`, gives `r`:
/// an error when the type has fewer bits, and otherwise an integer whose value
/// is [`bits_int_read_value`] of the bits read.
pub open spec fn int_bits_read<T: BitValue>(
    before: Reader,
    after: Reader,
    size: int,
    endian: Endian,
    order: Order,
    r: Result<T, DekuError>,
) -> bool {
    if size > T::spec_bits() {
        &&& after == before
        &&& r matches Err(DekuError::Parse(m)) && m@ == spec_too_much_data(
            T::spec_bits() as usize,
            size as usize,
            "bits"@,
        )
    } else {
        &&& bits_read_state(before, after, size, order, unit_result(r))
        &&& r matches Ok(v) ==> v.spec_value() == bits_int_read_value::<T>(
            bits_taken(before, size, order),
            endian,
            order,
        )
    }
}

/// The value an integer takes from the bits `s` read for it in `order`:
/// [`read_int_value`] of them, and for a signed integer their value taken
/// most significant bit first, sign-extended from their length.
pub open spec fn bits_int_read_value<T: BitValue>(s: Seq<bool>, endian: Endian, order: Order) -> nat {
    if T::spec_signed() {
        shifted_back(bits_int_value(s, endian), (T::spec_bits() - s.len()) as nat, T::spec_bits())
    } else {
        read_int_value(s, width_of::<T>(), endian, order)
    }
}

/// Read `amt` bytes in `order` as an integer in `endian` order.
fn read_int_bytes<T: BitValue>(reader: &mut Reader, amt: usize, endian: Endian, order: Order) -> (r:
    Result<T, DekuError>)
    requires
        count_fits(*old(reader)),
        amt <= T::spec_bits() / 8,
        old(reader).pending() matches Some(Leftover::Byte(_)) ==> amt >= 1,
        T::spec_signed() ==> amt >= 1,
    ensures
        int_bytes_read(*old(reader), *final(reader), amt as int, endian, order, r),
        count_fits(*final(reader)),
        final(reader).source().data() == old(reader).source().data(),
{
    let mut buf = [0u8; 8];
    let ghost b0 = buf@;
    let ghost before = *reader;
    let type_bits = T::bits();
    let ret = reader.read_bytes(amt, &mut buf, order);
    proof {
        lemma_bytes_read(before, *reader, b0, buf@, amt as int, order, unit_result(ret));
        lemma_bytes_read_fits(before, *reader, amt as int, order, unit_result(ret));
    }
    match ret {
        Ok(_) => {
            let bytes: &[u8] = buf.as_slice();
            let value = value_of_bytes(bytes, amt, endian);
            proof {
                assert(bytes@ =~= buf@);
                lemma_be_value_bound(buf@.take(amt as int));
                lemma_le_value_bound(buf@.take(amt as int));
                lemma_pow2_le(8 * amt as nat, T::spec_bits());
                vstd::arithmetic::div_mod::lemma_small_mod(value as nat, pow2(T::spec_bits()));
            }
            if T::signed() {
                let sh = type_bits - 8 * amt;
                let factor = pow2_u128(sh);
                proof {
                    vstd::arithmetic::power2::lemma_pow2_adds(8 * amt as nat, sh as nat);
                    vstd::arithmetic::power2::lemma_pow2_pos(sh as nat);
                    lemma_pow2_le(T::spec_bits(), 64);
                    crate::bits::lemma_pow2_values();
                    assert(value * factor < pow2(T::spec_bits())) by (nonlinear_arith)
                        requires
                            value < pow2(8 * amt as nat),
                            pow2(8 * amt as nat) * pow2(sh as nat) == pow2(T::spec_bits()),
                            factor == pow2(sh as nat),
                            factor > 0,
                    ;
                }
                let a = match endian {
                    Endian::Little => value,
                    Endian::Big => value * factor,
                };
                let extended = shift_back(a, sh, type_bits);
                proof {
                    vstd::arithmetic::div_mod::lemma_small_mod(extended as nat, pow2(T::spec_bits()));
                }
                return Ok(T::from_u128(extended));
            }
            Ok(T::from_u128(value))
        },
        Err(e) => Err(e),
    }
}

/// The integer whose value is [`bits_int_read_value`] of `view`.
fn int_of_bits<T: BitValue>(view: &BitSlice<'_, u8, Msb0>, endian: Endian, order: Order) -> (r: T)
    requires
        view@.len() <= T::spec_bits(),
        T::spec_signed() ==> view@.len() >= 1,
    ensures
        r.spec_value() == bits_int_read_value::<T>(view@, endian, order),
{
    let max_type_bits = T::bits();
    let size = view.len();
    proof {
        lemma_pow2_le(size as nat, T::spec_bits());
        lemma_bits_value_bound(view@);
        lemma_le_pieces_value_bound(view@);
    }
    if T::signed() {
        let raw = value_of_bits(view, endian);
        let value = shift_back(raw, max_type_bits - size, max_type_bits);
        proof {
            vstd::arithmetic::div_mod::lemma_small_mod(value as nat, pow2(T::spec_bits()));
        }
        return T::from_u128(value);
    }
    let value = if order == Order::Lsb0 && size > 8 && size != max_type_bits {
        value_of_lsb_bits(view, max_type_bits / 8, endian)
    } else {
        value_of_bits(view, endian)
    };
    proof {
        if order == Order::Lsb0 && size > 8 && size != max_type_bits {
            lemma_lsb_int_value_bound(view@, (max_type_bits / 8) as int, endian);
            lemma_pow2_le(8 * (max_type_bits / 8) as nat, T::spec_bits());
        }
        vstd::arithmetic::div_mod::lemma_small_mod(value as nat, pow2(T::spec_bits()));
    }
    T::from_u128(value)
}

/// Read `size` bits in `order` as an integer in `endian` order.
fn read_int_bits<T: BitValue>(reader: &mut Reader, size: usize, endian: Endian, order: Order) -> (r:
    Result<T, DekuError>)
    requires
        count_fits(*old(reader)),
        !(size == 0 && (endian == Endian::Little || T::spec_signed())),
    ensures
        int_bits_read(*old(reader), *final(reader), size as int, endian, order, r),
        count_fits(*final(reader)),
        final(reader).source().data() == old(reader).source().data(),
{
    let max_type_bits = T::bits();
    if size > max_type_bits {
        return Err(DekuError::Parse(too_much_data(max_type_bits, size, "bits")));
    }
    let ghost before = *reader;
    let bits = reader.read_bits(size, order);
    proof {
        assert(bits_read_state(before, *reader, size as int, order, unit_result(bits)));
        lemma_bits_read_fits(before, *reader, size as int, order, unit_result(bits));
        if bits is Ok {
            lemma_pending_len(before.pending());
            crate::reader::lemma_read_bits_out_len(
                pending_bits(before.pending()),
                before.unread(),
                size as int,
                order,
            );
            assert(bits->Ok_0->Some_0@ == bits_taken(before, size as int, order));
        }
    }
    let bits = match bits {
        Ok(b) => b,
        Err(e) => return Err(e),
    };
    let bits = match bits {
        Some(b) => b,
        None => return Err(DekuError::Parse(crate::error::static_text("no bits read from reader"))),
    };
    let view = bits.as_bitslice();
    Ok(int_of_bits(&view, endian, order))
}

/// The value of bits read `Lsb0` stays below two to the width in bits.
pub proof fn lemma_lsb_int_value_bound(s: Seq<bool>, width: int, endian: Endian)
    requires
        s.len() <= 8 * width,
        0 <= width,
    ensures
        lsb_int_value(s, width, endian) < pow2(8 * width as nat),
{
    let pad = ((8 - s.len() % 8) % 8) as nat;
    let padded = Seq::new(pad, |i: int| false) + s;
    lemma_pack_bytes_rev(padded);
    let bytes = pack_bytes_rev(padded) + Seq::new((width - padded.len() / 8) as nat, |i: int| 0u8);
    assert(bytes.len() == width);
    lemma_be_value_bound(bytes);
    lemma_le_value_bound(bytes);
}

impl<T: BitValue> DekuReader<Endian> for T {
    open spec fn can_read(reader: Reader, endian: Endian) -> bool {
        true
    }

    open spec fn reads(before: Reader, after: Reader, endian: Endian, r: Result<T, DekuError>) -> bool {
        int_bytes_read(before, after, width_of::<T>(), endian, Order::Msb0, r)
    }

    /// Only have `endian`: read the whole width in bytes.
    fn from_reader_with_ctx(reader: &mut Reader, endian: Endian) -> (r: Result<T, DekuError>) {
        let max_type_bytes = T::bits() / 8;
        read_int_bytes(reader, max_type_bytes, endian, Order::Msb0)
    }
}

impl<T: BitValue> DekuReader<(Endian, ByteSize, Order)> for T {
    /// A signed integer reads from one byte up to its width; an unsigned one
    /// wider than a byte does not read nothing after a pending whole byte.
    open spec fn can_read(reader: Reader, ctx: (Endian, ByteSize, Order)) -> bool {
        if T::spec_signed() {
            1 <= ctx.1.0 <= width_of::<T>()
        } else {
            T::spec_bits() > 8 && ctx.1.0 == 0 ==> !(reader.pending() matches Some(Leftover::Byte(_)))
        }
    }

    open spec fn reads(
        before: Reader,
        after: Reader,
        ctx: (Endian, ByteSize, Order),
        r: Result<T, DekuError>,
    ) -> bool {
        let (endian, size, order) = ctx;
        if is_u8::<T>() {
            int_bytes_read(before, after, 1, endian, order, r)
        } else if size.0 > width_of::<T>() {
            &&& after == before
            &&& r matches Err(DekuError::Parse(m)) && m@ == spec_too_much_data(
                width_of::<T>() as usize,
                size.0,
                "bytes"@,
            )
        } else {
            int_bytes_read(before, after, size.0 as int, endian, order, r)
        }
    }

    /// An unsigned byte is read whole, whatever the size; other types read
    /// `size` bytes.
    fn from_reader_with_ctx(reader: &mut Reader, ctx: (Endian, ByteSize, Order)) -> (r: Result<T, DekuError>) {
        let (endian, size, order) = ctx;
        let max_type_bytes = T::bits() / 8;
        if max_type_bytes == 1 && !T::signed() {
            return read_int_bytes(reader, 1, endian, order);
        }
        if size.0 > max_type_bytes {
            return Err(DekuError::Parse(too_much_data(max_type_bytes, size.0, "bytes")));
        }
        read_int_bytes(reader, size.0, endian, order)
    }
}

impl<T: BitValue> DekuReader<(Endian, BitSize)> for T {
    /// No bits are read little endian, nor into a signed integer.
    open spec fn can_read(reader: Reader, ctx: (Endian, BitSize)) -> bool {
        !(ctx.1.0 == 0 && (ctx.0 == Endian::Little || T::spec_signed()))
    }

    open spec fn reads(before: Reader, after: Reader, ctx: (Endian, BitSize), r: Result<T, DekuError>) -> bool {
        int_bits_read(before, after, ctx.1.0 as int, ctx.0, Order::Msb0, r)
    }

    fn from_reader_with_ctx(reader: &mut Reader, ctx: (Endian, BitSize)) -> (r: Result<T, DekuError>) {
        let (endian, size) = ctx;
        read_int_bits(reader, size.0, endian, Order::Msb0)
    }
}

impl<T: BitValue> DekuReader<(Endian, BitSize, Order)> for T {
    /// No bits are read little endian, nor into a signed integer.
    open spec fn can_read(reader: Reader, ctx: (Endian, BitSize, Order)) -> bool {
        !(ctx.1.0 == 0 && (ctx.0 == Endian::Little || T::spec_signed()))
    }

    open spec fn reads(
        before: Reader,
        after: Reader,
        ctx: (Endian, BitSize, Order),
        r: Result<T, DekuError>,
    ) -> bool {
        int_bits_read(before, after, ctx.1.0 as int, ctx.0, ctx.2, r)
    }

    fn from_reader_with_ctx(reader: &mut Reader, ctx: (Endian, BitSize, Order)) -> (r: Result<T, DekuError>) {
        let (endian, size, order) = ctx;
        read_int_bits(reader, size.0, endian, order)
    }
}

impl<T: BitValue> DekuReader<(Endian, ByteSize)> for T {
    open spec fn can_read(reader: Reader, ctx: (Endian, ByteSize)) -> bool {
        <T as DekuReader<(Endian, ByteSize, Order)>>::can_read(reader, (ctx.0, ctx.1, Order::Msb0))
    }

    open spec fn reads(before: Reader, after: Reader, ctx: (Endian, ByteSize), r: Result<T, DekuError>) -> bool {
        <T as DekuReader<(Endian, ByteSize, Order)>>::reads(before, after, (ctx.0, ctx.1, Order::Msb0), r)
    }

    fn from_reader_with_ctx(reader: &mut Reader, ctx: (Endian, ByteSize)) -> (r: Result<T, DekuError>) {
        let (endian, byte_size) = ctx;
        <T as DekuReader<(Endian, ByteSize, Order)>>::from_reader_with_ctx(
            reader,
            (endian, byte_size, Order::Msb0),
        )
    }
}

impl<T: BitValue> DekuReader<(Endian, Order)> for T {
    open spec fn can_read(reader: Reader, ctx: (Endian, Order)) -> bool {
        true
    }

    open spec fn reads(before: Reader, after: Reader, ctx: (Endian, Order), r: Result<T, DekuError>) -> bool {
        <T as DekuReader<(Endian, ByteSize, Order)>>::reads(
            before,
            after,
            (ctx.0, ByteSize(width_of::<T>() as usize), ctx.1),
            r,
        )
    }

    /// Read the whole width in bytes.
    fn from_reader_with_ctx(reader: &mut Reader, ctx: (Endian, Order)) -> (r: Result<T, DekuError>) {
        let (endian, order) = ctx;
        let byte_size = T::bits() / 8;
        <T as DekuReader<(Endian, ByteSize, Order)>>::from_reader_with_ctx(
            reader,
            (endian, ByteSize(byte_size), order),
        )
    }
}

/// The context a bit size forwards to: whole bytes go by their byte size.
pub open spec fn bit_size_forwards(size: BitSize) -> bool {
    size.0 % 8 == 0
}

impl<T: BitValue> DekuReader<ByteSize> for T {
    open spec fn can_read(reader: Reader, size: ByteSize) -> bool {
        forall|e: Endian| #[trigger] <T as DekuReader<(Endian, ByteSize)>>::can_read(reader, (e, size))
    }

    /// Read in the target's endianness.
    open spec fn reads(before: Reader, after: Reader, size: ByteSize, r: Result<T, DekuError>) -> bool {
        exists|e: Endian| #[trigger] <T as DekuReader<(Endian, ByteSize)>>::reads(before, after, (e, size), r)
    }

    fn from_reader_with_ctx(reader: &mut Reader, byte_size: ByteSize) -> (r: Result<T, DekuError>) {
        let endian = Endian::default();
        <T as DekuReader<(Endian, ByteSize)>>::from_reader_with_ctx(reader, (endian, byte_size))
    }
}

impl<T: BitValue> DekuReader<BitSize> for T {
    open spec fn can_read(reader: Reader, size: BitSize) -> bool {
        forall|e: Endian|
            #![trigger <T as DekuReader<(Endian, ByteSize)>>::can_read(reader, (e, ByteSize(size.0 / 8)))]
            #![trigger <T as DekuReader<(Endian, BitSize)>>::can_read(reader, (e, size))]
            if bit_size_forwards(size) {
                <T as DekuReader<(Endian, ByteSize)>>::can_read(reader, (e, ByteSize(size.0 / 8)))
            } else {
                <T as DekuReader<(Endian, BitSize)>>::can_read(reader, (e, size))
            }
    }

    /// Read in the target's endianness; whole bytes are read as bytes.
    open spec fn reads(before: Reader, after: Reader, size: BitSize, r: Result<T, DekuError>) -> bool {
        exists|e: Endian|
            #![trigger <T as DekuReader<(Endian, ByteSize)>>::reads(before, after, (e, ByteSize(size.0 / 8)), r)]
            #![trigger <T as DekuReader<(Endian, BitSize)>>::reads(before, after, (e, size), r)]
            if bit_size_forwards(size) {
                <T as DekuReader<(Endian, ByteSize)>>::reads(before, after, (e, ByteSize(size.0 / 8)), r)
            } else {
                <T as DekuReader<(Endian, BitSize)>>::reads(before, after, (e, size), r)
            }
    }

    fn from_reader_with_ctx(reader: &mut Reader, bit_size: BitSize) -> (r: Result<T, DekuError>) {
        let endian = Endian::default();
        if (bit_size.0 % 8) == 0 {
            <T as DekuReader<(Endian, ByteSize)>>::from_reader_with_ctx(
                reader,
                (endian, ByteSize(bit_size.0 / 8)),
            )
        } else {
            <T as DekuReader<(Endian, BitSize)>>::from_reader_with_ctx(reader, (endian, bit_size))
        }
    }
}

impl<T: BitValue> DekuReader<(BitSize, Order)> for T {
    open spec fn can_read(reader: Reader, ctx: (BitSize, Order)) -> bool {
        forall|e: Endian|
            #![trigger <T as DekuReader<(Endian, ByteSize, Order)>>::can_read(reader, (e, ByteSize(ctx.0.0 / 8), ctx.1))]
            #![trigger <T as DekuReader<(Endian, BitSize, Order)>>::can_read(reader, (e, ctx.0, ctx.1))]
            if bit_size_forwards(ctx.0) {
                <T as DekuReader<(Endian, ByteSize, Order)>>::can_read(reader, (e, ByteSize(ctx.0.0 / 8), ctx.1))
            } else {
                <T as DekuReader<(Endian, BitSize, Order)>>::can_read(reader, (e, ctx.0, ctx.1))
            }
    }

    /// Read in the target's endianness; whole bytes are read as bytes.
    open spec fn reads(before: Reader, after: Reader, ctx: (BitSize, Order), r: Result<T, DekuError>) -> bool {
        exists|e: Endian|
            #![trigger <T as DekuReader<(Endian, ByteSize, Order)>>::reads(before, after, (e, ByteSize(ctx.0.0 / 8), ctx.1), r)]
            #![trigger <T as DekuReader<(Endian, BitSize, Order)>>::reads(before, after, (e, ctx.0, ctx.1), r)]
            if bit_size_forwards(ctx.0) {
                <T as DekuReader<(Endian, ByteSize, Order)>>::reads(before, after, (e, ByteSize(ctx.0.0 / 8), ctx.1), r)
            } else {
                <T as DekuReader<(Endian, BitSize, Order)>>::reads(before, after, (e, ctx.0, ctx.1), r)
            }
    }

    fn from_reader_with_ctx(reader: &mut Reader, ctx: (BitSize, Order)) -> (r: Result<T, DekuError>) {
        let (bit_size, order) = ctx;
        let endian = Endian::default();
        if (bit_size.0 % 8) == 0 {
            <T as DekuReader<(Endian, ByteSize, Order)>>::from_reader_with_ctx(
                reader,
                (endian, ByteSize(bit_size.0 / 8), order),
            )
        } else {
            <T as DekuReader<(Endian, BitSize, Order)>>::from_reader_with_ctx(
                reader,
                (endian, bit_size, order),
            )
        }
    }
}

impl<T: BitValue> DekuReader<Order> for T {
    open spec fn can_read(reader: Reader, order: Order) -> bool {
        true
    }

    /// Read the whole width in the target's endianness.
    open spec fn reads(before: Reader, after: Reader, order: Order, r: Result<T, DekuError>) -> bool {
        exists|e: Endian| #[trigger] <T as DekuReader<(Endian, Order)>>::reads(before, after, (e, order), r)
    }

    fn from_reader_with_ctx(reader: &mut Reader, order: Order) -> (r: Result<T, DekuError>) {
        <T as DekuReader<(Endian, Order)>>::from_reader_with_ctx(reader, (Endian::default(), order))
    }
}

impl<T: BitValue> DekuReader<()> for T {
    open spec fn can_read(reader: Reader, ctx: ()) -> bool {
        true
    }

    /// Read the whole width in the target's endianness.
    open spec fn reads(before: Reader, after: Reader, ctx: (), r: Result<T, DekuError>) -> bool {
        exists|e: Endian| #[trigger] <T as DekuReader<Endian>>::reads(before, after, e, r)
    }

    fn from_reader_with_ctx(reader: &mut Reader, ctx: ()) -> (r: Result<T, DekuError>) {
        <T as DekuReader<Endian>>::from_reader_with_ctx(reader, Endian::default())
    }
}

} // verus!
