//! Writing integers.
use crate::DekuWriter;
use crate::bits::{BitSlice, BitValue, Msb0, bits_range_all, bytes_bits, lemma_pow2_values};
use crate::ctx::{BitSize, ByteSize, Endian, Order};
use crate::error::{DekuError, sized_text, spec_usize_text};
use crate::impls::primitive::{is_u8, width_of};
use crate::writer::{
    Writer, advances, bytes_emitted, bytes_put, has_room, lemma_advances_trans,
    lemma_bits_write_advances, lemma_bytes_emitted_append, lemma_bytes_put_advances,
    lemma_room_left, significant_bits, write_bits_out,
};
use vstd::arithmetic::power2::pow2;
use vstd::prelude::*;

verus! {

/// The `width` bytes of `value`, least significant first.
pub open spec fn le_bytes_of(value: nat, width: nat) -> Seq<u8>
    decreases width,
{
    if width == 0 {
        Seq::empty()
    } else {
        seq![(value % 256) as u8] + le_bytes_of(value / 256, (width - 1) as nat)
    }
}

/// The `width` bytes of `value` in `endian` order.
pub open spec fn int_bytes(value: nat, width: nat, endian: Endian) -> Seq<u8> {
    match endian {
        Endian::Little => le_bytes_of(value, width),
        Endian::Big => le_bytes_of(value, width).reverse(),
    }
}

/// The bytes of `value` in `endian` order, as `to_le_bytes` and
/// `to_be_bytes` give them.
pub fn int_to_bytes<T: BitValue>(value: T, endian: Endian) -> (r: Vec<u8>)
    ensures
        r@ == int_bytes(value.spec_value(), width_of::<T>() as nat, endian),
        r@.len() == width_of::<T>(),
{
    let w = T::bits() / 8;
    let mut v: u128 = value.to_u128();
    let mut le: Vec<u8> = Vec::new();
    let mut i: usize = 0;
    while i < w
        invariant
            i <= w,
            w == width_of::<T>(),
            le@.len() == i,
            le@ + le_bytes_of(v as nat, (w - i) as nat) == le_bytes_of(
                value.spec_value(),
                w as nat,
            ),
        decreases w - i,
    {
        let b = (v % 256) as u8;
        proof {
            let rest = le_bytes_of((v / 256) as nat, (w - i - 1) as nat);
            assert(le_bytes_of(v as nat, (w - i) as nat) == seq![b] + rest);
            assert(le@.push(b) + rest =~= le@ + (seq![b] + rest));
        }
        le.push(b);
        v = v / 256;
        i = i + 1;
    }
    assert(le@ =~= le_bytes_of(value.spec_value(), w as nat));
    match endian {
        Endian::Little => le,
        Endian::Big => {
            let mut be: Vec<u8> = Vec::new();
            let mut k: usize = 0;
            while k < w
                invariant
                    k <= w,
                    le@.len() == w,
                    be@ == Seq::new(k as nat, |j: int| le@[w - 1 - j]),
                decreases w - k,
            {
                be.push(le[w - 1 - k]);
                assert(be@ =~= Seq::new((k + 1) as nat, |j: int| le@[w - 1 - j]));
                k = k + 1;
            }
            assert(be@ =~= le@.reverse());
            be
        },
    }
}

/// Writing the bit strings `pieces` one after another in `order`, from bits
/// `p` pending in `p_order`: the bytes sent out, and the bits left pending
/// with their order.
pub open spec fn pieces_out(p: Seq<bool>, p_order: Order, pieces: Seq<Seq<bool>>, order: Order) -> (
    Seq<u8>,
    Seq<bool>,
    Order,
)
    decreases pieces.len(),
{
    if pieces.len() == 0 {
        (Seq::empty(), p, p_order)
    } else {
        let before = pieces_out(p, p_order, pieces.drop_last(), order);
        let step = write_bits_out(before.1, before.2, pieces.last(), order);
        (
            before.0 + step.0,
            step.1,
            if step.1.len() == 0 {
                Order::Msb0
            } else {
                order
            },
        )
    }
}

/// `after` is `before` with the bit strings `pieces` written one after
/// another in `order`.
pub open spec fn pieces_written(before: Writer, after: Writer, pieces: Seq<Seq<bool>>, order: Order) -> bool {
    let out = pieces_out(before.leftover.0@, before.leftover.1, pieces, order);
    &&& bytes_emitted(before, after, out.0)
    &&& after.leftover.0@ == out.1
    &&& after.leftover.1 == out.2
}

/// The pieces that `n` bits of the whole bytes `bits` go out in, a byte at a
/// time from the front: whole bytes while `n` covers them, then the low bits
/// of the next byte that make up `n`.
pub open spec fn chunk_pieces(bits: Seq<bool>, n: int) -> Seq<Seq<bool>> {
    let w = bits.len() / 8;
    let q = n / 8;
    Seq::new(
        if q < w {
            (q + 1) as nat
        } else {
            w as nat
        },
        |i: int|
            if i < q {
                bits.subrange(8 * i, 8 * i + 8)
            } else {
                bits.subrange(8 * i + 8 - n % 8, 8 * i + 8)
            },
    )
}

/// One more piece, written after the others.
pub(crate) proof fn lemma_pieces_written_push(
    a: Writer,
    b: Writer,
    c: Writer,
    pieces: Seq<Seq<bool>>,
    x: Seq<bool>,
    order: Order,
)
    requires
        pieces_written(a, b, pieces, order),
        bytes_emitted(b, c, write_bits_out(b.leftover.0@, b.leftover.1, x, order).0),
        c.leftover.0@ == write_bits_out(b.leftover.0@, b.leftover.1, x, order).1,
        c.leftover.1 == if c.leftover.0@.len() == 0 {
            Order::Msb0
        } else {
            order
        },
    ensures
        pieces_written(a, c, pieces.push(x), order),
{
    let ps = pieces.push(x);
    assert(ps.drop_last() =~= pieces);
    let out = pieces_out(a.leftover.0@, a.leftover.1, pieces, order);
    lemma_bytes_emitted_append(a, b, c, out.0, write_bits_out(b.leftover.0@, b.leftover.1, x, order).0);
}

/// The pieces of [`chunk_pieces`] up to the one at `i`, a whole byte while
/// `i` is below `n / 8`, and the last, of the low bits, at `n / 8`.
proof fn lemma_chunk_piece(bits: Seq<bool>, n: int, i: int)
    requires
        bits.len() % 8 == 0,
        0 <= n <= bits.len(),
        0 <= i < bits.len() / 8,
        8 * i <= n,
    ensures
        8 * i + 8 <= bits.len(),
        i < n / 8 ==> {
            &&& chunk_pieces(bits, n)[i] == bits.subrange(8 * i, 8 * i + 8)
            &&& chunk_pieces(bits, n).take(i).push(bits.subrange(8 * i, 8 * i + 8)) == chunk_pieces(
                bits,
                n,
            ).take(i + 1)
        },
        i >= n / 8 ==> {
            &&& i == n / 8
            &&& chunk_pieces(bits, n).len() == i + 1
            &&& chunk_pieces(bits, n)[i] == bits.subrange(8 * i + 8 - n % 8, 8 * i + 8)
            &&& chunk_pieces(bits, n).take(i).push(bits.subrange(8 * i + 8 - n % 8, 8 * i + 8))
                == chunk_pieces(bits, n)
        },
{
    let ps = chunk_pieces(bits, n);
    if i < n / 8 {
        assert(ps.take(i).push(bits.subrange(8 * i, 8 * i + 8)) =~= ps.take(i + 1));
    } else {
        assert(ps.take(i).push(bits.subrange(8 * i + 8 - n % 8, 8 * i + 8)) =~= ps);
    }
}

/// Writing no pieces leaves the writer as it is.
proof fn lemma_pieces_written_none(w: Writer, order: Order)
    ensures
        pieces_written(w, w, Seq::<Seq<bool>>::empty(), order),
{
    assert(crate::no_std_io::after_writes(w.inner.data(), w.inner.pos() as int, Seq::<u8>::empty())
        == w.inner.data());
}

/// Write `n` bits of the whole bytes `bits` in `order`, in the pieces
/// [`chunk_pieces`] gives.
#[verifier::spinoff_prover]
#[verifier::rlimit(60)]
fn write_chunk_pieces(writer: &mut Writer, bits: &BitSlice<'_, u8, Msb0>, n: usize, order: Order) -> (r: Result<(), DekuError>)
    requires
        old(writer).leftover.0@.len() < 8,
        bits@.len() % 8 == 0,
        n <= bits@.len(),
        has_room(*old(writer), n as int),
    ensures
        r is Ok,
        pieces_written(*old(writer), *final(writer), chunk_pieces(bits@, n as int), order),
        final(writer).leftover.0@.len() < 8,
        advances(*old(writer), *final(writer), old(writer).leftover.0@.len() + n),
{
    let w = bits.len() / 8;
    let ghost pieces = chunk_pieces(bits@, n as int);
    let ghost w0 = *writer;
    let mut remaining = n;
    let mut i: usize = 0;
    proof {
        assert(pieces.take(0) =~= Seq::<Seq<bool>>::empty());
        lemma_pieces_written_none(w0, order);
    }
    while i < w
        invariant
            i <= w,
            w == bits@.len() / 8,
            bits@.len() % 8 == 0,
            bits@.len() <= usize::MAX,
            n <= bits@.len(),
            remaining + 8 * i == n,
            pieces == chunk_pieces(bits@, n as int),
            w0 == *old(writer),
            w0.leftover.0@.len() < 8,
            has_room(w0, n as int),
            writer.leftover.0@.len() < 8,
            pieces_written(w0, *writer, pieces.take(i as int), order),
            advances(w0, *writer, w0.leftover.0@.len() + 8 * i),
        decreases w - i,
    {
        proof {
            lemma_chunk_piece(bits@, n as int, i as int);
        }
        let chunk = bits.subslice(8 * i, 8 * i + 8);
        let ghost before = *writer;
        proof {
            lemma_room_left(w0, before, 8 * i as int, n as int);
        }
        if 8 > remaining {
            let piece = chunk.subslice(8 - remaining, 8);
            match writer.write_bits_order(&piece, order) {
                Ok(()) => {},
                Err(e) => {
                    return Err(e);
                },
            }
            proof {
                assert(piece@ =~= bits@.subrange(8 * i + 8 - n % 8, 8 * i + 8));
                lemma_pieces_written_push(w0, before, *writer, pieces.take(i as int), piece@, order);
                lemma_bits_write_advances(before, *writer, piece@, order);
                lemma_advances_trans(w0, before, *writer, 8 * i as int, remaining as int);
            }
            return Ok(());
        } else {
            match writer.write_bits_order(&chunk, order) {
                Ok(()) => {},
                Err(e) => {
                    return Err(e);
                },
            }
            proof {
                lemma_pieces_written_push(w0, before, *writer, pieces.take(i as int), chunk@, order);
                lemma_bits_write_advances(before, *writer, chunk@, order);
                lemma_advances_trans(w0, before, *writer, 8 * i as int, 8);
            }
            remaining = remaining - 8;
            i = i + 1;
        }
    }
    proof {
        assert(pieces.len() == w);
        assert(pieces.take(w as int) =~= pieces);
    }
    Ok(())
}

/// The message for a size of `n` bits larger than the `total` bits of the
/// input; `than` picks the wording.
pub open spec fn input_size_message(n: nat, total: nat, than: bool) -> Seq<char> {
    "bit size "@ + spec_usize_text(n as usize) + if than {
        " is larger than input "@
    } else {
        " is larger then input "@
    } + spec_usize_text(total as usize)
}

/// The message for a value that does not fit in `n` bits.
pub open spec fn fit_message(value: nat, n: nat) -> Seq<char> {
    "bit size "@ + spec_usize_text(significant_bits(value as u64) as usize)
        + " of input is larger than bit requested size "@ + spec_usize_text(n as usize)
}

/// The message for a size of `size` bytes larger than the `width` bytes of the
/// input.
pub open spec fn byte_size_message(size: nat, width: nat) -> Seq<char> {
    "byte size "@ + spec_usize_text(size as usize) + " is larger then input "@ + spec_usize_text(
        width as usize,
    )
}

/// Errors unless `value` fits in `bits` bits.
fn check_fits(value: u64, bits: usize) -> (r: Result<(), DekuError>)
    requires
        bits <= 64,
    ensures
        r is Ok <==> value < pow2(bits as nat),
        r matches Err(e) ==> e matches DekuError::InvalidParam(msg) && msg@ == fit_message(
            value as nat,
            bits as nat,
        ),
{
    proof {
        lemma_pow2_values();
        if bits < 64 {
            vstd::bits::lemma_u64_shr_is_div(value, bits as u64);
            vstd::arithmetic::power2::lemma_pow2_pos(bits as nat);
            if value < pow2(bits as nat) {
                vstd::arithmetic::div_mod::lemma_basic_div(value as int, pow2(bits as nat) as int);
            } else {
                vstd::arithmetic::div_mod::lemma_div_is_ordered(pow2(bits as nat) as int, value as int, pow2(bits as nat) as int);
                vstd::arithmetic::div_mod::lemma_div_by_self(pow2(bits as nat) as int);
            }
        }
    }
    if bits >= 64 || (value >> (bits as u64)) == 0 {
        return Ok(());
    }
    proof {
        vstd::std_specs::bits::axiom_u64_leading_zeros(value);
    }
    let significant = (64 - value.leading_zeros()) as usize;
    Err(
        DekuError::InvalidParam(
            sized_text("bit size ", significant, " of input is larger than bit requested size ", bits),
        ),
    )
}

/// Writing integer `value` of `w` bytes in `n` bits, `endian` and `order`,
/// into `before`, leaving `after`, gives `r`.
///
/// A size past the input's bits is refused. When `checked`, so is a value
/// that does not fit in `n` bits. Otherwise the low `n` bits of the bytes go
/// out: in one piece for a single byte or big endian `Msb0`, and else a byte
/// at a time from the front as [`chunk_pieces`] says.
pub open spec fn int_bits_written(
    value: nat,
    w: nat,
    before: Writer,
    after: Writer,
    n: nat,
    endian: Endian,
    order: Order,
    checked: bool,
    r: Result<(), DekuError>,
) -> bool {
    let bits = bytes_bits(int_bytes(value, w, endian));
    let pieces = if w == 1 || (endian == Endian::Big && order == Order::Msb0) {
        seq![bits.skip(8 * w - n)]
    } else {
        chunk_pieces(bits, n as int)
    };
    if n > 8 * w {
        &&& r matches Err(e) && e matches DekuError::InvalidParam(msg) && msg@ == input_size_message(
            n,
            8 * w,
            checked,
        )
        &&& after == before
    } else if checked && value >= pow2(n) {
        &&& r matches Err(e) && e matches DekuError::InvalidParam(msg) && msg@ == fit_message(
            value,
            n,
        )
        &&& after == before
    } else {
        &&& r is Ok
        &&& pieces_written(before, after, pieces, order)
    }
}

/// The bits sent on by a write of `n` bits of an integer of `w` bytes: none
/// when the size is refused.
pub open spec fn bits_write_size(w: nat, n: nat) -> nat {
    if n > 8 * w {
        0
    } else {
        n
    }
}

/// Write `n` bits of `value`, as [`int_bits_written`] says.
fn write_int_bits<T: BitValue>(
    value: T,
    writer: &mut Writer,
    n: usize,
    endian: Endian,
    order: Order,
    checked: bool,
) -> (r: Result<(), DekuError>)
    requires
        old(writer).leftover.0@.len() < 8,
        has_room(*old(writer), bits_write_size(width_of::<T>() as nat, n as nat) as int),
    ensures
        int_bits_written(
            value.spec_value(),
            width_of::<T>() as nat,
            *old(writer),
            *final(writer),
            n as nat,
            endian,
            order,
            checked,
            r,
        ),
        final(writer).leftover.0@.len() < 8,
        advances(
            *old(writer),
            *final(writer),
            old(writer).leftover.0@.len() + bits_write_size(width_of::<T>() as nat, n as nat) as int,
        ),
{
    let tb = T::bits();
    let input = int_to_bytes(value, endian);
    let total = input.len() * 8;
    let ghost w0 = *writer;
    let vv = value.to_u128();
    proof {
        lemma_pow2_values();
        assert(bytes_emitted(w0, w0, Seq::<u8>::empty())) by {
            assert(crate::no_std_io::after_writes(w0.inner.data(), w0.inner.pos() as int, Seq::<u8>::empty()) == w0.inner.data());
        }
    }
    if n > total {
        let msg = if checked {
            sized_text("bit size ", n, " is larger than input ", total)
        } else {
            sized_text("bit size ", n, " is larger then input ", total)
        };
        return Err(DekuError::InvalidParam(msg));
    }
    if checked {
        let v = vv as u64;
        match check_fits(v, n) {
            Ok(()) => {},
            Err(e) => {
                return Err(e);
            },
        }
    }
    let input_bits = BitSlice::<u8, Msb0>::from_slice(input.as_slice());
    proof {
        bits_range_all(input@);
    }
    if input.len() == 1 || (endian == Endian::Big && order == Order::Msb0) {
        let piece = input_bits.subslice(total - n, total);
        match writer.write_bits_order(&piece, order) {
            Ok(()) => {},
            Err(e) => {
                return Err(e);
            },
        }
        proof {
            let ps: Seq<Seq<bool>> = seq![piece@];
            assert(Seq::<Seq<bool>>::empty().push(piece@) =~= ps);
            assert(pieces_written(w0, w0, Seq::<Seq<bool>>::empty(), order));
            lemma_pieces_written_push(w0, w0, *writer, Seq::<Seq<bool>>::empty(), piece@, order);
            assert(piece@ =~= input_bits@.skip(total - n));
            lemma_bits_write_advances(w0, *writer, piece@, order);
        }
    } else {
        match write_chunk_pieces(writer, &input_bits, n, order) {
            Ok(()) => {},
            Err(e) => {
                return Err(e);
            },
        }
    }
    Ok(())
}

/// Writing integer `value` of `w` bytes in `size` bytes and `endian` into
/// `before`, leaving `after`, gives `r`: an unsigned byte (`byte`) goes out
/// whole whatever the size; otherwise a size past the input is refused, and else the last
/// `size` bytes (big endian) or the first (little endian) go out.
pub open spec fn int_bytes_written(
    value: nat,
    w: nat,
    byte: bool,
    before: Writer,
    after: Writer,
    size: nat,
    endian: Endian,
    r: Result<(), DekuError>,
) -> bool {
    let bytes = int_bytes(value, w, endian);
    if byte {
        &&& r is Ok
        &&& bytes_put(before, after, bytes)
    } else if size > w {
        &&& r matches Err(e) && e matches DekuError::InvalidParam(msg) && msg@ == byte_size_message(
            size,
            w,
        )
        &&& after == before
    } else {
        &&& r is Ok
        &&& bytes_put(
            before,
            after,
            match endian {
                Endian::Big => bytes.skip(w - size),
                Endian::Little => bytes.take(size as int),
            },
        )
    }
}

/// The bits sent on by a write of `size` bytes of an integer of `w` bytes
/// (`byte` for the unsigned byte).
pub open spec fn bytes_write_size(w: nat, size: nat, byte: bool) -> nat {
    if byte {
        8
    } else if size > w {
        0
    } else {
        8 * size
    }
}

/// Write `value` in `size` bytes, as [`int_bytes_written`] says.
fn write_int_bytes<T: BitValue>(value: T, writer: &mut Writer, size: usize, endian: Endian) -> (r:
    Result<(), DekuError>)
    requires
        old(writer).leftover.0@.len() < 8,
        has_room(*old(writer), bytes_write_size(width_of::<T>() as nat, size as nat, is_u8::<T>()) as int),
    ensures
        int_bytes_written(
            value.spec_value(),
            width_of::<T>() as nat,
            is_u8::<T>(),
            *old(writer),
            *final(writer),
            size as nat,
            endian,
            r,
        ),
        final(writer).leftover.0@.len() < 8,
        advances(
            *old(writer),
            *final(writer),
            old(writer).leftover.0@.len() + bytes_write_size(width_of::<T>() as nat, size as nat, is_u8::<T>()) as int,
        ),
{
    let tb = T::bits();
    let input = int_to_bytes(value, endian);
    let w = input.len();
    if w == 1 && !T::signed() {
        match writer.write_bytes(input.as_slice()) {
            Ok(()) => {},
            Err(e) => {
                return Err(e);
            },
        }
        proof {
            lemma_bytes_put_advances(*old(writer), *writer, input@);
        }
        return Ok(());
    }
    if size > w {
        return Err(DekuError::InvalidParam(sized_text("byte size ", size, " is larger then input ", w)));
    }
    let part = match endian {
        Endian::Big => slice_range(input.as_slice(), w - size, w),
        Endian::Little => slice_range(input.as_slice(), 0, size),
    };
    proof {
        assert(input@.subrange((w - size) as int, w as int) =~= input@.skip(w - size));
        assert(input@.subrange(0, size as int) =~= input@.take(size as int));
    }
    match writer.write_bytes(part.as_slice()) {
        Ok(()) => {},
        Err(e) => {
            return Err(e);
        },
    }
    proof {
        lemma_bytes_put_advances(*old(writer), *writer, part@);
    }
    Ok(())
}

/// The bytes `buf[start..end]`.
fn slice_range(buf: &[u8], start: usize, end: usize) -> (r: Vec<u8>)
    requires
        start <= end <= buf@.len(),
    ensures
        r@ == buf@.subrange(start as int, end as int),
{
    let mut out: Vec<u8> = Vec::new();
    let mut i: usize = start;
    while i < end
        invariant
            start <= i <= end <= buf@.len(),
            out@ == buf@.subrange(start as int, i as int),
        decreases end - i,
    {
        out.push(buf[i]);
        assert(buf@.subrange(start as int, i + 1) =~= buf@.subrange(start as int, i as int).push(
            buf@[i as int],
        ));
        i = i + 1;
    }
    out
}

/// Write all the bytes of `value` in `endian` order.
fn write_int_endian<T: BitValue>(value: T, writer: &mut Writer, endian: Endian) -> (r: Result<(), DekuError>)
    requires
        old(writer).leftover.0@.len() < 8,
        has_room(*old(writer), 8 * width_of::<T>()),
    ensures
        r is Ok,
        bytes_put(*old(writer), *final(writer), int_bytes(value.spec_value(), width_of::<T>() as nat, endian)),
        final(writer).leftover.0@.len() < 8,
        advances(*old(writer), *final(writer), old(writer).leftover.0@.len() + 8 * width_of::<T>()),
{
    let input = int_to_bytes(value, endian);
    let r = writer.write_bytes(input.as_slice());
    proof {
        lemma_bytes_put_advances(*old(writer), *writer, input@);
    }
    r
}

impl<T: BitValue> DekuWriter<(Endian, BitSize, Order)> for T {
    open spec fn write_size(&self, ctx: (Endian, BitSize, Order)) -> nat {
        bits_write_size(width_of::<T>() as nat, ctx.1.0 as nat)
    }

    /// A single byte is checked to fit in the size; wider integers are not.
    open spec fn writes(
        &self,
        before: Writer,
        after: Writer,
        ctx: (Endian, BitSize, Order),
        r: Result<(), DekuError>,
    ) -> bool {
        int_bits_written(
            self.spec_value(),
            width_of::<T>() as nat,
            before,
            after,
            ctx.1.0 as nat,
            ctx.0,
            ctx.2,
            is_u8::<T>(),
            r,
        )
    }

    fn to_writer(&self, writer: &mut Writer, ctx: (Endian, BitSize, Order)) -> (r: Result<(), DekuError>) {
        let (endian, size, order) = ctx;
        let single = T::bits() == 8 && !T::signed();
        write_int_bits(*self, writer, size.0, endian, order, single)
    }
}

impl<T: BitValue> DekuWriter<(Endian, BitSize)> for T {
    open spec fn write_size(&self, ctx: (Endian, BitSize)) -> nat {
        bits_write_size(width_of::<T>() as nat, ctx.1.0 as nat)
    }

    /// The value is checked to fit in the size, and its bits go out `Msb0`.
    open spec fn writes(&self, before: Writer, after: Writer, ctx: (Endian, BitSize), r: Result<(), DekuError>) -> bool {
        int_bits_written(
            self.spec_value(),
            width_of::<T>() as nat,
            before,
            after,
            ctx.1.0 as nat,
            ctx.0,
            Order::Msb0,
            true,
            r,
        )
    }

    fn to_writer(&self, writer: &mut Writer, ctx: (Endian, BitSize)) -> (r: Result<(), DekuError>) {
        let (endian, size) = ctx;
        write_int_bits(*self, writer, size.0, endian, Order::Msb0, true)
    }
}

impl<T: BitValue> DekuWriter<(Endian, ByteSize)> for T {
    open spec fn write_size(&self, ctx: (Endian, ByteSize)) -> nat {
        bytes_write_size(width_of::<T>() as nat, ctx.1.0 as nat, is_u8::<T>())
    }

    open spec fn writes(&self, before: Writer, after: Writer, ctx: (Endian, ByteSize), r: Result<(), DekuError>) -> bool {
        int_bytes_written(self.spec_value(), width_of::<T>() as nat, is_u8::<T>(), before, after, ctx.1.0 as nat, ctx.0, r)
    }

    fn to_writer(&self, writer: &mut Writer, ctx: (Endian, ByteSize)) -> (r: Result<(), DekuError>) {
        let (endian, size) = ctx;
        write_int_bytes(*self, writer, size.0, endian)
    }
}

/// When using Endian and ByteSize, Order is not used
impl<T: BitValue> DekuWriter<(Endian, ByteSize, Order)> for T {
    open spec fn write_size(&self, ctx: (Endian, ByteSize, Order)) -> nat {
        bytes_write_size(width_of::<T>() as nat, ctx.1.0 as nat, is_u8::<T>())
    }

    open spec fn writes(
        &self,
        before: Writer,
        after: Writer,
        ctx: (Endian, ByteSize, Order),
        r: Result<(), DekuError>,
    ) -> bool {
        int_bytes_written(self.spec_value(), width_of::<T>() as nat, is_u8::<T>(), before, after, ctx.1.0 as nat, ctx.0, r)
    }

    fn to_writer(&self, writer: &mut Writer, ctx: (Endian, ByteSize, Order)) -> (r: Result<(), DekuError>) {
        let (endian, size, _order) = ctx;
        write_int_bytes(*self, writer, size.0, endian)
    }
}

impl<T: BitValue> DekuWriter<Endian> for T {
    open spec fn write_size(&self, endian: Endian) -> nat {
        8 * width_of::<T>() as nat
    }

    open spec fn writes(&self, before: Writer, after: Writer, endian: Endian, r: Result<(), DekuError>) -> bool {
        &&& r is Ok
        &&& bytes_put(before, after, int_bytes(self.spec_value(), width_of::<T>() as nat, endian))
    }

    fn to_writer(&self, writer: &mut Writer, endian: Endian) -> (r: Result<(), DekuError>) {
        write_int_endian(*self, writer, endian)
    }
}

impl<T: BitValue> DekuWriter<(BitSize, Order)> for T {
    open spec fn write_size(&self, ctx: (BitSize, Order)) -> nat {
        bits_write_size(width_of::<T>() as nat, ctx.0.0 as nat)
    }

    /// As with the target's own endianness.
    open spec fn writes(&self, before: Writer, after: Writer, ctx: (BitSize, Order), r: Result<(), DekuError>) -> bool {
        exists|e: Endian|
            #[trigger] int_bits_written(
                self.spec_value(),
                width_of::<T>() as nat,
                before,
                after,
                ctx.0.0 as nat,
                e,
                ctx.1,
                is_u8::<T>(),
                r,
            )
    }

    fn to_writer(&self, writer: &mut Writer, ctx: (BitSize, Order)) -> (r: Result<(), DekuError>) {
        let (size, order) = ctx;
        let endian = Endian::new();
        let single = T::bits() == 8 && !T::signed();
        let r = write_int_bits(*self, writer, size.0, endian, order, single);
        assert(single == is_u8::<T>());
        r
    }
}

impl<T: BitValue> DekuWriter<(Endian, Order)> for T {
    open spec fn write_size(&self, ctx: (Endian, Order)) -> nat {
        8 * width_of::<T>() as nat
    }

    /// All the bytes, as with a byte size of the integer's width.
    open spec fn writes(&self, before: Writer, after: Writer, ctx: (Endian, Order), r: Result<(), DekuError>) -> bool {
        int_bytes_written(
            self.spec_value(),
            width_of::<T>() as nat,
            is_u8::<T>(),
            before,
            after,
            width_of::<T>() as nat,
            ctx.0,
            r,
        )
    }

    fn to_writer(&self, writer: &mut Writer, ctx: (Endian, Order)) -> (r: Result<(), DekuError>) {
        let (endian, _order) = ctx;
        let byte_size = T::bits() / 8;
        write_int_bytes(*self, writer, byte_size, endian)
    }
}

impl<T: BitValue> DekuWriter<BitSize> for T {
    open spec fn write_size(&self, size: BitSize) -> nat {
        bits_write_size(width_of::<T>() as nat, size.0 as nat)
    }

    /// As with the target's own endianness.
    open spec fn writes(&self, before: Writer, after: Writer, size: BitSize, r: Result<(), DekuError>) -> bool {
        exists|e: Endian|
            #[trigger] int_bits_written(
                self.spec_value(),
                width_of::<T>() as nat,
                before,
                after,
                size.0 as nat,
                e,
                Order::Msb0,
                true,
                r,
            )
    }

    fn to_writer(&self, writer: &mut Writer, bit_size: BitSize) -> (r: Result<(), DekuError>) {
        let endian = Endian::new();
        write_int_bits(*self, writer, bit_size.0, endian, Order::Msb0, true)
    }
}

impl<T: BitValue> DekuWriter<ByteSize> for T {
    open spec fn write_size(&self, size: ByteSize) -> nat {
        bytes_write_size(width_of::<T>() as nat, size.0 as nat, is_u8::<T>())
    }

    /// As with the target's own endianness.
    open spec fn writes(&self, before: Writer, after: Writer, size: ByteSize, r: Result<(), DekuError>) -> bool {
        exists|e: Endian|
            #[trigger] int_bytes_written(
                self.spec_value(),
                width_of::<T>() as nat,
                is_u8::<T>(),
                before,
                after,
                size.0 as nat,
                e,
                r,
            )
    }

    fn to_writer(&self, writer: &mut Writer, byte_size: ByteSize) -> (r: Result<(), DekuError>) {
        let endian = Endian::new();
        write_int_bytes(*self, writer, byte_size.0, endian)
    }
}

impl<T: BitValue> DekuWriter<Order> for T {
    open spec fn write_size(&self, order: Order) -> nat {
        8 * width_of::<T>() as nat
    }

    /// As with the target's own endianness.
    open spec fn writes(&self, before: Writer, after: Writer, order: Order, r: Result<(), DekuError>) -> bool {
        exists|e: Endian|
            #[trigger] int_bytes_written(
                self.spec_value(),
                width_of::<T>() as nat,
                is_u8::<T>(),
                before,
                after,
                width_of::<T>() as nat,
                e,
                r,
            )
    }

    fn to_writer(&self, writer: &mut Writer, order: Order) -> (r: Result<(), DekuError>) {
        let endian = Endian::new();
        let byte_size = T::bits() / 8;
        write_int_bytes(*self, writer, byte_size, endian)
    }
}

impl<T: BitValue> DekuWriter<()> for T {
    open spec fn write_size(&self, ctx: ()) -> nat {
        8 * width_of::<T>() as nat
    }

    /// All the bytes, in the target's own endianness.
    open spec fn writes(&self, before: Writer, after: Writer, ctx: (), r: Result<(), DekuError>) -> bool {
        &&& r is Ok
        &&& exists|e: Endian|
            #[trigger] bytes_put(before, after, int_bytes(self.spec_value(), width_of::<T>() as nat, e))
    }

    fn to_writer(&self, writer: &mut Writer, ctx: ()) -> (r: Result<(), DekuError>) {
        let endian = Endian::new();
        write_int_endian(*self, writer, endian)
    }
}

} // verus!
