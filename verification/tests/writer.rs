use deku::bits::{BitVec, Msb0};
use deku::ctx::Order;
use deku::no_std_io::Cursor;
use deku::writer::Writer;

fn bv(bits: &[u8]) -> BitVec<u8, Msb0> {
    let bools: Vec<bool> = bits.iter().map(|&b| b == 1).collect();
    BitVec::from_bits(&bools)
}

#[test]
fn writer_test_writer_bits() {
    let mut writer = Writer::new(Cursor::new(vec![]));

    let input = vec![0xaa];
    writer.write_bytes(&input).unwrap();

    let bv0 = BitVec::<u8, Msb0>::from_slice(&[0xbb]);
    writer.write_bits(&bv0.as_bitslice()).unwrap();

    let b = bv(&[1, 1, 1, 1]);
    writer.write_bits(&b.as_bitslice()).unwrap();
    let b = bv(&[0, 0, 0, 1]);
    writer.write_bits(&b.as_bitslice()).unwrap();

    let input = vec![0xaa];
    writer.write_bytes(&input).unwrap();

    let b = bv(&[0, 0, 0, 1]);
    writer.write_bits(&b.as_bitslice()).unwrap();
    let b = bv(&[1, 1, 1, 1]);
    writer.write_bits(&b.as_bitslice()).unwrap();

    let b = bv(&[0, 0, 0, 1]);
    writer.write_bits(&b.as_bitslice()).unwrap();

    let input = vec![0xaa];
    writer.write_bytes(&input).unwrap();

    let b = bv(&[1, 1, 1, 1]);
    writer.write_bits(&b.as_bitslice()).unwrap();

    assert_eq!(
        &mut writer.inner.into_inner(),
        &mut vec![0xaa, 0xbb, 0xf1, 0xaa, 0x1f, 0x1a, 0xaf]
    );
}

/// A `Lsb0` write that ends on a byte boundary leaves no bits pending, so it
/// must not steer the `Msb0` write that follows into the `Lsb0` path, which
/// emits whole bytes back to front.
#[test]
fn test_msb0_after_byte_aligned_lsb0_is_not_reordered() {
    let mut writer = Writer::new(Cursor::new(vec![]));
    let a = BitVec::<u8, Msb0>::from_slice(&[0x41]);
    writer.write_bits_order(&a.as_bitslice(), Order::Lsb0).unwrap();
    let pending = (writer.leftover.0.is_empty(), writer.leftover.1);
    let b = BitVec::<u8, Msb0>::from_slice(&[0xab, 0xcd]);
    writer.write_bits_order(&b.as_bitslice(), Order::Msb0).unwrap();
    writer.finalize().unwrap();
    let stale = writer.inner.into_inner();

    // The same two writes on a writer that never saw `Lsb0`.
    let mut writer = Writer::new(Cursor::new(vec![]));
    writer.write_bits_order(&a.as_bitslice(), Order::Msb0).unwrap();
    writer.write_bits_order(&b.as_bitslice(), Order::Msb0).unwrap();
    writer.finalize().unwrap();
    let fresh = writer.inner.into_inner();

    assert_eq!(stale, fresh);
    assert_eq!(pending, (true, Order::Msb0));
}

#[test]
fn test_writer_bytes() {
    let mut writer = Writer::new(Cursor::new(vec![]));

    let input = vec![0xaa];
    writer.write_bytes(&input).unwrap();

    assert_eq!(&mut writer.inner.into_inner(), &mut vec![0xaa]);
}

fn write_two(first: &[u8], first_order: Order, second: &[u8], second_order: Order) -> Vec<u8> {
    let mut writer = Writer::new(Cursor::new(vec![]));
    writer.write_bits_order(&bv(first).as_bitslice(), first_order).unwrap();
    writer.write_bits_order(&bv(second).as_bitslice(), second_order).unwrap();
    writer.finalize().unwrap();
    writer.inner.into_inner()
}

#[test]
fn writer_test_bit_order() {
    assert_eq!(
        write_two(&[1, 0, 1, 0], Order::Msb0, &[0, 1, 0, 1], Order::Msb0),
        [0b1010_0101]
    );
    assert_eq!(
        write_two(&[1, 0, 1, 0], Order::Lsb0, &[0, 1, 0, 1], Order::Lsb0),
        [0b0101_1010]
    );
    assert_eq!(
        write_two(&[1, 0, 1, 0], Order::Msb0, &[0, 1, 0, 1], Order::Lsb0),
        [0b1010_0101]
    );
    assert_eq!(
        write_two(&[1, 0, 1, 0, 1, 0], Order::Msb0, &[0, 1, 0, 1, 0, 1], Order::Msb0),
        [0b1010_1001, 0b0101_0000]
    );
    assert_eq!(
        write_two(&[1, 0, 1, 0, 1, 0], Order::Lsb0, &[0, 1, 0, 1, 0, 1], Order::Lsb0),
        [0b0110_1010, 0b0000_0101]
    );
    assert_eq!(
        write_two(&[1, 0, 1, 0, 1, 0], Order::Lsb0, &[0, 1, 0, 1, 0, 1], Order::Msb0),
        [0b0101_0110, 0b1010_0000]
    );
    assert_eq!(
        write_two(&[1, 0, 1, 0, 1, 0], Order::Msb0, &[0, 1, 0, 1, 0, 1], Order::Lsb0),
        [0b1001_0101, 0b0000_1010]
    );
}

// Issue #678
#[test]
fn test_regression_stream_position() {
    let mut writer = Writer::new(Cursor::new(vec![]));

    writer
        .write_bits_order(&bv(&[1, 1, 1, 1]).as_bitslice(), Order::Msb0)
        .unwrap();

    let pos = writer.stream_position().unwrap();
    assert_eq!(pos, 0);

    writer
        .write_bits_order(&bv(&[1, 1, 1, 1]).as_bitslice(), Order::Msb0)
        .unwrap();

    writer.finalize().unwrap();
    assert_eq!(writer.inner.into_inner(), [0xFF]);
}
