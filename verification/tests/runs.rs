use deku::bits::{BitVec, Lsb0, Msb0};
use deku::ctx::Order;
use deku::no_std_io::Cursor;
use deku::reader::{Leftover, Reader};
use deku::writer::Writer;
use deku::BoundedBitVec;

fn bv(bits: &[u8]) -> BitVec<u8, Msb0> {
    let bools: Vec<bool> = bits.iter().map(|&b| b == 1).collect();
    BitVec::from_bits(&bools)
}

fn write_fields(fields: &[BitVec<u8, Msb0>], order: Order) -> Vec<u8> {
    let mut writer = Writer::new(Cursor::new(vec![]));
    for f in fields {
        writer.write_bits_order(&f.as_bitslice(), order).unwrap();
    }
    writer.finalize().unwrap();
    writer.inner.into_inner()
}

#[test]
fn msb0_run_of_reads() {
    let mut reader = Reader::new(Cursor::new(vec![0xab, 0xcd]));
    assert_eq!(reader.read_bits(4, Order::Msb0).unwrap(), Some(bv(&[1, 0, 1, 0])));
    assert_eq!(reader.read_bits(4, Order::Msb0).unwrap(), Some(bv(&[1, 0, 1, 1])));
    assert_eq!(reader.read_bits(4, Order::Msb0).unwrap(), Some(bv(&[1, 1, 0, 0])));
    assert_eq!(reader.read_bits(4, Order::Msb0).unwrap(), Some(bv(&[1, 1, 0, 1])));
    assert_eq!(reader.bits_read, 16);
}

#[test]
fn lsb0_run_of_reads() {
    let mut reader = Reader::new(Cursor::new(vec![0xab, 0xcd]));
    assert_eq!(reader.read_bits(4, Order::Lsb0).unwrap(), Some(bv(&[1, 0, 1, 1])));
    assert_eq!(reader.read_bits(4, Order::Lsb0).unwrap(), Some(bv(&[1, 0, 1, 0])));
    assert_eq!(reader.read_bits(4, Order::Lsb0).unwrap(), Some(bv(&[1, 1, 0, 1])));
    assert_eq!(reader.read_bits(4, Order::Lsb0).unwrap(), Some(bv(&[1, 1, 0, 0])));
    assert_eq!(reader.bits_read, 16);
}

#[test]
fn msb0_fields_round_trip() {
    let fields = vec![bv(&[1, 0, 1]), bv(&[0, 1, 1, 0, 1, 0, 0, 1, 1, 1]), bv(&[1]), bv(&[0, 0, 1, 1, 0])];
    let bytes = write_fields(&fields, Order::Msb0);
    assert_eq!(bytes.len(), 3);
    let mut reader = Reader::new(Cursor::new(bytes));
    for f in &fields {
        assert_eq!(reader.read_bits(f.len(), Order::Msb0).unwrap().unwrap(), *f);
    }
}

#[test]
fn lsb0_fields_round_trip() {
    let fields = vec![bv(&[1, 0, 1]), bv(&[0, 1, 1, 0, 1, 0, 0, 1]), bv(&[1, 1, 0, 0, 1, 0, 1]), bv(&[0, 1])];
    let bytes = write_fields(&fields, Order::Lsb0);
    assert_eq!(bytes.len(), 3);
    let mut reader = Reader::new(Cursor::new(bytes));
    for f in &fields {
        assert_eq!(reader.read_bits(f.len(), Order::Lsb0).unwrap().unwrap(), *f);
    }
}

#[test]
fn writes_then_finalize_msb0() {
    let bytes = write_fields(&[bv(&[1, 0, 1, 0]), bv(&[0, 1, 0, 1])], Order::Msb0);
    assert_eq!(bytes, vec![0b1010_0101]);
    let bytes = write_fields(&[bv(&[1, 1]), bv(&[0, 1, 1])], Order::Msb0);
    assert_eq!(bytes, vec![0b1101_1000]);
}

#[test]
fn writer_stays_settled() {
    let mut writer = Writer::new(Cursor::new(vec![]));
    writer.write_bits_order(&bv(&[1, 0, 1]).as_bitslice(), Order::Lsb0).unwrap();
    assert_eq!(writer.bits_written + writer.leftover.0.len(), 3);
    writer.write_bits_order(&bv(&[1, 1, 1, 1, 0, 0]).as_bitslice(), Order::Lsb0).unwrap();
    assert_eq!(writer.bits_written, 8);
    assert_eq!(writer.bits_written + writer.leftover.0.len(), 9);
    writer.write_bits_order(&bv(&[1, 1, 1, 1, 1, 1, 1]).as_bitslice(), Order::Msb0).unwrap();
    assert_eq!(writer.bits_written % 8, 0);
    assert_eq!(writer.bits_written + writer.leftover.0.len(), 16);
    assert!(writer.leftover.0.is_empty());
    assert_eq!(writer.leftover.1, Order::Msb0);
}

#[test]
fn end_leaves_later_reads_alone() {
    let mut plain = Reader::new(Cursor::new(vec![0xab, 0xcd]));
    let mut checked = Reader::new(Cursor::new(vec![0xab, 0xcd]));
    assert!(!checked.end());
    assert_eq!(checked.bits_read, 0);
    for (n, order) in [(3, Order::Msb0), (5, Order::Lsb0), (8, Order::Msb0)] {
        assert_eq!(plain.read_bits(n, order).unwrap(), checked.read_bits(n, order).unwrap());
        assert_eq!(plain.bits_read, checked.bits_read);
    }
    let mut plain = Reader::new(Cursor::new(vec![0xab, 0xcd]));
    let mut checked = Reader::new(Cursor::new(vec![0xab, 0xcd]));
    assert!(!checked.end());
    let mut b1 = [0u8; 2];
    let mut b2 = [0u8; 2];
    let _ = plain.read_bytes(2, &mut b1, Order::Msb0).unwrap();
    let _ = checked.read_bytes(2, &mut b2, Order::Msb0).unwrap();
    assert_eq!(b1, b2);
    assert_eq!(b1, [0xab, 0xcd]);
    assert_eq!(plain.bits_read, checked.bits_read);
}

#[test]
fn skip_then_read() {
    let mut reader = Reader::new(Cursor::new(vec![0xab, 0xcd, 0xef]));
    reader.skip_bits(12, Order::Msb0).unwrap();
    assert_eq!(reader.bits_read, 12);
    assert_eq!(reader.read_bits(8, Order::Msb0).unwrap(), Some(bv(&[1, 1, 0, 1, 1, 1, 1, 0])));
    assert_eq!(reader.bits_read, 20);
}

#[test]
fn from_slice_into_vec_gives_bytes_back() {
    let bytes = vec![0x01, 0x80, 0xa5, 0xff, 0x00];
    assert_eq!(BitVec::<u8, Msb0>::from_slice(&bytes).into_vec(), bytes);
    assert_eq!(BitVec::<u8, Lsb0>::from_slice(&bytes).into_vec(), bytes);
}

#[test]
fn with_leftover_reader() {
    let leftover = Some(Leftover::Bits(BoundedBitVec::from_bools(&[true, false])));
    let mut reader = Reader::with_leftover(Cursor::new(vec![0x64, 0x20]), leftover, 6);
    assert_eq!(reader.bits_read, 6);
    let bits = reader.read_bits(17, Order::Msb0).unwrap();
    assert_eq!(bits, Some(bv(&[1, 0, 0, 1, 1, 0, 0, 1, 0, 0, 0, 0, 1, 0, 0, 0, 0])));
    assert_eq!(reader.bits_read, 23);
}
