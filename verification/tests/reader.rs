use deku::bits::{BitVec, Msb0};
use deku::ctx::Order;
use deku::no_std_io::Cursor;
use deku::reader::{Leftover, Reader, ReaderRet};
use deku::BoundedBitVec;

fn bv(bits: &[u8]) -> BitVec<u8, Msb0> {
    let bools: Vec<bool> = bits.iter().map(|&b| b == 1).collect();
    BitVec::from_bits(&bools)
}

#[test]
fn reader_test_end() {
    let input = vec![0xaa, 0xbb];
    let cursor = Cursor::new(input);
    let mut reader = Reader::new(cursor);
    assert!(!reader.end());
    let mut buf = [0; 2];
    let _ = reader.read_bytes_const::<2>(&mut buf, Order::Lsb0).unwrap();
    assert!(reader.end());
    assert_eq!(reader.bits_read, 8 * 2);

    let input = vec![0xaa];
    let cursor = Cursor::new(input);
    let mut reader = Reader::new(cursor);
    assert!(!reader.end());
    let _ = reader.read_bits(4, Order::Lsb0).unwrap();
    assert!(!reader.end());
    let _ = reader.read_bits(4, Order::Lsb0).unwrap();
    assert!(reader.end());
    assert_eq!(reader.bits_read, 8);

    let input = vec![0xaa];
    let cursor = Cursor::new(input);
    let mut reader = Reader::new(cursor);
    assert!(!reader.end());
    let mut buf = [0; 1];
    let _ = reader.read_bytes(1, &mut buf, Order::Lsb0).unwrap();
    assert!(reader.end());
    assert_eq!(reader.bits_read, 8);
}

#[test]
fn reader_test_bits_less() {
    let input = vec![0xaa];
    let cursor = Cursor::new(input);
    let mut reader = Reader::new(cursor);
    let _ = reader.read_bits(1, Order::Lsb0);
    let _ = reader.read_bits(4, Order::Lsb0);
    let _ = reader.read_bits(3, Order::Lsb0);
}

#[test]
fn reader_test_inner() {
    let input = vec![0xaa, 0xbb, 0xcc];
    let cursor = Cursor::new(input);
    let mut reader = Reader::new(cursor);
    let mut buf = [0; 1];
    let _ = reader.read_bytes(1, &mut buf, Order::Lsb0).unwrap();
    assert_eq!([0xaa], buf);
    assert_eq!(reader.bits_read, 8);
}

#[test]
fn reader_test_bit_order() {
    // Lsb0 one byte
    let mut reader = Reader::new(Cursor::new(vec![0xab]));
    // b
    let bits = reader.read_bits(4, Order::Lsb0).unwrap();
    assert_eq!(bits, Some(bv(&[1, 0, 1, 1])));
    // a
    let bits = reader.read_bits(4, Order::Lsb0).unwrap();
    assert_eq!(bits, Some(bv(&[1, 0, 1, 0])));

    // Msb0 one byte
    let mut reader = Reader::new(Cursor::new(vec![0xab]));
    // a
    let bits = reader.read_bits(4, Order::Msb0).unwrap();
    assert_eq!(bits, Some(bv(&[1, 0, 1, 0])));
    // b
    let bits = reader.read_bits(4, Order::Msb0).unwrap();
    assert_eq!(bits, Some(bv(&[1, 0, 1, 1])));

    // Lsb0 two bytes
    let mut reader = Reader::new(Cursor::new(vec![0xab, 0xcd]));
    // b
    let bits = reader.read_bits(4, Order::Lsb0).unwrap();
    assert_eq!(bits, Some(bv(&[1, 0, 1, 1])));
    // a
    let bits = reader.read_bits(4, Order::Lsb0).unwrap();
    assert_eq!(bits, Some(bv(&[1, 0, 1, 0])));
    // d
    let bits = reader.read_bits(4, Order::Lsb0).unwrap();
    assert_eq!(bits, Some(bv(&[1, 1, 0, 1])));
    // c
    let bits = reader.read_bits(4, Order::Lsb0).unwrap();
    assert_eq!(bits, Some(bv(&[1, 1, 0, 0])));

    // Msb0 two byte
    let mut reader = Reader::new(Cursor::new(vec![0xab, 0xcd]));
    // a
    let bits = reader.read_bits(4, Order::Msb0).unwrap();
    assert_eq!(bits, Some(bv(&[1, 0, 1, 0])));
    // b
    let bits = reader.read_bits(4, Order::Msb0).unwrap();
    assert_eq!(bits, Some(bv(&[1, 0, 1, 1])));
    // c
    let bits = reader.read_bits(4, Order::Msb0).unwrap();
    assert_eq!(bits, Some(bv(&[1, 1, 0, 0])));
    // d
    let bits = reader.read_bits(4, Order::Msb0).unwrap();
    assert_eq!(bits, Some(bv(&[1, 1, 0, 1])));

    // split order two bytes, lsb first
    let mut reader = Reader::new(Cursor::new(vec![0xab, 0xcd]));
    // b
    let bits = reader.read_bits(4, Order::Lsb0).unwrap();
    assert_eq!(bits, Some(bv(&[1, 0, 1, 1])));
    // a
    let bits = reader.read_bits(4, Order::Lsb0).unwrap();
    assert_eq!(bits, Some(bv(&[1, 0, 1, 0])));
    // c
    let bits = reader.read_bits(4, Order::Msb0).unwrap();
    assert_eq!(bits, Some(bv(&[1, 1, 0, 0])));
    // d
    let bits = reader.read_bits(4, Order::Msb0).unwrap();
    assert_eq!(bits, Some(bv(&[1, 1, 0, 1])));

    // split order two bytes, msb first
    let mut reader = Reader::new(Cursor::new(vec![0xab, 0xcd]));
    // a
    let bits = reader.read_bits(4, Order::Msb0).unwrap();
    assert_eq!(bits, Some(bv(&[1, 0, 1, 0])));
    // b
    let bits = reader.read_bits(4, Order::Msb0).unwrap();
    assert_eq!(bits, Some(bv(&[1, 0, 1, 1])));
    // d
    let bits = reader.read_bits(4, Order::Lsb0).unwrap();
    assert_eq!(bits, Some(bv(&[1, 1, 0, 1])));
    // c
    let bits = reader.read_bits(4, Order::Lsb0).unwrap();
    assert_eq!(bits, Some(bv(&[1, 1, 0, 0])));

    let mut reader = Reader::new(Cursor::new(vec![0xab]));
    let bits = reader.read_bits(1, Order::Msb0).unwrap();
    assert_eq!(bits, Some(bv(&[1])));
    let bits = reader.read_bits(3, Order::Msb0).unwrap();
    assert_eq!(bits, Some(bv(&[0, 1, 0])));
    // b
    let bits = reader.read_bits(4, Order::Msb0).unwrap();
    assert_eq!(bits, Some(bv(&[1, 0, 1, 1])));

    // 10101011
    //        |
    // |||
    //    ||||
    let mut reader = Reader::new(Cursor::new(vec![0xab]));
    let bits = reader.read_bits(1, Order::Lsb0).unwrap();
    assert_eq!(bits, Some(bv(&[1])));
    let bits = reader.read_bits(3, Order::Msb0).unwrap();
    assert_eq!(bits, Some(bv(&[1, 0, 1])));
    let bits = reader.read_bits(4, Order::Msb0).unwrap();
    assert_eq!(bits, Some(bv(&[0, 1, 0, 1])));
}

#[test]
fn test_long_unaligned_bytes_read() {
    let input = vec![0xff; 0xff * 2];
    let cursor = Cursor::new(input);
    let mut reader = Reader::new(cursor);

    // read 1 bits to make this unaligned
    let bits = reader.read_bits(1, Order::Lsb0).unwrap();
    assert_eq!(bits, Some(bv(&[1])));
    // Now, read the bytes
    let mut out = vec![0x00; 0xff * 2];
    // doesn't crash
    let _ = reader.read_bytes(0xfe * 2, &mut out, Order::Lsb0).unwrap();
}

#[test]
fn test_regression_msb0() {
    // 0110_0100b, 0010_0000b

    let input = vec![0x64, 0x20];
    let cursor = Cursor::new(input);
    let mut reader = Reader::new(cursor);
    reader.leftover = Some(Leftover::Bits(BoundedBitVec::from_bools(&[true, false])));
    let bits = reader.read_bits(17, Order::Msb0).unwrap();
    assert_eq!(
        bits,
        //           |left|first                |last                |
        Some(bv(&[1, 0, 0, 1, 1, 0, 0, 1, 0, 0, 0, 0, 1, 0, 0, 0, 0]))
    );
}

#[test]
fn test_regression_lsb0() {
    // 0110_0100b, 0010_0000b
    let input = vec![0x64, 0x20];
    let cursor = Cursor::new(input);
    let mut reader = Reader::new(cursor);
    reader.leftover = Some(Leftover::Bits(BoundedBitVec::from_bools(&[true, false])));
    let bits = reader.read_bits(17, Order::Lsb0).unwrap();
    assert_eq!(
        bits,
        //           |first               |last                   |left|
        Some(bv(&[0, 1, 0, 0, 0, 0, 0, 0, 1, 1, 0, 0, 1, 0, 0, 1, 0]))
    );
}

#[test]
fn read_bytes_unaligned_gives_bits() {
    let mut reader = Reader::new(Cursor::new(vec![0b1010_1100, 0b0101_0011]));
    let _ = reader.read_bits(4, Order::Msb0).unwrap();
    let mut buf = [0u8; 1];
    match reader.read_bytes(1, &mut buf, Order::Msb0).unwrap() {
        ReaderRet::Bits(Some(bits)) => assert_eq!(bits, bv(&[1, 1, 0, 0, 0, 1, 0, 1])),
        _ => panic!("expected bits"),
    }
    assert_eq!(buf, [0b1100_0101]);
    assert_eq!(reader.bits_read, 12);
}

#[test]
fn read_bytes_aligned_gives_bytes() {
    let mut reader = Reader::new(Cursor::new(vec![0xab, 0xcd]));
    let mut buf = [0u8; 2];
    assert!(matches!(reader.read_bytes(2, &mut buf, Order::Msb0).unwrap(), ReaderRet::Bytes));
    assert_eq!(buf, [0xab, 0xcd]);
}

#[test]
fn read_bytes_const_unaligned_gives_bits() {
    let mut reader = Reader::new(Cursor::new(vec![0xff, 0x00]));
    let _ = reader.read_bits(1, Order::Msb0).unwrap();
    let mut buf = [0u8; 1];
    match reader.read_bytes_const::<1>(&mut buf, Order::Msb0).unwrap() {
        ReaderRet::Bits(Some(bits)) => assert_eq!(bits, bv(&[1, 1, 1, 1, 1, 1, 1, 0])),
        _ => panic!("expected bits"),
    }
    assert_eq!(buf, [0xfe]);
}
