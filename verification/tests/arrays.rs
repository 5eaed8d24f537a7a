use deku::ctx::{BitSize, Endian, Limit};
use deku::error::NeedSize;
use deku::no_std_io::Cursor;
use deku::reader::Reader;
use deku::writer::Writer;
use deku::{DekuError, DekuReader, DekuWriter};

#[test]
fn array_read_le() {
    let mut reader = Reader::new(Cursor::new(vec![0xDD, 0xCC, 0xBB, 0xAA]));
    let v = <[u16; 2]>::from_reader_with_ctx(&mut reader, Endian::Little).unwrap();
    assert_eq!(v, [0xCCDD, 0xAABB]);
    assert_eq!(reader.bits_read, 32);
}

#[test]
fn array_read_be() {
    let mut reader = Reader::new(Cursor::new(vec![0xDD, 0xCC, 0xBB, 0xAA]));
    let v = <[u16; 2]>::from_reader_with_ctx(&mut reader, Endian::Big).unwrap();
    assert_eq!(v, [0xDDCC, 0xBBAA]);
}

#[test]
fn array_read_incomplete() {
    let mut reader = Reader::new(Cursor::new(vec![0xDD, 0xCC]));
    let v = <[u16; 2]>::from_reader_with_ctx(&mut reader, Endian::Big);
    assert_eq!(v.unwrap_err(), DekuError::Incomplete(NeedSize::new(16)));
}

#[test]
fn array_read_magic_bytes() {
    let mut reader = Reader::new(Cursor::new(vec![b'd', b'e', b'k', b'u', 0x01]));
    let v = <[u8; 4]>::from_reader_with_ctx(&mut reader, ()).unwrap();
    assert_eq!(&v, b"deku");
    assert_eq!(reader.bits_read, 32);
}

#[test]
fn array_read_empty() {
    let mut reader = Reader::new(Cursor::new(vec![]));
    let v = <[u8; 0]>::from_reader_with_ctx(&mut reader, ()).unwrap();
    assert_eq!(v, []);
    assert_eq!(reader.bits_read, 0);
}

#[test]
fn array_read_bits() {
    let mut reader = Reader::new(Cursor::new(vec![0b1011_0010]));
    let v = <[u8; 2]>::from_reader_with_ctx(&mut reader, BitSize(4)).unwrap();
    assert_eq!(v, [0b1011, 0b0010]);
}

#[test]
fn array_nested_round_trip() {
    let input: [[u16; 2]; 2] = [[0xCCDD, 0xAABB], [0x8899, 0x6677]];
    let mut writer = Writer::new(Cursor::new(vec![]));
    input.to_writer(&mut writer, Endian::Little).unwrap();
    let bytes = writer.inner.into_inner();
    assert_eq!(bytes, vec![0xDD, 0xCC, 0xBB, 0xAA, 0x99, 0x88, 0x77, 0x66]);
    let mut reader = Reader::new(Cursor::new(bytes));
    let back = <[[u16; 2]; 2]>::from_reader_with_ctx(&mut reader, Endian::Little).unwrap();
    assert_eq!(back, input);
}

#[test]
fn boxed_slice_read_count() {
    let mut reader = Reader::new(Cursor::new(vec![0xAA, 0xBB, 0xCC, 0xDD]));
    let limit: Limit<u16, fn(&u16) -> bool> = Limit::new_count(2);
    let v = <Box<[u16]>>::from_reader_with_ctx(&mut reader, (limit, (Endian::Little, BitSize(16)))).unwrap();
    assert_eq!(v, vec![0xBBAA, 0xDDCC].into_boxed_slice());
    let mut writer = Writer::new(Cursor::new(vec![]));
    v.to_writer(&mut writer, (Endian::Little, BitSize(16))).unwrap();
    assert_eq!(writer.inner.into_inner(), vec![0xAA, 0xBB, 0xCC, 0xDD]);
}

#[test]
fn boxed_slice_read_until() {
    let mut reader = Reader::new(Cursor::new(vec![0xAA, 0xBB, 0xCC, 0xDD]));
    let limit = Limit::new_until(|v: &u16| *v == 0xAABB);
    let v = <Box<[u16]>>::from_reader_with_ctx(&mut reader, (limit, (Endian::Big, BitSize(16)))).unwrap();
    assert_eq!(v, vec![0xAABB].into_boxed_slice());
    assert_eq!(reader.bits_read, 16);
}

#[test]
fn boxed_slice_read_bit_size() {
    let mut reader = Reader::new(Cursor::new(vec![0xAA, 0xBB, 0xCC, 0xDD]));
    let limit: Limit<u16, fn(&u16) -> bool> = Limit::new_bit_size(BitSize(16));
    let v = <Box<[u16]>>::from_reader_with_ctx(&mut reader, (limit, (Endian::Little, BitSize(16)))).unwrap();
    assert_eq!(v, vec![0xBBAA].into_boxed_slice());
}
