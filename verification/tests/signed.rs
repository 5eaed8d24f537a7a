use deku::ctx::{BitSize, ByteSize, Endian, Order};
use deku::no_std_io::Cursor;
use deku::reader::Reader;
use deku::writer::Writer;
use deku::{DekuError, DekuReader, DekuWriter};

fn reader(bytes: Vec<u8>) -> Reader {
    Reader::new(Cursor::new(bytes))
}

#[test]
fn signed_whole_reads() {
    assert_eq!(i16::from_reader_with_ctx(&mut reader(vec![0xFE, 0xFF]), Endian::Little).unwrap(), -2);
    assert_eq!(i32::from_reader_with_ctx(&mut reader(vec![0xFF, 0xFF, 0xFF, 0x80]), Endian::Big).unwrap(), -128);
    assert_eq!(i8::from_reader_with_ctx(&mut reader(vec![0x7F]), Endian::Big).unwrap(), 127);
}

#[test]
fn signed_bit_reads_sign_extend() {
    assert_eq!(i8::from_reader_with_ctx(&mut reader(vec![0b1110_0000]), (Endian::Big, BitSize(4))).unwrap(), -2);
    assert_eq!(i8::from_reader_with_ctx(&mut reader(vec![0b0110_0000]), (Endian::Big, BitSize(4))).unwrap(), 6);
    // the bits come from the low end of the byte, and are taken most significant first
    let v = i16::from_reader_with_ctx(&mut reader(vec![0b0000_1110]), (Endian::Little, BitSize(4), Order::Lsb0));
    assert_eq!(v.unwrap(), -2);
}

#[test]
fn signed_byte_reads() {
    assert_eq!(i16::from_reader_with_ctx(&mut reader(vec![0xFF]), (Endian::Little, ByteSize(1))).unwrap(), -1);
    assert_eq!(i16::from_reader_with_ctx(&mut reader(vec![0x05]), (Endian::Little, ByteSize(1))).unwrap(), 5);
    // big endian bytes start at the top of the integer, and are moved past it
    assert_eq!(i16::from_reader_with_ctx(&mut reader(vec![0x05]), (Endian::Big, ByteSize(1))).unwrap(), 0);
    assert_eq!(
        i32::from_reader_with_ctx(&mut reader(vec![0xFF, 0xFF, 0xFE]), (Endian::Big, ByteSize(3))).unwrap(),
        -512
    );
}

#[test]
fn signed_writes() {
    let mut writer = Writer::new(Cursor::new(vec![]));
    (-2i8).to_writer(&mut writer, Endian::Little).unwrap();
    (-2i16).to_writer(&mut writer, Endian::Big).unwrap();
    assert_eq!(writer.inner.into_inner(), vec![0xFE, 0xFF, 0xFE]);

    let mut writer = Writer::new(Cursor::new(vec![]));
    match (-1i16).to_writer(&mut writer, (Endian::Little, BitSize(4))) {
        Err(DekuError::InvalidParam(msg)) => {
            assert_eq!(msg, "bit size 16 of input is larger than bit requested size 4")
        },
        other => panic!("unexpected {:?}", other),
    }
    match 1i8.to_writer(&mut writer, (Endian::Little, ByteSize(2))) {
        Err(DekuError::InvalidParam(msg)) => assert_eq!(msg, "byte size 2 is larger then input 1"),
        other => panic!("unexpected {:?}", other),
    }
    5i8.to_writer(&mut writer, (Endian::Big, BitSize(4), Order::Msb0)).unwrap();
    assert_eq!(writer.rest(), vec![false, true, false, true]);
}

#[test]
fn signed_bits_roundtrip() {
    for n in [3usize, 8] {
        let mut writer = Writer::new(Cursor::new(vec![]));
        3i8.to_writer(&mut writer, (Endian::Big, BitSize(n))).unwrap();
        writer.finalize().unwrap();
        let bytes = writer.inner.into_inner();
        assert_eq!(i8::from_reader_with_ctx(&mut reader(bytes), (Endian::Big, BitSize(n))).unwrap(), 3);
    }
    // the top bit of the field is the sign: 3 in two bits reads back as -1
    let mut writer = Writer::new(Cursor::new(vec![]));
    3i8.to_writer(&mut writer, (Endian::Big, BitSize(2))).unwrap();
    writer.finalize().unwrap();
    let bytes = writer.inner.into_inner();
    assert_eq!(i8::from_reader_with_ctx(&mut reader(bytes), (Endian::Big, BitSize(2))).unwrap(), -1);
}
