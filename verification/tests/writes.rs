use deku::ctx::{BitSize, ByteSize, Endian, Order};
use deku::no_std_io::Cursor;
use deku::writer::Writer;
use deku::reader::Reader;
use deku::{DekuError, DekuReader, DekuWriter};

fn new_writer() -> Writer {
    Writer::new(Cursor::new(vec![]))
}

fn invalid_param(r: Result<(), DekuError>) -> String {
    match r {
        Err(DekuError::InvalidParam(msg)) => msg,
        other => panic!("expected InvalidParam, got {:?}", other),
    }
}

#[test]
fn bit_writer_whole_value() {
    let mut writer = new_writer();
    0xDDCC_BBAAu32.to_writer(&mut writer, Endian::Little).unwrap();
    assert!(writer.rest().is_empty());
    assert_eq!(writer.inner.into_inner(), vec![0xAA, 0xBB, 0xCC, 0xDD]);

    let mut writer = new_writer();
    0xDDCC_BBAAu32.to_writer(&mut writer, Endian::Big).unwrap();
    assert_eq!(writer.inner.into_inner(), vec![0xDD, 0xCC, 0xBB, 0xAA]);
}

#[test]
fn bit_writer_be_smaller() {
    let mut writer = new_writer();
    0x03ABu32.to_writer(&mut writer, (Endian::Big, BitSize(10))).unwrap();
    assert_eq!(writer.rest(), vec![true, true]);
    assert_eq!(writer.inner.into_inner(), vec![0b11_1010_10]);
}

#[test]
fn bit_writer_le_smaller() {
    // the low byte goes first, then the two low bits of the next
    let mut writer = new_writer();
    0x03ABu32.to_writer(&mut writer, (Endian::Little, BitSize(10))).unwrap();
    assert_eq!(writer.rest(), vec![true, true]);
    assert_eq!(writer.inner.into_inner(), vec![0xAB]);
}

#[test]
fn bit_writer_size_larger_than_input() {
    let mut writer = new_writer();
    let msg = invalid_param(0x03ABu32.to_writer(&mut writer, (Endian::Little, BitSize(100))));
    assert_eq!(msg, "bit size 100 is larger than input 32");
    assert!(writer.inner.into_inner().is_empty());
}

#[test]
fn bit_writer_value_does_not_fit() {
    let mut writer = new_writer();
    let msg = invalid_param(0x03ABu32.to_writer(&mut writer, (Endian::Little, BitSize(5))));
    assert_eq!(msg, "bit size 10 of input is larger than bit requested size 5");
    let msg = invalid_param(0x03ABu32.to_writer(&mut writer, (Endian::Big, BitSize(5))));
    assert_eq!(msg, "bit size 10 of input is larger than bit requested size 5");
}

#[test]
fn ordered_writer_size_larger_than_input() {
    let mut writer = new_writer();
    let msg = invalid_param(0x03ABu32.to_writer(&mut writer, (Endian::Little, BitSize(33), Order::Lsb0)));
    assert_eq!(msg, "bit size 33 is larger then input 32");
    let msg = invalid_param(0x03u8.to_writer(&mut writer, (Endian::Little, BitSize(9), Order::Lsb0)));
    assert_eq!(msg, "bit size 9 is larger than input 8");
}

#[test]
fn ordered_writer_checks_only_bytes() {
    let mut writer = new_writer();
    let msg = invalid_param(0xFFu8.to_writer(&mut writer, (Endian::Big, BitSize(4), Order::Msb0)));
    assert_eq!(msg, "bit size 8 of input is larger than bit requested size 4");
    // a wider integer is cut to its low bits without a check
    let mut writer = new_writer();
    0x0FFFu16.to_writer(&mut writer, (Endian::Big, BitSize(4), Order::Msb0)).unwrap();
    assert_eq!(writer.rest(), vec![true, true, true, true]);
}

#[test]
fn ordered_writer_lsb0() {
    let mut writer = new_writer();
    0b101u8.to_writer(&mut writer, (Endian::Little, BitSize(3), Order::Lsb0)).unwrap();
    0b11111u8.to_writer(&mut writer, (Endian::Little, BitSize(5), Order::Lsb0)).unwrap();
    assert_eq!(writer.inner.into_inner(), vec![0b11111_101]);
}

#[test]
fn byte_writer() {
    let mut writer = new_writer();
    0x00ff_ABAAu32.to_writer(&mut writer, (Endian::Big, ByteSize(2))).unwrap();
    assert_eq!(writer.inner.into_inner(), vec![0xab, 0xaa]);

    let mut writer = new_writer();
    0x00ff_ABAAu32.to_writer(&mut writer, (Endian::Little, ByteSize(2))).unwrap();
    assert_eq!(writer.inner.into_inner(), vec![0xaa, 0xab]);

    let mut writer = new_writer();
    let msg = invalid_param(0x03ABu32.to_writer(&mut writer, (Endian::Little, ByteSize(10))));
    assert_eq!(msg, "byte size 10 is larger then input 4");

    // a byte ignores the size
    let mut writer = new_writer();
    0x7Fu8.to_writer(&mut writer, (Endian::Little, ByteSize(10))).unwrap();
    assert_eq!(writer.inner.into_inner(), vec![0x7F]);
}

#[test]
fn endian_and_order_writes_whole_value() {
    let mut writer = new_writer();
    0x0102u16.to_writer(&mut writer, (Endian::Big, Order::Lsb0)).unwrap();
    assert_eq!(writer.inner.into_inner(), vec![0x01, 0x02]);
}

#[test]
fn test_vec_write() {
    let mut writer = new_writer();
    vec![0xAABBu16, 0xCCDD].to_writer(&mut writer, Endian::Little).unwrap();
    assert_eq!(writer.inner.into_inner(), vec![0xBB, 0xAA, 0xDD, 0xCC]);
}

#[test]
fn vec_write_stops_at_first_error() {
    let mut writer = new_writer();
    let r = vec![1u8, 0xFF, 2].to_writer(&mut writer, (Endian::Big, BitSize(4)));
    assert_eq!(invalid_param(r), "bit size 8 of input is larger than bit requested size 4");
    assert_eq!(writer.rest(), vec![false, false, false, true]);
}

#[test]
fn option_none_writes_nothing() {
    let mut writer = new_writer();
    Option::<u8>::None.to_writer(&mut writer, Endian::Big).unwrap();
    assert!(writer.inner.into_inner().is_empty());
}

fn written_bytes(mut writer: Writer) -> Vec<u8> {
    writer.finalize().unwrap();
    writer.inner.into_inner()
}

#[test]
fn int_endian_roundtrip() {
    for endian in [Endian::Little, Endian::Big] {
        let mut writer = new_writer();
        0xDEAD_BEEFu32.to_writer(&mut writer, endian).unwrap();
        let bytes = written_bytes(writer);
        let mut reader = Reader::new(Cursor::new(bytes));
        assert_eq!(u32::from_reader_with_ctx(&mut reader, endian).unwrap(), 0xDEAD_BEEF);
    }
}

#[test]
fn int_bits_roundtrip() {
    for endian in [Endian::Little, Endian::Big] {
        for n in [1usize, 7, 9, 12, 16] {
            let value = 1u16 << (n - 1);
            let mut writer = new_writer();
            value.to_writer(&mut writer, (endian, BitSize(n))).unwrap();
            let bytes = written_bytes(writer);
            let mut reader = Reader::new(Cursor::new(bytes));
            assert_eq!(u16::from_reader_with_ctx(&mut reader, (endian, BitSize(n))).unwrap(), value);
        }
    }
}

#[test]
fn array_and_slice_write() {
    let mut writer = new_writer();
    [0x0102u16, 0x0304].to_writer(&mut writer, Endian::Little).unwrap();
    let items: &[u8] = &[7, 8];
    items.to_writer(&mut writer, Endian::Big).unwrap();
    assert_eq!(writer.inner.into_inner(), vec![0x02, 0x01, 0x04, 0x03, 7, 8]);
}
