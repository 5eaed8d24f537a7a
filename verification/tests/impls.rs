use deku::ctx::{BitSize, Endian, ReadExact};
use deku::error::NeedSize;
use deku::no_std_io::Cursor;
use deku::reader::Reader;
use deku::writer::Writer;
use deku::{DekuError, DekuReader, DekuWriter};

#[test]
fn test_bool_with_context() {
    let input = vec![0b01_000000];

    let cursor = Cursor::new(input);
    let mut reader = Reader::new(cursor);
    let res_read = bool::from_reader_with_ctx(&mut reader, BitSize(2)).unwrap();
    assert!(res_read);
}

#[test]
fn test_option_read() {
    let input = vec![1u8, 2, 3, 4];
    let cursor = Cursor::new(input);
    let mut reader = Reader::new(cursor);
    let v = Option::<u32>::from_reader_with_ctx(&mut reader, Endian::Little).unwrap();
    assert_eq!(v, Some(0x04030201))
}

#[test]
fn read_exact_success() {
    let data = vec![0xAA, 0xBB, 0xCC, 0xDD];
    let cursor = Cursor::new(data);
    let mut reader = Reader::new(cursor);
    let result = Vec::<u8>::from_reader_with_ctx(&mut reader, ReadExact(4)).unwrap();
    assert_eq!(result, vec![0xAA, 0xBB, 0xCC, 0xDD]);
}

#[test]
fn read_exact_partial() {
    let data = vec![0xAA, 0xBB, 0xCC, 0xDD];
    let cursor = Cursor::new(data);
    let mut reader = Reader::new(cursor);
    let result = Vec::<u8>::from_reader_with_ctx(&mut reader, ReadExact(2)).unwrap();
    assert_eq!(result, vec![0xAA, 0xBB]);
    // remaining bytes still available
    let mut cursor = reader.into_inner();
    let mut rest = vec![];
    cursor.read_to_end(&mut rest).unwrap();
    assert_eq!(rest, vec![0xCC, 0xDD]);
}

#[test]
fn read_exact_not_enough_data() {
    let data = vec![0xAA, 0xBB];
    let cursor = Cursor::new(data);
    let mut reader = Reader::new(cursor);
    let result = Vec::<u8>::from_reader_with_ctx(&mut reader, ReadExact(10));
    assert_eq!(
        result.unwrap_err(),
        DekuError::Incomplete(NeedSize::new(10 * 8))
    );
}

#[test]
fn read_exact_empty_input() {
    let data: Vec<u8> = vec![];
    let cursor = Cursor::new(data);
    let mut reader = Reader::new(cursor);
    let result = Vec::<u8>::from_reader_with_ctx(&mut reader, ReadExact(1));
    assert_eq!(result.unwrap_err(), DekuError::Incomplete(NeedSize::new(8)));
}

#[test]
fn read_exact_zero_bytes() {
    let data = vec![0xAA];
    let cursor = Cursor::new(data);
    let mut reader = Reader::new(cursor);
    let result = Vec::<u8>::from_reader_with_ctx(&mut reader, ReadExact(0)).unwrap();
    assert!(result.is_empty());
}

/// This test verifies the seek-based bounds check prevents
/// a huge allocation when the requested count far exceeds
/// available data. Without the fix, this would attempt to
/// allocate ~1GB and zero-fill it before failing.
#[test]
fn read_exact_large_count_small_buffer_no_alloc() {
    let data = vec![0x01, 0x02, 0x03];
    let cursor = Cursor::new(data);
    let mut reader = Reader::new(cursor);
    let result = Vec::<u8>::from_reader_with_ctx(&mut reader, ReadExact(1_073_741_824));
    assert_eq!(
        result.unwrap_err(),
        DekuError::Incomplete(NeedSize::new(1_073_741_824 * 8))
    );
}

#[test]
#[allow(clippy::unit_arg)]
#[allow(clippy::unit_cmp)]
fn test_unit() {
    let input = vec![0xff];

    let cursor = Cursor::new(input);
    let mut reader = Reader::new(cursor);
    #[allow(clippy::let_unit_value)]
    let res_read = <()>::from_reader_with_ctx(&mut reader, ()).unwrap();
    assert_eq!((), res_read);

    let mut writer = Writer::new(Cursor::new(vec![]));
    res_read.to_writer(&mut writer, ()).unwrap();
    assert!(writer.inner.into_inner().is_empty());
}

#[test]
fn bool_test_writer_bits() {
    let mut writer = Writer::new(Cursor::new(vec![]));
    true.to_writer(&mut writer, BitSize(1)).unwrap();
    assert_eq!(vec![true], writer.rest());
}

#[test]
fn test_writer() {
    let mut writer = Writer::new(Cursor::new(vec![]));
    true.to_writer(&mut writer, ()).unwrap();
    assert_eq!(vec![1], writer.inner.into_inner());

    let mut writer = Writer::new(Cursor::new(vec![]));
    false.to_writer(&mut writer, ()).unwrap();
    assert_eq!(vec![0], writer.inner.into_inner());
}

#[test]
fn test_option_write() {
    let mut writer = Writer::new(Cursor::new(vec![]));
    Some(true).to_writer(&mut writer, ()).unwrap();
    assert_eq!(vec![1], writer.inner.into_inner());
}

#[test]
fn tuple_read_write() {
    let cursor = Cursor::new(vec![1, 2, 3]);
    let mut reader = Reader::new(cursor);
    let v = <(u8, u16)>::from_reader_with_ctx(&mut reader, Endian::Little).unwrap();
    assert_eq!(v, (1, 0x0302));

    let mut writer = Writer::new(Cursor::new(vec![]));
    v.to_writer(&mut writer, Endian::Big).unwrap();
    assert_eq!(writer.inner.into_inner(), vec![1, 3, 2]);

    let cursor = Cursor::new(vec![9]);
    let mut reader = Reader::new(cursor);
    assert_eq!(<(u8,)>::from_reader_with_ctx(&mut reader, Endian::Little).unwrap(), (9,));
}

#[test]
fn tuple_read_stops_at_error() {
    let cursor = Cursor::new(vec![1]);
    let mut reader = Reader::new(cursor);
    let r = <(u8, u16)>::from_reader_with_ctx(&mut reader, Endian::Little);
    assert_eq!(r.unwrap_err(), DekuError::Incomplete(NeedSize::new(16)));
}

#[test]
fn arc_read_write() {
    let cursor = Cursor::new(vec![0xAA, 0xBB]);
    let mut reader = Reader::new(cursor);
    let v = std::sync::Arc::<u16>::from_reader_with_ctx(&mut reader, Endian::Big).unwrap();
    assert_eq!(*v, 0xAABB);
    let mut writer = Writer::new(Cursor::new(vec![]));
    v.to_writer(&mut writer, Endian::Little).unwrap();
    assert_eq!(writer.inner.into_inner(), vec![0xBB, 0xAA]);
}
