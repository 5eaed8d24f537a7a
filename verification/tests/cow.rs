use deku::ctx::{ByteSize, Limit, ReadExact};
use deku::no_std_io::Cursor;
use deku::reader::Reader;
use deku::writer::Writer;
use deku::{DekuReader, DekuWriter};
use std::borrow::Cow;

#[test]
fn test_cow() {
    let input = vec![0xEF, 0xBE];
    let mut reader = Reader::new(Cursor::new(input.clone()));
    let res_read = <Cow<u16>>::from_reader_with_ctx(&mut reader, ()).unwrap();
    let expected: Cow<u16> = Cow::Owned(u16::from_ne_bytes([0xEF, 0xBE]));
    assert_eq!(expected, res_read);

    let mut writer = Writer::new(Cursor::new(vec![]));
    res_read.to_writer(&mut writer, ()).unwrap();
    assert_eq!(input, writer.inner.into_inner());
}

#[test]
fn cow_bytes_read_exact() {
    let mut reader = Reader::new(Cursor::new(vec![1, 2, 3, 4]));
    let v = <Cow<[u8]>>::from_reader_with_ctx(&mut reader, ReadExact(3)).unwrap();
    assert_eq!(v, Cow::<[u8]>::Owned(vec![1, 2, 3]));
    let v = <Cow<[u8]>>::from_reader_with_ctx(&mut reader, ByteSize(2));
    assert!(v.is_err());
}

#[test]
fn cow_bytes_limit_and_write() {
    let mut reader = Reader::new(Cursor::new(vec![1, 2, 0, 4]));
    let limit = Limit::new_until(|b: &u8| *b == 0);
    let v = <Cow<[u8]>>::from_reader_with_ctx(&mut reader, limit).unwrap();
    assert_eq!(v, Cow::<[u8]>::Owned(vec![1, 2, 0]));
    let mut writer = Writer::new(Cursor::new(vec![]));
    v.to_writer(&mut writer, ()).unwrap();
    assert_eq!(writer.inner.into_inner(), vec![1, 2, 0]);
}
