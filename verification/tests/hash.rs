use deku::ctx::{Endian, Limit};
use deku::no_std_io::Cursor;
use deku::reader::Reader;
use deku::DekuReader;
use std::collections::{HashMap, HashSet};

#[test]
fn hashmap_read_count() {
    let mut reader = Reader::new(Cursor::new(vec![100, 1, 2, 3, 4]));
    let limit: Limit<(u8, u32), fn(&(u8, u32)) -> bool> = Limit::new_count(1);
    let map = HashMap::<u8, u32>::from_reader_with_ctx(&mut reader, (limit, Endian::Little)).unwrap();
    let mut expected = HashMap::<u8, u32>::default();
    expected.insert(100, 0x04030201);
    assert_eq!(expected, map);
}

#[test]
fn hashmap_later_value_wins() {
    let mut reader = Reader::new(Cursor::new(vec![1, 10, 2, 20, 1, 30]));
    let limit: Limit<(u8, u8), fn(&(u8, u8)) -> bool> = Limit::new_count(3);
    let map = HashMap::<u8, u8>::from_reader_with_ctx(&mut reader, limit).unwrap();
    assert_eq!(map.len(), 2);
    assert_eq!(map[&1], 30);
    assert_eq!(map[&2], 20);
}

#[test]
fn hashset_read_until() {
    let mut reader = Reader::new(Cursor::new(vec![0xAA, 0xBB, 0xAA, 0xCC, 0xDD]));
    let limit = Limit::new_until(|v: &u8| *v == 0xCC);
    let set = HashSet::<u8>::from_reader_with_ctx(&mut reader, limit).unwrap();
    let expected: HashSet<u8> = [0xAA, 0xBB, 0xCC].into_iter().collect();
    assert_eq!(set, expected);
    assert_eq!(reader.bits_read, 32);
}

#[test]
fn hashset_read_incomplete() {
    let mut reader = Reader::new(Cursor::new(vec![0xAA]));
    let limit: Limit<u16, fn(&u16) -> bool> = Limit::new_count(2);
    assert!(HashSet::<u16>::from_reader_with_ctx(&mut reader, (limit, Endian::Big)).is_err());
}
