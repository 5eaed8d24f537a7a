use deku::bits::{BitVec, Msb0};
use deku::container::{Container, ContainerRet};
use deku::error::DekuError;
use deku::no_std_io::Cursor;

fn bv(bits: &[u8]) -> BitVec<u8, Msb0> {
    let bools: Vec<bool> = bits.iter().map(|&b| b == 1).collect();
    BitVec::from_bits(&bools)
}

#[test]
fn container_test_end() {
    let input = vec![0xaa];
    let mut container = Container::new(Cursor::new(input));
    assert!(!container.end());
    let mut buf = [0; 1];
    let _ = container.read_bytes(1, &mut buf);
    assert!(container.end());

    let input = vec![0xaa];
    let mut container = Container::new(Cursor::new(input));
    assert!(!container.end());
    let _ = container.read_bits(4);
    assert!(!container.end());
    let _ = container.read_bits(4);
    assert!(container.end());
}

#[test]
fn container_test_bits_less() {
    let input = vec![0xaa];
    let mut container = Container::new(Cursor::new(input));
    container.enable_read_cache();
    let _ = container.read_bits(1);
    assert_eq!(&vec![0xaa], container.read_cache.as_ref().unwrap());
    let _ = container.read_bits(4);
    let _ = container.read_bits(3);
    assert_eq!(&vec![0xaa], container.read_cache.as_ref().unwrap());
}

#[test]
fn container_test_inner() {
    let input = vec![0xaa, 0xbb, 0xcc];
    let mut container = Container::new(Cursor::new(input));
    container.enable_read_cache();
    let mut buf = [0; 1];
    let _ = container.read_bytes(1, &mut buf);
    assert_eq!(&vec![0xaa], container.read_cache.as_ref().unwrap());
}

#[test]
fn container_read_bits_values() {
    let mut container = Container::new(Cursor::new(vec![0b1010_1100, 0b0101_0011]));
    assert!(container.read_bits(0).unwrap().is_none());
    assert_eq!(container.read_bits(3).unwrap().unwrap(), bv(&[1, 0, 1]));
    assert_eq!(container.bits_read, 3);
    // the rest of the first byte, then four bits of the second
    assert_eq!(container.read_bits(9).unwrap().unwrap(), bv(&[0, 1, 1, 0, 0, 0, 1, 0, 1]));
    assert_eq!(container.bits_read, 12);
    assert_eq!(container.read_bits(4).unwrap().unwrap(), bv(&[0, 0, 1, 1]));
    assert!(container.end());
}

#[test]
fn container_read_bits_incomplete() {
    let mut container = Container::new(Cursor::new(vec![0xff]));
    assert_eq!(container.read_bits(3).unwrap().unwrap(), bv(&[1, 1, 1]));
    match container.read_bits(12) {
        Err(DekuError::Incomplete(need)) => assert_eq!(need.bit_size(), 12),
        _ => panic!("expected an incomplete read"),
    }
    assert_eq!(container.bits_read, 3);
    // the pending bits are still there
    assert_eq!(container.read_bits(5).unwrap().unwrap(), bv(&[1, 1, 1, 1, 1]));
}

#[test]
fn container_read_bytes_unaligned() {
    let mut container = Container::new(Cursor::new(vec![0x0f, 0xf0]));
    let _ = container.read_bits(4).unwrap();
    let mut buf = [0; 1];
    match container.read_bytes(1, &mut buf).unwrap() {
        ContainerRet::Bits(Some(bits)) => assert_eq!(bits, bv(&[1, 1, 1, 1, 1, 1, 1, 1])),
        _ => panic!("expected bits"),
    }
    assert_eq!(buf, [0]);
    assert_eq!(container.bits_read, 12);
}

#[test]
fn container_read_bytes_short_buffer() {
    let mut container = Container::new(Cursor::new(vec![1, 2, 3]));
    let mut buf = [0; 1];
    match container.read_bytes(2, &mut buf) {
        Err(DekuError::Incomplete(need)) => assert_eq!(need.bit_size(), 16),
        _ => panic!("expected an incomplete read"),
    }
    let mut buf = [0; 3];
    assert!(matches!(container.read_bytes(2, &mut buf).unwrap(), ContainerRet::Bytes));
    assert_eq!(buf, [1, 2, 0]);
    assert_eq!(container.bits_read, 16);
}

#[test]
fn container_skip_bits_resets_count() {
    let mut container = Container::new(Cursor::new(vec![0b1100_0000]));
    container.skip_bits(1).unwrap();
    assert_eq!(container.bits_read, 0);
    assert_eq!(container.read_bits(1).unwrap().unwrap(), bv(&[1]));
}

#[test]
fn container_end_byte_goes_into_cache() {
    let mut container = Container::new(Cursor::new(vec![0xaa, 0xbb]));
    container.enable_read_cache();
    assert!(!container.end());
    assert_eq!(&vec![0xaa], container.read_cache.as_ref().unwrap());
    // the byte that end() read is handed out without being cached twice
    assert_eq!(container.read_bits(8).unwrap().unwrap(), bv(&[1, 0, 1, 0, 1, 0, 1, 0]));
    assert_eq!(&vec![0xaa], container.read_cache.as_ref().unwrap());
    let mut buf = [0; 1];
    let _ = container.read_bytes(1, &mut buf);
    assert_eq!(&vec![0xaa, 0xbb], container.read_cache.as_ref().unwrap());
}
