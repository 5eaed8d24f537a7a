use deku::bits::{BitSlice, BitSource, BitVec, Lsb0, Msb0};
use deku::ctx::Order;
use deku::error::{DekuError, NeedSize};
use deku::no_std_io::{Cursor, ErrorKind, SeekFrom};
use deku::noseek::NoSeek;

fn bv(bits: &[u8]) -> BitVec<u8, Msb0> {
    let bools: Vec<bool> = bits.iter().map(|&b| b == 1).collect();
    BitVec::from_bits(&bools)
}

#[test]
fn bitslice_iter_both_ends() {
    let bytes = [0b1010_0000u8];
    let s: BitSlice<u8, Msb0> = BitSlice::from_slice(&bytes);
    let part = s.subslice(0, 4);
    let mut it = part.iter().by_vals();
    assert_eq!(it.size_hint(), (4, Some(4)));
    assert_eq!(it.next(), Some(true));
    assert_eq!(it.next_back(), Some(false));
    assert_eq!(it.next_back(), Some(true));
    assert_eq!(it.next(), Some(false));
    assert_eq!(it.next(), None);
    assert_eq!(it.next_back(), None);
}

#[test]
fn bitslice_chunks() {
    let bytes = [0xF0u8, 0x0F];
    let s: BitSlice<u8, Msb0> = BitSlice::from_slice(&bytes);
    let part = s.subslice(2, 12);
    let mut chunks = part.chunks(4);
    assert_eq!(chunks.size_hint(), (3, Some(3)));
    let a = chunks.next().unwrap();
    assert_eq!((a.len(), a.get(0), a.get(1), a.get(2)), (4, true, true, false));
    let b = chunks.next().unwrap();
    assert_eq!(b.len(), 4);
    let c = chunks.next().unwrap();
    assert_eq!((c.len(), c.get(0), c.get(1)), (2, false, false));
    assert!(chunks.next().is_none());
    assert_eq!(chunks.size_hint(), (0, Some(0)));
}

#[test]
fn bitslice_first_and_last() {
    let bytes = [0b0010_0100u8];
    let s: BitSlice<u8, Msb0> = BitSlice::from_slice(&bytes);
    assert_eq!(s.first_one(), Some(2));
    assert_eq!(s.last_one(), Some(5));
    assert_eq!(s.first_zero(), Some(0));
    assert_eq!(s.last_zero(), Some(7));
    let zeros = [0u8];
    let z: BitSlice<u8, Msb0> = BitSlice::from_slice(&zeros);
    assert_eq!(z.first_one(), None);
    assert_eq!(z.last_one(), None);
}

#[test]
fn bitslice_load_be_and_le() {
    let bytes = [0x12u8, 0x34];
    let s: BitSlice<u8, Msb0> = BitSlice::from_slice(&bytes);
    assert_eq!(s.load_be::<u16>(), 0x1234);
    assert_eq!(s.load_le::<u16>(), 0x3412);
    assert_eq!(s.load::<u16>(), 0x1234);
    // unaligned: bits 4..12 are 0x2 then 0x3
    let part = s.subslice(4, 12);
    assert_eq!(part.load_be::<u8>(), 0x23);
    // little endian takes the piece in the second byte as the high bits
    assert_eq!(part.load_le::<u16>(), 0x32);
    let odd = s.subslice(2, 11);
    assert_eq!(odd.load_be::<u16>(), 0b0_1001_0001);
    assert_eq!(odd.load_le::<u16>(), (0b001u16 << 6) | 0b01_0010);
}

#[test]
fn bitvec_load_and_into_vec() {
    let v = bv(&[1, 0, 1, 1]);
    assert_eq!(v.load_be::<u8>(), 0b1011);
    assert_eq!(v.load::<u8>(), 0b1011);
    assert_eq!(v.load_le::<u8>(), 0b1011);
    assert_eq!(v.into_vec(), vec![0b1011_0000]);
    let l: BitVec<u8, Lsb0> = BitVec::from_bits(&[true, false, true, true]);
    assert_eq!(l.into_vec(), vec![0b0000_1101]);
}

#[test]
fn bitvec_iter_and_source() {
    let v = bv(&[0, 1, 1]);
    let mut it = v.iter();
    assert_eq!(it.next(), Some(false));
    assert_eq!(it.next(), Some(true));
    assert_eq!(it.next(), Some(true));
    assert_eq!(it.next(), None);
    let s = v.bit_slice();
    assert_eq!((s.len(), s.get(1)), (3, true));
    let bytes: &[u8] = &[0x80];
    let b = bytes.bit_slice();
    assert_eq!((b.len(), b.get(0), b.get(1)), (8, true, false));
}

#[test]
fn noseek_positions() {
    let mut s = NoSeek::new(Cursor::new(vec![1, 2, 3]));
    assert_eq!(s.seek(SeekFrom::Start(0)), Ok(0));
    assert_eq!(s.seek(SeekFrom::Start(1)), Err(ErrorKind::Other));
    let mut buf = [0u8; 2];
    s.read_exact(&mut buf).unwrap();
    assert_eq!(buf, [1, 2]);
    assert_eq!(s.stream_position(), Ok(2));
    assert_eq!(s.seek(SeekFrom::Current(0)), Ok(2));
    assert_eq!(s.seek(SeekFrom::Current(1)), Err(ErrorKind::Other));
    assert_eq!(s.seek(SeekFrom::End(0)), Err(ErrorKind::Other));
    let mut rest = vec![];
    assert_eq!(s.read_to_end(&mut rest), Ok(1));
    assert_eq!(rest, vec![3]);
    assert_eq!(s.stream_position(), Ok(3));
    assert_eq!(s.read_exact(&mut buf), Err(ErrorKind::UnexpectedEof));
    assert_eq!(s.get_ref().position(), 3);
    s.get_mut().set_position(0);
    assert_eq!(s.into_inner().position(), 0);
}

#[test]
fn noseek_write() {
    let mut s = NoSeek::new(Cursor::new(vec![]));
    s.write_all(&[7, 8]).unwrap();
    assert_eq!(s.stream_position(), Ok(2));
    assert_eq!(s.into_inner().into_inner(), vec![7, 8]);
}

#[test]
fn error_messages() {
    assert_eq!(
        DekuError::Incomplete(NeedSize::new(12)).message(),
        "Not enough data, need 12 bits (or 2 bytes)"
    );
    assert_eq!(DekuError::Parse("x".to_string()).message(), "Parse error: x");
    assert_eq!(DekuError::InvalidParam("y".to_string()).message(), "Invalid param error: y");
    assert_eq!(DekuError::Assertion("z".to_string()).message(), "Assertion error: z");
    assert_eq!(DekuError::AssertionNoStr.message(), "Assertion error");
    assert_eq!(DekuError::IdVariantNotFound.message(), "Could not resolve `id` for variant");
    assert_eq!(DekuError::Io(ErrorKind::WriteZero).message(), "io errorr: WriteZero");
    assert_eq!(DekuError::Incomplete(NeedSize::new(1)).io_kind(), ErrorKind::UnexpectedEof);
    assert_eq!(DekuError::InvalidParam(String::new()).io_kind(), ErrorKind::InvalidInput);
    assert_eq!(DekuError::IdVariantNotFound.io_kind(), ErrorKind::NotFound);
    assert_eq!(DekuError::Io(ErrorKind::Other).io_kind(), ErrorKind::Other);
    let _ = Order::Msb0;
}
