use deku::ctx::{BitSize, ByteSize, Endian, Limit};

#[test]
fn endian_from_str() {
    assert_eq!("little".parse::<Endian>().unwrap(), Endian::Little);
    assert_eq!("big".parse::<Endian>().unwrap(), Endian::Big);
    assert!("middle".parse::<Endian>().is_err());
    assert_eq!(Endian::parse("big").unwrap(), Endian::Big);
}

#[test]
fn endian_predicates() {
    assert!(Endian::Little.is_le());
    assert!(!Endian::Little.is_be());
    assert!(Endian::Big.is_be());
    let native = Endian::new();
    assert_eq!(native, Endian::default());
    assert_eq!(native.is_le(), 1u16.to_ne_bytes()[0] == 1);
}

#[test]
fn sizes() {
    assert_eq!(BitSize::of::<u32>(), BitSize(32));
    assert_eq!(BitSize::of_val(&0u16), BitSize(16));
    let l: Limit<u8, fn(&u8) -> bool> = Limit::new_count(3);
    assert!(matches!(l, Limit::Count(3)));
    let l: Limit<u8, fn(&u8) -> bool> = Limit::new_byte_size(ByteSize(2));
    assert!(matches!(l, Limit::ByteSize(ByteSize(2))));
}
