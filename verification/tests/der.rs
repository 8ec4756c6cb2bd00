use roasort::der::{
    check_integer, read_bit_string, read_element, read_element_of, read_unsigned_integer,
    BitString, TAG_BIT_STRING, TAG_CONTEXT_0, TAG_INTEGER, TAG_OCTET_STRING, TAG_SEQUENCE,
};

fn contents_of(encoding: &[u8], tag: u8) -> Vec<u8> {
    let (contents, rest) = read_element_of(encoding, tag).unwrap();
    assert!(rest.is_empty());
    contents.to_vec()
}

#[test]
fn tags() {
    assert_eq!(TAG_INTEGER, 0x02);
    assert_eq!(TAG_BIT_STRING, 0x03);
    assert_eq!(TAG_OCTET_STRING, 0x04);
    assert_eq!(TAG_SEQUENCE, 0x30);
    assert_eq!(TAG_CONTEXT_0, 0xa0);
}

#[test]
fn element_with_short_length() {
    let bytes = [0x30, 0x03, 0x02, 0x01, 0x05, 0xff, 0xee];
    let (tag, contents, rest) = read_element(&bytes).unwrap();
    assert_eq!(tag, 0x30);
    assert_eq!(contents, &[0x02, 0x01, 0x05]);
    assert_eq!(rest, &[0xff, 0xee]);

    let (tag, contents, rest) = read_element(&[0x05, 0x00]).unwrap();
    assert_eq!(tag, 0x05);
    assert!(contents.is_empty());
    assert!(rest.is_empty());
}

#[test]
fn element_with_long_length() {
    let mut bytes = vec![0x04, 0x81, 0x80];
    bytes.extend(std::iter::repeat(0xab).take(128));
    bytes.push(0x99);
    let (tag, contents, rest) = read_element(&bytes).unwrap();
    assert_eq!(tag, 0x04);
    assert_eq!(contents.len(), 128);
    assert!(contents.iter().all(|b| *b == 0xab));
    assert_eq!(rest, &[0x99]);

    let mut bytes = vec![0x04, 0x82, 0x01, 0x00];
    bytes.extend(std::iter::repeat(0xcd).take(256));
    let (_, contents, rest) = read_element(&bytes).unwrap();
    assert_eq!(contents.len(), 256);
    assert!(rest.is_empty());
}

#[test]
fn element_with_bad_framing() {
    assert!(read_element(&[]).is_none());
    assert!(read_element(&[0x30]).is_none());
    // contents shorter than the length says
    assert!(read_element(&[0x30, 0x03, 0x02, 0x01]).is_none());
    // indefinite length
    assert!(read_element(&[0x30, 0x80, 0x00, 0x00]).is_none());
    // reserved length octet
    assert!(read_element(&[0x30, 0xff, 0x00]).is_none());
    // a length below 128 in the long form
    assert!(read_element(&[0x04, 0x81, 0x01, 0xaa]).is_none());
    // a long form with a leading zero octet
    let mut bytes = vec![0x04, 0x82, 0x00, 0x80];
    bytes.extend(std::iter::repeat(0).take(128));
    assert!(read_element(&bytes).is_none());
    // missing length octets
    assert!(read_element(&[0x04, 0x82, 0x01]).is_none());
    // a length that no input can hold
    assert!(read_element(&[0x04, 0x89, 1, 0, 0, 0, 0, 0, 0, 0, 0]).is_none());
    assert!(read_element(&[0x04, 0x88, 0xff, 0xff, 0xff, 0xff, 0xff, 0xff, 0xff, 0xff]).is_none());
}

#[test]
fn element_of_checks_the_tag() {
    let bytes = [0x02, 0x01, 0x05];
    assert!(read_element_of(&bytes, TAG_INTEGER).is_some());
    assert!(read_element_of(&bytes, TAG_SEQUENCE).is_none());
    assert!(read_element_of(&bytes, TAG_BIT_STRING).is_none());
}

#[test]
fn unsigned_integers() {
    assert_eq!(read_unsigned_integer(&[0x00], 128), Some(0));
    assert_eq!(read_unsigned_integer(&[0x18], 128), Some(24));
    assert_eq!(read_unsigned_integer(&[0x7f], 128), Some(127));
    assert_eq!(read_unsigned_integer(&[0x00, 0x80], 128), Some(128));
    assert_eq!(read_unsigned_integer(&[0x00, 0x81], 128), None);
    assert_eq!(read_unsigned_integer(&[0x00, 0xfb, 0xf0], 0xffff_ffff), Some(64496));
    assert_eq!(
        read_unsigned_integer(&[0x00, 0xff, 0xff, 0xff, 0xff], 0xffff_ffff),
        Some(0xffff_ffff)
    );
    assert_eq!(read_unsigned_integer(&[0x01, 0x00, 0x00, 0x00, 0x00], 0xffff_ffff), None);
    assert_eq!(
        read_unsigned_integer(&[0x7f, 0xff, 0xff, 0xff, 0xff, 0xff, 0xff, 0xff], u64::MAX),
        Some(0x7fff_ffff_ffff_ffff)
    );
    assert_eq!(
        read_unsigned_integer(&[0x00, 0xff, 0xff, 0xff, 0xff, 0xff, 0xff, 0xff, 0xff], u64::MAX),
        Some(u64::MAX)
    );
    assert_eq!(
        read_unsigned_integer(&[0x01, 0x00, 0x00, 0x00, 0x00, 0x00, 0x00, 0x00, 0x00], u64::MAX),
        None
    );
    // no octets, a negative number, octets that only repeat the sign
    assert_eq!(read_unsigned_integer(&[], 128), None);
    assert_eq!(read_unsigned_integer(&[0x80], 128), None);
    assert_eq!(read_unsigned_integer(&[0xff], 128), None);
    assert_eq!(read_unsigned_integer(&[0x00, 0x18], 128), None);
    assert_eq!(read_unsigned_integer(&[0x00, 0x00], 128), None);
}

#[test]
fn integer_contents() {
    assert!(check_integer(&[0x00]));
    assert!(check_integer(&[0xff]));
    assert!(check_integer(&[0x00, 0x80]));
    assert!(check_integer(&[0xff, 0x7f]));
    assert!(check_integer(&[0x12, 0x34, 0x56, 0x78, 0x9a, 0xbc, 0xde, 0xf0, 0x12]));
    assert!(!check_integer(&[]));
    assert!(!check_integer(&[0x00, 0x7f]));
    assert!(!check_integer(&[0xff, 0x80]));
}

#[test]
fn bit_strings() {
    assert_eq!(read_bit_string(&[0x00]), Some(BitString { bits: 0, length: 0 }));
    assert_eq!(
        read_bit_string(&[0x00, 0x0a]),
        Some(BitString { bits: 0x0a << 120, length: 8 })
    );
    assert_eq!(
        read_bit_string(&[0x04, 0x0a, 0x50]),
        Some(BitString { bits: 0x0a50 << 112, length: 12 })
    );
    assert_eq!(
        read_bit_string(&[0x07, 0x80]),
        Some(BitString { bits: 1 << 127, length: 1 })
    );
    assert_eq!(
        read_bit_string(&[0x00, 0x20, 0x01, 0x0d, 0xb8]),
        Some(BitString { bits: 0x2001_0db8 << 96, length: 32 })
    );
    let mut all = vec![0x00];
    all.extend([0xff; 16]);
    assert_eq!(read_bit_string(&all), Some(BitString { bits: u128::MAX, length: 128 }));
    let mut all_but_one = vec![0x01];
    all_but_one.extend([0xff; 15]);
    all_but_one.push(0xfe);
    assert_eq!(
        read_bit_string(&all_but_one),
        Some(BitString { bits: u128::MAX - 1, length: 127 })
    );
}

#[test]
fn bad_bit_strings() {
    // no octet for the unused bits
    assert_eq!(read_bit_string(&[]), None);
    // unused bits without an octet to hold them
    assert_eq!(read_bit_string(&[0x01]), None);
    // more than seven unused bits
    assert_eq!(read_bit_string(&[0x08, 0x00]), None);
    // unused bits that are not zero
    assert_eq!(read_bit_string(&[0x04, 0x0a, 0x51]), None);
    assert_eq!(read_bit_string(&[0x01, 0x01]), None);
    // more than 128 bits
    let mut long = vec![0x00];
    long.extend([0xff; 17]);
    assert_eq!(read_bit_string(&long), None);
}

#[test]
fn integers_are_framed_as_rasn_writes_them() {
    for value in [0u32, 1, 24, 127, 128, 255, 256, 64496, 0x7fff_ffff, 0x8000_0000, u32::MAX] {
        let encoding = rasn::der::encode(&rasn::types::Integer::from(value)).unwrap();
        let contents = contents_of(&encoding, TAG_INTEGER);
        assert!(check_integer(&contents));
        assert_eq!(read_unsigned_integer(&contents, 0xffff_ffff), Some(u64::from(value)));
    }
    for value in [-1i64, -128, -129, i64::MIN] {
        let encoding = rasn::der::encode(&rasn::types::Integer::from(value)).unwrap();
        let contents = contents_of(&encoding, TAG_INTEGER);
        assert!(check_integer(&contents));
        assert_eq!(read_unsigned_integer(&contents, u64::MAX), None);
    }
}

#[test]
fn octet_strings_are_framed_as_rasn_writes_them() {
    for length in [0usize, 1, 2, 127, 128, 255, 256, 70000] {
        let octets = vec![0x5a; length];
        let encoding = rasn::der::encode(&rasn::types::OctetString::from(octets.clone())).unwrap();
        assert_eq!(contents_of(&encoding, TAG_OCTET_STRING), octets);
    }
}

#[test]
fn bit_strings_are_read_as_rasn_writes_them() {
    let mut bits = rasn::types::BitString::new();
    for i in 0..=128u32 {
        let encoding = rasn::der::encode(&bits).unwrap();
        let contents = contents_of(&encoding, TAG_BIT_STRING);
        let read = read_bit_string(&contents).unwrap();
        assert_eq!(u32::from(read.length), i);
        let mut expected: u128 = 0;
        for (place, bit) in bits.iter().enumerate() {
            if *bit {
                expected |= 1 << (127 - place);
            }
        }
        assert_eq!(read.bits, expected);
        bits.push(i % 3 != 1);
    }
}
