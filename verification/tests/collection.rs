use databuf::config::{len, num, DEFAULT};
use databuf::error::Error;
use databuf::{Decode, Encode};

#[test]
fn branch() {
    let map = Vec::from_iter(0..u16::MAX);

    for _ in 0..3 {
        let byte = map.to_bytes::<DEFAULT>();
        assert_eq!(131073, byte.len());
    }
}

#[test]
fn len_coder_test_name() {
    println!("{:x}", 2_u64.pow(21));
}

#[test]
fn fail_fast_collection() {
    // a two-element sequence whose second element is a malformed bool:
    // exactly one error comes back and no partial collection
    let bytes: Vec<u8> = vec![2, 1, 7];
    let r = Vec::<bool>::from_bytes::<DEFAULT>(&bytes);
    assert!(matches!(r, Err(Error::InvalidBoolValue(_))));

    // a malformed first element aborts before the second is touched
    let bytes: Vec<u8> = vec![2, 9, 1];
    let r = Vec::<bool>::from_bytes::<DEFAULT>(&bytes);
    assert!(matches!(r, Err(Error::InvalidBoolValue(_))));
}

#[test]
fn declared_length_exceeds_input() {
    // declared length 3, only two elements present
    let bytes: Vec<u8> = vec![3, 1, 0];
    let r = Vec::<bool>::from_bytes::<DEFAULT>(&bytes);
    assert!(matches!(r, Err(Error::InsufficientBytes(_))));
}

#[test]
fn nested_collections() {
    let v: Vec<Vec<u8>> = vec![vec![1, 2], vec![], vec![3]];
    let bytes = v.to_bytes::<DEFAULT>();
    assert_eq!(bytes, vec![3, 2, 1, 2, 0, 1, 3]);
    let back = Vec::<Vec<u8>>::from_bytes::<DEFAULT>(&bytes).unwrap();
    assert_eq!(v, back);
}

#[test]
fn option_round_trip() {
    let some: Option<u16> = Some(0xABCD);
    let bytes = some.to_bytes::<DEFAULT>();
    assert_eq!(bytes, vec![1, 0xCD, 0xAB]);
    assert_eq!(some, Option::<u16>::from_bytes::<DEFAULT>(&bytes).unwrap());

    let none: Option<u16> = None;
    let bytes = none.to_bytes::<DEFAULT>();
    assert_eq!(bytes, vec![0]);
    assert_eq!(none, Option::<u16>::from_bytes::<DEFAULT>(&bytes).unwrap());
}

#[test]
fn pair_round_trip() {
    let pair: (u8, bool) = (7, true);
    let bytes = pair.to_bytes::<DEFAULT>();
    assert_eq!(bytes, vec![7, 1]);
    assert_eq!(pair, <(u8, bool)>::from_bytes::<DEFAULT>(&bytes).unwrap());
}

#[test]
fn string_round_trip() {
    let s = String::from("hello");
    let bytes = s.to_bytes::<DEFAULT>();
    assert_eq!(bytes, vec![5, b'h', b'e', b'l', b'l', b'o']);
    assert_eq!(s, String::from_bytes::<DEFAULT>(&bytes).unwrap());
}

#[test]
fn zero_copy_slices() {
    let bytes: Vec<u8> = vec![3, 9, 8, 7, 2, b'h', b'i'];
    let mut cursor: &[u8] = &bytes;
    let window = <&[u8]>::decode::<DEFAULT>(&mut cursor).unwrap();
    assert_eq!(window, &[9, 8, 7]);
    let text = <&str>::decode::<DEFAULT>(&mut cursor).unwrap();
    assert_eq!(text, "hi");
    assert!(cursor.is_empty());
}

#[test]
fn boxed_round_trip() {
    let b: Box<u32> = Box::new(0xFEEDBEEF);
    let bytes = b.to_bytes::<DEFAULT>();
    assert_eq!(bytes, vec![0xEF, 0xBE, 0xED, 0xFE]);
    assert_eq!(b, Box::<u32>::from_bytes::<DEFAULT>(&bytes).unwrap());
}

#[test]
fn fixed_array_has_no_length_prefix() {
    let arr: [u8; 3] = [9, 8, 7];
    assert_eq!(arr.to_bytes::<DEFAULT>(), vec![9, 8, 7]);

    let arr: [u16; 2] = [1, 2];
    assert_eq!(arr.to_bytes::<DEFAULT>(), vec![1, 0, 2, 0]);
}

#[test]
fn unit_encodes_to_nothing() {
    assert_eq!(().to_bytes::<DEFAULT>(), Vec::<u8>::new());
    assert_eq!(<()>::from_bytes::<DEFAULT>(&[]).unwrap(), ());
}

#[test]
fn narrow_length_mode_overflow() {
    // 40000 elements cannot be counted by a 15-bit length prefix
    let v: Vec<u8> = vec![0; 40000];
    let mut sink = Vec::new();
    let r = v.encode::<{ num::LE | len::BEU15 }>(&mut sink);
    assert!(matches!(r, Err(Error::IntegerOverflow(_))));

    // but the default 30-bit prefix carries it
    let bytes = v.to_bytes::<DEFAULT>();
    assert_eq!(v, Vec::<u8>::from_bytes::<DEFAULT>(&bytes).unwrap());
}
