use databuf::config::DEFAULT;
use databuf::error::Error;
use databuf::record::Record;
use databuf::{Decode, Encode};

#[test]
fn record_str_length_prefix() {
    let record: Record<u8, &str> = Record::new("HelloWorld");
    assert_eq!(record.data.len(), 10);

    let bytes = record.to_bytes::<DEFAULT>();
    assert_eq!(bytes.len(), 11);
    assert_eq!(bytes[0], 10);

    let back: Record<u8, String> = Decode::from_bytes::<DEFAULT>(&bytes).unwrap();
    assert_eq!(back.data, "HelloWorld");
}

#[test]
fn record_overflow_rejection() {
    // a 256-element sequence does not fit an 8-bit length override
    let long: Vec<u8> = vec![7; 256];
    let record: Record<u8, Vec<u8>> = Record::new(long);
    let mut sink = Vec::new();
    let r = record.encode::<DEFAULT>(&mut sink);
    assert!(matches!(r, Err(Error::IntegerOverflow(_))));

    // 255 elements still fit
    let short: Vec<u8> = vec![7; 255];
    let record: Record<u8, Vec<u8>> = Record::new(short);
    let bytes = record.to_bytes::<DEFAULT>();
    assert_eq!(bytes.len(), 256);
    assert_eq!(bytes[0], 255);
}

#[test]
fn record_wide_length_prefix() {
    let record: Record<u32, &[u8]> = Record::new(&[1u8, 2, 3][..]);
    let bytes = record.to_bytes::<DEFAULT>();
    // four length bytes (little-endian 3), then the payload
    assert_eq!(bytes, vec![3, 0, 0, 0, 1, 2, 3]);

    let back: Record<u32, &[u8]> = Decode::from_bytes::<DEFAULT>(&bytes).unwrap();
    assert_eq!(back.data, &[1, 2, 3]);
}

#[test]
fn record_decode_insufficient() {
    // length prefix says four bytes, three follow
    let r = <Record<u8, &[u8]>>::from_bytes::<DEFAULT>(&[4, 1, 2, 3]);
    assert!(matches!(r, Err(Error::InsufficientBytes(_))));
}

#[test]
fn record_vec_round_trip() {
    let record: Record<u16, Vec<u16>> = Record::new(vec![10, 20, 30]);
    let bytes = record.to_bytes::<DEFAULT>();
    assert_eq!(bytes, vec![3, 0, 10, 0, 20, 0, 30, 0]);
    let back: Record<u16, Vec<u16>> = Decode::from_bytes::<DEFAULT>(&bytes).unwrap();
    assert_eq!(back.data, vec![10, 20, 30]);
}
