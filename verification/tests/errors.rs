use databuf::config::num::{LE, LEB128};
use databuf::config::DEFAULT;
use databuf::error::{Error, UnknownDiscriminant};
use databuf::var_int::BEU15;
use databuf::Decode;

#[test]
fn insufficient_fixed_width() {
    // one byte short of each fixed-width minimum
    let r = u32::from_bytes::<LE>(&[1, 2, 3]);
    assert!(matches!(r, Err(Error::InsufficientBytes(_))));

    let r = u16::from_bytes::<LE>(&[1]);
    assert!(matches!(r, Err(Error::InsufficientBytes(_))));

    let r = u64::from_bytes::<LE>(&[0; 7]);
    assert!(matches!(r, Err(Error::InsufficientBytes(_))));

    let r = u8::from_bytes::<LE>(&[]);
    assert!(matches!(r, Err(Error::InsufficientBytes(_))));
}

#[test]
fn insufficient_length_prefixed() {
    // the prefix announces five bytes but four follow
    let r = <&[u8]>::from_bytes::<DEFAULT>(&[5, 1, 2, 3, 4]);
    assert!(matches!(r, Err(Error::InsufficientBytes(_))));

    // the variable-length prefix itself is cut short
    let r = BEU15::from_bytes::<LE>(&[0x80]);
    assert!(matches!(r, Err(Error::InsufficientBytes(_))));

    // a LEB128 continuation chain runs off the end of the buffer
    let r = u32::from_bytes::<LEB128>(&[0x80, 0x80]);
    assert!(matches!(r, Err(Error::InsufficientBytes(_))));
}

#[test]
fn invalid_bool_value() {
    let r = bool::from_bytes::<LE>(&[2]);
    assert!(matches!(r, Err(Error::InvalidBoolValue(_))));

    assert_eq!(bool::from_bytes::<LE>(&[0]).unwrap(), false);
    assert_eq!(bool::from_bytes::<LE>(&[1]).unwrap(), true);
}

#[test]
fn invalid_char_code_point() {
    // 0xD800 is a surrogate, not a Unicode scalar value
    let r = char::from_bytes::<LE>(&[0x00, 0xD8, 0x00, 0x00]);
    assert!(matches!(r, Err(Error::InvalidChar(_))));

    let ok = char::from_bytes::<LE>(&[0x41, 0x00, 0x00, 0x00]).unwrap();
    assert_eq!(ok, 'A');
}

#[test]
fn invalid_utf8_window() {
    let r = <&str>::from_bytes::<DEFAULT>(&[2, 0xFF, 0xFF]);
    assert!(matches!(r, Err(Error::InvalidUtf8(_))));

    let r = String::from_bytes::<DEFAULT>(&[1, 0xC0]);
    assert!(matches!(r, Err(Error::InvalidUtf8(_))));
}

#[test]
fn leb128_overflow_rejection() {
    // a 16-bit value whose accumulated continuation bits exceed the width
    let r = u16::from_bytes::<LEB128>(&[0x80, 0x80, 0x04]);
    assert!(matches!(r, Err(Error::IntegerOverflow(_))));

    // the largest still-valid encoding is accepted
    let ok = u16::from_bytes::<LEB128>(&[0xFF, 0xFF, 0x03]).unwrap();
    assert_eq!(ok, u16::MAX);

    // the error kind can be asked for directly
    let err = u16::from_bytes::<LEB128>(&[0x80, 0x80, 0x04]).unwrap_err();
    assert!(err.is_integer_overflow());
    assert!(!err.is_insufficient_bytes());
    let err = u16::from_bytes::<LEB128>(&[0x80]).unwrap_err();
    assert!(err.is_insufficient_bytes());
}

/// Decodes a tag and dispatches exactly as generated enum code does.
fn decode_shape(c: &mut &[u8]) -> Result<&'static str, Error> {
    let tag = BEU15::decode::<DEFAULT>(c)?;
    match tag.0 {
        0 => Ok("circle"),
        1 => Ok("square"),
        2 => Ok("triangle"),
        d => UnknownDiscriminant::new_boxed_err("shape", d as u32),
    }
}

#[test]
fn unknown_discriminant() {
    let mut input: &[u8] = &[1];
    assert_eq!(decode_shape(&mut input).unwrap(), "square");

    let mut input: &[u8] = &[9];
    let err = decode_shape(&mut input).unwrap_err();
    match err {
        Error::UnknownDiscriminant(u) => {
            assert_eq!(u.ident, "shape");
            assert_eq!(u.discriminant, 9);
        },
        other => panic!("unexpected error: {:?}", other),
    }
}
