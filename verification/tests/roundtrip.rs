use databuf::config::{len, num, DEFAULT};
use databuf::{Decode, Encode};

fn round_trip<T>(v: T)
where
    T: Encode + for<'a> Decode<'a> + PartialEq + std::fmt::Debug,
{
    let le = v.to_bytes::<{ num::LE }>();
    assert_eq!(v, T::from_bytes::<{ num::LE }>(&le).unwrap());

    let be = v.to_bytes::<{ num::BE }>();
    assert_eq!(v, T::from_bytes::<{ num::BE }>(&be).unwrap());

    let ne = v.to_bytes::<{ num::NE }>();
    assert_eq!(v, T::from_bytes::<{ num::NE }>(&ne).unwrap());

    let leb = v.to_bytes::<{ num::LEB128 }>();
    assert_eq!(v, T::from_bytes::<{ num::LEB128 }>(&leb).unwrap());
}

#[test]
fn scalars_round_trip_under_every_mode() {
    round_trip(0u8);
    round_trip(255u8);
    round_trip(-1i8);
    round_trip(true);
    round_trip('z');
    round_trip('\u{10FFFF}');
    round_trip(0xC0DEu16);
    round_trip(-12345i16);
    round_trip(0xDEADBEEFu32);
    round_trip(i32::MIN);
    round_trip(u64::MAX);
    round_trip(i64::MIN);
    round_trip(u128::MAX);
    round_trip(i128::MIN);
    round_trip(usize::MAX);
    round_trip(isize::MIN);
}

#[test]
fn native_endian_matches_machine_order() {
    let n = 0x0102_0304u32;
    let ne = n.to_bytes::<{ num::NE }>();
    assert_eq!(ne.len(), 4);
    let le = n.to_bytes::<{ num::LE }>();
    let be = n.to_bytes::<{ num::BE }>();
    assert!(ne == le || ne == be);
    assert_eq!(ne, n.to_ne_bytes().to_vec());
}

#[test]
fn big_endian_exact_bytes() {
    assert_eq!(0xC0DEu16.to_bytes::<{ num::BE }>(), vec![0xC0, 0xDE]);
    assert_eq!(0xC0DEu16.to_bytes::<{ num::LE }>(), vec![0xDE, 0xC0]);
    assert_eq!((-2i16).to_bytes::<{ num::LE }>(), vec![0xFE, 0xFF]);
}

#[test]
fn length_prefix_modes() {
    let v: Vec<u8> = vec![7; 200];

    let b30 = v.to_bytes::<{ num::LE | len::BEU30 }>();
    assert_eq!(b30.len(), 202);
    assert_eq!(&b30[..2], &[64, 200]);
    assert_eq!(v, Vec::<u8>::from_bytes::<{ num::LE | len::BEU30 }>(&b30).unwrap());

    let b15 = v.to_bytes::<{ num::LE | len::BEU15 }>();
    assert_eq!(b15.len(), 202);
    assert_eq!(&b15[..2], &[128, 200]);
    assert_eq!(v, Vec::<u8>::from_bytes::<{ num::LE | len::BEU15 }>(&b15).unwrap());

    let b22 = v.to_bytes::<{ num::LE | len::BEU22 }>();
    assert_eq!(v, Vec::<u8>::from_bytes::<{ num::LE | len::BEU22 }>(&b22).unwrap());

    let b29 = v.to_bytes::<{ num::LE | len::BEU29 }>();
    assert_eq!(v, Vec::<u8>::from_bytes::<{ num::LE | len::BEU29 }>(&b29).unwrap());
}

#[test]
fn text_and_collections_round_trip() {
    let s = String::from("héllo wörld \u{1F600}");
    let bytes = s.to_bytes::<DEFAULT>();
    assert_eq!(s, String::from_bytes::<DEFAULT>(&bytes).unwrap());

    let v: Vec<String> = vec![String::from("a"), String::new(), String::from("abc")];
    let bytes = v.to_bytes::<DEFAULT>();
    assert_eq!(v, Vec::<String>::from_bytes::<DEFAULT>(&bytes).unwrap());

    let o: Option<Vec<u16>> = Some(vec![1, 2, 3]);
    let bytes = o.to_bytes::<DEFAULT>();
    assert_eq!(o, Option::<Vec<u16>>::from_bytes::<DEFAULT>(&bytes).unwrap());
}

#[test]
fn trailing_bytes_are_left_for_the_caller() {
    let bytes: Vec<u8> = vec![0x2A, 9, 9, 9];
    let mut cursor: &[u8] = &bytes;
    let v = u8::decode::<DEFAULT>(&mut cursor).unwrap();
    assert_eq!(v, 0x2A);
    assert_eq!(cursor, &[9, 9, 9]);
}
