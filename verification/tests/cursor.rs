use databuf::config::num::LE;
use databuf::cursor::Cursor;
use databuf::error::Error;
use databuf::{Decode, Encode};

#[test]
fn cursor_write_slice() {
    let mut view = Cursor::new(vec![0u8; 3]);

    view.write_slice(&[4, 2]);
    assert_eq!(view.offset, 2);
    assert_eq!(view.data, vec![4, 2, 0]);

    view.write_slice(&[9, 9]);
    assert_eq!(view.offset, 4);
    assert_eq!(view.data, vec![4, 2, 9, 9]);
}

#[test]
fn cursor_read_slice() {
    let data: Vec<u8> = vec![1, 2, 3];
    let mut view = Cursor::new(&data[..]);

    let slice = view.read_slice(2).unwrap();
    assert_eq!(slice, &[1, 2]);
    assert_eq!(view.offset, 2);

    let err = view.read_slice(2).unwrap_err();
    assert!(matches!(err, Error::InsufficientBytes(_)));
    assert_eq!(view.offset, 2);
}

#[test]
fn cursor_remaining_slice() {
    let data: Vec<u8> = vec![1, 2];
    let mut view = Cursor::new(&data[..]);

    assert_eq!(view.remaining_slice(), &[1, 2]);
    view.read_slice(1).unwrap();
    assert_eq!(view.remaining_slice(), &[2]);
}

#[test]
fn test_scaler_type_serialization() {
    [0x_A5C11_u32, 0x_C0DE, 0x_DEC0DE, 0x_ADDED, 0x_AB0DE, 0x_CAFE]
        .iter()
        .for_each(|&word| {
            assert_eq!(word, u32::from_bytes::<LE>(&word.to_bytes::<LE>()).unwrap());
        });

    [
        0x_Faded_Face_u64,
        0x_BAD_F00D,
        0x_C01D_C0FFEE,
        0x_C0CA_C01A,
        0x_DEAD_BEEF,
    ]
    .iter()
    .for_each(|&word| {
        assert_eq!(word, u64::from_bytes::<LE>(&word.to_bytes::<LE>()).unwrap());
    });
}
