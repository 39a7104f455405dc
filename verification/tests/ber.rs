use misb_klv::{ber, ErrorKind, KlvError};

#[test]
fn incomplete() {
    let len_empty: &[u8] = &[];
    assert_eq!(
        ber(len_empty),
        Err(KlvError { kind: ErrorKind::Incomplete(1), at: len_empty })
    );
}

#[test]
fn short_form() {
    let len76 = &[0b0100_1100];
    assert_eq!(ber(len76), Ok((&[] as &[_], 76)));
}

#[test]
fn long_form() {
    let len201 = &[0b1000_0001, 0b1100_1001];
    assert_eq!(ber(len201), Ok((&[] as &[_], 201)));
}

#[test]
fn short_form_every_value() {
    for v in 0u8..=127 {
        assert_eq!(ber(&[v]), Ok((&[] as &[_], v as u32)));
    }
}

#[test]
fn short_form_leaves_the_rest() {
    assert_eq!(ber(&[0x05, 0xAA, 0xBB]), Ok((&[0xAA, 0xBB][..], 5)));
}

#[test]
fn long_form_minimal_encodings() {
    assert_eq!(ber(&[0x81, 0x80]), Ok((&[] as &[_], 128)));
    assert_eq!(ber(&[0x82, 0x01, 0x00]), Ok((&[] as &[_], 256)));
    assert_eq!(ber(&[0x83, 0x01, 0x00, 0x00]), Ok((&[] as &[_], 65_536)));
    assert_eq!(ber(&[0x84, 0xFF, 0xFF, 0xFF, 0xFF]), Ok((&[] as &[_], u32::MAX)));
    assert_eq!(ber(&[0x84, 0x12, 0x34, 0x56, 0x78, 0x9A]), Ok((&[0x9A][..], 0x1234_5678)));
}

#[test]
fn long_form_with_leading_zeros() {
    assert_eq!(ber(&[0x85, 0x00, 0x00, 0x00, 0x01, 0x02]), Ok((&[] as &[_], 258)));
}

#[test]
fn long_form_of_zero_bytes() {
    assert_eq!(
        ber(&[0x80]),
        Err(KlvError { kind: ErrorKind::InvalidLongForm, at: &[0x80] })
    );
    assert_eq!(
        ber(&[0x80, 0x01]),
        Err(KlvError { kind: ErrorKind::InvalidLongForm, at: &[0x80, 0x01] })
    );
}

#[test]
fn long_form_cut_short() {
    assert_eq!(
        ber(&[0x81]),
        Err(KlvError { kind: ErrorKind::Incomplete(1), at: &[0x81] })
    );
    assert_eq!(
        ber(&[0x83, 0x01, 0x02]),
        Err(KlvError { kind: ErrorKind::Incomplete(3), at: &[0x83, 0x01, 0x02] })
    );
}

#[test]
fn long_form_overflow() {
    let five = [0x85, 0x01, 0x00, 0x00, 0x00, 0x00, 0x77];
    assert_eq!(
        ber(&five),
        Err(KlvError { kind: ErrorKind::LengthOverflow, at: &five })
    );
    let six = [0x86, 0xFF, 0xFF, 0xFF, 0xFF, 0xFF, 0xFF];
    assert_eq!(
        ber(&six),
        Err(KlvError { kind: ErrorKind::LengthOverflow, at: &six })
    );
}

#[test]
fn length_decoded_twice_is_the_same() {
    let bytes = [0x82, 0x01, 0x02, 0x03];
    assert_eq!(ber(&bytes), ber(&bytes));
}
