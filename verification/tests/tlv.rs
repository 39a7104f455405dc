use misb_klv::{
    ascii_string, decode_field, parse_tlvs, udl_tlvs, ErrorKind, KlvError, TLVRaw, Timestamp,
    TLV,
};

fn field(tag: u32, bytes: &[u8]) -> Result<TLV, KlvError<'_>> {
    decode_field(&TLVRaw { tag, bytes })
}

fn malformed(at: &[u8]) -> Result<TLV, KlvError<'_>> {
    Err(KlvError { kind: ErrorKind::MalformedField, at })
}

fn non_ascii(at: &[u8]) -> Result<TLV, KlvError<'_>> {
    Err(KlvError { kind: ErrorKind::NonAsciiString, at })
}

#[test]
fn parse_table_11_full_udl_example() {
    let bytes: [u8; 51] = [
        0x06, 0x0E, 0x2B, 0x34, 0x02, 0x0B, 0x01, 0x01, 0x0E, 0x01, 0x03, 0x01, 0x01, 0x00,
        0x00, 0x00, 0x22, 0x02, 0x08, 0x00, 0x04, 0x60, 0x50, 0x58, 0x4E, 0x01, 0x80, 0x03,
        0x0A, 0x4D, 0x69, 0x73, 0x73, 0x69, 0x6F, 0x6E, 0x20, 0x31, 0x32, 0x05, 0x02, 0x71,
        0xC2, 0x06, 0x02, 0xFD, 0x3D, 0x01, 0x02, 0xC8, 0x4C,
    ];
    let tlvs = udl_tlvs(&bytes[..])
        .and_then(|t| parse_tlvs(t.1))
        .expect("unable to parse out TLVs");

    assert_eq!(
        tlvs[0],
        TLV::PrecisionTimeStamp(Timestamp { seconds: 1_231_798_102, nanos: 0 })
    );
    assert_eq!(tlvs.len(), 5);
    assert_eq!(tlvs[1], TLV::MissionID("Mission 12".to_string()));
    assert_eq!(tlvs[2], TLV::PlatformHeadingAngle(0x71C2));
    assert_eq!(tlvs[3], TLV::PlatformPitchAngle(Some(-707)));
    assert_eq!(tlvs[4], TLV::Checksum(0xC84C));
}

#[test]
fn checksum_field() {
    assert_eq!(field(1, &[0x12, 0x34]), Ok(TLV::Checksum(0x1234)));
    assert_eq!(field(1, &[0xFF, 0xFF]), Ok(TLV::Checksum(65_535)));
    assert_eq!(field(1, &[0x34]), malformed(&[0x34]));
    assert_eq!(field(1, &[0x12, 0x34, 0x56]), malformed(&[0x12, 0x34, 0x56]));
    assert_eq!(field(1, &[]), malformed(&[]));
}

#[test]
fn timestamp_field() {
    assert_eq!(
        field(2, &[0x00, 0x04, 0x60, 0x50, 0x58, 0x4E, 0x01, 0x80]),
        Ok(TLV::PrecisionTimeStamp(Timestamp { seconds: 1_231_798_102, nanos: 0 }))
    );
    assert_eq!(
        field(2, &[0x00, 0x04, 0x60, 0x50, 0x58, 0x4F, 0xE3, 0xC0]),
        Ok(TLV::PrecisionTimeStamp(Timestamp { seconds: 1_231_798_102, nanos: 123_456_000 }))
    );
    assert_eq!(
        field(2, &[0, 0, 0, 0, 0, 0, 0, 0]),
        Ok(TLV::PrecisionTimeStamp(Timestamp { seconds: 0, nanos: 0 }))
    );
    assert_eq!(
        field(2, &[0xFF; 8]),
        Ok(TLV::PrecisionTimeStamp(Timestamp {
            seconds: 18_446_744_073_709,
            nanos: 551_615_000
        }))
    );
    assert_eq!(field(2, &[0; 7]), malformed(&[0; 7]));
    assert_eq!(field(2, &[0; 9]), malformed(&[0; 9]));
}

#[test]
fn string_fields() {
    assert_eq!(field(3, b"Mission 12"), Ok(TLV::MissionID("Mission 12".to_string())));
    assert_eq!(field(4, b"AF-101"), Ok(TLV::PlatformTailNumber("AF-101".to_string())));
    assert_eq!(field(3, &[]), Ok(TLV::MissionID(String::new())));
    assert_eq!(field(4, &[0x00, 0x7F]), Ok(TLV::PlatformTailNumber("\u{0}\u{7f}".to_string())));
    assert_eq!(field(3, &[0x41, 0x80]), non_ascii(&[0x41, 0x80]));
    assert_eq!(field(4, &[0xFF]), non_ascii(&[0xFF]));
}

#[test]
fn ascii_string_copies_each_byte() {
    assert_eq!(ascii_string(b"ABC"), Ok("ABC".to_string()));
    assert_eq!(ascii_string(&[]), Ok(String::new()));
    assert_eq!(
        ascii_string(&[0x41, 0xC3, 0xA9]),
        Err(KlvError { kind: ErrorKind::NonAsciiString, at: &[0x41, 0xC3, 0xA9] })
    );
}

#[test]
fn heading_field() {
    assert_eq!(field(5, &[0x71, 0xC2]), Ok(TLV::PlatformHeadingAngle(29_122)));
    assert_eq!(field(5, &[0x00, 0x00]), Ok(TLV::PlatformHeadingAngle(0)));
    assert_eq!(field(5, &[0xFF, 0xFF]), Ok(TLV::PlatformHeadingAngle(65_535)));
    assert_eq!(field(5, &[0x71]), malformed(&[0x71]));
    assert_eq!(field(5, &[0x71, 0xC2, 0x00]), malformed(&[0x71, 0xC2, 0x00]));
}

#[test]
fn pitch_field() {
    assert_eq!(field(6, &[0x80, 0x00]), Ok(TLV::PlatformPitchAngle(None)));
    assert_eq!(field(6, &[0x80, 0x01]), Ok(TLV::PlatformPitchAngle(Some(-32_767))));
    assert_eq!(field(6, &[0x7F, 0xFF]), Ok(TLV::PlatformPitchAngle(Some(32_767))));
    assert_eq!(field(6, &[0xFF, 0xFF]), Ok(TLV::PlatformPitchAngle(Some(-1))));
    assert_eq!(field(6, &[0x00, 0x00]), Ok(TLV::PlatformPitchAngle(Some(0))));
    assert_eq!(field(6, &[0xFD, 0x3D]), Ok(TLV::PlatformPitchAngle(Some(-707))));
    assert_eq!(field(6, &[0x80]), malformed(&[0x80]));
    assert_eq!(field(6, &[0x80, 0x00, 0x00]), malformed(&[0x80, 0x00, 0x00]));
}

#[test]
fn pitch_stays_within_twenty_degrees() {
    for hi in 0u8..=255 {
        for lo in 0u8..=255 {
            match field(6, &[hi, lo]).unwrap() {
                TLV::PlatformPitchAngle(Some(v)) => {
                    let degrees = v as f64 / 32767.0 * 20.0;
                    assert!((-20.0..=20.0).contains(&degrees));
                }
                TLV::PlatformPitchAngle(None) => assert_eq!((hi, lo), (0x80, 0x00)),
                other => panic!("{:?}", other),
            }
        }
    }
}

#[test]
fn unknown_field() {
    assert_eq!(field(7, &[1, 2, 3]), Ok(TLV::Unknown(vec![1, 2, 3])));
    assert_eq!(field(0, &[]), Ok(TLV::Unknown(vec![])));
    assert_eq!(field(u32::MAX, &[0xFF]), Ok(TLV::Unknown(vec![0xFF])));
}

#[test]
fn fields_in_record_order() {
    let records = vec![
        TLVRaw { tag: 1, bytes: &[0x00, 0x2A] },
        TLVRaw { tag: 99, bytes: &[0x09] },
        TLVRaw { tag: 4, bytes: b"N97826" },
    ];
    assert_eq!(
        parse_tlvs(records),
        Ok(vec![
            TLV::Checksum(42),
            TLV::Unknown(vec![0x09]),
            TLV::PlatformTailNumber("N97826".to_string()),
        ])
    );
    assert_eq!(parse_tlvs(Vec::new()), Ok(Vec::new()));
}

#[test]
fn first_error_wins() {
    let records = vec![
        TLVRaw { tag: 1, bytes: &[0x00, 0x2A] },
        TLVRaw { tag: 3, bytes: &[0x80] },
        TLVRaw { tag: 5, bytes: &[0x00] },
    ];
    assert_eq!(
        parse_tlvs(records),
        Err(KlvError { kind: ErrorKind::NonAsciiString, at: &[0x80] })
    );
    let records = vec![
        TLVRaw { tag: 5, bytes: &[0x00] },
        TLVRaw { tag: 3, bytes: &[0x80] },
    ];
    assert_eq!(
        parse_tlvs(records),
        Err(KlvError { kind: ErrorKind::MalformedField, at: &[0x00] })
    );
}

#[test]
fn packet_decoded_twice_is_the_same() {
    let bytes: [u8; 27] = [
        0x06, 0x0E, 0x2B, 0x34, 0x02, 0x0B, 0x01, 0x01, 0x0E, 0x01, 0x03, 0x01, 0x01, 0x00,
        0x00, 0x00, 0x0A, 0x03, 0x02, 0x48, 0x49, 0x06, 0x02, 0x12, 0x34, 0x40, 0x00,
    ];
    let first = udl_tlvs(&bytes).and_then(|t| parse_tlvs(t.1));
    let second = udl_tlvs(&bytes).and_then(|t| parse_tlvs(t.1));
    assert_eq!(first, second);
    assert_eq!(
        first,
        Ok(vec![
            TLV::MissionID("HI".to_string()),
            TLV::PlatformPitchAngle(Some(0x1234)),
            TLV::Unknown(vec![]),
        ])
    );
}
