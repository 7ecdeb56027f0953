use ase_core::read::Reader;
use ase_core::ParseError;

#[test]
fn reads_le_primitives() {
    let data = [0x01u8, 0x02, 0x03, 0x04, 0x05];
    let mut r = Reader::new(&data);
    assert_eq!(r.u16().unwrap(), 0x0201);
    assert_eq!(r.u16().unwrap(), 0x0403);
    assert_eq!(r.pos(), 4);
    assert_eq!(r.u8().unwrap(), 0x05);
    assert!(matches!(r.u8(), Err(ParseError::UnexpectedEof { offset: 5, needed: 1 })));
}

#[test]
fn string_is_length_prefixed_utf8() {
    // "héllo": 6 bytes of UTF-8; the length prefix counts bytes, not chars.
    let mut data = vec![0x06, 0x00];
    data.extend_from_slice("héllo".as_bytes());
    let mut r = Reader::new(&data);
    assert_eq!(r.string().unwrap(), "héllo");
}

#[test]
fn string_rejects_bad_utf8_with_field_offset() {
    let data = [0x02u8, 0x00, 0xFF, 0xFE];
    let mut r = Reader::new(&data);
    assert_eq!(r.string(), Err(ParseError::BadString { offset: 0 }));
}

#[test]
fn seek_past_end_fails() {
    let data = [0u8; 4];
    let mut r = Reader::new(&data);
    assert!(r.seek(4).is_ok()); // one past the end is fine (empty tail)
    assert!(r.seek(5).is_err());
}

#[test]
fn reads_signed_wide_and_raw_float_values() {
    let mut data = Vec::new();
    data.extend_from_slice(&(-2i16).to_le_bytes());
    data.extend_from_slice(&(-70000i32).to_le_bytes());
    data.extend_from_slice(&0x0102_0304_0506_0708u64.to_le_bytes());
    data.extend_from_slice(&1.5f32.to_bits().to_le_bytes());
    data.extend_from_slice(&(-0.25f64).to_bits().to_le_bytes());
    data.extend_from_slice(&(3 * 65536 + 32768i32).to_le_bytes());
    let mut r = Reader::new(&data);
    assert_eq!(r.i16().unwrap(), -2);
    assert_eq!(r.i32().unwrap(), -70000);
    assert_eq!(r.u64().unwrap(), 0x0102_0304_0506_0708);
    assert_eq!(f32::from_bits(r.float_bits().unwrap()), 1.5);
    assert_eq!(f64::from_bits(r.double_bits().unwrap()), -0.25);
    assert_eq!(r.fixed().unwrap() as f64 / 65536.0, 3.5);
    assert_eq!(r.remaining(), 0);
    assert!(matches!(r.u32(), Err(ParseError::UnexpectedEof { offset: 30, needed: 4 })));
}

#[test]
fn skip_and_bytes_move_the_cursor_or_fail_in_place() {
    let data = [1u8, 2, 3, 4, 5, 6];
    let mut r = Reader::new(&data);
    r.skip(2).unwrap();
    assert_eq!(r.bytes(3).unwrap(), &[3, 4, 5]);
    assert_eq!(r.pos(), 5);
    assert_eq!(r.bytes(2), Err(ParseError::UnexpectedEof { offset: 5, needed: 1 }), "needed is the shortfall");
    assert_eq!(r.pos(), 5, "a failed read leaves the cursor in place");
    assert!(r.skip(2).is_err());
    assert_eq!(r.remaining(), 1);
}

#[test]
fn error_offset_is_reported_for_every_variant() {
    assert_eq!(ParseError::BadString { offset: 9 }.offset(), 9);
    assert_eq!(ParseError::Invalid { offset: 3, what: "x" }.offset(), 3);
    assert_eq!(ParseError::BadMagic { offset: 4, expected: 1, found: 2 }.offset(), 4);
    assert_eq!(ParseError::UnexpectedEof { offset: 7, needed: 1 }.offset(), 7);
    assert_eq!(ParseError::LimitExceeded { offset: 8, what: "y" }.offset(), 8);
}

#[test]
fn parse_errors_read_as_sentences() {
    assert_eq!(
        ParseError::UnexpectedEof { offset: 10, needed: 4 }.message(),
        "unexpected end of file at offset 10 (needed 4 more bytes)"
    );
    assert_eq!(
        ParseError::BadMagic { offset: 4, expected: 0xA5E0, found: 0x00BE }.message(),
        "bad magic at offset 4: expected 0xA5E0, found 0x00BE"
    );
    assert_eq!(ParseError::Invalid { offset: 0, what: "cel type" }.message(), "invalid cel type at offset 0");
    assert_eq!(
        ParseError::BadString { offset: 123456789 }.message(),
        "invalid UTF-8 string at offset 123456789"
    );
    assert_eq!(
        ParseError::LimitExceeded { offset: 1000, what: "palette size" }.message(),
        "safety limit exceeded at offset 1000: palette size"
    );
    assert_eq!(
        ParseError::UnexpectedEof { offset: usize::MAX, needed: 0 }.message(),
        format!("unexpected end of file at offset {} (needed 0 more bytes)", usize::MAX)
    );
}
