use gorilla_tsz::utils::varint::{decode, decode_zigzag, encode, encode_zigzag};

fn verify_varint(val: u64, sz: usize) {
    let mut buf = [0u8; 10];

    assert_eq!(encode(val, &mut buf).unwrap(), sz);
    assert_eq!(decode(&buf).ok(), Some((val, sz)));
}

#[test]
fn test_varint_encoding() {
    verify_varint(12345, 2);
    verify_varint(0, 1);
    verify_varint(!(0x0), 10);
    verify_varint(50, 1);
    verify_varint(-1i64 as u64, 10);

    let mut buf = [0u8; 10];

    assert_eq!(encode(1 as u64, &mut buf).unwrap(), 1);
    assert!(decode(&vec![128]).is_err());

    assert_eq!(encode_zigzag(-1), 1);
    assert_eq!(decode_zigzag(encode_zigzag(-5)), -5);

    verify_varint(encode_zigzag(-1), 1);
}

#[test]
fn varint_round_trip_on_boundaries() {
    let cases: [(u64, usize); 12] = [
        (0, 1),
        (1, 1),
        (50, 1),
        (127, 1),
        (128, 2),
        (12345, 2),
        (16383, 2),
        (16384, 3),
        (1 << 62, 9),
        ((1 << 63) - 1, 9),
        (1 << 63, 10),
        (u64::MAX, 10),
    ];
    for (val, sz) in cases {
        verify_varint(val, sz);
    }
}

#[test]
fn varint_bytes_are_little_endian_groups() {
    let mut buf = [0xAAu8; 4];
    assert_eq!(encode(0, &mut buf).ok(), Some(1));
    assert_eq!(buf, [0x00, 0xAA, 0xAA, 0xAA]);

    let mut buf = [0xAAu8; 4];
    assert_eq!(encode(300, &mut buf).ok(), Some(2));
    assert_eq!(buf, [0xAC, 0x02, 0xAA, 0xAA]);

    let mut buf = [0u8; 10];
    assert_eq!(encode(u64::MAX, &mut buf).ok(), Some(10));
    assert_eq!(buf, [0xFF, 0xFF, 0xFF, 0xFF, 0xFF, 0xFF, 0xFF, 0xFF, 0xFF, 0x01]);
}

#[test]
fn varint_encode_fails_when_buffer_is_short() {
    let mut buf = [0u8; 1];
    assert!(encode(128, &mut buf).is_err());
    // The bytes that fit were written.
    assert_eq!(buf, [0x80]);

    let mut empty: [u8; 0] = [];
    assert!(encode(0, &mut empty).is_err());

    let mut buf = [0u8; 9];
    assert!(encode(u64::MAX, &mut buf).is_err());
    assert_eq!(buf, [0xFF; 9]);
}

#[test]
fn varint_decode_fails_without_terminator() {
    assert!(decode(&[]).is_err());
    assert!(decode(&[0x80]).is_err());
    assert!(decode(&[0xFF, 0xFF, 0x80]).is_err());
}

#[test]
fn varint_decode_stops_at_first_terminator() {
    assert_eq!(decode(&[0x05, 0xFF, 0xFF]).ok(), Some((5, 1)));
    assert_eq!(decode(&[0xAC, 0x02, 0x80]).ok(), Some((300, 2)));
    // A padded encoding of zero.
    assert_eq!(decode(&[0x80, 0x00]).ok(), Some((0, 2)));
}

#[test]
fn varint_decode_ignores_groups_beyond_64_bits() {
    // The tenth group holds bit 63 and six bits that do not fit.
    let buf = [0xFF, 0xFF, 0xFF, 0xFF, 0xFF, 0xFF, 0xFF, 0xFF, 0xFF, 0x7F];
    assert_eq!(decode(&buf).ok(), Some((u64::MAX, 10)));
    // An eleventh and a twelfth group count for nothing.
    let buf = [0x81, 0x80, 0x80, 0x80, 0x80, 0x80, 0x80, 0x80, 0x80, 0x80, 0xFF, 0x7F];
    assert_eq!(decode(&buf).ok(), Some((1, 12)));
}

#[test]
fn zigzag_values() {
    assert_eq!(encode_zigzag(0), 0);
    assert_eq!(encode_zigzag(-1), 1);
    assert_eq!(encode_zigzag(1), 2);
    assert_eq!(encode_zigzag(-2), 3);
    assert_eq!(encode_zigzag(2), 4);
    assert_eq!(encode_zigzag(i64::MAX), u64::MAX - 1);
    assert_eq!(encode_zigzag(i64::MIN), u64::MAX);

    assert_eq!(decode_zigzag(0), 0);
    assert_eq!(decode_zigzag(1), -1);
    assert_eq!(decode_zigzag(2), 1);
    assert_eq!(decode_zigzag(3), -2);
    assert_eq!(decode_zigzag(u64::MAX), i64::MIN);
    assert_eq!(decode_zigzag(u64::MAX - 1), i64::MAX);
}

#[test]
fn zigzag_round_trip() {
    for x in [0i64, -1, 1, -5, 5, 63, -64, 1 << 40, -(1 << 40), i64::MIN, i64::MAX] {
        assert_eq!(decode_zigzag(encode_zigzag(x)), x);
    }
    for u in [0u64, 1, 2, 3, 1 << 63, u64::MAX, u64::MAX - 1] {
        assert_eq!(encode_zigzag(decode_zigzag(u)), u);
    }
}
