use dbgcore::codec::{decode_i64_le, decode_u64_le, encode_i64_le, encode_u64_le};
use dbgcore::text::{i64_to_string, parse_u64, str_eq, u64_to_hex_string, u64_to_string};

#[test]
fn unsigned_round_trip() {
    for &(v, size) in [(0u64, 1usize), (255, 1), (7, 4), (3, 1), (65535, 2), (123456789, 4),
        (u64::MAX, 8)].iter() {
        let bytes = encode_u64_le(v, size);
        assert_eq!(bytes.len(), size);
        assert_eq!(decode_u64_le(&bytes, 0, size), v);
    }
}

#[test]
fn signed_round_trip() {
    for &(v, size) in [(0i64, 1usize), (-1, 1), (-128, 1), (127, 1), (-32768, 2), (7, 4), (
        -2147483648,
        4,
    ), (i64::MIN, 8), (i64::MAX, 8)].iter() {
        let bytes = encode_i64_le(v, size);
        assert_eq!(bytes.len(), size);
        assert_eq!(decode_i64_le(&bytes, 0, size), v);
    }
}

#[test]
fn little_endian_layout() {
    let bytes = encode_u64_le(0x0403_0201, 4);
    assert_eq!(bytes, vec![0x01, 0x02, 0x03, 0x04]);
}

#[test]
fn decimal_formatting() {
    assert_eq!(u64_to_string(0), "0");
    assert_eq!(u64_to_string(7), "7");
    assert_eq!(u64_to_string(123456789), "123456789");
    assert_eq!(i64_to_string(-5), "-5");
    assert_eq!(i64_to_string(0), "0");
    assert_eq!(i64_to_string(i64::MIN), "-9223372036854775808");
}

#[test]
fn hex_formatting() {
    assert_eq!(u64_to_hex_string(0), "0x0");
    assert_eq!(u64_to_hex_string(0x1a2b), "0x1a2b");
    assert_eq!(u64_to_hex_string(255), "0xff");
}

#[test]
fn decimal_parsing() {
    assert_eq!(parse_u64("0"), Some(0));
    assert_eq!(parse_u64("42"), Some(42));
    assert_eq!(parse_u64("18446744073709551615"), Some(u64::MAX));
    assert_eq!(parse_u64("18446744073709551616"), None); // overflow
    assert_eq!(parse_u64(""), None);
    assert_eq!(parse_u64("12a"), None);
    assert_eq!(parse_u64("-3"), None);
}

#[test]
fn format_then_parse_is_identity() {
    for v in [0u64, 1, 9, 10, 999, 1000000, u64::MAX] {
        assert_eq!(parse_u64(&u64_to_string(v)), Some(v));
    }
}

#[test]
fn string_equality_by_characters() {
    assert!(str_eq("", ""));
    assert!(str_eq("abc", "abc"));
    assert!(!str_eq("abc", "abd"));
    assert!(!str_eq("abc", "ab"));
    assert!(str_eq("héllo", "héllo"));
}
