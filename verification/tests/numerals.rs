//! Tests of the decimal numeral helpers and the buffer scanning entry
//! points the codec exposes.
use miniredis::protocol::{find_clrf_index, parse_next_arr_value, Resp};
use miniredis::text::{bytes_eq, i64_to_dec, parse_i64_bytes, parse_u64_bytes, u64_to_dec};

#[test]
fn renders_decimals_canonically() {
    assert_eq!(u64_to_dec(0), b"0".to_vec());
    assert_eq!(u64_to_dec(255), b"255".to_vec());
    assert_eq!(u64_to_dec(u64::MAX), b"18446744073709551615".to_vec());
    assert_eq!(i64_to_dec(-1), b"-1".to_vec());
    assert_eq!(i64_to_dec(i64::MIN), b"-9223372036854775808".to_vec());
    assert_eq!(i64_to_dec(i64::MAX), b"9223372036854775807".to_vec());
}

#[test]
fn parses_decimals_like_the_standard_library() {
    assert_eq!(parse_u64_bytes(b"0"), Some(0));
    assert_eq!(parse_u64_bytes(b"+42"), Some(42));
    assert_eq!(parse_u64_bytes(b"007"), Some(7));
    assert_eq!(parse_u64_bytes(b"18446744073709551615"), Some(u64::MAX));
    assert_eq!(parse_u64_bytes(b"18446744073709551616"), None);
    assert_eq!(parse_u64_bytes(b""), None);
    assert_eq!(parse_u64_bytes(b"+"), None);
    assert_eq!(parse_u64_bytes(b"-1"), None);
    assert_eq!(parse_u64_bytes(b"1 2"), None);

    assert_eq!(parse_i64_bytes(b"-9223372036854775808"), Some(i64::MIN));
    assert_eq!(parse_i64_bytes(b"-9223372036854775809"), None);
    assert_eq!(parse_i64_bytes(b"9223372036854775807"), Some(i64::MAX));
    assert_eq!(parse_i64_bytes(b"9223372036854775808"), None);
    assert_eq!(parse_i64_bytes(b"-0"), Some(0));
    assert_eq!(parse_i64_bytes(b"x1"), None);
}

#[test]
fn byte_equality_is_exact() {
    assert!(bytes_eq(b"abc", b"abc"));
    assert!(!bytes_eq(b"abc", b"abd"));
    assert!(!bytes_eq(b"abc", b"ab"));
    assert!(bytes_eq(b"", b""));
}

#[test]
fn finds_the_index_past_the_first_crlf() {
    assert_eq!(find_clrf_index(b"ab\r\ncd"), Some(4));
    assert_eq!(find_clrf_index(b"\r\n"), Some(2));
    assert_eq!(find_clrf_index(b"abcd"), None);
    assert_eq!(find_clrf_index(b"ab\rcd"), None);
}

#[test]
fn hands_back_the_bytes_after_one_value() {
    let (v, rest) = parse_next_arr_value(b":5\r\n$1\r\nx\r\n").unwrap();
    assert_eq!(v, Resp::Integer(5));
    assert_eq!(rest, b"$1\r\nx\r\n");
}
