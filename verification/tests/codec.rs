//! Tests of the wire codec: decoding, encoding, byte counts, and failures.
use miniredis::protocol::{readnext_resp, Kind, Resp, RespEncoding, RespError};

#[test]
fn test_parse_array() {
    let input = b"*2\r\n$4\r\nECHO\r\n$3\r\nhey\r\n";
    let (parsed, _) = readnext_resp(input).unwrap();
    assert_eq!(
        parsed,
        Resp::Array(vec![
            Resp::Bulk(Some(b"ECHO".to_vec())),
            Resp::Bulk(Some(b"hey".to_vec()))
        ])
    );
}

#[test]
fn test_parse_int() {
    let input = b"*2\r\n:51\r\n:33\r\n";
    let (parsed, _) = readnext_resp(input).unwrap();

    assert_eq!(
        parsed,
        Resp::Array(vec![Resp::Integer(51), Resp::Integer(33),])
    );
}

#[test]
fn decode_simple_string() {
    let (parsed, used) = readnext_resp(b"+PONG\r\n").unwrap();
    assert_eq!(parsed, Resp::SimpleString(b"PONG".to_vec()));
    assert_eq!(used, 7);
}

#[test]
fn decode_empty_simple_string() {
    let (parsed, used) = readnext_resp(b"+\r\n").unwrap();
    assert_eq!(parsed, Resp::SimpleString(Vec::new()));
    assert_eq!(used, 3);
}

#[test]
fn decode_negative_integer() {
    let (parsed, used) = readnext_resp(b":-42\r\n").unwrap();
    assert_eq!(parsed, Resp::Integer(-42));
    assert_eq!(used, 6);
}

#[test]
fn decode_integer_extremes() {
    let (parsed, _) = readnext_resp(b":9223372036854775807\r\n").unwrap();
    assert_eq!(parsed, Resp::Integer(i64::MAX));
    let (parsed, _) = readnext_resp(b":-9223372036854775808\r\n").unwrap();
    assert_eq!(parsed, Resp::Integer(i64::MIN));
}

#[test]
fn decode_integer_overflow_is_invalid_data() {
    let err = readnext_resp(b":9223372036854775808\r\n").unwrap_err();
    assert!(matches!(err, RespError::InvalidData(_)));
}

#[test]
fn decode_null_bulk() {
    let (parsed, used) = readnext_resp(b"$-1\r\n").unwrap();
    assert_eq!(parsed, Resp::Null);
    assert_eq!(used, 5);
}

#[test]
fn decode_bulk_consumes_exact_bytes() {
    let (parsed, used) = readnext_resp(b"$3\r\nhey\r\nleftover").unwrap();
    assert_eq!(parsed, Resp::Bulk(Some(b"hey".to_vec())));
    assert_eq!(used, 9);
}

#[test]
fn decode_bulk_is_binary_safe() {
    let (parsed, used) = readnext_resp(b"$4\r\n\x00\xff\r\t\r\n").unwrap();
    assert_eq!(parsed, Resp::Bulk(Some(vec![0, 255, 13, 9])));
    assert_eq!(used, 10);
}

#[test]
fn decode_bulk_bad_terminator() {
    let err = readnext_resp(b"$3\r\nheyXX").unwrap_err();
    assert!(matches!(err, RespError::InvalidData(_)));
}

#[test]
fn decode_bulk_truncated_payload() {
    let err = readnext_resp(b"$10\r\nhey\r\n").unwrap_err();
    assert!(matches!(err, RespError::InvalidData(_)));
}

#[test]
fn decode_array_length_below_minus_one() {
    let err = readnext_resp(b"*-2\r\n").unwrap_err();
    assert!(matches!(err, RespError::InvalidData(_)));
}

#[test]
fn decode_null_array() {
    let (parsed, used) = readnext_resp(b"*-1\r\n").unwrap();
    assert_eq!(parsed, Resp::Null);
    assert_eq!(used, 5);
}

#[test]
fn decode_unknown_prefix() {
    let err = readnext_resp(b"@oops\r\n").unwrap_err();
    assert!(matches!(err, RespError::InvalidType(_)));
    assert_eq!(err.message(), "unrecognized datatype prefix byte");
}

#[test]
fn decode_recognized_but_unsupported_prefix() {
    let err = readnext_resp(b"#t\r\n").unwrap_err();
    assert!(matches!(err, RespError::InvalidType(_)));
    assert_eq!(err.message(), "unsupported RESP type");
}

#[test]
fn decode_empty_buffer() {
    let err = readnext_resp(b"").unwrap_err();
    assert_eq!(err.message(), "incoming bytestream empty");
}

#[test]
fn decode_missing_terminator() {
    let err = readnext_resp(b"+PONG").unwrap_err();
    assert!(matches!(err, RespError::InvalidData(_)));
}

#[test]
fn encode_simple_values() {
    assert_eq!(Resp::SimpleString(b"OK".to_vec()).encode(), b"+OK\r\n");
    assert_eq!(Resp::Integer(-7).encode(), b":-7\r\n");
    assert_eq!(Resp::Integer(0).encode(), b":0\r\n");
    assert_eq!(Resp::Bulk(Some(b"hey".to_vec())).encode(), b"$3\r\nhey\r\n");
    assert_eq!(Resp::Bulk(None).encode(), b"$-1\r\n");
    assert_eq!(Resp::Null.encode(), b"$-1\r\n");
}

#[test]
fn encode_array() {
    let v = Resp::Array(vec![
        Resp::Bulk(Some(b"ECHO".to_vec())),
        Resp::Bulk(Some(b"hey".to_vec())),
    ]);
    assert_eq!(v.encode(), b"*2\r\n$4\r\nECHO\r\n$3\r\nhey\r\n");
}

#[test]
fn round_trip_returns_value_and_full_length() {
    let v = Resp::Array(vec![
        Resp::SimpleString(b"a".to_vec()),
        Resp::Integer(-123),
        Resp::Bulk(Some(b"\r\nraw".to_vec())),
        Resp::Array(vec![Resp::Null, Resp::Integer(5)]),
    ]);
    let bytes = v.encode();
    let (parsed, used) = readnext_resp(&bytes).unwrap();
    assert_eq!(used, bytes.len());
    // An absent value encodes as the null Bulk and reads back as Null.
    let expected = Resp::Array(vec![
        Resp::SimpleString(b"a".to_vec()),
        Resp::Integer(-123),
        Resp::Bulk(Some(b"\r\nraw".to_vec())),
        Resp::Array(vec![Resp::Null, Resp::Integer(5)]),
    ]);
    assert_eq!(parsed, expected);
}

#[test]
fn kind_from_byte_and_back() {
    assert_eq!(Kind::from_byte(b'+'), Some(Kind::SimpleString));
    assert_eq!(Kind::from_byte(b':'), Some(Kind::Integer));
    assert_eq!(Kind::from_byte(b'$'), Some(Kind::Bulk));
    assert_eq!(Kind::from_byte(b'*'), Some(Kind::Array));
    assert_eq!(Kind::from_byte(b'%'), Some(Kind::MapType));
    assert_eq!(Kind::from_byte(b'q'), None);
    assert_eq!(Kind::byte_char(Kind::Bulk), '$');
    assert_eq!(Kind::byte_char(Kind::Push), '>');
}
