use resp_server::decimal::{parse_i64, parse_u64, push_i64_decimal, push_u64_digits};
use resp_server::frame::Frame;

#[test]
fn encode_frames_concatenates_encodings() {
    let frames = [Frame::SimpleString("OK".to_string()), Frame::Integer(-3), Frame::Null];
    assert_eq!(Frame::encode_frames(&frames), b"+OK\r\n:-3\r\n$-1\r\n".to_vec());
    assert_eq!(Frame::encode_frames(&[]), Vec::<u8>::new());
}

#[test]
fn decode_checked_reports_malformed_input() {
    assert!(Frame::decode_checked(b":12x\r\n").is_none());
    assert!(Frame::decode_checked(b"*ab\r\n").is_none());
    assert!(Frame::decode_checked(b"$-2\r\n").is_none());
    assert!(Frame::decode_checked(b"+\xff\r\n").is_none());
    assert_eq!(Frame::decode_checked(b":7\r\n"), Some((Frame::Integer(7), 4)));
    assert_eq!(Frame::decode_checked(b"$3\r\nab"), Some((Frame::Incomplete, 0)));
}

#[test]
fn decimal_parsing_follows_rust_integer_syntax() {
    assert_eq!(parse_u64(b"0"), Some(0));
    assert_eq!(parse_u64(b"+15"), Some(15));
    assert_eq!(parse_u64(b"18446744073709551615"), Some(u64::MAX));
    assert_eq!(parse_u64(b"18446744073709551616"), None);
    assert_eq!(parse_u64(b"-1"), None);
    assert_eq!(parse_u64(b""), None);
    assert_eq!(parse_u64(b"+"), None);
    assert_eq!(parse_i64(b"-9223372036854775808"), Some(i64::MIN));
    assert_eq!(parse_i64(b"9223372036854775807"), Some(i64::MAX));
    assert_eq!(parse_i64(b"9223372036854775808"), None);
    assert_eq!(parse_i64(b"-"), None);
    assert_eq!(parse_i64(b"1 "), None);
}

#[test]
fn decimal_writing_round_trips() {
    let mut out = Vec::new();
    push_i64_decimal(i64::MIN, &mut out);
    assert_eq!(out, b"-9223372036854775808".to_vec());
    let mut out = Vec::new();
    push_u64_digits(1337, &mut out);
    assert_eq!(out, b"1337".to_vec());
}
