use resp_server::frame::Frame;

#[test]
fn round_trip_encode_decode_produces_original_frame() {
    let original = Frame::Array(vec![
        Frame::Integer(1),
        Frame::Array(vec![
            Frame::SimpleString("OK".to_string()),
            Frame::Integer(2),
        ]),
    ]);

    let encoded = original.encode();
    let (expected, consumed) = Frame::decode(&encoded);

    assert_eq!(original, expected);
    assert_eq!(consumed, 21);
}

#[test]
fn decoding_partial_frame_returns_incomplete() {
    let b = b"$11\r\nHe";
    let expected = Frame::Incomplete;

    let (f, consumed) = Frame::decode(b);

    assert_eq!(f, expected);
    assert_eq!(consumed, 0);

    let b = b"+OK\r";
    let expected = Frame::Incomplete;

    let (f, consumed) = Frame::decode(b);

    assert_eq!(f, expected);
    assert_eq!(consumed, 0);
}

#[test]
fn decoding_invalid_prefix_returns_error() {
    let b = b"#11\r\nHe";
    let expected = Frame::Error("invalid prefix".to_string());

    let (f, consumed) = Frame::decode(b);

    assert_eq!(f, expected);
    assert_eq!(consumed, 0)
}

#[test]
fn single() {
    let b = b"+PONG\r\n";

    let (f, consumed) = Frame::decode(b);

    assert_eq!(f, Frame::SimpleString("PONG".to_string()));
    assert_eq!(consumed, 7);
}

#[test]
fn multiple() {
    let b = b"+OK\r\n+PING\r\n";

    let (f, consumed) = Frame::decode(b);
    let (f2, _) = Frame::decode(&b[consumed..]);

    assert_eq!(f, Frame::SimpleString("OK".to_string()));
    assert_eq!(f2, Frame::SimpleString("PING".to_string()));
}

#[test]
fn lib_error() {
    let b = b"-ERR unknown command 'FOO'\r\n";

    let (f, consumed) = Frame::decode(b);

    assert_eq!(f, Frame::Error("ERR unknown command 'FOO'".to_string()));
    assert_eq!(consumed, 28);
}

#[test]
fn lib_positive() {
    let b = b":42069\r\n";

    let (f, consumed) = Frame::decode(b);

    assert_eq!(f, Frame::Integer(42069));
    assert_eq!(consumed, 8);
}

#[test]
fn lib_negative() {
    let b = b":-1337\r\n";

    let (f, consumed) = Frame::decode(b);

    assert_eq!(f, Frame::Integer(-1337));
    assert_eq!(consumed, 8);
}

#[test]
fn non_numeric_length_returns_error() {
    let b = b"$2f\r\nhello world, how are you!?\r\n";
    let expected = Frame::Error("invalid length".to_string());

    let (f, consumed) = Frame::decode(b);

    assert_eq!(f, expected);
    assert_eq!(consumed, 0);
}

#[test]
fn lib_non_empty() {
    let b = b"$26\r\nhello world, how are you!?\r\n";
    let expected = Frame::BulkString(b"hello world, how are you!?".to_vec());

    let (f, consumed) = Frame::decode(b);

    assert_eq!(f, expected);
    assert_eq!(consumed, 33);
}

#[test]
fn lib_empty() {
    let b = b"$0\r\n\r\n";
    let expected = Frame::BulkString(b"".to_vec());

    let (f, consumed) = Frame::decode(b);

    assert_eq!(f, expected);
    assert_eq!(consumed, 6);
}

#[test]
fn from_bulk_string() {
    let b = b"$-1\r\n";
    let expected = Frame::Null;

    let (f, consumed) = Frame::decode(b);

    assert_eq!(f, expected);
    assert_eq!(consumed, 5);
}

#[test]
fn from_array() {
    let b = b"*-1\r\n";
    let expected = Frame::Null;

    let (f, consumed) = Frame::decode(b);

    assert_eq!(f, expected);
    assert_eq!(consumed, 5);
}

#[test]
fn empty() {
    let b = b"*0\r\n";
    let expected = Frame::Array(Vec::new());

    let (f, consumed) = Frame::decode(b);

    assert_eq!(f, expected);
    assert_eq!(consumed, 4);
}

#[test]
fn simple() {
    let b = b"*3\r\n$3\r\nSET\r\n$5\r\nmykey\r\n$5\r\nhello\r\n+OK\r\n";
    let expected = Frame::Array(Vec::from([
        Frame::BulkString(b"SET".to_vec()),
        Frame::BulkString(b"mykey".to_vec()),
        Frame::BulkString(b"hello".to_vec()),
    ]));

    let (f, consumed) = Frame::decode(b);

    assert_eq!(f, expected);
    assert_eq!(consumed, 35);
}

#[test]
fn lib_nested() {
    // an array containing [integer 1, array [simple string "OK", integer 2]]
    let b = b"*2\r\n:1\r\n*2\r\n+OK\r\n:2\r\n";
    let expected = Frame::Array(vec![
        Frame::Integer(1),
        Frame::Array(vec![
            Frame::SimpleString("OK".to_string()),
            Frame::Integer(2),
        ]),
    ]);

    let (f, consumed) = Frame::decode(b);

    assert_eq!(f, expected);
    assert_eq!(consumed, 21);
}

#[test]
fn positive() {
    assert_eq!(Frame::Integer(42).encode(), b":42\r\n");
}

#[test]
fn negative() {
    assert_eq!(Frame::Integer(-1).encode(), b":-1\r\n");
}

#[test]
fn zero() {
    assert_eq!(Frame::Integer(0).encode(), b":0\r\n");
}

#[test]
fn simple_string() {
    let short = Frame::SimpleString("OK".to_string());
    let longer = Frame::SimpleString("PONG".to_string());

    assert_eq!(short.encode(), b"+OK\r\n");
    assert_eq!(longer.encode(), b"+PONG\r\n");
}

#[test]
fn lib_empty_bulk_string_encodes() {
    let empty = Frame::BulkString("".as_bytes().to_vec());

    assert_eq!(empty.encode(), b"$0\r\n\r\n");
}

#[test]
fn non_empty() {
    let short = Frame::BulkString("hello".as_bytes().to_vec());
    let long = Frame::BulkString("hello world, how are you!?".as_bytes().to_vec());

    assert_eq!(short.encode(), b"$5\r\nhello\r\n");
    assert_eq!(long.encode(), b"$26\r\nhello world, how are you!?\r\n");
}

#[test]
fn lib_empty_array_encodes() {
    let empty = Frame::Array(Vec::new()).encode();

    assert_eq!(empty, b"*0\r\n");
}

#[test]
fn lib_non_empty_array_encodes() {
    let b = Frame::Array(Vec::from([
        Frame::BulkString(b"SET".to_vec()),
        Frame::BulkString(b"mykey".to_vec()),
        Frame::BulkString(b"hello".to_vec()),
    ]))
    .encode();

    let b2 = Frame::Array(Vec::from([
        Frame::SimpleString("OK".to_string()),
        Frame::SimpleString("OK".to_string()),
        Frame::BulkString(b"1".to_vec()),
    ]))
    .encode();

    assert_eq!(b, b"*3\r\n$3\r\nSET\r\n$5\r\nmykey\r\n$5\r\nhello\r\n");
    assert_eq!(b2, b"*3\r\n+OK\r\n+OK\r\n$1\r\n1\r\n");
}

#[test]
fn nested() {
    let b = Frame::Array(vec![
        Frame::Integer(1),
        Frame::Array(vec![
            Frame::SimpleString("OK".to_string()),
            Frame::Integer(2),
        ]),
    ])
    .encode();

    let expected = b"*2\r\n:1\r\n*2\r\n+OK\r\n:2\r\n";

    assert_eq!(b, expected);
}

#[test]
fn null() {
    assert_eq!(Frame::Null.encode(), b"$-1\r\n");
}

#[test]
fn error() {
    let b = Frame::Error("ERR unknow command 'cmd'".to_string());
    let b2 = Frame::Error(
        "WRONGTYPE Operation against a key holding the wrong kind of value".to_string(),
    );

    assert_eq!(b.encode(), b"-ERR unknow command 'cmd'\r\n");
    assert_eq!(
        b2.encode(),
        b"-WRONGTYPE Operation against a key holding the wrong kind of value\r\n"
    )
}
