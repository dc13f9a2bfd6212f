use resp_server::buffer::{FrameBuffer, FrameRead};
use resp_server::frame::Frame;

fn bulk(s: &str) -> Frame {
    Frame::BulkString(s.as_bytes().to_vec())
}

fn next(b: &mut FrameBuffer) -> Option<Frame> {
    match b.next_frame() {
        FrameRead::Frame(f) => Some(f),
        FrameRead::NeedMore => None,
        FrameRead::Malformed => panic!("malformed"),
    }
}

#[test]
fn incomplete_frame_waits_for_more_bytes() {
    let mut b = FrameBuffer::new();
    b.extend(b"*2\r\n$3\r\nGET\r\n$3\r\nk");
    assert_eq!(next(&mut b), None);
    b.extend(b"ey\r\n");
    assert_eq!(next(&mut b), Some(Frame::Array(vec![bulk("GET"), bulk("key")])));
    assert_eq!(next(&mut b), None);
}

#[test]
fn pipelined_frames_come_out_in_order() {
    let mut b = FrameBuffer::new();
    b.extend(b"*3\r\n$3\r\nSET\r\n$5\r\nfruit\r\n$6\r\npapaya\r\n*2\r\n$3\r\nGET\r\n$5\r\nfruit\r\n+OK");
    assert_eq!(
        next(&mut b),
        Some(Frame::Array(vec![bulk("SET"), bulk("fruit"), bulk("papaya")]))
    );
    assert_eq!(next(&mut b), Some(Frame::Array(vec![bulk("GET"), bulk("fruit")])));
    assert_eq!(next(&mut b), None);
    b.extend(b"\r\n");
    assert_eq!(next(&mut b), Some(Frame::SimpleString("OK".to_string())));
}

#[test]
fn bulk_string_waits_for_its_terminator() {
    let mut b = FrameBuffer::new();
    b.extend(b"$5\r\nhello");
    assert_eq!(next(&mut b), None);
    b.extend(b"\r\n");
    assert_eq!(next(&mut b), Some(bulk("hello")));
}

#[test]
fn malformed_bytes_are_reported() {
    let mut b = FrameBuffer::new();
    b.extend(b":abc\r\n");
    assert!(matches!(b.next_frame(), FrameRead::Malformed));
}

#[test]
fn unknown_prefix_decodes_as_error_frame() {
    let mut b = FrameBuffer::new();
    b.extend(b"#11\r\n");
    assert_eq!(next(&mut b), Some(Frame::Error("invalid prefix".to_string())));
}
