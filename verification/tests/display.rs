use resp_server::frame::Frame;

#[test]
fn scalar_frames_show_their_variant_and_contents() {
    assert_eq!(Frame::Integer(-42).to_display_string(), "Frame::Integer(-42)");
    assert_eq!(Frame::SimpleString("OK".to_string()).to_display_string(), "Frame::SimpleString(OK)");
    assert_eq!(Frame::BulkString(b"hello".to_vec()).to_display_string(), "Frame::BulkString(hello)");
    assert_eq!(Frame::Error("ERR x".to_string()).to_display_string(), "Frame::Error(ERR x)");
    assert_eq!(Frame::Null.to_display_string(), "Frame::Null");
    assert_eq!(Frame::Incomplete.to_display_string(), "Frame::Incomplete");
}

#[test]
fn arrays_show_one_element_per_line() {
    let f = Frame::Array(vec![
        Frame::Integer(1),
        Frame::Array(vec![Frame::SimpleString("OK".to_string())]),
    ]);
    assert_eq!(
        f.to_display_string(),
        "Frame::Array [\n\tFrame::Integer(1)\n\tFrame::Array [\n\tFrame::SimpleString(OK)\n]\n\n]\n"
    );
}
