use resp_server::frame::Frame;
use resp_server::hub::{delivered_count, message_frame, ChannelHub};

fn bytes(s: &str) -> Vec<u8> {
    s.as_bytes().to_vec()
}

#[test]
fn message_frame_names_channel_and_message() {
    let f = message_frame(&bytes("channel 5 news"), bytes("this is top secret"));
    assert_eq!(
        f,
        Frame::Array(vec![
            Frame::BulkString(bytes("message")),
            Frame::BulkString(bytes("channel 5 news")),
            Frame::BulkString(bytes("this is top secret")),
        ])
    );
}

#[test]
fn delivered_count_of_a_failed_send_is_zero() {
    assert_eq!(delivered_count(None), 0);
    assert_eq!(delivered_count(Some(3)), 3);
}

#[test]
fn publish_on_unknown_channel_reaches_nobody() {
    let mut hub = ChannelHub::new();
    assert_eq!(hub.publish(bytes("nobody"), bytes("hi")), 0);
}

#[test]
fn publish_reaches_every_subscriber_with_the_encoded_message() {
    let mut hub = ChannelHub::new();
    let mut first = hub.subscribe(&vec![bytes("news")]);
    let mut second = hub.subscribe(&vec![bytes("news"), bytes("sport")]);
    assert_eq!(first.len(), 1);
    assert_eq!(second.len(), 2);
    assert_eq!(hub.publish(bytes("news"), bytes("hello")), 2);
    let expected = b"*3\r\n$7\r\nmessage\r\n$4\r\nnews\r\n$5\r\nhello\r\n".to_vec();
    assert_eq!(first[0].try_recv().unwrap(), expected);
    assert_eq!(second[0].try_recv().unwrap(), expected);
    assert!(second[1].try_recv().is_err());
}

#[test]
fn cleanup_closes_only_channels_without_subscribers() {
    let mut hub = ChannelHub::new();
    let kept = hub.subscribe(&vec![bytes("a")]);
    let dropped = hub.subscribe(&vec![bytes("b")]);
    drop(dropped);
    hub.cleanup(&vec![bytes("a"), bytes("b")]);
    assert_eq!(hub.publish(bytes("a"), bytes("x")), 1);
    assert_eq!(hub.publish(bytes("b"), bytes("x")), 0);
    drop(kept);
}

#[test]
fn close_if_unused_closes_only_a_channel_without_subscribers() {
    let mut hub = ChannelHub::new();
    let _a = hub.subscribe(&vec![bytes("a"), bytes("b")]);
    hub.close_if_unused(0, 1);
    assert_eq!(hub.publish(bytes("a"), bytes("x")), 1);
    hub.close_if_unused(0, 0);
    assert_eq!(hub.publish(bytes("a"), bytes("x")), 0);
    assert_eq!(hub.publish(bytes("b"), bytes("x")), 1);
}
