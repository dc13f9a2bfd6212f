use resp_server::command::{Command, PubSubCommand, StoreCommand, TransactionCommand};
use resp_server::frame::Frame;
use resp_server::session::{Action, ClientSession};

fn bytes(s: &str) -> Vec<u8> {
    s.as_bytes().to_vec()
}

fn bulk(s: &str) -> Frame {
    Frame::BulkString(bytes(s))
}

fn sub_reply(kind: &str, ch: &str, n: i64) -> Frame {
    Frame::Array(vec![bulk(kind), bulk(ch), Frame::Integer(n)])
}

fn subscribe_new(s: &mut ClientSession, chs: &[&str]) -> (Vec<Vec<u8>>, Vec<Frame>) {
    let chs: Vec<Vec<u8>> = chs.iter().map(|c| bytes(c)).collect();
    match s.on_request(Ok(Command::PubSub(PubSubCommand::Subscribe(chs)))) {
        Action::Subscribe { channels, replies } => (channels, replies),
        _ => panic!("expected a subscribe action"),
    }
}

fn subscribe(s: &mut ClientSession, chs: &[&str]) -> Vec<Frame> {
    subscribe_new(s, chs).1
}

fn unsubscribe(s: &mut ClientSession, chs: Option<&[&str]>) -> (Vec<Vec<u8>>, Vec<Frame>) {
    let chs = chs.map(|c| c.iter().map(|x| bytes(x)).collect());
    match s.on_request(Ok(Command::PubSub(PubSubCommand::Unsubscribe(chs)))) {
        Action::Unsubscribe { channels, replies } => (channels, replies),
        _ => panic!("expected an unsubscribe action"),
    }
}

fn reply(a: Action) -> Vec<Frame> {
    match a {
        Action::Reply(fs) => fs,
        _ => panic!("expected a reply"),
    }
}

#[test]
fn new_session_is_in_normal_mode() {
    let s = ClientSession::new();
    assert!(!s.in_subscription_mode());
    assert_eq!(s.subscription_count(), 0);
}

#[test]
fn parse_errors_are_answered_as_errors() {
    let mut s = ClientSession::new();
    let a = s.on_request(Err("ERR unknown command 'FOOBAR'".to_string()));
    assert_eq!(reply(a), vec![Frame::Error("ERR unknown command 'FOOBAR'".to_string())]);
}

#[test]
fn store_commands_go_to_the_store_in_normal_mode() {
    let mut s = ClientSession::new();
    match s.on_request(Ok(Command::Store(StoreCommand::Get { key: bytes("k") }))) {
        Action::Store(StoreCommand::Get { key }) => assert_eq!(key, bytes("k")),
        _ => panic!("expected a store action"),
    }
}

#[test]
fn subscribe_confirms_each_channel_with_the_running_count() {
    let mut s = ClientSession::new();
    let replies = subscribe(&mut s, &["ch1", "ch2", "ch1"]);
    assert_eq!(
        replies,
        vec![sub_reply("subscribe", "ch1", 1), sub_reply("subscribe", "ch2", 2), sub_reply("subscribe", "ch1", 2)]
    );
    assert!(s.in_subscription_mode());
    assert_eq!(s.subscription_count(), 2);
}

#[test]
fn subscribed_client_may_only_subscribe_unsubscribe_and_ping() {
    let mut s = ClientSession::new();
    subscribe(&mut s, &["ch1"]);
    let not_allowed = vec![Frame::Error("ERR Command not allowed in subscription mode".to_string())];
    let set = Command::Store(StoreCommand::SetValue { key: bytes("key"), value: bytes("value"), expires_at: None });
    assert_eq!(reply(s.on_request(Ok(set))), not_allowed);
    assert!(matches!(s.on_request(Ok(Command::Store(StoreCommand::Ping(None)))), Action::Store(StoreCommand::Ping(None))));
    let publish = Command::PubSub(PubSubCommand::Publish { channel: bytes("ch1"), message: bytes("m") });
    assert_eq!(reply(s.on_request(Ok(publish))), not_allowed);
    assert_eq!(reply(s.on_request(Ok(Command::Transaction(TransactionCommand::Multi)))), not_allowed);
    assert_eq!(s.subscription_count(), 1);
    assert!(!s.in_transaction());
}

#[test]
fn publish_from_a_normal_client_goes_to_the_hub() {
    let mut s = ClientSession::new();
    let publish = Command::PubSub(PubSubCommand::Publish { channel: bytes("ch1"), message: bytes("m") });
    match s.on_request(Ok(publish)) {
        Action::Publish { channel, message } => {
            assert_eq!(channel, bytes("ch1"));
            assert_eq!(message, bytes("m"));
        }
        _ => panic!("expected a publish action"),
    }
}

#[test]
fn multi_returns_ok_and_queues_commands_until_exec() {
    let mut s = ClientSession::new();
    let ok = vec![Frame::SimpleString("OK".to_string())];
    let queued = vec![Frame::SimpleString("QUEUED".to_string())];
    assert_eq!(reply(s.on_request(Ok(Command::Transaction(TransactionCommand::Multi)))), ok);
    assert!(s.in_transaction());
    let set = |k: &str, v: &str| Command::Store(StoreCommand::SetValue { key: bytes(k), value: bytes(v), expires_at: None });
    assert_eq!(reply(s.on_request(Ok(set("a", "1")))), queued);
    assert_eq!(reply(s.on_request(Ok(set("b", "2")))), queued);
    assert_eq!(reply(s.on_request(Ok(Command::Store(StoreCommand::Get { key: bytes("a") })))), queued);
    match s.on_request(Ok(Command::Transaction(TransactionCommand::Exec))) {
        Action::Exec(cmds) => {
            assert_eq!(cmds.len(), 3);
            assert!(matches!(&cmds[0], StoreCommand::SetValue { key, .. } if key == b"a"));
            assert!(matches!(&cmds[1], StoreCommand::SetValue { key, .. } if key == b"b"));
            assert!(matches!(&cmds[2], StoreCommand::Get { key } if key == b"a"));
        }
        _ => panic!("expected an exec action"),
    }
    assert!(!s.in_transaction());
}

#[test]
fn transaction_errors() {
    let mut s = ClientSession::new();
    let exec = || Ok(Command::Transaction(TransactionCommand::Exec));
    let discard = || Ok(Command::Transaction(TransactionCommand::Discard));
    let multi = || Ok(Command::Transaction(TransactionCommand::Multi));
    assert_eq!(reply(s.on_request(exec())), vec![Frame::Error("ERR EXEC without MULTI".to_string())]);
    assert_eq!(reply(s.on_request(discard())), vec![Frame::Error("ERR DISCARD without MULTI".to_string())]);
    reply(s.on_request(multi()));
    assert_eq!(reply(s.on_request(multi())), vec![Frame::Error("ERR MULTI calls can not be nested".to_string())]);
    assert!(s.in_transaction());
    assert_eq!(reply(s.on_request(discard())), vec![Frame::SimpleString("OK".to_string())]);
    assert!(!s.in_transaction());
}

#[test]
fn discard_drops_the_queued_commands() {
    let mut s = ClientSession::new();
    reply(s.on_request(Ok(Command::Transaction(TransactionCommand::Multi))));
    reply(s.on_request(Ok(Command::Store(StoreCommand::SetValue { key: bytes("a"), value: bytes("1"), expires_at: None }))));
    reply(s.on_request(Ok(Command::Transaction(TransactionCommand::Discard))));
    reply(s.on_request(Ok(Command::Transaction(TransactionCommand::Multi))));
    match s.on_request(Ok(Command::Transaction(TransactionCommand::Exec))) {
        Action::Exec(cmds) => assert!(cmds.is_empty()),
        _ => panic!("expected an exec action"),
    }
}

#[test]
fn refused_command_aborts_the_transaction() {
    let mut s = ClientSession::new();
    reply(s.on_request(Ok(Command::Transaction(TransactionCommand::Multi))));
    let e = reply(s.on_request(Err("ERR wrong number of arguments for 'GET' command".to_string())));
    assert_eq!(e, vec![Frame::Error("ERR wrong number of arguments for 'GET' command".to_string())]);
    reply(s.on_request(Ok(Command::Store(StoreCommand::Ping(None)))));
    assert_eq!(
        reply(s.on_request(Ok(Command::Transaction(TransactionCommand::Exec)))),
        vec![Frame::Error("EXECABORT Transaction discarded because of previous errors.".to_string())]
    );
    assert!(!s.in_transaction());
    reply(s.on_request(Ok(Command::Transaction(TransactionCommand::Multi))));
    let sub = Command::PubSub(PubSubCommand::Subscribe(vec![bytes("ch")]));
    assert_eq!(
        reply(s.on_request(Ok(sub))),
        vec![Frame::Error("ERR Command not allowed inside a transaction".to_string())]
    );
    assert!(matches!(
        s.on_request(Ok(Command::Transaction(TransactionCommand::Exec))),
        Action::Reply(_)
    ));
    assert_eq!(s.subscription_count(), 0);
}

#[test]
fn unsubscribe_one_channel_keeps_the_others() {
    let mut s = ClientSession::new();
    subscribe(&mut s, &["ch1", "ch2"]);
    let (channels, replies) = unsubscribe(&mut s, Some(&["ch1"]));
    assert_eq!(channels, vec![bytes("ch1")]);
    assert_eq!(replies, vec![sub_reply("unsubscribe", "ch1", 1)]);
    assert!(s.in_subscription_mode());
}

#[test]
fn unsubscribe_counts_down_per_channel_and_ends_subscription_mode() {
    let mut s = ClientSession::new();
    subscribe(&mut s, &["ch1", "ch2"]);
    let (_, replies) = unsubscribe(&mut s, Some(&["ch1", "ch2"]));
    assert_eq!(replies, vec![sub_reply("unsubscribe", "ch1", 1), sub_reply("unsubscribe", "ch2", 0)]);
    assert!(!s.in_subscription_mode());
    assert!(matches!(
        s.on_request(Ok(Command::Store(StoreCommand::Get { key: bytes("k") }))),
        Action::Store(_)
    ));
}

#[test]
fn unsubscribe_without_channels_removes_all() {
    let mut s = ClientSession::new();
    subscribe(&mut s, &["ch1", "ch2", "ch3"]);
    let (channels, replies) = unsubscribe(&mut s, None);
    assert_eq!(channels, vec![bytes("ch1"), bytes("ch2"), bytes("ch3")]);
    assert_eq!(
        replies,
        vec![
            sub_reply("unsubscribe", "ch1", 2),
            sub_reply("unsubscribe", "ch2", 1),
            sub_reply("unsubscribe", "ch3", 0),
        ]
    );
    assert_eq!(s.subscription_count(), 0);
    assert!(!s.in_subscription_mode());
}

#[test]
fn unsubscribe_from_unknown_channel_keeps_count() {
    let mut s = ClientSession::new();
    subscribe(&mut s, &["ch1"]);
    let (_, replies) = unsubscribe(&mut s, Some(&["other"]));
    assert_eq!(replies, vec![sub_reply("unsubscribe", "other", 1)]);
    assert!(s.in_subscription_mode());
}

#[test]
fn subscribe_then_unsubscribe_restores_subscriptions() {
    let mut s = ClientSession::new();
    subscribe(&mut s, &["a"]);
    subscribe(&mut s, &["b", "c", "b"]);
    unsubscribe(&mut s, Some(&["b", "c", "b"]));
    assert_eq!(s.subscription_count(), 1);
    let (channels, _) = unsubscribe(&mut s, None);
    assert_eq!(channels, vec![bytes("a")]);
}

#[test]
fn repeated_subscribe_forwards_each_channel_once() {
    let mut s = ClientSession::new();
    let (channels, _) = subscribe_new(&mut s, &["ch1", "ch2", "ch1"]);
    assert_eq!(channels, vec![bytes("ch1"), bytes("ch2")]);
    let (channels, replies) = subscribe_new(&mut s, &["ch1", "ch3"]);
    assert_eq!(channels, vec![bytes("ch3")]);
    assert_eq!(replies, vec![sub_reply("subscribe", "ch1", 2), sub_reply("subscribe", "ch3", 3)]);
}
