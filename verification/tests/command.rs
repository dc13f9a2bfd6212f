use resp_server::command::{Command, PubSubCommand, StoreCommand, TransactionCommand};
use resp_server::frame::Frame;

const NOW: u128 = 1_000_000;

fn request(parts: &[&str]) -> Frame {
    Frame::Array(parts.iter().map(|p| Frame::BulkString(p.as_bytes().to_vec())).collect())
}

fn parse(parts: &[&str]) -> Result<Command, String> {
    Command::parse(request(parts), NOW)
}

fn bytes(s: &str) -> Vec<u8> {
    s.as_bytes().to_vec()
}

fn err(text: &str) -> Result<Command, String> {
    Err(text.to_string())
}

fn store_cmd(r: Result<Command, String>) -> StoreCommand {
    match r {
        Ok(Command::Store(c)) => c,
        other => panic!("expected a store command, got {:?}", other),
    }
}

#[test]
fn command_names_are_case_insensitive() {
    assert!(matches!(store_cmd(parse(&["ping"])), StoreCommand::Ping(None)));
    assert!(matches!(store_cmd(parse(&["PiNg"])), StoreCommand::Ping(None)));
    assert!(matches!(store_cmd(parse(&["echo", "hi"])), StoreCommand::Echo(ref a) if a == b"hi"));
}

#[test]
fn ping_takes_an_optional_argument() {
    assert!(matches!(store_cmd(parse(&["PING", "hello"])), StoreCommand::Ping(Some(ref a)) if a == b"hello"));
}

#[test]
fn echo_without_argument_is_an_error() {
    assert_eq!(
        format!("{:?}", parse(&["ECHO"])),
        format!("{:?}", err("ERR wrong number of arguments for 'ECHO' command"))
    );
}

#[test]
fn unknown_command_is_named_in_the_error() {
    assert_eq!(
        format!("{:?}", parse(&["FOOBAR"])),
        format!("{:?}", err("ERR unknown command 'FOOBAR'"))
    );
    assert_eq!(
        format!("{:?}", parse(&["foobar", "x"])),
        format!("{:?}", err("ERR unknown command 'FOOBAR'"))
    );
}

#[test]
fn request_must_be_an_array_of_bulk_strings() {
    assert_eq!(
        format!("{:?}", Command::parse(Frame::SimpleString("PING".to_string()), NOW)),
        format!("{:?}", err("invalid frame"))
    );
    let mixed = Frame::Array(vec![Frame::BulkString(bytes("GET")), Frame::Integer(1)]);
    assert_eq!(format!("{:?}", Command::parse(mixed, NOW)), format!("{:?}", err("invalid frame")));
    let bad_name = Frame::Array(vec![Frame::BulkString(vec![0xff, 0xfe])]);
    assert_eq!(format!("{:?}", Command::parse(bad_name, NOW)), format!("{:?}", err("ERR invalid command")));
}

#[test]
fn set_without_options_never_expires() {
    match store_cmd(parse(&["SET", "mykey", "hello"])) {
        StoreCommand::SetValue { key, value, expires_at } => {
            assert_eq!(key, bytes("mykey"));
            assert_eq!(value, bytes("hello"));
            assert_eq!(expires_at, None);
        }
        other => panic!("unexpected {:?}", other),
    }
}

#[test]
fn set_ex_and_px_give_expiry_instants() {
    match store_cmd(parse(&["SET", "quick", "fox", "EX", "1"])) {
        StoreCommand::SetValue { expires_at, .. } => assert_eq!(expires_at, Some(NOW + 1000)),
        other => panic!("unexpected {:?}", other),
    }
    match store_cmd(parse(&["set", "quick", "fox", "px", "100"])) {
        StoreCommand::SetValue { expires_at, .. } => assert_eq!(expires_at, Some(NOW + 100)),
        other => panic!("unexpected {:?}", other),
    }
    match store_cmd(parse(&["SET", "k", "v", "EX", "1", "EX", "+7"])) {
        StoreCommand::SetValue { expires_at, .. } => assert_eq!(expires_at, Some(NOW + 7000)),
        other => panic!("unexpected {:?}", other),
    }
}

#[test]
fn set_expiry_must_be_positive_and_within_the_clock() {
    let invalid = Err("ERR invalid expire time in 'set' command".to_string());
    assert_eq!(Command::parse_expiry(vec![bytes("EX"), bytes("0")], NOW), invalid);
    assert_eq!(Command::parse_expiry(vec![bytes("px"), bytes("0")], NOW), invalid);
    assert_eq!(Command::parse_expiry(vec![bytes("EX"), bytes("18446744073709551615")], NOW), invalid);
    assert_eq!(
        Command::parse_expiry(vec![bytes("PX"), bytes("18446744073709551615")], NOW),
        Ok(Some(NOW + 18446744073709551615))
    );
    assert_eq!(
        Command::parse_expiry(vec![bytes("EX"), bytes("9000000000000000000")], NOW),
        Ok(Some(NOW + 9_000_000_000_000_000_000_000))
    );
    assert_eq!(
        Command::parse_expiry(vec![bytes("EX"), bytes("9223372036854775807")], 0),
        Ok(Some(9_223_372_036_854_775_807_000))
    );
    assert_eq!(Command::parse_expiry(vec![bytes("EX"), bytes("9223372036854775808")], 0), invalid);
    assert_eq!(Command::parse_expiry(vec![bytes("PX"), bytes("1")], NOW), Ok(Some(NOW + 1)));
}

#[test]
fn fixed_arity_commands_refuse_extra_arguments() {
    for (parts, name) in [
        (&["GET", "k", "x"][..], "GET"),
        (&["ECHO", "a", "b"][..], "ECHO"),
        (&["TTL", "k", "x"][..], "TTL"),
        (&["LLEN", "k", "x"][..], "LLEN"),
        (&["LPOP", "k", "x"][..], "LPOP"),
        (&["RPOP", "k", "x"][..], "RPOP"),
        (&["PING", "a", "b"][..], "PING"),
        (&["PUBLISH", "c", "m", "x"][..], "PUBLISH"),
        (&["LRANGE", "k", "0", "1", "2"][..], "LRANGE"),
    ] {
        let expected = format!("ERR wrong number of arguments for '{}' command", name);
        assert_eq!(format!("{:?}", parse(parts)), format!("{:?}", err(&expected)), "{:?}", parts);
    }
}

#[test]
fn set_option_errors() {
    let cases: [(&[&str], &str); 7] = [
        (&["SET", "k"], "ERR wrong number of arguments for 'SET' command"),
        (&["SET", "k", "v", "EX", "1", "PX", "10000"], "ERR PX and EX options at the same time are not compatible"),
        (&["SET", "k", "v", "PX", "1", "EX", "10"], "ERR EX and PX options at the same time are not compatible"),
        (&["SET", "k", "v", "EX"], "ERR syntax error"),
        (&["SET", "k", "v", "NX", "1"], "ERR syntax error"),
        (&["SET", "k", "v", "EX", "ten"], "Err: Not an integer or out of range"),
        (&["SET", "k", "v", "EX", "-1"], "Err: Not an integer or out of range"),
    ];
    for (parts, text) in cases {
        assert_eq!(format!("{:?}", parse(parts)), format!("{:?}", err(text)), "{:?}", parts);
    }
    let invalid = Command::parse_expiry(vec![bytes("EX"), vec![0xc3]], NOW);
    assert_eq!(invalid, Err("Err: Invalid UTF-8".to_string()));
}

#[test]
fn key_commands_need_a_key() {
    for name in ["GET", "DEL", "EXISTS", "TTL", "LLEN", "LPOP", "RPOP", "SUBSCRIBE"] {
        let expected = format!("ERR wrong number of arguments for '{}' command", name);
        assert_eq!(format!("{:?}", parse(&[name])), format!("{:?}", err(&expected)));
    }
    for name in ["LPUSH", "RPUSH", "PUBLISH"] {
        let expected = format!("ERR wrong number of arguments for '{}' command", name);
        assert_eq!(format!("{:?}", parse(&[name, "k"])), format!("{:?}", err(&expected)));
    }
    let expected = "ERR wrong number of arguments for 'LRANGE' command";
    assert_eq!(format!("{:?}", parse(&["LRANGE", "k", "0"])), format!("{:?}", err(expected)));
}

#[test]
fn key_commands_carry_their_arguments() {
    assert!(matches!(store_cmd(parse(&["GET", "k"])), StoreCommand::Get { ref key } if key == b"k"));
    assert!(matches!(store_cmd(parse(&["TTL", "k"])), StoreCommand::Ttl(ref key) if key == b"k"));
    assert!(matches!(store_cmd(parse(&["LLEN", "k"])), StoreCommand::LLen(ref key) if key == b"k"));
    assert!(matches!(store_cmd(parse(&["LPOP", "k"])), StoreCommand::LPop(ref key) if key == b"k"));
    assert!(matches!(store_cmd(parse(&["RPOP", "k"])), StoreCommand::RPop(ref key) if key == b"k"));
    match store_cmd(parse(&["DEL", "a", "b"])) {
        StoreCommand::Del { keys } => assert_eq!(keys, vec![bytes("a"), bytes("b")]),
        other => panic!("unexpected {:?}", other),
    }
    match store_cmd(parse(&["EXISTS", "a", "a"])) {
        StoreCommand::Exists { keys } => assert_eq!(keys, vec![bytes("a"), bytes("a")]),
        other => panic!("unexpected {:?}", other),
    }
    match store_cmd(parse(&["LPUSH", "l", "x", "y"])) {
        StoreCommand::LPush { key, items } => {
            assert_eq!(key, bytes("l"));
            assert_eq!(items, vec![bytes("x"), bytes("y")]);
        }
        other => panic!("unexpected {:?}", other),
    }
    match store_cmd(parse(&["RPUSH", "l", "x"])) {
        StoreCommand::RPush { key, items } => {
            assert_eq!(key, bytes("l"));
            assert_eq!(items, vec![bytes("x")]);
        }
        other => panic!("unexpected {:?}", other),
    }
}

#[test]
fn lrange_indices_must_be_integers() {
    match store_cmd(parse(&["LRANGE", "l", "-3", "+2"])) {
        StoreCommand::LRange { key, start, stop } => {
            assert_eq!(key, bytes("l"));
            assert_eq!(start, -3);
            assert_eq!(stop, 2);
        }
        other => panic!("unexpected {:?}", other),
    }
    assert_eq!(format!("{:?}", parse(&["LRANGE", "l", "a", "2"])), format!("{:?}", err("Invalid argument")));
    assert_eq!(
        format!("{:?}", parse(&["LRANGE", "l", "0", "9223372036854775808"])),
        format!("{:?}", err("Invalid argument"))
    );
}

#[test]
fn pubsub_commands_parse() {
    match parse(&["SUBSCRIBE", "ch1", "ch2"]) {
        Ok(Command::PubSub(PubSubCommand::Subscribe(chs))) => assert_eq!(chs, vec![bytes("ch1"), bytes("ch2")]),
        other => panic!("unexpected {:?}", other),
    }
    assert!(matches!(parse(&["UNSUBSCRIBE"]), Ok(Command::PubSub(PubSubCommand::Unsubscribe(None)))));
    match parse(&["unsubscribe", "ch1"]) {
        Ok(Command::PubSub(PubSubCommand::Unsubscribe(Some(chs)))) => assert_eq!(chs, vec![bytes("ch1")]),
        other => panic!("unexpected {:?}", other),
    }
    match parse(&["PUBLISH", "news", "hello"]) {
        Ok(Command::PubSub(PubSubCommand::Publish { channel, message })) => {
            assert_eq!(channel, bytes("news"));
            assert_eq!(message, bytes("hello"));
        }
        other => panic!("unexpected {:?}", other),
    }
}

#[test]
fn parse_named_takes_an_uppercase_name() {
    assert!(matches!(
        Command::parse_named("GET".to_string(), vec![bytes("k")], NOW),
        Ok(Command::Store(StoreCommand::Get { .. }))
    ));
    assert_eq!(
        format!("{:?}", Command::parse_named("get".to_string(), vec![bytes("k")], NOW)),
        format!("{:?}", err("ERR unknown command 'get'"))
    );
}

#[test]
fn transaction_commands_parse() {
    assert!(matches!(parse(&["MULTI"]), Ok(Command::Transaction(TransactionCommand::Multi))));
    assert!(matches!(parse(&["exec"]), Ok(Command::Transaction(TransactionCommand::Exec))));
    assert!(matches!(parse(&["Discard"]), Ok(Command::Transaction(TransactionCommand::Discard))));
    assert_eq!(
        format!("{:?}", parse(&["MULTI", "x"])),
        format!("{:?}", err("ERR wrong number of arguments for 'MULTI' command"))
    );
}
