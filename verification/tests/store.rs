use resp_server::command::StoreCommand;
use resp_server::frame::Frame;
use resp_server::store::{DataType, StoreMap, StoredEntry};

const HOUR_MS: u128 = 3_600_000;
const NOW: u128 = 10 * HOUR_MS;

fn bulk(s: &str) -> Frame {
    Frame::BulkString(s.as_bytes().to_vec())
}

fn bytes(s: &str) -> Vec<u8> {
    s.as_bytes().to_vec()
}

fn run(map: &mut StoreMap, cmd: StoreCommand, now: u128) -> Frame {
    cmd.execute(map, now)
}

fn set(map: &mut StoreMap, key: &str, value: &str, expires_at: Option<u128>, now: u128) -> Frame {
    run(
        map,
        StoreCommand::SetValue { key: bytes(key), value: bytes(value), expires_at },
        now,
    )
}

fn get(map: &mut StoreMap, key: &str, now: u128) -> Frame {
    run(map, StoreCommand::Get { key: bytes(key) }, now)
}

fn lrange(map: &mut StoreMap, key: &str, start: i64, stop: i64) -> Frame {
    run(map, StoreCommand::LRange { key: bytes(key), start, stop }, NOW)
}

fn push(map: &mut StoreMap, front: bool, key: &str, items: &[&str]) -> Frame {
    let items: Vec<Vec<u8>> = items.iter().map(|s| bytes(s)).collect();
    let cmd = if front {
        StoreCommand::LPush { key: bytes(key), items }
    } else {
        StoreCommand::RPush { key: bytes(key), items }
    };
    run(map, cmd, NOW)
}

#[test]
fn expire_sweep_removes_keys_without_access() {
    let mut expired_map = StoreMap::new();

    for i in 0..20 {
        expired_map.insert(
            i.to_string().into_bytes(),
            StoredEntry {
                data: DataType::String(b"data".to_vec()),
                expires_at: Some(NOW - HOUR_MS),
            },
        );
    }

    let removed = expired_map.sweep_expired(NOW);
    assert_eq!(removed, 20);
}

#[test]
fn expire_sweep_capped_at_20_removals() {
    let mut map = StoreMap::new();

    for i in 0..40 {
        map.insert(
            i.to_string().into_bytes(),
            StoredEntry {
                data: DataType::String(b"data".to_vec()),
                expires_at: Some(NOW - HOUR_MS),
            },
        );
    }

    let removed = map.sweep_expired(NOW);
    assert!(removed <= 20);
}

#[test]
fn sweep_visits_only_the_first_twenty_keys() {
    let mut map = StoreMap::new();
    for i in 0..25 {
        let expires_at = if i < 10 || i >= 20 { Some(NOW - 1) } else { None };
        map.insert(
            i.to_string().into_bytes(),
            StoredEntry { data: DataType::String(b"data".to_vec()), expires_at },
        );
    }
    assert_eq!(map.sweep_expired(NOW), 10);
    // the expired keys beyond the first twenty are still held, until a sweep reaches them
    assert_eq!(map.sweep_expired(NOW), 5);
    assert_eq!(map.sweep_expired(NOW), 0);
}

#[test]
fn sweep_keeps_live_entries() {
    let mut map = StoreMap::new();
    set(&mut map, "a", "1", Some(NOW + 5), NOW);
    set(&mut map, "b", "2", None, NOW);
    set(&mut map, "c", "3", Some(NOW - 5), NOW);
    assert_eq!(map.sweep_expired(NOW), 1);
    assert_eq!(get(&mut map, "a", NOW), bulk("1"));
    assert_eq!(get(&mut map, "b", NOW), bulk("2"));
    assert_eq!(get(&mut map, "c", NOW), Frame::Null);
}

#[test]
fn entry_expires_strictly_after_its_instant() {
    let entry = StoredEntry { data: DataType::String(bytes("v")), expires_at: Some(100) };
    assert!(!entry.is_expired(99));
    assert!(!entry.is_expired(100));
    assert!(entry.is_expired(101));
    assert!(!StoredEntry::new(DataType::String(bytes("v"))).is_expired(u128::MAX));
}

#[test]
fn store_map_lookups_apply_lazy_expiry() {
    let mut map = StoreMap::new();
    assert!(map.insert(bytes("k"), StoredEntry { data: DataType::String(bytes("v")), expires_at: Some(50) }).is_none());
    assert!(map.contains_key(b"k", 50));
    assert!(map.get(b"k", 50).is_some());
    assert!(!map.contains_key(b"k", 51));
    assert!(map.get(b"k", 51).is_none());
    assert!(map.remove(b"k", 51).is_none());
    let replaced = map.insert(bytes("k"), StoredEntry::new(DataType::String(bytes("w"))));
    assert!(replaced.is_none());
    let replaced = map.insert(bytes("k"), StoredEntry::new(DataType::String(bytes("x"))));
    assert!(matches!(replaced, Some(StoredEntry { data: DataType::String(ref s), expires_at: None }) if s == b"w"));
    if let Some(entry) = map.get_mut(b"k", 0) {
        entry.expires_at = Some(7);
    }
    assert!(!map.contains_key(b"k", 8));
}

#[test]
fn ping_returns_pong_and_echoes_its_argument() {
    let mut map = StoreMap::new();
    assert_eq!(run(&mut map, StoreCommand::Ping(None), NOW), Frame::SimpleString("PONG".to_string()));
    assert_eq!(run(&mut map, StoreCommand::Ping(Some(bytes("hello"))), NOW), bulk("hello"));
    assert_eq!(run(&mut map, StoreCommand::Echo(bytes("hello")), NOW), bulk("hello"));
}

#[test]
fn set_then_get_returns_same_value() {
    let mut map = StoreMap::new();
    assert_eq!(set(&mut map, "mykey", "secret stuff", None, NOW), Frame::SimpleString("OK".to_string()));
    assert_eq!(get(&mut map, "mykey", NOW), bulk("secret stuff"));
}

#[test]
fn set_overwrites_previous_value_and_clears_expiry() {
    let mut map = StoreMap::new();
    set(&mut map, "mykey", "ULTRA SECRET", Some(NOW + 1000), NOW);
    set(&mut map, "mykey", "this ain't no secret no more", None, NOW);
    assert_eq!(get(&mut map, "mykey", NOW + 5000), bulk("this ain't no secret no more"));
    assert_eq!(run(&mut map, StoreCommand::Ttl(bytes("mykey")), NOW), Frame::Integer(-1));
}

#[test]
fn get_missing_key_returns_null() {
    let mut map = StoreMap::new();
    assert_eq!(get(&mut map, "mykey", NOW), Frame::Null);
}

#[test]
fn get_after_expiry_returns_null() {
    let mut map = StoreMap::new();
    set(&mut map, "quick", "fox", Some(NOW + 1000), NOW);
    assert_eq!(get(&mut map, "quick", NOW + 1000), bulk("fox"));
    assert_eq!(get(&mut map, "quick", NOW + 1100), Frame::Null);
}

#[test]
fn ttl_reports_whole_seconds_left() {
    let mut map = StoreMap::new();
    set(&mut map, "key", "val", Some(NOW + 10_000), NOW);
    assert_eq!(run(&mut map, StoreCommand::Ttl(bytes("key")), NOW), Frame::Integer(10));
    assert_eq!(run(&mut map, StoreCommand::Ttl(bytes("key")), NOW + 1), Frame::Integer(9));
    assert_eq!(run(&mut map, StoreCommand::Ttl(bytes("key")), NOW + 10_000), Frame::Integer(0));
    assert_eq!(run(&mut map, StoreCommand::Ttl(bytes("key")), NOW + 10_001), Frame::Integer(-2));
    assert_eq!(run(&mut map, StoreCommand::Ttl(bytes("nokey")), NOW), Frame::Integer(-2));
}

#[test]
fn del_counts_distinct_live_keys() {
    let mut map = StoreMap::new();
    set(&mut map, "mykey", "ULTRA SECRET", None, NOW);
    set(&mut map, "some_other_key", "cookies", None, NOW);
    set(&mut map, "gone", "x", Some(NOW - 1), NOW);
    let del = StoreCommand::Del {
        keys: vec![bytes("mykey"), bytes("some_other_key"), bytes("mykey"), bytes("gone"), bytes("never")],
    };
    assert_eq!(run(&mut map, del, NOW), Frame::Integer(2));
    assert_eq!(get(&mut map, "mykey", NOW), Frame::Null);
    assert_eq!(get(&mut map, "some_other_key", NOW), Frame::Null);
    let del = StoreCommand::Del { keys: vec![bytes("mykey"), bytes("some_other_key")] };
    assert_eq!(run(&mut map, del, NOW), Frame::Integer(0));
}

#[test]
fn exists_counts_each_named_live_key() {
    let mut map = StoreMap::new();
    set(&mut map, "am_i_real?", "maybe..", None, NOW);
    set(&mut map, "expired", "x", Some(NOW - 1), NOW);
    let exists = |keys: &[&str]| StoreCommand::Exists { keys: keys.iter().map(|k| bytes(k)).collect() };
    assert_eq!(run(&mut map, exists(&["am_i_real?"]), NOW), Frame::Integer(1));
    assert_eq!(run(&mut map, exists(&["am_i_real?", "am_i_real?"]), NOW), Frame::Integer(2));
    assert_eq!(run(&mut map, exists(&["nope"]), NOW), Frame::Integer(0));
    assert_eq!(run(&mut map, exists(&["expired", "am_i_real?"]), NOW), Frame::Integer(1));
}

#[test]
fn lpush_inserts_each_item_at_the_front() {
    let mut map = StoreMap::new();
    assert_eq!(push(&mut map, true, "mylist", &["hello", "magic", "world"]), Frame::Integer(3));
    assert_eq!(
        lrange(&mut map, "mylist", 0, -1),
        Frame::Array(vec![bulk("world"), bulk("magic"), bulk("hello")])
    );
    assert_eq!(push(&mut map, true, "mylist", &["first"]), Frame::Integer(4));
    assert_eq!(run(&mut map, StoreCommand::LLen(bytes("mylist")), NOW), Frame::Integer(4));
}

#[test]
fn rpush_inserts_each_item_at_the_back() {
    let mut map = StoreMap::new();
    assert_eq!(push(&mut map, false, "mylist", &["hello", "magic"]), Frame::Integer(2));
    assert_eq!(push(&mut map, false, "mylist", &["world"]), Frame::Integer(3));
    assert_eq!(
        lrange(&mut map, "mylist", 0, -1),
        Frame::Array(vec![bulk("hello"), bulk("magic"), bulk("world")])
    );
}

#[test]
fn lrange_resolves_negative_and_out_of_range_indices() {
    let mut map = StoreMap::new();
    push(&mut map, false, "mylist", &["hello", "insane", "magic", "world"]);
    assert_eq!(lrange(&mut map, "mylist", 1, 2), Frame::Array(vec![bulk("insane"), bulk("magic")]));
    assert_eq!(lrange(&mut map, "mylist", -3, -2), Frame::Array(vec![bulk("insane"), bulk("magic")]));
    assert_eq!(lrange(&mut map, "mylist", -100, 0), Frame::Array(vec![bulk("hello")]));
    assert_eq!(lrange(&mut map, "mylist", 2, 100), Frame::Array(vec![bulk("magic"), bulk("world")]));
    assert_eq!(lrange(&mut map, "mylist", 4, 10), Frame::Array(vec![]));
    assert_eq!(lrange(&mut map, "mylist", 3, 1), Frame::Array(vec![]));
    assert_eq!(lrange(&mut map, "nolist", 0, -1), Frame::Array(vec![]));
}

#[test]
fn pops_take_from_either_end_and_delete_the_emptied_list() {
    let mut map = StoreMap::new();
    push(&mut map, false, "mylist", &["a", "b", "c"]);
    assert_eq!(run(&mut map, StoreCommand::LPop(bytes("mylist")), NOW), bulk("a"));
    assert_eq!(run(&mut map, StoreCommand::RPop(bytes("mylist")), NOW), bulk("c"));
    assert_eq!(run(&mut map, StoreCommand::RPop(bytes("mylist")), NOW), bulk("b"));
    assert_eq!(run(&mut map, StoreCommand::LLen(bytes("mylist")), NOW), Frame::Integer(0));
    assert_eq!(run(&mut map, StoreCommand::Exists { keys: vec![bytes("mylist")] }, NOW), Frame::Integer(0));
    assert_eq!(run(&mut map, StoreCommand::RPop(bytes("mylist")), NOW), Frame::Null);
    assert_eq!(run(&mut map, StoreCommand::LPop(bytes("mylist")), NOW), Frame::Null);
}

#[test]
fn list_commands_on_a_string_key_return_wrongtype() {
    let mut map = StoreMap::new();
    set(&mut map, "not a list", "hello", None, NOW);
    let wrongtype = Frame::Error("WRONGTYPE error".to_string());
    assert_eq!(push(&mut map, true, "not a list", &["magic", "world"]), wrongtype);
    assert_eq!(push(&mut map, false, "not a list", &["magic"]), wrongtype);
    assert_eq!(run(&mut map, StoreCommand::LPop(bytes("not a list")), NOW), wrongtype);
    assert_eq!(run(&mut map, StoreCommand::RPop(bytes("not a list")), NOW), wrongtype);
    assert_eq!(run(&mut map, StoreCommand::LLen(bytes("not a list")), NOW), wrongtype);
    assert_eq!(lrange(&mut map, "not a list", 0, -1), wrongtype);
    assert_eq!(get(&mut map, "not a list", NOW), bulk("hello"));
    push(&mut map, true, "list", &["x"]);
    assert_eq!(get(&mut map, "list", NOW), wrongtype);
}

#[test]
fn push_onto_an_expired_key_starts_a_new_list() {
    let mut map = StoreMap::new();
    set(&mut map, "k", "old", Some(NOW - 1), NOW);
    assert_eq!(push(&mut map, false, "k", &["a"]), Frame::Integer(1));
    assert_eq!(run(&mut map, StoreCommand::Ttl(bytes("k")), NOW), Frame::Integer(-1));
}

#[test]
fn execute_all_runs_commands_in_order() {
    let mut map = StoreMap::new();
    let cmds = vec![
        StoreCommand::SetValue { key: bytes("a"), value: bytes("1"), expires_at: None },
        StoreCommand::SetValue { key: bytes("b"), value: bytes("2"), expires_at: None },
        StoreCommand::Get { key: bytes("a") },
        StoreCommand::RPush { key: bytes("l"), items: vec![bytes("x")] },
        StoreCommand::RPop(bytes("l")),
        StoreCommand::LPop(bytes("l")),
    ];
    let replies = StoreCommand::execute_all(cmds, &mut map, NOW).unwrap();
    assert_eq!(
        replies,
        vec![
            Frame::SimpleString("OK".to_string()),
            Frame::SimpleString("OK".to_string()),
            bulk("1"),
            Frame::Integer(1),
            bulk("x"),
            Frame::Null,
        ]
    );
    assert_eq!(get(&mut map, "b", NOW), bulk("2"));
    assert_eq!(StoreCommand::execute_all(vec![], &mut map, NOW).unwrap(), vec![]);
}

#[test]
fn execute_all_stops_at_a_pop_of_an_empty_list() {
    let mut map = StoreMap::new();
    let cmds = vec![
        StoreCommand::LPush { key: bytes("l"), items: vec![] },
        StoreCommand::LPop(bytes("l")),
    ];
    assert!(StoreCommand::LPop(bytes("l")).can_execute(&map, NOW));
    assert!(StoreCommand::execute_all(cmds, &mut map, NOW).is_none());
    assert!(!StoreCommand::LPop(bytes("l")).can_execute(&map, NOW));
    assert!(StoreCommand::Get { key: bytes("l") }.can_execute(&map, NOW));
}

#[test]
fn commands_leave_other_keys_alone() {
    let mut map = StoreMap::new();
    set(&mut map, "keep", "me", Some(NOW + 60_000), NOW);
    set(&mut map, "a", "1", None, NOW);
    push(&mut map, false, "l", &["x", "y"]);
    run(&mut map, StoreCommand::Del { keys: vec![bytes("a")] }, NOW);
    run(&mut map, StoreCommand::LPop(bytes("l")), NOW);
    set(&mut map, "b", "2", None, NOW);
    assert_eq!(get(&mut map, "keep", NOW), bulk("me"));
    assert_eq!(run(&mut map, StoreCommand::Ttl(bytes("keep")), NOW), Frame::Integer(60));
    assert_eq!(lrange(&mut map, "l", 0, -1), Frame::Array(vec![bulk("y")]));
}
