//! Client commands: what a request frame asks the server to do.

use vstd::prelude::*;
use vstd::utf8::{
    decode_utf8, encode_utf8, encode_utf8_decode_utf8, encode_utf8_valid_utf8, is_ascii_chars, valid_utf8,
};
use crate::decimal::{parse_i64, parse_u64, spec_parse_i64, spec_parse_u64};
use crate::frame::{copy_vec, frame_view, frames_view, lemma_frames_view, Frame, FrameV};
use crate::text::{
    ascii_uppercase_chars, str_from_utf8, str_to_uppercase, string_from_utf8, text_is, unicode_uppercase,
};

verus! {

/// A parsed request: a store command, a pub/sub command or a transaction
/// command, so that the session can route it without an impossible case.
#[derive(Debug, Clone)]
pub enum Command {
    Store(StoreCommand),
    PubSub(PubSubCommand),
    Transaction(TransactionCommand),
}

/// A command that the key-value store executes. Expiry instants are
/// milliseconds on the server's monotonic clock.
#[derive(Debug, Clone)]
pub enum StoreCommand {
    Ping(Option<Vec<u8>>),
    Echo(Vec<u8>),
    SetValue { key: Vec<u8>, value: Vec<u8>, expires_at: Option<u128> },
    Get { key: Vec<u8> },
    Del { keys: Vec<Vec<u8>> },
    Exists { keys: Vec<Vec<u8>> },
    Ttl(Vec<u8>),
    LPush { key: Vec<u8>, items: Vec<Vec<u8>> },
    RPush { key: Vec<u8>, items: Vec<Vec<u8>> },
    LPop(Vec<u8>),
    RPop(Vec<u8>),
    LRange { key: Vec<u8>, start: i64, stop: i64 },
    LLen(Vec<u8>),
}

/// A command that the publish/subscribe side handles.
#[derive(Debug, Clone)]
pub enum PubSubCommand {
    Subscribe(Vec<Vec<u8>>),
    Unsubscribe(Option<Vec<Vec<u8>>>),
    Publish { channel: Vec<u8>, message: Vec<u8> },
}

/// A command that starts, runs or abandons a transaction.
#[derive(Debug, Clone)]
pub enum TransactionCommand {
    Multi,
    Exec,
    Discard,
}

/// The byte strings of a sequence of byte vectors.
pub open spec fn bytes_seq(v: Seq<Vec<u8>>) -> Seq<Seq<u8>> {
    v.map_values(|x: Vec<u8>| x@)
}

/// An ASCII lowercase letter made uppercase; any other byte unchanged.
pub open spec fn upper_byte(b: u8) -> u8 {
    if 97 <= b <= 122 {
        (b - 32) as u8
    } else {
        b
    }
}

/// Bytes with every ASCII lowercase letter made uppercase.
pub open spec fn ascii_upper(s: Seq<u8>) -> Seq<u8> {
    s.map_values(|b: u8| upper_byte(b))
}

/// The last instant the server's clock holds, in milliseconds: the whole
/// seconds of a signed 64-bit count, as the standard library's `Instant`
/// keeps them, and the milliseconds of the last one.
pub const LAST_INSTANT: u128 = 9_223_372_036_854_775_807_999u128;

/// `now + amount`, or `None` when that lies beyond the clock's last instant.
pub open spec fn instant_after(now: u128, amount: int) -> Option<u128> {
    if now + amount > LAST_INSTANT {
        None
    } else {
        Some((now + amount) as u128)
    }
}

/// The error for an expiry that is not a positive amount, or that lies
/// beyond the clock's last instant.
pub open spec fn invalid_expire_text() -> Seq<char> {
    "ERR invalid expire time in 'set' command"@
}

/// The positive number an expiry option carries, or the error its text
/// gives.
pub open spec fn option_number(v: Seq<u8>) -> Result<u64, Seq<char>> {
    if !valid_utf8(v) {
        Err("Err: Invalid UTF-8"@)
    } else {
        match spec_parse_u64(v) {
            None => Err("Err: Not an integer or out of range"@),
            Some(n) => if n == 0 {
                Err(invalid_expire_text())
            } else {
                Ok(n)
            },
        }
    }
}

/// The expiry state an option of kind `ex` (`EX` when true, `PX` when
/// false) with amount `n` gives at instant `now`.
pub open spec fn expiry_at(ex: bool, n: u64, now: u128) -> Result<ExpiryState, Seq<char>> {
    match instant_after(now, if ex { n * 1000 } else { n as int }) {
        Some(t) => Ok(Some((ex, t))),
        None => Err(invalid_expire_text()),
    }
}

/// The expiry options seen so far: `Some((true, t))` after `EX`,
/// `Some((false, t))` after `PX`, with `t` the instant they give.
pub type ExpiryState = Option<(bool, u128)>;

/// One `name value` pair of SET's options, read at instant `now`.
pub open spec fn expiry_step(name: Seq<u8>, value: Seq<u8>, st: ExpiryState, now: u128) -> Result<
    ExpiryState,
    Seq<char>,
> {
    let up = ascii_upper(name);
    if up == seq![69u8, 88u8] {
        if st matches Some((false, _)) {
            Err("ERR EX and PX options at the same time are not compatible"@)
        } else {
            match option_number(value) {
                Err(e) => Err(e),
                Ok(n) => expiry_at(true, n, now),
            }
        }
    } else if up == seq![80u8, 88u8] {
        if st matches Some((true, _)) {
            Err("ERR PX and EX options at the same time are not compatible"@)
        } else {
            match option_number(value) {
                Err(e) => Err(e),
                Ok(n) => expiry_at(false, n, now),
            }
        }
    } else {
        Err("ERR syntax error"@)
    }
}

/// An option name of the kind `ex` picks: `EX` when true, `PX` when
/// false, in any letter case.
pub open spec fn option_kind(name: Seq<u8>, ex: bool) -> bool {
    ascii_upper(name) == if ex {
        seq![69u8, 88u8]
    } else {
        seq![80u8, 88u8]
    }
}

/// SET's options from index `i` on, read pair by pair; a single option left
/// over at the end is a syntax error.
pub open spec fn expiry_from(opts: Seq<Seq<u8>>, i: int, st: ExpiryState, now: u128) -> Result<
    Option<u128>,
    Seq<char>,
>
    decreases opts.len() - i,
{
    if 0 <= i && i + 2 <= opts.len() {
        match expiry_step(opts[i], opts[i + 1], st, now) {
            Err(e) => Err(e),
            Ok(st2) => expiry_from(opts, i + 2, st2, now),
        }
    } else if i < opts.len() {
        Err("ERR syntax error"@)
    } else {
        match st {
            Some((_, t)) => Ok(Some(t)),
            None => Ok(None),
        }
    }
}

/// An error result whose text is `t`.
pub open spec fn err_is<T>(r: Result<T, String>, t: Seq<char>) -> bool {
    r matches Err(e) && e@ == t
}

fn upper_ascii(b: u8) -> (r: u8)
    ensures
        r == upper_byte(b),
{
    if 97 <= b && b <= 122 {
        b - 32
    } else {
        b
    }
}

/// Is the option name, made ASCII uppercase, exactly the two letters `a` `b`?
fn option_name_is(name: &Vec<u8>, a: u8, b: u8) -> (r: bool)
    ensures
        r == (ascii_upper(name@) == seq![a, b]),
{
    if name.len() != 2 {
        assert(ascii_upper(name@).len() != 2);
        return false;
    }
    let r = upper_ascii(name[0]) == a && upper_ascii(name[1]) == b;
    if r {
        assert(ascii_upper(name@) =~= seq![a, b]);
    } else {
        assert(ascii_upper(name@)[0] != a || ascii_upper(name@)[1] != b);
    }
    r
}

fn option_value(v: &Vec<u8>) -> (r: Result<u64, String>)
    ensures
        match option_number(v@) {
            Ok(n) => r == Ok::<u64, String>(n),
            Err(t) => err_is(r, t),
        },
{
    match str_from_utf8(v.as_slice()) {
        None => Err("Err: Invalid UTF-8".to_owned()),
        Some(_) => match parse_u64(v.as_slice()) {
            None => Err("Err: Not an integer or out of range".to_owned()),
            Some(n) => {
                if n == 0 {
                    Err("ERR invalid expire time in 'set' command".to_owned())
                } else {
                    Ok(n)
                }
            },
        },
    }
}

/// The expiry state an option of kind `ex` with amount `n` gives at `now`.
fn expiry_value(ex: bool, n: u64, now: u128) -> (r: Result<Option<u128>, String>)
    ensures
        match expiry_at(ex, n, now) {
            Ok(st) => r == Ok::<Option<u128>, String>(
                match st {
                    Some((_, t)) => Some(t),
                    None => None,
                },
            ),
            Err(t) => err_is(r, t),
        },
{
    let scaled: u128 = if ex {
        (n as u128) * 1000
    } else {
        n as u128
    };
    if now > LAST_INSTANT || scaled > LAST_INSTANT - now {
        Err("ERR invalid expire time in 'set' command".to_owned())
    } else {
        Ok(Some(now + scaled))
    }
}

/// A LRANGE index argument: UTF-8 text that parses as an `i64`.
pub open spec fn index_arg(v: Seq<u8>) -> Option<i64> {
    if valid_utf8(v) {
        spec_parse_i64(v)
    } else {
        None
    }
}

/// A request frame: the command name's bulk string, then one bulk string
/// per argument.
pub open spec fn request_frame(name: Seq<u8>, args: Seq<Seq<u8>>) -> FrameV {
    FrameV::Array(seq![FrameV::BulkString(name)] + args.map_values(|b: Seq<u8>| FrameV::BulkString(b)))
}

/// The arguments of a request frame are read back as they were sent.
proof fn lemma_request_frame(name: Seq<u8>, args: Seq<Seq<u8>>)
    ensures
        request_frame(name, args) matches FrameV::Array(fs) && all_bulk(fs) && fs.len() > 0
            && bulk_payloads(fs)[0] == name && bulk_payloads(fs).drop_first() == args,
{
    let fs = seq![FrameV::BulkString(name)] + args.map_values(|b: Seq<u8>| FrameV::BulkString(b));
    assert forall|i: int| 0 <= i < fs.len() implies fs[i] is BulkString by {
        if i > 0 {
            assert(fs[i] == FrameV::BulkString(args[i - 1]));
        }
    }
    assert(bulk_payloads(fs).drop_first() =~= args) by {
        assert forall|i: int| 0 <= i < args.len() implies bulk_payloads(fs).drop_first()[i] == args[i] by {
            assert(fs[i + 1] == FrameV::BulkString(args[i]));
        }
    }
    assert(bulk_payloads(fs)[0] == name);
}

/// LPUSH and RPUSH push every value named after the key, in the order
/// named: a request `LPUSH key v1 .. vn` or `RPUSH key v1 .. vn`, in any
/// letter case, parses to a push of exactly `v1 .. vn` onto `key`.
pub proof fn lemma_push_keeps_every_item(
    name: Seq<char>,
    key: Seq<u8>,
    items: Seq<Seq<u8>>,
    now: u128,
    r: Result<Command, String>,
)
    requires
        items.len() >= 1,
        command_name(name) == "LPUSH"@ || command_name(name) == "RPUSH"@,
        parse_ok(request_frame(encode_utf8(name), seq![key] + items), now, r),
    ensures
        command_name(name) == "LPUSH"@ ==> (r matches Ok(Command::Store(StoreCommand::LPush { key: k, items: its }))
            && k@ == key && bytes_seq(its@) == items),
        command_name(name) == "RPUSH"@ ==> (r matches Ok(Command::Store(StoreCommand::RPush { key: k, items: its }))
            && k@ == key && bytes_seq(its@) == items),
{
    encode_utf8_decode_utf8(name);
    encode_utf8_valid_utf8(name);
    lemma_request_frame(encode_utf8(name), seq![key] + items);
    assert((seq![key] + items).drop_first() =~= items);
    assert((seq![key] + items)[0] == key);
    reveal_strlit("PING");
    reveal_strlit("ECHO");
    reveal_strlit("SET");
    reveal_strlit("GET");
    reveal_strlit("DEL");
    reveal_strlit("EXISTS");
    reveal_strlit("TTL");
    reveal_strlit("LPUSH");
    reveal_strlit("RPUSH");
    let fs = request_frame(encode_utf8(name), seq![key] + items)->Array_0;
    let args = bulk_payloads(fs);
    assert(valid_utf8(args[0]));
    assert(decode_utf8(args[0]) == name);
    assert(args.drop_first().len() >= 2);
    assert(args.drop_first()[0] == key);
    assert(args.drop_first().drop_first() =~= items);
    assert(args.drop_first() =~= seq![key] + items);
    assert(parse_named_ok(command_name(name), seq![key] + items, now, r));
    assert("PING"@.len() == 4 && "ECHO"@.len() == 4 && "SET"@.len() == 3 && "GET"@.len() == 3);
    assert("DEL"@.len() == 3 && "EXISTS"@.len() == 6 && "TTL"@.len() == 3);
    assert("LPUSH"@.len() == 5 && "RPUSH"@.len() == 5 && "RPUSH"@[0] != "LPUSH"@[0]);
}

/// DEL, EXISTS and SUBSCRIBE act on every name they are given, in order:
/// a request naming `k1 .. kn` after the command, in any letter case,
/// parses to a command holding exactly `k1 .. kn`.
pub proof fn lemma_names_keep_every_argument(
    name: Seq<char>,
    args: Seq<Seq<u8>>,
    now: u128,
    r: Result<Command, String>,
)
    requires
        args.len() >= 1,
        command_name(name) == "DEL"@ || command_name(name) == "EXISTS"@ || command_name(name)
            == "SUBSCRIBE"@,
        parse_ok(request_frame(encode_utf8(name), args), now, r),
    ensures
        command_name(name) == "DEL"@ ==> (r matches Ok(Command::Store(StoreCommand::Del { keys }))
            && bytes_seq(keys@) == args),
        command_name(name) == "EXISTS"@ ==> (r matches Ok(Command::Store(StoreCommand::Exists { keys }))
            && bytes_seq(keys@) == args),
        command_name(name) == "SUBSCRIBE"@ ==> (r matches Ok(Command::PubSub(PubSubCommand::Subscribe(chs)))
            && bytes_seq(chs@) == args),
{
    encode_utf8_decode_utf8(name);
    encode_utf8_valid_utf8(name);
    lemma_request_frame(encode_utf8(name), args);
    reveal_strlit("PING");
    reveal_strlit("ECHO");
    reveal_strlit("SET");
    reveal_strlit("GET");
    reveal_strlit("DEL");
    reveal_strlit("EXISTS");
    reveal_strlit("TTL");
    reveal_strlit("LPUSH");
    reveal_strlit("RPUSH");
    reveal_strlit("LLEN");
    reveal_strlit("LPOP");
    reveal_strlit("RPOP");
    reveal_strlit("LRANGE");
    reveal_strlit("SUBSCRIBE");
    let fs = request_frame(encode_utf8(name), args)->Array_0;
    assert(valid_utf8(bulk_payloads(fs)[0]));
    assert(decode_utf8(bulk_payloads(fs)[0]) == name);
    assert("PING"@.len() == 4 && "ECHO"@.len() == 4 && "SET"@.len() == 3 && "GET"@.len() == 3);
    assert("DEL"@.len() == 3 && "EXISTS"@.len() == 6 && "TTL"@.len() == 3);
    assert("LPUSH"@.len() == 5 && "RPUSH"@.len() == 5 && "LLEN"@.len() == 4 && "LPOP"@.len() == 4);
    assert("RPOP"@.len() == 4 && "LRANGE"@.len() == 6 && "SUBSCRIBE"@.len() == 9);
    assert("DEL"@[0] != "SET"@[0] && "DEL"@[0] != "GET"@[0] && "DEL"@[0] != "TTL"@[0]);
    assert("EXISTS"@[0] != "LRANGE"@[0]);
}

/// Option names are case-insensitive: two names that agree once made
/// uppercase read the same option from the same value.
pub proof fn lemma_option_case_insensitive(
    name1: Seq<u8>,
    name2: Seq<u8>,
    value: Seq<u8>,
    st: ExpiryState,
    now: u128,
)
    requires
        ascii_upper(name1) == ascii_upper(name2),
    ensures
        expiry_step(name1, value, st, now) == expiry_step(name2, value, st, now),
{
}

/// `EX n` and `PX n`, in any letter case, as SET's only option, give the
/// instant `n` seconds or `n` milliseconds after `now`, for every positive
/// `n` whose instant the clock holds.
pub proof fn lemma_single_option(name: Seq<u8>, value: Seq<u8>, ex: bool, n: u64, now: u128)
    requires
        option_kind(name, ex),
        valid_utf8(value),
        spec_parse_u64(value) == Some(n),
        n >= 1,
        now + (if ex { n * 1000 } else { n as int }) <= LAST_INSTANT,
    ensures
        expiry_from(seq![name, value], 0, None, now) == Ok::<Option<u128>, Seq<char>>(
            Some((now + (if ex { n * 1000 } else { n as int })) as u128),
        ),
{
    let opts = seq![name, value];
    assert(opts[0] == name && opts[1] == value);
    assert(expiry_from(opts, 2, Some((ex, (now + (if ex { n * 1000 } else { n as int })) as u128)), now)
        == Ok::<Option<u128>, Seq<char>>(Some((now + (if ex { n * 1000 } else { n as int })) as u128)));
}

/// Once an option of one kind has been read, reading on to an option of
/// the other kind is refused.
proof fn lemma_expiry_conflict(opts: Seq<Seq<u8>>, k: int, st: ExpiryState, j: int, ex: bool, now: u128)
    requires
        0 <= k <= j < opts.len(),
        (j - k) % 2 == 0,
        option_kind(opts[j], !ex),
        st matches Some((e, _)) && e == ex,
    ensures
        expiry_from(opts, k, st, now) is Err,
    decreases opts.len() - k,
{
    if k + 2 <= opts.len() && k < j {
        match expiry_step(opts[k], opts[k + 1], st, now) {
            Err(_) => {},
            Ok(st2) => {
                assert(st2 matches Some((e, _)) && e == ex);
                lemma_expiry_conflict(opts, k + 2, st2, j, ex, now);
            },
        }
    }
}

/// Reading options from `k` on, with an option of kind `ex` at `i` and one
/// of the other kind at `j` further on, is refused.
proof fn lemma_expiry_both(opts: Seq<Seq<u8>>, k: int, st: ExpiryState, i: int, j: int, ex: bool, now: u128)
    requires
        0 <= k <= i < j < opts.len(),
        (i - k) % 2 == 0,
        (j - i) % 2 == 0,
        option_kind(opts[i], ex),
        option_kind(opts[j], !ex),
    ensures
        expiry_from(opts, k, st, now) is Err,
    decreases opts.len() - k,
{
    match expiry_step(opts[k], opts[k + 1], st, now) {
        Err(_) => {},
        Ok(st2) => {
            if k == i {
                assert(st2 matches Some((e, _)) && e == ex);
                lemma_expiry_conflict(opts, k + 2, st2, j, ex, now);
            } else {
                lemma_expiry_both(opts, k + 2, st2, i, j, ex, now);
            }
        },
    }
}

/// SET's EX and PX options exclude each other: options that hold both an
/// EX pair and a PX pair, in either order and any letter case, are refused
/// (see [`Command::parse_expiry`]).
pub proof fn lemma_ex_px_exclusive(opts: Seq<Seq<u8>>, i: int, j: int, ex: bool, now: u128)
    requires
        0 <= i < j < opts.len(),
        i % 2 == 0,
        j % 2 == 0,
        option_kind(opts[i], ex),
        option_kind(opts[j], !ex),
    ensures
        expiry_from(opts, 0, None, now) is Err,
{
    lemma_expiry_both(opts, 0, None, i, j, ex, now);
}

/// What parsing a request with the uppercase command name `name` and the
/// arguments `args` gives, at instant `now`: `r` is that result.
pub open spec fn parse_named_ok(
    name: Seq<char>,
    args: Seq<Seq<u8>>,
    now: u128,
    r: Result<Command, String>,
) -> bool {
    if name == "PING"@ {
        if args.len() == 0 {
            r matches Ok(Command::Store(StoreCommand::Ping(None)))
        } else if args.len() == 1 {
            r matches Ok(Command::Store(StoreCommand::Ping(Some(a)))) && a@ == args[0]
        } else {
            err_is(r, "ERR wrong number of arguments for 'PING' command"@)
        }
    } else if name == "ECHO"@ {
        if args.len() != 1 {
            err_is(r, "ERR wrong number of arguments for 'ECHO' command"@)
        } else {
            r matches Ok(Command::Store(StoreCommand::Echo(a))) && a@ == args[0]
        }
    } else if name == "SET"@ {
        if args.len() < 2 {
            err_is(r, "ERR wrong number of arguments for 'SET' command"@)
        } else {
            match expiry_from(args.skip(2), 0, None, now) {
                Err(t) => err_is(r, t),
                Ok(e) => r matches Ok(Command::Store(StoreCommand::SetValue { key, value, expires_at }))
                    && key@ == args[0] && value@ == args[1] && expires_at == e,
            }
        }
    } else if name == "GET"@ {
        if args.len() != 1 {
            err_is(r, "ERR wrong number of arguments for 'GET' command"@)
        } else {
            r matches Ok(Command::Store(StoreCommand::Get { key })) && key@ == args[0]
        }
    } else if name == "DEL"@ {
        if args.len() == 0 {
            err_is(r, "ERR wrong number of arguments for 'DEL' command"@)
        } else {
            r matches Ok(Command::Store(StoreCommand::Del { keys })) && bytes_seq(keys@) == args
        }
    } else if name == "EXISTS"@ {
        if args.len() == 0 {
            err_is(r, "ERR wrong number of arguments for 'EXISTS' command"@)
        } else {
            r matches Ok(Command::Store(StoreCommand::Exists { keys })) && bytes_seq(keys@) == args
        }
    } else if name == "TTL"@ {
        if args.len() != 1 {
            err_is(r, "ERR wrong number of arguments for 'TTL' command"@)
        } else {
            r matches Ok(Command::Store(StoreCommand::Ttl(key))) && key@ == args[0]
        }
    } else if name == "LPUSH"@ {
        if args.len() < 2 {
            err_is(r, "ERR wrong number of arguments for 'LPUSH' command"@)
        } else {
            r matches Ok(Command::Store(StoreCommand::LPush { key, items })) && key@ == args[0]
                && bytes_seq(items@) == args.drop_first()
        }
    } else if name == "RPUSH"@ {
        if args.len() < 2 {
            err_is(r, "ERR wrong number of arguments for 'RPUSH' command"@)
        } else {
            r matches Ok(Command::Store(StoreCommand::RPush { key, items })) && key@ == args[0]
                && bytes_seq(items@) == args.drop_first()
        }
    } else if name == "LLEN"@ {
        if args.len() != 1 {
            err_is(r, "ERR wrong number of arguments for 'LLEN' command"@)
        } else {
            r matches Ok(Command::Store(StoreCommand::LLen(key))) && key@ == args[0]
        }
    } else if name == "LPOP"@ {
        if args.len() != 1 {
            err_is(r, "ERR wrong number of arguments for 'LPOP' command"@)
        } else {
            r matches Ok(Command::Store(StoreCommand::LPop(key))) && key@ == args[0]
        }
    } else if name == "RPOP"@ {
        if args.len() != 1 {
            err_is(r, "ERR wrong number of arguments for 'RPOP' command"@)
        } else {
            r matches Ok(Command::Store(StoreCommand::RPop(key))) && key@ == args[0]
        }
    } else if name == "LRANGE"@ {
        if args.len() != 3 {
            err_is(r, "ERR wrong number of arguments for 'LRANGE' command"@)
        } else {
            match (index_arg(args[1]), index_arg(args[2])) {
                (Some(a), Some(b)) => r matches Ok(
                    Command::Store(StoreCommand::LRange { key, start, stop }),
                ) && key@ == args[0] && start == a && stop == b,
                _ => err_is(r, "Invalid argument"@),
            }
        }
    } else if name == "SUBSCRIBE"@ {
        if args.len() == 0 {
            err_is(r, "ERR wrong number of arguments for 'SUBSCRIBE' command"@)
        } else {
            r matches Ok(Command::PubSub(PubSubCommand::Subscribe(chs))) && bytes_seq(chs@) == args
        }
    } else if name == "UNSUBSCRIBE"@ {
        if args.len() == 0 {
            r matches Ok(Command::PubSub(PubSubCommand::Unsubscribe(None)))
        } else {
            r matches Ok(Command::PubSub(PubSubCommand::Unsubscribe(Some(chs)))) && bytes_seq(chs@)
                == args
        }
    } else if name == "PUBLISH"@ {
        if args.len() != 2 {
            err_is(r, "ERR wrong number of arguments for 'PUBLISH' command"@)
        } else {
            r matches Ok(Command::PubSub(PubSubCommand::Publish { channel, message }))
                && channel@ == args[0] && message@ == args[1]
        }
    } else if name == "MULTI"@ {
        if args.len() == 0 {
            r matches Ok(Command::Transaction(TransactionCommand::Multi))
        } else {
            err_is(r, "ERR wrong number of arguments for 'MULTI' command"@)
        }
    } else if name == "EXEC"@ {
        if args.len() == 0 {
            r matches Ok(Command::Transaction(TransactionCommand::Exec))
        } else {
            err_is(r, "ERR wrong number of arguments for 'EXEC' command"@)
        }
    } else if name == "DISCARD"@ {
        if args.len() == 0 {
            r matches Ok(Command::Transaction(TransactionCommand::Discard))
        } else {
            err_is(r, "ERR wrong number of arguments for 'DISCARD' command"@)
        }
    } else {
        err_is(r, "ERR unknown command '"@ + name + "'"@)
    }
}

/// Every frame is a bulk string.
pub open spec fn all_bulk(fs: Seq<FrameV>) -> bool {
    forall|i: int| 0 <= i < fs.len() ==> fs[i] is BulkString
}

/// The bytes of each bulk-string frame.
pub open spec fn bulk_payloads(fs: Seq<FrameV>) -> Seq<Seq<u8>> {
    fs.map_values(
        |f: FrameV|
            match f {
                FrameV::BulkString(b) => b,
                _ => Seq::empty(),
            },
    )
}

/// The uppercase form of a command name: on ASCII text, `a`..=`z` made
/// `A`..=`Z`; on any other text, its Unicode uppercase form.
pub open spec fn command_name(s: Seq<char>) -> Seq<char> {
    if is_ascii_chars(s) {
        ascii_uppercase_chars(s)
    } else {
        unicode_uppercase(s)
    }
}

/// Command names are case-insensitive: two requests whose ASCII command
/// names agree once made uppercase, and whose arguments are the same, parse
/// to the same result.
pub proof fn lemma_case_insensitive(
    name1: Seq<char>,
    name2: Seq<char>,
    args: Seq<FrameV>,
    now: u128,
    r: Result<Command, String>,
)
    requires
        is_ascii_chars(name1),
        is_ascii_chars(name2),
        ascii_uppercase_chars(name1) == ascii_uppercase_chars(name2),
    ensures
        parse_ok(FrameV::Array(seq![FrameV::BulkString(encode_utf8(name1))] + args), now, r)
            == parse_ok(FrameV::Array(seq![FrameV::BulkString(encode_utf8(name2))] + args), now, r),
{
    encode_utf8_decode_utf8(name1);
    encode_utf8_decode_utf8(name2);
    encode_utf8_valid_utf8(name1);
    encode_utf8_valid_utf8(name2);
    let fs1 = seq![FrameV::BulkString(encode_utf8(name1))] + args;
    let fs2 = seq![FrameV::BulkString(encode_utf8(name2))] + args;
    assert(fs1[0] == FrameV::BulkString(encode_utf8(name1)));
    assert(fs2[0] == FrameV::BulkString(encode_utf8(name2)));
    assert(all_bulk(fs1) == all_bulk(fs2)) by {
        if all_bulk(fs1) {
            assert forall|i: int| 0 <= i < fs2.len() implies fs2[i] is BulkString by {
                if i > 0 {
                    assert(fs2[i] == fs1[i]);
                }
            }
        }
        if all_bulk(fs2) {
            assert forall|i: int| 0 <= i < fs1.len() implies fs1[i] is BulkString by {
                if i > 0 {
                    assert(fs1[i] == fs2[i]);
                }
            }
        }
    }
    assert(bulk_payloads(fs1).drop_first() =~= bulk_payloads(fs2).drop_first());
    assert(bulk_payloads(fs1)[0] == encode_utf8(name1));
    assert(bulk_payloads(fs2)[0] == encode_utf8(name2));
}

/// What parsing a request frame gives at instant `now`: `r` is that result.
/// A request is an array of bulk strings whose first one names the command
/// (in any case).
pub open spec fn parse_ok(f: FrameV, now: u128, r: Result<Command, String>) -> bool {
    match f {
        FrameV::Array(fs) => if all_bulk(fs) {
            let args = bulk_payloads(fs);
            if valid_utf8(args[0]) {
                parse_named_ok(command_name(decode_utf8(args[0])), args.drop_first(), now, r)
            } else {
                err_is(r, "ERR invalid command"@)
            }
        } else {
            err_is(r, "invalid frame"@)
        },
        _ => err_is(r, "invalid frame"@),
    }
}

impl Command {
    /// Parses a request whose command name, already in uppercase, is `name`
    /// and whose arguments are `args`, at instant `now`.
    pub fn parse_named(name: String, args: Vec<Vec<u8>>, now: u128) -> (r: Result<Command, String>)
        ensures
            parse_named_ok(name@, bytes_seq(args@), now, r),
    {
        let ghost a = bytes_seq(args@);
        let mut args = args;
        let n = name.as_str();
        if text_is(n, "PING") {
            if args.len() == 0 {
                return Ok(Command::Store(StoreCommand::Ping(None)));
            }
            if args.len() != 1 {
                return Err("ERR wrong number of arguments for 'PING' command".to_owned());
            }
            Ok(Command::Store(StoreCommand::Ping(Some(args.swap_remove(0)))))
        } else if text_is(n, "ECHO") {
            if args.len() != 1 {
                return Err("ERR wrong number of arguments for 'ECHO' command".to_owned());
            }
            Ok(Command::Store(StoreCommand::Echo(args.swap_remove(0))))
        } else if text_is(n, "SET") {
            if args.len() < 2 {
                return Err("ERR wrong number of arguments for 'SET' command".to_owned());
            }
            let key = args.remove(0);
            let value = args.remove(0);
            assert(bytes_seq(args@) =~= a.skip(2));
            let expires_at = Command::parse_expiry(args, now)?;
            Ok(Command::Store(StoreCommand::SetValue { key, value, expires_at }))
        } else if text_is(n, "GET") {
            if args.len() != 1 {
                return Err("ERR wrong number of arguments for 'GET' command".to_owned());
            }
            Ok(Command::Store(StoreCommand::Get { key: args.swap_remove(0) }))
        } else if text_is(n, "DEL") {
            if args.len() == 0 {
                return Err("ERR wrong number of arguments for 'DEL' command".to_owned());
            }
            Ok(Command::Store(StoreCommand::Del { keys: args }))
        } else if text_is(n, "EXISTS") {
            if args.len() == 0 {
                return Err("ERR wrong number of arguments for 'EXISTS' command".to_owned());
            }
            Ok(Command::Store(StoreCommand::Exists { keys: args }))
        } else if text_is(n, "TTL") {
            if args.len() != 1 {
                return Err("ERR wrong number of arguments for 'TTL' command".to_owned());
            }
            Ok(Command::Store(StoreCommand::Ttl(args.swap_remove(0))))
        } else if text_is(n, "LPUSH") {
            if args.len() < 2 {
                return Err("ERR wrong number of arguments for 'LPUSH' command".to_owned());
            }
            let key = args.remove(0);
            assert(bytes_seq(args@) =~= a.drop_first());
            Ok(Command::Store(StoreCommand::LPush { key, items: args }))
        } else if text_is(n, "RPUSH") {
            if args.len() < 2 {
                return Err("ERR wrong number of arguments for 'RPUSH' command".to_owned());
            }
            let key = args.remove(0);
            assert(bytes_seq(args@) =~= a.drop_first());
            Ok(Command::Store(StoreCommand::RPush { key, items: args }))
        } else if text_is(n, "LLEN") {
            if args.len() != 1 {
                return Err("ERR wrong number of arguments for 'LLEN' command".to_owned());
            }
            Ok(Command::Store(StoreCommand::LLen(args.swap_remove(0))))
        } else if text_is(n, "LPOP") {
            if args.len() != 1 {
                return Err("ERR wrong number of arguments for 'LPOP' command".to_owned());
            }
            Ok(Command::Store(StoreCommand::LPop(args.swap_remove(0))))
        } else if text_is(n, "RPOP") {
            if args.len() != 1 {
                return Err("ERR wrong number of arguments for 'RPOP' command".to_owned());
            }
            Ok(Command::Store(StoreCommand::RPop(args.swap_remove(0))))
        } else if text_is(n, "LRANGE") {
            if args.len() != 3 {
                return Err("ERR wrong number of arguments for 'LRANGE' command".to_owned());
            }
            let start = Command::index_value(&args[1]);
            let stop = Command::index_value(&args[2]);
            match (start, stop) {
                (Some(start), Some(stop)) => {
                    Ok(Command::Store(StoreCommand::LRange { key: args.swap_remove(0), start, stop }))
                },
                _ => Err("Invalid argument".to_owned()),
            }
        } else if text_is(n, "SUBSCRIBE") {
            if args.len() == 0 {
                return Err("ERR wrong number of arguments for 'SUBSCRIBE' command".to_owned());
            }
            Ok(Command::PubSub(PubSubCommand::Subscribe(args)))
        } else if text_is(n, "UNSUBSCRIBE") {
            if args.len() == 0 {
                return Ok(Command::PubSub(PubSubCommand::Unsubscribe(None)));
            }
            Ok(Command::PubSub(PubSubCommand::Unsubscribe(Some(args))))
        } else if text_is(n, "PUBLISH") {
            if args.len() != 2 {
                return Err("ERR wrong number of arguments for 'PUBLISH' command".to_owned());
            }
            let channel = args.remove(0);
            let message = args.remove(0);
            Ok(Command::PubSub(PubSubCommand::Publish { channel, message }))
        } else if text_is(n, "MULTI") {
            if args.len() != 0 {
                return Err("ERR wrong number of arguments for 'MULTI' command".to_owned());
            }
            Ok(Command::Transaction(TransactionCommand::Multi))
        } else if text_is(n, "EXEC") {
            if args.len() != 0 {
                return Err("ERR wrong number of arguments for 'EXEC' command".to_owned());
            }
            Ok(Command::Transaction(TransactionCommand::Exec))
        } else if text_is(n, "DISCARD") {
            if args.len() != 0 {
                return Err("ERR wrong number of arguments for 'DISCARD' command".to_owned());
            }
            Ok(Command::Transaction(TransactionCommand::Discard))
        } else {
            let mut msg = "ERR unknown command '".to_owned();
            msg.append(n);
            msg.append("'");
            Err(msg)
        }
    }

    /// A LRANGE index argument, as `str::from_utf8` and `str::parse::<i64>` read it.
    fn index_value(v: &Vec<u8>) -> (r: Option<i64>)
        ensures
            r == index_arg(v@),
    {
        match str_from_utf8(v.as_slice()) {
            None => None,
            Some(_) => parse_i64(v.as_slice()),
        }
    }

    /// Parses a request frame at instant `now` (the instant an expiry option
    /// counts from). An empty array is no request.
    pub fn parse(f: Frame, now: u128) -> (r: Result<Command, String>)
        requires
            !(f@ matches FrameV::Array(fs) && fs.len() == 0),
        ensures
            parse_ok(f@, now, r),
    {
        let ghost fv = f@;
        let frames = match f {
            Frame::Array(frames) => frames,
            _ => {
                return Err("invalid frame".to_owned());
            },
        };
        let ghost fs = frames_view(frames@);
        proof {
            lemma_frames_view(frames@);
        }
        let mut args: Vec<Vec<u8>> = Vec::new();
        let mut i: usize = 0;
        #[verifier::loop_isolation(false)]
        while i < frames.len()
            invariant
                i <= frames@.len(),
                fv == FrameV::Array(fs),
                fs == frames_view(frames@),
                fs.len() == frames@.len(),
                forall|k: int| 0 <= k < frames@.len() ==> #[trigger] fs[k] == frame_view(frames@[k]),
                forall|k: int| 0 <= k < i ==> fs[k] is BulkString,
                bytes_seq(args@) == bulk_payloads(fs).take(i as int),
            decreases frames@.len() - i,
        {
            match &frames[i] {
                Frame::BulkString(b) => {
                    assert(fs[i as int] == FrameV::BulkString(b@));
                    assert(bulk_payloads(fs)[i as int] == b@);
                    let c = copy_vec(b);
                    let ghost before = args@;
                    args.push(c);
                    assert(bytes_seq(args@) =~= bytes_seq(before).push(b@));
                    assert(bulk_payloads(fs).take(i + 1) =~= bulk_payloads(fs).take(i as int).push(b@));
                    assert(bytes_seq(args@) =~= bulk_payloads(fs).take(i + 1));
                },
                _ => {
                    assert(!(fs[i as int] is BulkString));
                    return Err("invalid frame".to_owned());
                },
            }
            i = i + 1;
        }
        assert(bulk_payloads(fs).take(i as int) =~= bulk_payloads(fs));
        let ghost all = bytes_seq(args@);
        let first = args.remove(0);
        assert(bytes_seq(args@) =~= all.drop_first());
        match string_from_utf8(first) {
            None => Err("ERR invalid command".to_owned()),
            Some(name) => {
                let upper = str_to_uppercase(name.as_str());
                assert(upper@ == command_name(name@));
                Command::parse_named(upper, args, now)
            },
        }
    }

    /// Reads SET's expiry options, `EX seconds` or `PX milliseconds`, at
    /// instant `now`: the instant the key expires, or the error to answer.
    pub fn parse_expiry(opts: Vec<Vec<u8>>, now: u128) -> (r: Result<Option<u128>, String>)
        ensures
            match expiry_from(bytes_seq(opts@), 0, None, now) {
                Ok(t) => r == Ok::<Option<u128>, String>(t),
                Err(t) => err_is(r, t),
            },
    {
        let ghost os = bytes_seq(opts@);
        let mut st_ex = false;
        let mut st_instant: Option<u128> = None;
        let mut i: usize = 0;
        while opts.len() - i >= 2
            invariant
                i <= opts@.len(),
                os == bytes_seq(opts@),
                expiry_from(os, 0, None, now) == expiry_from(
                    os,
                    i as int,
                    match st_instant {
                        Some(t) => Some((st_ex, t)),
                        None => None,
                    },
                    now,
                ),
            decreases opts@.len() - i,
        {
            let name = &opts[i];
            let value = &opts[i + 1];
            assert(os[i as int] == name@);
            assert(os[i + 1] == value@);
            if option_name_is(name, 69u8, 88u8) {
                if st_instant.is_some() && !st_ex {
                    return Err("ERR EX and PX options at the same time are not compatible".to_owned());
                }
                let n = option_value(value)?;
                st_instant = expiry_value(true, n, now)?;
                st_ex = true;
            } else if option_name_is(name, 80u8, 88u8) {
                if st_instant.is_some() && st_ex {
                    return Err("ERR PX and EX options at the same time are not compatible".to_owned());
                }
                let n = option_value(value)?;
                st_instant = expiry_value(false, n, now)?;
                st_ex = false;
            } else {
                return Err("ERR syntax error".to_owned());
            }
            i = i + 2;
        }
        if i < opts.len() {
            return Err("ERR syntax error".to_owned());
        }
        Ok(st_instant)
    }
}

} // verus!
