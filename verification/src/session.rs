//! The rules of one client connection: which commands a subscribed client
//! may send, which channels it is subscribed to, which commands a
//! transaction has queued, and what it is answered. The caller performs the
//! returned action (talking to the store, the publish/subscribe hub and the
//! socket).

use vstd::prelude::*;
use vstd::utf8::encode_utf8;
use crate::command::{bytes_seq, Command, PubSubCommand, StoreCommand, TransactionCommand};
use crate::frame::{copy_vec, frames_view, lemma_frames_view, lemma_frames_view_push, Frame, FrameV};
use crate::store::bytes_eq;

verus! {

/// Whether a connection is in publish/subscribe mode.
pub enum RedisMode {
    Normal,
    Subscription,
}

/// What the connection does next with a request.
pub enum Action {
    /// Write these frames to the client.
    Reply(Vec<Frame>),
    /// Run the command on the store and write its reply.
    Store(StoreCommand),
    /// Start forwarding these channels, the ones not subscribed before, to
    /// the client, then write the replies.
    Subscribe { channels: Vec<Vec<u8>>, replies: Vec<Frame> },
    /// Stop forwarding these channels to the client, then write the replies.
    Unsubscribe { channels: Vec<Vec<u8>>, replies: Vec<Frame> },
    /// Publish the message on the channel and write how many received it.
    Publish { channel: Vec<u8>, message: Vec<u8> },
    /// Run the commands on the store one after the other, with no other
    /// client's command in between, and write their replies as one array.
    Exec(Vec<StoreCommand>),
}

/// The state of one connection: its mode, the channels it is subscribed
/// to, in the order it subscribed to them, and, inside a transaction, the
/// commands queued so far and whether one of them was refused.
pub struct ClientSession {
    mode: RedisMode,
    subs: Vec<Vec<u8>>,
    queued: Option<Vec<StoreCommand>>,
    refused: bool,
}

/// The error a subscribed client gets for a command other than SUBSCRIBE,
/// UNSUBSCRIBE or PING.
pub open spec fn not_allowed_text() -> Seq<char> {
    "ERR Command not allowed in subscription mode"@
}

/// The confirmation frame for (un)subscribing `channel`, with the number of
/// channels the client is subscribed to afterwards.
pub open spec fn sub_reply(kind: Seq<char>, channel: Seq<u8>, count: int) -> FrameV {
    FrameV::Array(
        seq![
            FrameV::BulkString(encode_utf8(kind)),
            FrameV::BulkString(channel),
            FrameV::Integer(count as i64),
        ],
    )
}

/// Subscribing to `chs` one by one: the subscriptions afterwards and the
/// confirmation for each channel. A channel already subscribed stays once.
pub open spec fn subscribe_step(subs: Seq<Seq<u8>>, chs: Seq<Seq<u8>>) -> (Seq<Seq<u8>>, Seq<FrameV>)
    decreases chs.len(),
{
    if chs.len() == 0 {
        (subs, Seq::empty())
    } else {
        let s1 = if subs.contains(chs[0]) {
            subs
        } else {
            subs.push(chs[0])
        };
        let r = subscribe_step(s1, chs.drop_first());
        (r.0, seq![sub_reply("subscribe"@, chs[0], s1.len() as int)] + r.1)
    }
}

/// `s` without the first occurrence of `x`.
pub open spec fn remove_first(s: Seq<Seq<u8>>, x: Seq<u8>) -> Seq<Seq<u8>>
    decreases s.len(),
{
    if s.len() == 0 {
        s
    } else if s[0] == x {
        s.drop_first()
    } else {
        seq![s[0]] + remove_first(s.drop_first(), x)
    }
}

/// Unsubscribing from `chs` one by one: the subscriptions afterwards and the
/// confirmation for each channel, with the count left after it.
pub open spec fn unsubscribe_step(subs: Seq<Seq<u8>>, chs: Seq<Seq<u8>>) -> (Seq<Seq<u8>>, Seq<FrameV>)
    decreases chs.len(),
{
    if chs.len() == 0 {
        (subs, Seq::empty())
    } else {
        let s1 = remove_first(subs, chs[0]);
        let r = unsubscribe_step(s1, chs.drop_first());
        (r.0, seq![sub_reply("unsubscribe"@, chs[0], s1.len() as int)] + r.1)
    }
}

/// May a subscribed client send this command? Only SUBSCRIBE, UNSUBSCRIBE
/// and PING.
pub open spec fn allowed_when_subscribed(cmd: Command) -> bool {
    match cmd {
        Command::PubSub(PubSubCommand::Subscribe(_)) => true,
        Command::PubSub(PubSubCommand::Unsubscribe(_)) => true,
        Command::Store(StoreCommand::Ping(_)) => true,
        _ => false,
    }
}

/// The error for MULTI inside a transaction.
pub open spec fn nested_multi_text() -> Seq<char> {
    "ERR MULTI calls can not be nested"@
}

/// The error for EXEC outside a transaction.
pub open spec fn exec_without_multi_text() -> Seq<char> {
    "ERR EXEC without MULTI"@
}

/// The error for DISCARD outside a transaction.
pub open spec fn discard_without_multi_text() -> Seq<char> {
    "ERR DISCARD without MULTI"@
}

/// The error for EXEC after a command of the transaction was refused.
pub open spec fn exec_abort_text() -> Seq<char> {
    "EXECABORT Transaction discarded because of previous errors."@
}

/// The error for a publish/subscribe command inside a transaction, which
/// only queues store commands.
pub open spec fn pubsub_in_transaction_text() -> Seq<char> {
    "ERR Command not allowed inside a transaction"@
}

/// A reply of the one simple string `text`.
pub open spec fn simple_reply(a: Action, text: Seq<char>) -> bool {
    a matches Action::Reply(fs) && frames_view(fs@) == seq![FrameV::SimpleString(text)]
}

/// A reply of the one error `text`.
pub open spec fn error_reply(a: Action, text: Seq<char>) -> bool {
    a matches Action::Reply(fs) && frames_view(fs@) == seq![FrameV::Error(text)]
}


/// The UTF-8 bytes of a text.
pub(crate) fn text_bytes(t: &str) -> (r: Vec<u8>)
    ensures
        r@ == encode_utf8(t@),
{
    let mut out: Vec<u8> = Vec::new();
    crate::frame::push_bytes(&mut out, t.as_bytes());
    assert(out@ =~= encode_utf8(t@));
    out
}

/// The confirmation frame for (un)subscribing a channel.
fn sub_frame(kind: &str, channel: &Vec<u8>, count: usize) -> (r: Frame)
    ensures
        r@ == sub_reply(kind@, channel@, count as int),
{
    let mut items: Vec<Frame> = Vec::new();
    proof {
        lemma_frames_view(items@);
    }
    let k = Frame::BulkString(text_bytes(kind));
    proof {
        lemma_frames_view_push(items@, k);
    }
    items.push(k);
    let c = Frame::BulkString(copy_vec(channel));
    proof {
        lemma_frames_view_push(items@, c);
    }
    items.push(c);
    let n = Frame::Integer(count as i64);
    proof {
        lemma_frames_view_push(items@, n);
    }
    items.push(n);
    let r = Frame::Array(items);
    assert(frames_view(items@) =~= seq![
        FrameV::BulkString(encode_utf8(kind@)),
        FrameV::BulkString(channel@),
        FrameV::Integer(count as int as i64),
    ]);
    r
}

/// The index of the first channel in `subs` equal to `ch`.
fn position(subs: &Vec<Vec<u8>>, ch: &[u8]) -> (r: Option<usize>)
    ensures
        match r {
            Some(i) => i < subs@.len() && bytes_seq(subs@)[i as int] == ch@ && forall|j: int|
                0 <= j < i ==> bytes_seq(subs@)[j] != ch@,
            None => !bytes_seq(subs@).contains(ch@),
        },
{
    let mut i: usize = 0;
    while i < subs.len()
        invariant
            i <= subs@.len(),
            forall|j: int| 0 <= j < i ==> bytes_seq(subs@)[j] != ch@,
        decreases subs@.len() - i,
    {
        if bytes_eq(subs[i].as_slice(), ch) {
            return Some(i);
        }
        i = i + 1;
    }
    proof {
        if bytes_seq(subs@).contains(ch@) {
            let j = choose|j: int| 0 <= j < bytes_seq(subs@).len() && bytes_seq(subs@)[j] == ch@;
            assert(bytes_seq(subs@)[j] != ch@);
        }
    }
    None
}

/// Removing the first occurrence of `x`, found at index `i`.
proof fn lemma_remove_first(s: Seq<Seq<u8>>, x: Seq<u8>, i: int)
    requires
        0 <= i < s.len(),
        s[i] == x,
        forall|j: int| 0 <= j < i ==> s[j] != x,
    ensures
        remove_first(s, x) == s.remove(i),
    decreases i,
{
    if i == 0 {
        assert(s.drop_first() =~= s.remove(0));
    } else {
        lemma_remove_first(s.drop_first(), x, i - 1);
        assert(seq![s[0]] + s.drop_first().remove(i - 1) =~= s.remove(i));
    }
}

/// Removing the first occurrence of a value never lengthens a sequence.
proof fn lemma_remove_first_len(s: Seq<Seq<u8>>, x: Seq<u8>)
    ensures
        remove_first(s, x).len() <= s.len(),
    decreases s.len(),
{
    if s.len() > 0 && s[0] != x {
        lemma_remove_first_len(s.drop_first(), x);
    }
}

/// Unsubscribing never adds a subscription.
pub proof fn lemma_unsubscribe_len(subs: Seq<Seq<u8>>, chs: Seq<Seq<u8>>)
    ensures
        unsubscribe_step(subs, chs).0.len() <= subs.len(),
    decreases chs.len(),
{
    if chs.len() > 0 {
        lemma_remove_first_len(subs, chs[0]);
        lemma_unsubscribe_len(remove_first(subs, chs[0]), chs.drop_first());
    }
}

/// Removing a value that does not occur changes nothing.
proof fn lemma_remove_absent(s: Seq<Seq<u8>>, x: Seq<u8>)
    requires
        !s.contains(x),
    ensures
        remove_first(s, x) == s,
    decreases s.len(),
{
    if s.len() > 0 {
        assert(s[0] != x);
        assert(!s.drop_first().contains(x)) by {
            if s.drop_first().contains(x) {
                let j = choose|j: int| 0 <= j < s.drop_first().len() && s.drop_first()[j] == x;
                assert(s[j + 1] == x);
            }
        }
        lemma_remove_absent(s.drop_first(), x);
        assert(seq![s[0]] + s.drop_first() =~= s);
    }
}


/// A sequence without duplicates keeps none when its first element goes.
proof fn lemma_drop_first_no_duplicates(s: Seq<Seq<u8>>)
    requires
        s.len() > 0,
        s.no_duplicates(),
    ensures
        s.drop_first().no_duplicates(),
        !s.drop_first().contains(s[0]),
{
    assert forall|a: int, b: int| 0 <= a < s.drop_first().len() && 0 <= b < s.drop_first().len() && a != b implies s.drop_first()[a] != s.drop_first()[b] by {
        assert(s[a + 1] != s[b + 1]);
    }
    if s.drop_first().contains(s[0]) {
        let j = choose|j: int| 0 <= j < s.drop_first().len() && s.drop_first()[j] == s[0];
        assert(s[j + 1] == s[0]);
    }
}

/// UNSUBSCRIBE without channels leaves a connection with no subscription:
/// it confirms each channel it was subscribed to, in subscription order,
/// with the number of channels still left after it.
pub proof fn lemma_unsubscribe_all(subs: Seq<Seq<u8>>)
    requires
        subs.no_duplicates(),
    ensures
        unsubscribe_step(subs, subs).0.len() == 0,
        unsubscribe_step(subs, subs).1 == Seq::new(
            subs.len(),
            |i: int| sub_reply("unsubscribe"@, subs[i], subs.len() - 1 - i),
        ),
    decreases subs.len(),
{
    if subs.len() > 0 {
        let rest = subs.drop_first();
        lemma_remove_first(subs, subs[0], 0);
        assert(subs.remove(0) =~= rest);
        lemma_drop_first_no_duplicates(subs);
        lemma_unsubscribe_all(rest);
        assert(seq![sub_reply("unsubscribe"@, subs[0], rest.len() as int)] + unsubscribe_step(
            rest,
            rest,
        ).1 =~= Seq::new(subs.len(), |i: int| sub_reply("unsubscribe"@, subs[i], subs.len() - 1 - i)));
    }
}

/// SUBSCRIBE to distinct channels the connection is not subscribed to
/// confirms them in order, the count going up by one with each, and appends
/// them to the subscriptions.
pub proof fn lemma_subscribe_counts(subs: Seq<Seq<u8>>, chs: Seq<Seq<u8>>)
    requires
        chs.no_duplicates(),
        forall|i: int| 0 <= i < chs.len() ==> !subs.contains(#[trigger] chs[i]),
    ensures
        subscribe_step(subs, chs).0 == subs + chs,
        subscribe_step(subs, chs).1 == Seq::new(
            chs.len(),
            |i: int| sub_reply("subscribe"@, chs[i], subs.len() + i + 1),
        ),
    decreases chs.len(),
{
    if chs.len() == 0 {
        assert(subs + chs =~= subs);
        assert(subscribe_step(subs, chs).1 =~= Seq::new(
            chs.len(),
            |i: int| sub_reply("subscribe"@, chs[i], subs.len() + i + 1),
        ));
    } else {
        let c0 = chs[0];
        let rest = chs.drop_first();
        assert(!subs.contains(c0));
        let s1 = subs.push(c0);
        lemma_drop_first_no_duplicates(chs);
        assert forall|i: int| 0 <= i < rest.len() implies !s1.contains(#[trigger] rest[i]) by {
            assert(rest[i] == chs[i + 1]);
            assert(!subs.contains(chs[i + 1]));
            if s1.contains(rest[i]) {
                let j = choose|j: int| 0 <= j < s1.len() && s1[j] == rest[i];
                if j < subs.len() {
                    assert(subs[j] == rest[i]);
                } else {
                    assert(rest.contains(c0));
                }
            }
        }
        lemma_subscribe_counts(s1, rest);
        assert(s1 + rest =~= subs + chs);
        assert(seq![sub_reply("subscribe"@, c0, s1.len() as int)] + Seq::new(
            rest.len(),
            |i: int| sub_reply("subscribe"@, rest[i], s1.len() + i + 1),
        ) =~= Seq::new(chs.len(), |i: int| sub_reply("subscribe"@, chs[i], subs.len() + i + 1)));
    }
}

/// UNSUBSCRIBE from distinct channels the connection is subscribed to
/// confirms them in order, the count going down by one with each.
pub proof fn lemma_unsubscribe_counts(subs: Seq<Seq<u8>>, chs: Seq<Seq<u8>>)
    requires
        subs.no_duplicates(),
        chs.no_duplicates(),
        forall|i: int| 0 <= i < chs.len() ==> subs.contains(#[trigger] chs[i]),
    ensures
        unsubscribe_step(subs, chs).1 == Seq::new(
            chs.len(),
            |i: int| sub_reply("unsubscribe"@, chs[i], subs.len() - i - 1),
        ),
    decreases chs.len(),
{
    if chs.len() == 0 {
        assert(unsubscribe_step(subs, chs).1 =~= Seq::new(
            chs.len(),
            |i: int| sub_reply("unsubscribe"@, chs[i], subs.len() - i - 1),
        ));
    } else {
        let c0 = chs[0];
        let rest = chs.drop_first();
        assert(subs.contains(c0));
        let k = choose|k: int| 0 <= k < subs.len() && subs[k] == c0;
        assert forall|j: int| 0 <= j < k implies subs[j] != c0 by {}
        lemma_remove_first(subs, c0, k);
        let s1 = remove_first(subs, c0);
        assert(s1 =~= subs.remove(k));
        assert(s1.no_duplicates()) by {
            assert forall|a: int, b: int| 0 <= a < s1.len() && 0 <= b < s1.len() && a != b implies s1[a] != s1[b] by {
                let a0 = if a < k { a } else { a + 1 };
                let b0 = if b < k { b } else { b + 1 };
                assert(s1[a] == subs[a0]);
                assert(s1[b] == subs[b0]);
            }
        }
        lemma_drop_first_no_duplicates(chs);
        assert forall|i: int| 0 <= i < rest.len() implies s1.contains(#[trigger] rest[i]) by {
            assert(rest[i] == chs[i + 1]);
            assert(subs.contains(chs[i + 1]));
            let j = choose|j: int| 0 <= j < subs.len() && subs[j] == rest[i];
            assert(j != k) by {
                if j == k {
                    assert(rest.contains(c0));
                }
            }
            if j < k {
                assert(s1[j] == rest[i]);
            } else {
                assert(s1[j - 1] == rest[i]);
            }
        }
        lemma_unsubscribe_counts(s1, rest);
        assert(seq![sub_reply("unsubscribe"@, c0, s1.len() as int)] + Seq::new(
            rest.len(),
            |i: int| sub_reply("unsubscribe"@, rest[i], s1.len() - i - 1),
        ) =~= Seq::new(chs.len(), |i: int| sub_reply("unsubscribe"@, chs[i], subs.len() - i - 1)));
    }
}

/// The channels named up to index `i` are the first one and those of the
/// rest up to index `i - 1`.
proof fn lemma_take_set(chs: Seq<Seq<u8>>, i: int)
    requires
        0 <= i < chs.len(),
    ensures
        chs.take(i + 1).to_set() == chs.drop_first().take(i).to_set().insert(chs[0]),
{
    let rest = chs.drop_first();
    let front = chs.take(i + 1);
    let back = rest.take(i);
    assert(front =~= seq![chs[0]] + back);
    assert forall|x: Seq<u8>| front.contains(x) == (x == chs[0] || back.contains(x)) by {
        if back.contains(x) {
            let k = choose|k: int| 0 <= k < back.len() && back[k] == x;
            assert(front[k + 1] == x);
        }
        if front.contains(x) && x != chs[0] {
            let k = choose|k: int| 0 <= k < front.len() && front[k] == x;
            assert(back[k - 1] == x);
        }
        if x == chs[0] {
            assert(front[0] == x);
        }
    }
    assert(chs.take(i + 1).to_set() =~= rest.take(i).to_set().insert(chs[0]));
}

/// SUBSCRIBE confirms each named channel with the number of distinct
/// channels among the earlier subscriptions and the channels named up to
/// and including it; the subscriptions afterwards are those channels.
pub proof fn lemma_subscribe_counts_any(subs: Seq<Seq<u8>>, chs: Seq<Seq<u8>>)
    requires
        subs.no_duplicates(),
    ensures
        subscribe_step(subs, chs).0.no_duplicates(),
        subscribe_step(subs, chs).0.to_set() == subs.to_set() + chs.to_set(),
        subscribe_step(subs, chs).1.len() == chs.len(),
        forall|i: int|
            0 <= i < chs.len() ==> #[trigger] subscribe_step(subs, chs).1[i] == sub_reply(
                "subscribe"@,
                chs[i],
                (subs.to_set() + chs.take(i + 1).to_set()).len() as int,
            ),
    decreases chs.len(),
{
    broadcast use vstd::seq_lib::seq_to_set_is_finite;

    if chs.len() == 0 {
        assert(chs.to_set() =~= Set::<Seq<u8>>::empty());
        assert(subs.to_set() + chs.to_set() =~= subs.to_set());
    } else {
        let c0 = chs[0];
        let rest = chs.drop_first();
        let s1 = if subs.contains(c0) { subs } else { subs.push(c0) };
        assert(s1.no_duplicates()) by {
            if !subs.contains(c0) {
                assert forall|a: int, b: int| 0 <= a < s1.len() && 0 <= b < s1.len() && a != b implies s1[a] != s1[b] by {
                    if a == subs.len() as int && subs[b] == c0 {
                        assert(subs.contains(c0));
                    } else if b == subs.len() as int && subs[a] == c0 {
                        assert(subs.contains(c0));
                    }
                }
            }
        }
        assert(s1.to_set() =~= subs.to_set().insert(c0)) by {
            if !subs.contains(c0) {
                assert forall|x: Seq<u8>| s1.contains(x) == (subs.contains(x) || x == c0) by {
                    if subs.contains(x) {
                        let k = choose|k: int| 0 <= k < subs.len() && subs[k] == x;
                        assert(s1[k] == x);
                    }
                    if x == c0 {
                        assert(s1[subs.len() as int] == x);
                    }
                    if s1.contains(x) && x != c0 {
                        let k = choose|k: int| 0 <= k < s1.len() && s1[k] == x;
                        assert(subs[k] == x);
                    }
                }
            }
        }
        s1.unique_seq_to_set();
        lemma_subscribe_counts_any(s1, rest);
        let r = subscribe_step(subs, chs);
        let r1 = subscribe_step(s1, rest);
        assert(r.0 == r1.0);
        assert(r.1 == seq![sub_reply("subscribe"@, c0, s1.len() as int)] + r1.1);
        assert forall|x: Seq<u8>| chs.contains(x) == (x == c0 || rest.contains(x)) by {
            if rest.contains(x) {
                let k = choose|k: int| 0 <= k < rest.len() && rest[k] == x;
                assert(chs[k + 1] == x);
            }
            if chs.contains(x) && x != c0 {
                let k = choose|k: int| 0 <= k < chs.len() && chs[k] == x;
                assert(rest[k - 1] == x);
            }
        }
        assert(r.0.to_set() =~= subs.to_set() + chs.to_set());
        assert forall|i: int| 0 <= i < chs.len() implies #[trigger] r.1[i] == sub_reply(
            "subscribe"@,
            chs[i],
            (subs.to_set() + chs.take(i + 1).to_set()).len() as int,
        ) by {
            lemma_take_set(chs, i);
            if i == 0 {
                assert(rest.take(0) =~= Seq::<Seq<u8>>::empty());
                assert(subs.to_set() + chs.take(1).to_set() =~= s1.to_set());
            } else {
                assert(r.1[i] == r1.1[i - 1]);
                assert(rest[i - 1] == chs[i]);
                lemma_take_set(chs, i);
                assert(s1.to_set() + rest.take(i).to_set() =~= subs.to_set() + chs.take(i + 1).to_set());
            }
        }
    }
}

/// UNSUBSCRIBE confirms each named channel with the number of the earlier
/// subscriptions that are not among the channels named up to and
/// including it; the subscriptions afterwards are the earlier ones less
/// all the channels named.
pub proof fn lemma_unsubscribe_counts_any(subs: Seq<Seq<u8>>, chs: Seq<Seq<u8>>)
    requires
        subs.no_duplicates(),
    ensures
        unsubscribe_step(subs, chs).0.no_duplicates(),
        unsubscribe_step(subs, chs).0.to_set() == subs.to_set() - chs.to_set(),
        unsubscribe_step(subs, chs).1.len() == chs.len(),
        forall|i: int|
            0 <= i < chs.len() ==> #[trigger] unsubscribe_step(subs, chs).1[i] == sub_reply(
                "unsubscribe"@,
                chs[i],
                (subs.to_set() - chs.take(i + 1).to_set()).len() as int,
            ),
    decreases chs.len(),
{
    broadcast use vstd::seq_lib::seq_to_set_is_finite;

    if chs.len() == 0 {
        assert(chs.to_set() =~= Set::<Seq<u8>>::empty());
        assert(subs.to_set() - chs.to_set() =~= subs.to_set());
    } else {
        let c0 = chs[0];
        let rest = chs.drop_first();
        let s1 = remove_first(subs, c0);
        if subs.contains(c0) {
            let k = choose|k: int| 0 <= k < subs.len() && subs[k] == c0;
            assert forall|j: int| 0 <= j < k implies subs[j] != c0 by {}
            lemma_remove_first(subs, c0, k);
            assert(s1 =~= subs.remove(k));
            assert(s1.no_duplicates()) by {
                assert forall|a: int, b: int| 0 <= a < s1.len() && 0 <= b < s1.len() && a != b implies s1[a] != s1[b] by {
                    let a0 = if a < k { a } else { a + 1 };
                    let b0 = if b < k { b } else { b + 1 };
                    assert(s1[a] == subs[a0]);
                    assert(s1[b] == subs[b0]);
                }
            }
            assert forall|x: Seq<u8>| s1.contains(x) == (subs.contains(x) && x != c0) by {
                if s1.contains(x) {
                    let j = choose|j: int| 0 <= j < s1.len() && s1[j] == x;
                    let j0 = if j < k { j } else { j + 1 };
                    assert(subs[j0] == x);
                    assert(j0 != k);
                }
                if subs.contains(x) && x != c0 {
                    let j = choose|j: int| 0 <= j < subs.len() && subs[j] == x;
                    if j < k {
                        assert(s1[j] == x);
                    } else {
                        assert(j != k);
                        assert(s1[j - 1] == x);
                    }
                }
            }
        } else {
            lemma_remove_absent(subs, c0);
        }
        assert(s1.to_set() =~= subs.to_set().remove(c0));
        s1.unique_seq_to_set();
        lemma_unsubscribe_counts_any(s1, rest);
        let r = unsubscribe_step(subs, chs);
        let r1 = unsubscribe_step(s1, rest);
        assert(r.0 == r1.0);
        assert(r.1 == seq![sub_reply("unsubscribe"@, c0, s1.len() as int)] + r1.1);
        assert forall|x: Seq<u8>| chs.contains(x) == (x == c0 || rest.contains(x)) by {
            if rest.contains(x) {
                let k = choose|k: int| 0 <= k < rest.len() && rest[k] == x;
                assert(chs[k + 1] == x);
            }
            if chs.contains(x) && x != c0 {
                let k = choose|k: int| 0 <= k < chs.len() && chs[k] == x;
                assert(rest[k - 1] == x);
            }
        }
        assert(r.0.to_set() =~= subs.to_set() - chs.to_set());
        assert forall|i: int| 0 <= i < chs.len() implies #[trigger] r.1[i] == sub_reply(
            "unsubscribe"@,
            chs[i],
            (subs.to_set() - chs.take(i + 1).to_set()).len() as int,
        ) by {
            lemma_take_set(chs, i);
            if i == 0 {
                assert(rest.take(0) =~= Seq::<Seq<u8>>::empty());
                assert(subs.to_set() - chs.take(1).to_set() =~= s1.to_set());
            } else {
                assert(r.1[i] == r1.1[i - 1]);
                assert(rest[i - 1] == chs[i]);
                assert(s1.to_set() - rest.take(i).to_set() =~= subs.to_set() - chs.take(i + 1).to_set());
            }
        }
    }
}

/// Subscribing keeps the earlier subscriptions in front and appends, once
/// each, channels that were named and not subscribed yet.
pub proof fn lemma_subscribe_appends(subs: Seq<Seq<u8>>, chs: Seq<Seq<u8>>)
    ensures
        ({
            let r = subscribe_step(subs, chs).0;
            &&& r.len() >= subs.len()
            &&& r.take(subs.len() as int) == subs
            &&& r.skip(subs.len() as int).no_duplicates()
            &&& forall|i: int| subs.len() <= i < r.len() ==> chs.contains(#[trigger] r[i]) && !subs.contains(r[i])
        }),
    decreases chs.len(),
{
    if chs.len() > 0 {
        let c0 = chs[0];
        let rest = chs.drop_first();
        let s1 = if subs.contains(c0) { subs } else { subs.push(c0) };
        lemma_subscribe_appends(s1, rest);
        let r = subscribe_step(subs, chs).0;
        assert(r == subscribe_step(s1, rest).0);
        assert(r.take(subs.len() as int) =~= subs) by {
            assert(r.take(s1.len() as int) == s1);
            assert forall|i: int| 0 <= i < subs.len() implies r[i] == subs[i] by {
                assert(r.take(s1.len() as int)[i] == s1[i]);
            }
        }
        assert forall|i: int| subs.len() <= i < r.len() implies chs.contains(#[trigger] r[i]) && !subs.contains(r[i]) by {
            if i < s1.len() {
                assert(r.take(s1.len() as int)[i] == s1[i]);
                assert(r[i] == c0);
                assert(chs[0] == c0);
            } else {
                let j = choose|j: int| 0 <= j < rest.len() && rest[j] == r[i];
                assert(chs[j + 1] == r[i]);
                assert(!s1.contains(r[i]));
                if subs.contains(r[i]) {
                    let k = choose|k: int| 0 <= k < subs.len() && subs[k] == r[i];
                    assert(s1[k] == r[i]);
                }
            }
        }
        assert(r.skip(subs.len() as int).no_duplicates()) by {
            let t = r.skip(subs.len() as int);
            assert forall|a: int, b: int| 0 <= a < t.len() && 0 <= b < t.len() && a != b implies t[a] != t[b] by {
                let ia = a + subs.len();
                let ib = b + subs.len();
                if ia >= s1.len() && ib >= s1.len() {
                    assert(r.skip(s1.len() as int)[ia - s1.len()] == r[ia]);
                    assert(r.skip(s1.len() as int)[ib - s1.len()] == r[ib]);
                } else if ia < s1.len() {
                    assert(r.take(s1.len() as int)[ia] == s1[ia]);
                    assert(!s1.contains(r[ib]));
                    assert(s1[ia] == r[ia]);
                } else {
                    assert(r.take(s1.len() as int)[ib] == s1[ib]);
                    assert(!s1.contains(r[ia]));
                    assert(s1[ib] == r[ib]);
                }
            }
        }
    }
}

/// Removing a value that is not in the front part only touches the back.
proof fn lemma_remove_first_append(p: Seq<Seq<u8>>, t: Seq<Seq<u8>>, x: Seq<u8>)
    requires
        !p.contains(x),
    ensures
        remove_first(p + t, x) == p + remove_first(t, x),
    decreases p.len(),
{
    if p.len() == 0 {
        assert(p + t =~= t);
        assert(p + remove_first(t, x) =~= remove_first(t, x));
    } else {
        assert((p + t)[0] == p[0]);
        assert((p + t).drop_first() =~= p.drop_first() + t);
        assert(!p.drop_first().contains(x)) by {
            if p.drop_first().contains(x) {
                let j = choose|j: int| 0 <= j < p.drop_first().len() && p.drop_first()[j] == x;
                assert(p[j + 1] == x);
            }
        }
        lemma_remove_first_append(p.drop_first(), t, x);
        assert(seq![p[0]] + (p.drop_first() + remove_first(t, x)) =~= p + remove_first(t, x));
    }
}

/// Unsubscribing channels that are not in the front part only touches the
/// back.
proof fn lemma_unsubscribe_append(p: Seq<Seq<u8>>, t: Seq<Seq<u8>>, chs: Seq<Seq<u8>>)
    requires
        forall|i: int| 0 <= i < chs.len() ==> !p.contains(#[trigger] chs[i]),
    ensures
        unsubscribe_step(p + t, chs).0 == p + unsubscribe_step(t, chs).0,
    decreases chs.len(),
{
    if chs.len() > 0 {
        assert(!p.contains(chs[0]));
        lemma_remove_first_append(p, t, chs[0]);
        assert forall|i: int| 0 <= i < chs.drop_first().len() implies !p.contains(#[trigger] chs.drop_first()[i]) by {
            assert(chs.drop_first()[i] == chs[i + 1]);
        }
        lemma_unsubscribe_append(p, remove_first(t, chs[0]), chs.drop_first());
    }
}

/// Unsubscribing from channels that cover every subscription of a list
/// without duplicates empties it.
proof fn lemma_unsubscribe_covering(t: Seq<Seq<u8>>, chs: Seq<Seq<u8>>)
    requires
        t.no_duplicates(),
        forall|i: int| 0 <= i < t.len() ==> chs.contains(#[trigger] t[i]),
    ensures
        unsubscribe_step(t, chs).0.len() == 0,
    decreases chs.len(),
{
    if chs.len() == 0 {
        if t.len() > 0 {
            assert(chs.contains(t[0]));
        }
    } else {
        let c0 = chs[0];
        let rest = chs.drop_first();
        let t1 = remove_first(t, c0);
        if t.contains(c0) {
            let i = choose|i: int| 0 <= i < t.len() && t[i] == c0;
            assert forall|j: int| 0 <= j < i implies t[j] != c0 by {}
            lemma_remove_first(t, c0, i);
            assert forall|a: int, b: int| 0 <= a < t1.len() && 0 <= b < t1.len() && a != b implies t1[a] != t1[b] by {
                let a0 = if a < i { a } else { a + 1 };
                let b0 = if b < i { b } else { b + 1 };
                assert(t1[a] == t[a0]);
                assert(t1[b] == t[b0]);
            }
            assert forall|j: int| 0 <= j < t1.len() implies rest.contains(#[trigger] t1[j]) by {
                let j0 = if j < i { j } else { j + 1 };
                assert(t1[j] == t[j0]);
                assert(t[j0] != c0);
                let k = choose|k: int| 0 <= k < chs.len() && chs[k] == t[j0];
                assert(rest[k - 1] == t1[j]);
            }
        } else {
            lemma_remove_absent(t, c0);
            assert forall|j: int| 0 <= j < t1.len() implies rest.contains(#[trigger] t1[j]) by {
                assert(t[j] != c0) by {
                    if t[j] == c0 {
                        assert(t.contains(c0));
                    }
                }
                let k = choose|k: int| 0 <= k < chs.len() && chs[k] == t[j];
                assert(rest[k - 1] == t1[j]);
            }
        }
        lemma_unsubscribe_covering(t1, rest);
    }
}

/// UNSUBSCRIBE undoes SUBSCRIBE: subscribing to channels the connection was
/// not subscribed to and then unsubscribing from the same channels gives
/// back the subscriptions it had.
pub proof fn lemma_unsubscribe_undoes_subscribe(subs: Seq<Seq<u8>>, chs: Seq<Seq<u8>>)
    requires
        forall|i: int| 0 <= i < chs.len() ==> !subs.contains(#[trigger] chs[i]),
    ensures
        unsubscribe_step(subscribe_step(subs, chs).0, chs).0 == subs,
{
    let r = subscribe_step(subs, chs).0;
    lemma_subscribe_appends(subs, chs);
    let t = r.skip(subs.len() as int);
    assert(r =~= subs + t) by {
        assert forall|i: int| 0 <= i < subs.len() implies r[i] == subs[i] by {
            assert(r.take(subs.len() as int)[i] == subs[i]);
        }
    }
    lemma_unsubscribe_append(subs, t, chs);
    assert forall|i: int| 0 <= i < t.len() implies chs.contains(#[trigger] t[i]) by {
        assert(t[i] == r[i + subs.len()]);
    }
    lemma_unsubscribe_covering(t, chs);
    assert(subs + unsubscribe_step(t, chs).0 =~= subs);
}

/// The two states are the same: subscriptions, mode and transaction.
pub open spec fn unchanged(a: &ClientSession, b: &ClientSession) -> bool {
    &&& same_subscriptions(a, b)
    &&& a.transaction() == b.transaction()
    &&& a.transaction_refused() == b.transaction_refused()
}

/// The two states hold the same subscriptions in the same mode.
pub open spec fn same_subscriptions(a: &ClientSession, b: &ClientSession) -> bool {
    a.subscriptions() == b.subscriptions() && a.subscribed_mode() == b.subscribed_mode()
}

/// What a parsed request does to a connection: the state `post` it leaves
/// after `pre` and the action `a` it gives.
pub open spec fn request_step(
    pre: &ClientSession,
    post: &ClientSession,
    parsed: Result<Command, String>,
    a: Action,
) -> bool {
    match parsed {
        Err(msg) => {
            &&& same_subscriptions(pre, post)
            &&& post.transaction() == pre.transaction()
            &&& post.transaction_refused() == (pre.transaction() is Some)
            &&& error_reply(a, msg@)
        },
        Ok(cmd) => if pre.subscribed_mode() && !allowed_when_subscribed(cmd) {
            &&& unchanged(pre, post)
            &&& error_reply(a, not_allowed_text())
        } else if pre.transaction() is Some {
            transaction_step(pre, post, cmd, a)
        } else {
            normal_step(pre, post, cmd, a)
        },
    }
}

/// A subscribed client may send only SUBSCRIBE, UNSUBSCRIBE and PING: any
/// other command (a store command but PING, PUBLISH, or a transaction
/// command) is refused with the not-allowed error and changes nothing,
/// while PING still goes to the store.
pub proof fn lemma_subscription_mode(pre: &ClientSession, post: &ClientSession, cmd: Command, a: Action)
    requires
        pre.wf(),
        pre.subscribed_mode(),
        request_step(pre, post, Ok(cmd), a),
    ensures
        !(cmd matches Command::PubSub(PubSubCommand::Subscribe(_)))
            && !(cmd matches Command::PubSub(PubSubCommand::Unsubscribe(_)))
            && !(cmd matches Command::Store(StoreCommand::Ping(_))) ==> {
            &&& unchanged(pre, post)
            &&& a matches Action::Reply(fs) && frames_view(fs@) == seq![
                FrameV::Error("ERR Command not allowed in subscription mode"@),
            ]
        },
        cmd matches Command::Store(StoreCommand::Ping(_)) ==> {
            &&& unchanged(pre, post)
            &&& a == Action::Store(cmd->Store_0)
        },
{
}

/// What a request `cmd` inside a transaction does: the state it leaves
/// and the action `a` it gives.
pub open spec fn transaction_step(pre: &ClientSession, post: &ClientSession, cmd: Command, a: Action) -> bool {
    let queue = pre.transaction()->Some_0;
    match cmd {
        Command::Transaction(TransactionCommand::Multi) => {
            &&& unchanged(pre, post)
            &&& error_reply(a, nested_multi_text())
        },
        Command::Transaction(TransactionCommand::Exec) => {
            &&& same_subscriptions(pre, post)
            &&& post.transaction() is None
            &&& !post.transaction_refused()
            &&& if pre.transaction_refused() {
                error_reply(a, exec_abort_text())
            } else {
                a matches Action::Exec(cmds) && cmds@ == queue
            }
        },
        Command::Transaction(TransactionCommand::Discard) => {
            &&& same_subscriptions(pre, post)
            &&& post.transaction() is None
            &&& !post.transaction_refused()
            &&& simple_reply(a, "OK"@)
        },
        Command::Store(c) => {
            &&& same_subscriptions(pre, post)
            &&& post.transaction() == Some(queue.push(c))
            &&& post.transaction_refused() == pre.transaction_refused()
            &&& simple_reply(a, "QUEUED"@)
        },
        Command::PubSub(_) => {
            &&& same_subscriptions(pre, post)
            &&& post.transaction() == pre.transaction()
            &&& post.transaction_refused()
            &&& error_reply(a, pubsub_in_transaction_text())
        },
    }
}

/// What a request `cmd` outside a transaction does: the state it leaves
/// and the action `a` it gives.
pub open spec fn normal_step(pre: &ClientSession, post: &ClientSession, cmd: Command, a: Action) -> bool {
    match cmd {
        Command::Transaction(TransactionCommand::Multi) => {
            &&& same_subscriptions(pre, post)
            &&& post.transaction() == Some(Seq::<StoreCommand>::empty())
            &&& !post.transaction_refused()
            &&& simple_reply(a, "OK"@)
        },
        Command::Transaction(TransactionCommand::Exec) => {
            &&& unchanged(pre, post)
            &&& error_reply(a, exec_without_multi_text())
        },
        Command::Transaction(TransactionCommand::Discard) => {
            &&& unchanged(pre, post)
            &&& error_reply(a, discard_without_multi_text())
        },
        Command::PubSub(PubSubCommand::Subscribe(chs)) => {
            let r = subscribe_step(pre.subscriptions(), bytes_seq(chs@));
            &&& post.subscriptions() == r.0
            &&& post.subscribed_mode()
            &&& post.transaction() is None
            &&& a matches Action::Subscribe { channels, replies } && bytes_seq(channels@) == r.0.skip(
                pre.subscriptions().len() as int,
            ) && frames_view(replies@) == r.1
        },
        Command::PubSub(PubSubCommand::Unsubscribe(opt)) => {
            let to = match opt {
                Some(chs) => bytes_seq(chs@),
                None => pre.subscriptions(),
            };
            let r = unsubscribe_step(pre.subscriptions(), to);
            &&& post.subscriptions() == r.0
            &&& post.subscribed_mode() == (pre.subscribed_mode() && r.0.len() > 0)
            &&& post.transaction() is None
            &&& a matches Action::Unsubscribe { channels, replies } && bytes_seq(channels@) == to
                && frames_view(replies@) == r.1
        },
        Command::PubSub(PubSubCommand::Publish { channel, message }) => {
            &&& unchanged(pre, post)
            &&& a == Action::Publish { channel, message }
        },
        Command::Store(c) => {
            &&& unchanged(pre, post)
            &&& a == Action::Store(c)
        },
    }
}

/// A vector holding the one frame `f`.
fn one_frame(f: Frame) -> (r: Vec<Frame>)
    ensures
        frames_view(r@) == seq![f@],
{
    let mut v: Vec<Frame> = Vec::new();
    proof {
        lemma_frames_view(v@);
        lemma_frames_view_push(v@, f);
    }
    v.push(f);
    assert(frames_view(v@) =~= seq![f@]);
    v
}

/// A copy of a list of byte strings.
fn copy_all(v: &Vec<Vec<u8>>) -> (r: Vec<Vec<u8>>)
    ensures
        bytes_seq(r@) == bytes_seq(v@),
{
    let mut out: Vec<Vec<u8>> = Vec::new();
    let mut i: usize = 0;
    while i < v.len()
        invariant
            i <= v@.len(),
            bytes_seq(out@) == bytes_seq(v@).take(i as int),
        decreases v@.len() - i,
    {
        let c = copy_vec(&v[i]);
        let ghost before = out@;
        out.push(c);
        assert(bytes_seq(out@) =~= bytes_seq(before).push(v@[i as int]@));
        assert(bytes_seq(v@).take(i + 1) =~= bytes_seq(v@).take(i as int).push(v@[i as int]@));
        i = i + 1;
    }
    assert(bytes_seq(v@).take(i as int) =~= bytes_seq(v@));
    out
}

impl ClientSession {
    /// The channels this connection is subscribed to, in subscription order.
    pub closed spec fn subscriptions(&self) -> Seq<Seq<u8>> {
        bytes_seq(self.subs@)
    }

    /// Is the connection in publish/subscribe mode?
    pub closed spec fn subscribed_mode(&self) -> bool {
        self.mode is Subscription
    }

    /// Inside a transaction, the commands queued so far, in order; outside
    /// one, `None`.
    pub closed spec fn transaction(&self) -> Option<Seq<StoreCommand>> {
        match self.queued {
            Some(v) => Some(v@),
            None => None,
        }
    }

    /// Was a command of the current transaction refused?
    pub closed spec fn transaction_refused(&self) -> bool {
        self.refused
    }

    /// No channel is listed twice, a connection with a subscription is in
    /// publish/subscribe mode, a transaction never runs in that mode, and
    /// only a transaction can have a refused command.
    pub open spec fn wf(&self) -> bool {
        &&& self.subscriptions().no_duplicates()
        &&& self.subscriptions().len() > 0 ==> self.subscribed_mode()
        &&& self.transaction() is Some ==> !self.subscribed_mode()
        &&& self.transaction_refused() ==> self.transaction() is Some
    }

    /// A new connection: normal mode, no subscriptions, no transaction.
    pub fn new() -> (r: Self)
        ensures
            r.wf(),
            !r.subscribed_mode(),
            r.subscriptions() == Seq::<Seq<u8>>::empty(),
            r.transaction() is None,
    {
        let r = ClientSession { mode: RedisMode::Normal, subs: Vec::new(), queued: None, refused: false };
        assert(r.subscriptions() =~= Seq::<Seq<u8>>::empty());
        r
    }

    /// Is the connection inside a transaction?
    pub fn in_transaction(&self) -> (r: bool)
        ensures
            r == (self.transaction() is Some),
    {
        self.queued.is_some()
    }

    /// Is the connection in publish/subscribe mode?
    pub fn in_subscription_mode(&self) -> (r: bool)
        ensures
            r == self.subscribed_mode(),
    {
        match self.mode {
            RedisMode::Subscription => true,
            RedisMode::Normal => false,
        }
    }


    /// Subscribes to `chs` one by one and returns the confirmations and the
    /// channels that were not subscribed before, in the order they were
    /// added.
    fn subscribe_channels(&mut self, chs: &Vec<Vec<u8>>) -> (r: (Vec<Frame>, Vec<Vec<u8>>))
        requires
            old(self).subscriptions().no_duplicates(),
        ensures
            final(self).subscriptions().no_duplicates(),
            final(self).mode == old(self).mode,
            final(self).queued == old(self).queued,
            final(self).refused == old(self).refused,
            (final(self).subscriptions(), frames_view(r.0@)) == subscribe_step(
                old(self).subscriptions(),
                bytes_seq(chs@),
            ),
            bytes_seq(r.1@) == final(self).subscriptions().skip(old(self).subscriptions().len() as int),
    {
        let ghost all = bytes_seq(chs@);
        let ghost pre = self.subscriptions();
        let mut replies: Vec<Frame> = Vec::new();
        let mut added: Vec<Vec<u8>> = Vec::new();
        let mut i: usize = 0;
        proof {
            lemma_frames_view(replies@);
            assert(all.skip(0) =~= all);
            let r = subscribe_step(pre, all);
            assert(Seq::<FrameV>::empty() + r.1 =~= r.1);
            assert(bytes_seq(added@) =~= self.subscriptions().skip(pre.len() as int));
        }
        while i < chs.len()
            invariant
                i <= chs@.len(),
                all == bytes_seq(chs@),
                self.subscriptions().no_duplicates(),
                self.subscriptions().len() >= pre.len(),
                self.subscriptions().take(pre.len() as int) == pre,
                bytes_seq(added@) == self.subscriptions().skip(pre.len() as int),
                self.mode == old(self).mode,
                self.queued == old(self).queued,
                self.refused == old(self).refused,
                subscribe_step(pre, all) == (
                    subscribe_step(self.subscriptions(), all.skip(i as int)).0,
                    frames_view(replies@) + subscribe_step(self.subscriptions(), all.skip(i as int)).1,
                ),
            decreases chs@.len() - i,
        {
            let ghost cur = self.subscriptions();
            let ch = &chs[i];
            assert(all.skip(i as int)[0] == ch@);
            assert(all.skip(i as int).drop_first() =~= all.skip(i + 1));
            if position(&self.subs, ch.as_slice()).is_none() {
                let c = copy_vec(ch);
                self.subs.push(c);
                assert(self.subscriptions() =~= cur.push(ch@));
                let ghost before_added = added@;
                added.push(copy_vec(ch));
                assert(bytes_seq(added@) =~= bytes_seq(before_added).push(ch@));
                assert(self.subscriptions().skip(pre.len() as int) =~= cur.skip(pre.len() as int).push(ch@));
                assert(self.subscriptions().take(pre.len() as int) =~= cur.take(pre.len() as int));
                assert(self.subscriptions().no_duplicates()) by {
                    assert forall|a: int, b: int|
                        0 <= a < self.subscriptions().len() && 0 <= b < self.subscriptions().len() && a
                            != b implies self.subscriptions()[a] != self.subscriptions()[b] by {
                        if a == cur.len() as int {
                            assert(cur[b] != ch@) by {
                                if cur[b] == ch@ {
                                    assert(cur.contains(ch@));
                                }
                            }
                        } else if b == cur.len() as int {
                            assert(cur[a] != ch@) by {
                                if cur[a] == ch@ {
                                    assert(cur.contains(ch@));
                                }
                            }
                        }
                    }
                }
            }
            let f = sub_frame("subscribe", ch, self.subs.len());
            proof {
                lemma_frames_view_push(replies@, f);
                let rest = subscribe_step(self.subscriptions(), all.skip(i + 1));
                assert(frames_view(replies@).push(f@) + rest.1 =~= frames_view(replies@) + (seq![
                    f@,
                ] + rest.1));
            }
            replies.push(f);
            i = i + 1;
        }
        proof {
            assert(all.skip(i as int) =~= Seq::<Seq<u8>>::empty());
            assert(frames_view(replies@) + Seq::<FrameV>::empty() =~= frames_view(replies@));
        }
        (replies, added)
    }

    /// Unsubscribes from `chs` one by one and returns the confirmations.
    fn unsubscribe_channels(&mut self, chs: &Vec<Vec<u8>>) -> (r: Vec<Frame>)
        requires
            old(self).subscriptions().no_duplicates(),
        ensures
            final(self).subscriptions().no_duplicates(),
            final(self).mode == old(self).mode,
            final(self).queued == old(self).queued,
            final(self).refused == old(self).refused,
            (final(self).subscriptions(), frames_view(r@)) == unsubscribe_step(
                old(self).subscriptions(),
                bytes_seq(chs@),
            ),
    {
        let ghost all = bytes_seq(chs@);
        let ghost pre = self.subscriptions();
        let mut replies: Vec<Frame> = Vec::new();
        let mut i: usize = 0;
        proof {
            lemma_frames_view(replies@);
            assert(all.skip(0) =~= all);
            let r = unsubscribe_step(pre, all);
            assert(Seq::<FrameV>::empty() + r.1 =~= r.1);
        }
        while i < chs.len()
            invariant
                i <= chs@.len(),
                all == bytes_seq(chs@),
                self.subscriptions().no_duplicates(),
                self.mode == old(self).mode,
                self.queued == old(self).queued,
                self.refused == old(self).refused,
                unsubscribe_step(pre, all) == (
                    unsubscribe_step(self.subscriptions(), all.skip(i as int)).0,
                    frames_view(replies@) + unsubscribe_step(self.subscriptions(), all.skip(i as int)).1,
                ),
            decreases chs@.len() - i,
        {
            let ghost cur = self.subscriptions();
            let ch = &chs[i];
            assert(all.skip(i as int)[0] == ch@);
            assert(all.skip(i as int).drop_first() =~= all.skip(i + 1));
            match position(&self.subs, ch.as_slice()) {
                Some(k) => {
                    let _gone = self.subs.remove(k);
                    proof {
                        lemma_remove_first(cur, ch@, k as int);
                        assert(self.subscriptions() =~= cur.remove(k as int));
                        assert(self.subscriptions().no_duplicates()) by {
                            assert forall|a: int, b: int|
                                0 <= a < self.subscriptions().len() && 0 <= b
                                    < self.subscriptions().len() && a != b implies self.subscriptions()[a]
                                != self.subscriptions()[b] by {
                                let a0 = if a < k { a } else { a + 1 };
                                let b0 = if b < k { b } else { b + 1 };
                                assert(self.subscriptions()[a] == cur[a0]);
                                assert(self.subscriptions()[b] == cur[b0]);
                            }
                        }
                    }
                },
                None => {
                    proof {
                        lemma_remove_absent(cur, ch@);
                    }
                },
            }
            let f = sub_frame("unsubscribe", ch, self.subs.len());
            proof {
                lemma_frames_view_push(replies@, f);
                let rest = unsubscribe_step(self.subscriptions(), all.skip(i + 1));
                assert(frames_view(replies@).push(f@) + rest.1 =~= frames_view(replies@) + (seq![
                    f@,
                ] + rest.1));
            }
            replies.push(f);
            i = i + 1;
        }
        proof {
            assert(all.skip(i as int) =~= Seq::<Seq<u8>>::empty());
            assert(frames_view(replies@) + Seq::<FrameV>::empty() =~= frames_view(replies@));
        }
        replies
    }


    /// Decides what to do with a parsed request (see [`Command::parse`]).
    /// An unparsable request is answered with its error (and, inside a
    /// transaction, marks it refused). A subscribed client may only send
    /// SUBSCRIBE, UNSUBSCRIBE and PING; SUBSCRIBE and UNSUBSCRIBE update the
    /// subscriptions and confirm each channel with the count after it.
    /// MULTI starts a transaction, which queues store commands until EXEC
    /// hands them over to run together, or DISCARD drops them.
    pub fn on_request(&mut self, parsed: Result<Command, String>) -> (a: Action)
        requires
            old(self).wf(),
        ensures
            final(self).wf(),
            request_step(old(self), final(self), parsed, a),
    {
        let cmd = match parsed {
            Err(msg) => {
                if self.queued.is_some() {
                    self.refused = true;
                }
                return Action::Reply(one_frame(Frame::Error(msg)));
            },
            Ok(cmd) => cmd,
        };
        if self.in_subscription_mode() {
            let allowed = match &cmd {
                Command::PubSub(PubSubCommand::Subscribe(_)) => true,
                Command::PubSub(PubSubCommand::Unsubscribe(_)) => true,
                Command::Store(StoreCommand::Ping(_)) => true,
                _ => false,
            };
            if !allowed {
                return Action::Reply(
                    one_frame(Frame::Error("ERR Command not allowed in subscription mode".to_owned())),
                );
            }
        }
        if self.queued.is_some() {
            self.transaction_request(cmd)
        } else {
            self.normal_request(cmd)
        }
    }

    /// A request inside a transaction.
    fn transaction_request(&mut self, cmd: Command) -> (a: Action)
        requires
            old(self).wf(),
            old(self).transaction() is Some,
        ensures
            final(self).wf(),
            transaction_step(old(self), final(self), cmd, a),
    {
        match cmd {
            Command::Transaction(TransactionCommand::Multi) => {
                Action::Reply(one_frame(Frame::Error("ERR MULTI calls can not be nested".to_owned())))
            },
            Command::Transaction(TransactionCommand::Exec) => {
                let queued = self.queued.take();
                let refused = self.refused;
                self.refused = false;
                if refused {
                    Action::Reply(
                        one_frame(
                            Frame::Error(
                                "EXECABORT Transaction discarded because of previous errors.".to_owned(),
                            ),
                        ),
                    )
                } else {
                    match queued {
                        Some(cmds) => Action::Exec(cmds),
                        None => Action::Exec(Vec::new()),
                    }
                }
            },
            Command::Transaction(TransactionCommand::Discard) => {
                self.queued = None;
                self.refused = false;
                Action::Reply(one_frame(Frame::SimpleString("OK".to_owned())))
            },
            Command::Store(c) => {
                let mut q = match self.queued.take() {
                    Some(q) => q,
                    None => Vec::new(),
                };
                q.push(c);
                self.queued = Some(q);
                Action::Reply(one_frame(Frame::SimpleString("QUEUED".to_owned())))
            },
            Command::PubSub(_) => {
                self.refused = true;
                Action::Reply(
                    one_frame(Frame::Error("ERR Command not allowed inside a transaction".to_owned())),
                )
            },
        }
    }

    /// A request outside a transaction.
    fn normal_request(&mut self, cmd: Command) -> (a: Action)
        requires
            old(self).wf(),
            old(self).transaction() is None,
            old(self).subscribed_mode() ==> allowed_when_subscribed(cmd),
        ensures
            final(self).wf(),
            normal_step(old(self), final(self), cmd, a),
    {
        match cmd {
            Command::Transaction(TransactionCommand::Multi) => {
                let empty: Vec<StoreCommand> = Vec::new();
                assert(empty@ =~= Seq::<StoreCommand>::empty());
                self.queued = Some(empty);
                self.refused = false;
                Action::Reply(one_frame(Frame::SimpleString("OK".to_owned())))
            },
            Command::Transaction(TransactionCommand::Exec) => {
                Action::Reply(one_frame(Frame::Error("ERR EXEC without MULTI".to_owned())))
            },
            Command::Transaction(TransactionCommand::Discard) => {
                Action::Reply(one_frame(Frame::Error("ERR DISCARD without MULTI".to_owned())))
            },
            Command::PubSub(PubSubCommand::Subscribe(requested)) => {
                let (replies, channels) = self.subscribe_channels(&requested);
                self.mode = RedisMode::Subscription;
                assert(self.subscribed_mode());
                assert(self.subscriptions().no_duplicates());
                Action::Subscribe { channels, replies }
            },
            Command::PubSub(PubSubCommand::Unsubscribe(opt)) => {
                let channels = match opt {
                    Some(chs) => chs,
                    None => copy_all(&self.subs),
                };
                let ghost before = old(self).subscriptions();
                let replies = self.unsubscribe_channels(&channels);
                proof {
                    lemma_unsubscribe_len(before, bytes_seq(channels@));
                }
                if self.subs.len() == 0 {
                    self.mode = RedisMode::Normal;
                }
                Action::Unsubscribe { channels, replies }
            },
            Command::PubSub(PubSubCommand::Publish { channel, message }) => {
                Action::Publish { channel, message }
            },
            Command::Store(c) => Action::Store(c),
        }
    }

    /// How many channels the connection is subscribed to.
    pub fn subscription_count(&self) -> (r: usize)
        ensures
            r == self.subscriptions().len(),
    {
        self.subs.len()
    }
}

} // verus!
