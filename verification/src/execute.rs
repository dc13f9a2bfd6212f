//! What each store command does to the store and what it answers.

use std::collections::VecDeque;
use vstd::prelude::*;
use crate::command::{bytes_seq, StoreCommand};
use crate::frame::{copy_vec, frames_view, lemma_frames_view, lemma_frames_view_push, Frame, FrameV};
use crate::store::{
    expired, lazy, list_view, DataType, DataV, EntryV, StoreMap, StoreV, StoredEntry,
};

verus! {

/// The message of the error that a command on a key of the wrong type answers.
pub open spec fn wrongtype_text() -> Seq<char> {
    "WRONGTYPE error"@
}

/// `key` holds an entry that has not expired at `now`.
pub open spec fn live(m: StoreV, key: Seq<u8>, now: u128) -> bool {
    m.contains_key(key) && !expired(m[key], now)
}

/// DEL over `ks`, key by key: how many live keys it removed, and the store after.
pub open spec fn del_keys(m: StoreV, ks: Seq<Seq<u8>>, now: u128) -> (int, StoreV)
    decreases ks.len(),
{
    if ks.len() == 0 {
        (0, m)
    } else {
        let m1 = lazy(m, ks[0], now);
        let c: int = if m1.contains_key(ks[0]) { 1 } else { 0 };
        let r = del_keys(m1.remove(ks[0]), ks.drop_first(), now);
        (c + r.0, r.1)
    }
}

/// EXISTS over `ks`, key by key: how many of them are live (a key named
/// twice counts twice), and the store after lazy expiry.
pub open spec fn exists_keys(m: StoreV, ks: Seq<Seq<u8>>, now: u128) -> (int, StoreV)
    decreases ks.len(),
{
    if ks.len() == 0 {
        (0, m)
    } else {
        let m1 = lazy(m, ks[0], now);
        let c: int = if m1.contains_key(ks[0]) { 1 } else { 0 };
        let r = exists_keys(m1, ks.drop_first(), now);
        (c + r.0, r.1)
    }
}

/// The list after pushing `items` one by one at the head (`front`) or the tail.
pub open spec fn pushed(l: Seq<Seq<u8>>, items: Seq<Seq<u8>>, front: bool) -> Seq<Seq<u8>> {
    if front {
        items.reverse() + l
    } else {
        l + items
    }
}

/// LPUSH (`front`) or RPUSH of `items` onto `key`.
pub open spec fn push_outcome(
    m: StoreV,
    key: Seq<u8>,
    items: Seq<Seq<u8>>,
    front: bool,
    now: u128,
) -> (FrameV, StoreV) {
    let m1 = lazy(m, key, now);
    if m1.contains_key(key) {
        match m1[key].data {
            DataV::List(l) => {
                let l2 = pushed(l, items, front);
                (
                    FrameV::Integer(l2.len() as i64),
                    m1.insert(key, EntryV { data: DataV::List(l2), expires_at: m1[key].expires_at }),
                )
            },
            DataV::String(_) => (FrameV::Error(wrongtype_text()), m1),
        }
    } else {
        (
            FrameV::Integer(items.len() as i64),
            m1.insert(
                key,
                EntryV { data: DataV::List(pushed(Seq::empty(), items, front)), expires_at: None },
            ),
        )
    }
}

/// LPOP (`front`) or RPOP of `key`: the key goes away with its last element.
pub open spec fn pop_outcome(m: StoreV, key: Seq<u8>, front: bool, now: u128) -> (FrameV, StoreV) {
    let m1 = lazy(m, key, now);
    if !m1.contains_key(key) {
        (FrameV::Null, m1)
    } else {
        match m1[key].data {
            DataV::String(_) => (FrameV::Error(wrongtype_text()), m1),
            DataV::List(l) => {
                let elem = if front {
                    l[0]
                } else {
                    l.last()
                };
                let rest = if front {
                    l.drop_first()
                } else {
                    l.drop_last()
                };
                (
                    FrameV::BulkString(elem),
                    if rest.len() == 0 {
                        m1.remove(key)
                    } else {
                        m1.insert(key, EntryV { data: DataV::List(rest), expires_at: m1[key].expires_at })
                    },
                )
            },
        }
    }
}

/// The first index LRANGE returns: negative indices count from the end, and
/// an index before the start is clamped to 0.
pub open spec fn range_first(len: int, start: i64) -> int {
    let s = if start < 0 {
        start + len
    } else {
        start as int
    };
    if s < 0 {
        0
    } else {
        s
    }
}

/// The last index LRANGE returns: negative indices count from the end, and
/// an index past the end is clamped to the last element.
pub open spec fn range_last(len: int, stop: i64) -> int {
    let e = if stop < 0 {
        stop + len
    } else {
        stop as int
    };
    if e > len - 1 {
        len - 1
    } else {
        e
    }
}

/// Bulk-string frames of the given byte strings.
pub open spec fn bulk_frames(l: Seq<Seq<u8>>) -> Seq<FrameV> {
    l.map_values(|x: Seq<u8>| FrameV::BulkString(x))
}

/// The elements LRANGE returns: those from the first to the last index,
/// inclusive, and none when the first lies after the last.
pub open spec fn range_items(l: Seq<Seq<u8>>, start: i64, stop: i64) -> Seq<FrameV> {
    let s = range_first(l.len() as int, start);
    let e = range_last(l.len() as int, stop);
    if s > e {
        Seq::empty()
    } else {
        bulk_frames(l.subrange(s, e + 1))
    }
}

/// What TTL answers for a live entry: -1 without expiry, else the whole
/// seconds left.
pub open spec fn ttl_reply(e: EntryV, now: u128) -> i64 {
    match e.expires_at {
        None => -1i64,
        Some(t) => ((t - now) / 1000) as i64,
    }
}

/// What a command answers and the store after it, at instant `now`.
pub open spec fn spec_execute(cmd: StoreCommand, m: StoreV, now: u128) -> (FrameV, StoreV) {
    match cmd {
        StoreCommand::Ping(arg) => match arg {
            Some(a) => (FrameV::BulkString(a@), m),
            None => (FrameV::SimpleString("PONG"@), m),
        },
        StoreCommand::Echo(a) => (FrameV::BulkString(a@), m),
        StoreCommand::SetValue { key, value, expires_at } => (
            FrameV::SimpleString("OK"@),
            m.insert(key@, EntryV { data: DataV::String(value@), expires_at }),
        ),
        StoreCommand::Get { key } => {
            let m1 = lazy(m, key@, now);
            if !m1.contains_key(key@) {
                (FrameV::Null, m1)
            } else {
                match m1[key@].data {
                    DataV::String(s) => (FrameV::BulkString(s), m1),
                    DataV::List(_) => (FrameV::Error(wrongtype_text()), m1),
                }
            }
        },
        StoreCommand::Del { keys } => {
            let r = del_keys(m, bytes_seq(keys@), now);
            (FrameV::Integer(r.0 as i64), r.1)
        },
        StoreCommand::Exists { keys } => {
            let r = exists_keys(m, bytes_seq(keys@), now);
            (FrameV::Integer(r.0 as i64), r.1)
        },
        StoreCommand::Ttl(key) => {
            let m1 = lazy(m, key@, now);
            if !m1.contains_key(key@) {
                (FrameV::Integer(-2i64), m1)
            } else {
                (FrameV::Integer(ttl_reply(m1[key@], now)), m1)
            }
        },
        StoreCommand::LPush { key, items } => push_outcome(m, key@, bytes_seq(items@), true, now),
        StoreCommand::RPush { key, items } => push_outcome(m, key@, bytes_seq(items@), false, now),
        StoreCommand::LPop(key) => pop_outcome(m, key@, true, now),
        StoreCommand::RPop(key) => pop_outcome(m, key@, false, now),
        StoreCommand::LRange { key, start, stop } => {
            let m1 = lazy(m, key@, now);
            if !m1.contains_key(key@) {
                (FrameV::Array(Seq::empty()), m1)
            } else {
                match m1[key@].data {
                    DataV::List(l) => (FrameV::Array(range_items(l, start, stop)), m1),
                    DataV::String(_) => (FrameV::Error(wrongtype_text()), m1),
                }
            }
        },
        StoreCommand::LLen(key) => {
            let m1 = lazy(m, key@, now);
            if !m1.contains_key(key@) {
                (FrameV::Integer(0i64), m1)
            } else {
                match m1[key@].data {
                    DataV::List(l) => (FrameV::Integer(l.len() as i64), m1),
                    DataV::String(_) => (FrameV::Error(wrongtype_text()), m1),
                }
            }
        },
    }
}

/// The inputs on which executing a command does not panic: a pop finds no
/// empty list under its key, and a key count fits the signed 64-bit counter.
pub open spec fn execute_ok(cmd: StoreCommand, m: StoreV, now: u128) -> bool {
    match cmd {
        StoreCommand::Del { keys } => keys@.len() <= i64::MAX,
        StoreCommand::Exists { keys } => keys@.len() <= i64::MAX,
        StoreCommand::LPop(key) => no_empty_list_at(m, key@, now),
        StoreCommand::RPop(key) => no_empty_list_at(m, key@, now),
        _ => true,
    }
}

/// What running the commands one after the other answers, each on the
/// store the ones before it left, and the store after the last.
pub open spec fn spec_execute_all(cmds: Seq<StoreCommand>, m: StoreV, now: u128) -> (Seq<FrameV>, StoreV)
    decreases cmds.len(),
{
    if cmds.len() == 0 {
        (Seq::empty(), m)
    } else {
        let first = spec_execute(cmds[0], m, now);
        let rest = spec_execute_all(cmds.drop_first(), first.1, now);
        (seq![first.0] + rest.0, rest.1)
    }
}

/// Every command of the batch can run on the store the ones before it left.
pub open spec fn batch_ok(cmds: Seq<StoreCommand>, m: StoreV, now: u128) -> bool
    decreases cmds.len(),
{
    cmds.len() == 0 || (execute_ok(cmds[0], m, now) && batch_ok(
        cmds.drop_first(),
        spec_execute(cmds[0], m, now).1,
        now,
    ))
}

/// `key` does not hold a live empty list.
pub open spec fn no_empty_list_at(m: StoreV, key: Seq<u8>, now: u128) -> bool {
    let m1 = lazy(m, key, now);
    m1.contains_key(key) ==> match m1[key].data {
        DataV::List(l) => l.len() > 0,
        DataV::String(_) => true,
    }
}

/// A reversed sequence grows at its head.
proof fn lemma_reverse_push(s: Seq<Seq<u8>>, a: Seq<u8>)
    ensures
        s.push(a).reverse() == seq![a] + s.reverse(),
{
    assert(s.push(a).reverse() =~= seq![a] + s.reverse());
}

/// Pushes `items` onto `l`, one by one, at the head (`front`) or the tail.
fn push_items(l: &mut VecDeque<Vec<u8>>, items: &Vec<Vec<u8>>, front: bool)
    ensures
        list_view(final(l)@) == pushed(list_view(old(l)@), bytes_seq(items@), front),
{
    let ghost orig = list_view(l@);
    let ghost all = bytes_seq(items@);
    let mut j: usize = 0;
    assert(all.take(0) =~= Seq::<Seq<u8>>::empty());
    assert(pushed(orig, all.take(0), front) =~= orig);
    while j < items.len()
        invariant
            j <= items@.len(),
            all == bytes_seq(items@),
            list_view(l@) == pushed(orig, all.take(j as int), front),
        decreases items@.len() - j,
    {
        let x = copy_vec(&items[j]);
        let ghost before = l@;
        assert(all.take(j + 1) =~= all.take(j as int).push(x@));
        if front {
            l.push_front(x);
            proof {
                lemma_reverse_push(all.take(j as int), x@);
                assert(list_view(l@) =~= seq![x@] + list_view(before));
            }
        } else {
            l.push_back(x);
            assert(list_view(l@) =~= list_view(before).push(x@));
        }
        j = j + 1;
    }
    assert(all.take(j as int) =~= all);
}

/// LPUSH (`front`) or RPUSH.
fn execute_push(map: &mut StoreMap, key: Vec<u8>, items: Vec<Vec<u8>>, front: bool, now: u128) -> (r:
    Frame)
    requires
        old(map).wf(),
    ensures
        final(map).wf(),
        (r@, final(map)@) == push_outcome(old(map)@, key@, bytes_seq(items@), front, now),
{
    let ghost m1 = lazy(map@, key@, now);
    match map.remove(key.as_slice(), now) {
        Some(entry) => {
            let StoredEntry { data, expires_at } = entry;
            match data {
                DataType::List(l) => {
                    let mut l = l;
                    push_items(&mut l, &items, front);
                    let len = l.len();
                    let ghost e2 = EntryV {
                        data: DataV::List(list_view(l@)),
                        expires_at: expires_at,
                    };
                    let _prev = map.insert(key, StoredEntry { data: DataType::List(l), expires_at });
                    assert(map@ =~= m1.insert(key@, e2));
                    Frame::Integer(len as i64)
                },
                DataType::String(s) => {
                    let _prev = map.insert(key, StoredEntry { data: DataType::String(s), expires_at });
                    assert(map@ =~= m1);
                    Frame::Error("WRONGTYPE error".to_owned())
                },
            }
        },
        None => {
            let added = items.len();
            let mut l: VecDeque<Vec<u8>> = VecDeque::new();
            assert(list_view(l@) =~= Seq::<Seq<u8>>::empty());
            push_items(&mut l, &items, front);
            let _prev = map.insert(key, StoredEntry::new(DataType::List(l)));
            assert(map@ =~= m1.insert(key@, EntryV { data: DataV::List(pushed(Seq::empty(), bytes_seq(items@), front)), expires_at: None }));
            Frame::Integer(added as i64)
        },
    }
}

/// LPOP (`front`) or RPOP.
fn execute_pop(map: &mut StoreMap, key: Vec<u8>, front: bool, now: u128) -> (r: Frame)
    requires
        old(map).wf(),
        no_empty_list_at(old(map)@, key@, now),
    ensures
        final(map).wf(),
        (r@, final(map)@) == pop_outcome(old(map)@, key@, front, now),
{
    let ghost m1 = lazy(map@, key@, now);
    match map.remove(key.as_slice(), now) {
        None => Frame::Null,
        Some(entry) => {
            let StoredEntry { data, expires_at } = entry;
            match data {
                DataType::String(s) => {
                    let _prev = map.insert(key, StoredEntry { data: DataType::String(s), expires_at });
                    assert(map@ =~= m1);
                    Frame::Error("WRONGTYPE error".to_owned())
                },
                DataType::List(l) => {
                    let mut l = l;
                    let ghost before = l@;
                    let popped = if front {
                        l.pop_front()
                    } else {
                        l.pop_back()
                    };
                    match popped {
                        Some(elem) => {
                            proof {
                                if front {
                                    assert(list_view(l@) =~= list_view(before).drop_first());
                                } else {
                                    assert(list_view(l@) =~= list_view(before).drop_last());
                                }
                            }
                            if l.len() > 0 {
                                let ghost e2 = EntryV {
                                    data: DataV::List(list_view(l@)),
                                    expires_at: expires_at,
                                };
                                let _prev = map.insert(
                                    key,
                                    StoredEntry { data: DataType::List(l), expires_at },
                                );
                                assert(map@ =~= m1.insert(key@, e2));
                            }
                            Frame::BulkString(elem)
                        },
                        None => Frame::Null,
                    }
                },
            }
        },
    }
}

/// GET.
fn execute_get(map: &mut StoreMap, key: Vec<u8>, now: u128) -> (r: Frame)
    requires
        old(map).wf(),
    ensures
        final(map).wf(),
        (r@, final(map)@) == spec_execute(StoreCommand::Get { key }, old(map)@, now),
{
    match map.get(key.as_slice(), now) {
        None => Frame::Null,
        Some(entry) => match &entry.data {
            DataType::String(s) => Frame::BulkString(copy_vec(s)),
            DataType::List(_) => Frame::Error("WRONGTYPE error".to_owned()),
        },
    }
}

/// TTL.
fn execute_ttl(map: &mut StoreMap, key: Vec<u8>, now: u128) -> (r: Frame)
    requires
        old(map).wf(),
    ensures
        final(map).wf(),
        (r@, final(map)@) == spec_execute(StoreCommand::Ttl(key), old(map)@, now),
{
    match map.get(key.as_slice(), now) {
        None => Frame::Integer(-2),
        Some(entry) => match entry.expires_at {
            None => Frame::Integer(-1),
            Some(t) => Frame::Integer(((t - now) / 1000) as i64),
        },
    }
}

/// LLEN.
fn execute_llen(map: &mut StoreMap, key: Vec<u8>, now: u128) -> (r: Frame)
    requires
        old(map).wf(),
    ensures
        final(map).wf(),
        (r@, final(map)@) == spec_execute(StoreCommand::LLen(key), old(map)@, now),
{
    match map.get(key.as_slice(), now) {
        None => Frame::Integer(0),
        Some(entry) => match &entry.data {
            DataType::List(list) => Frame::Integer(list.len() as i64),
            DataType::String(_) => Frame::Error("WRONGTYPE error".to_owned()),
        },
    }
}

/// The elements of `list` from index `s` to index `e`, as bulk strings.
fn range_frames(list: &VecDeque<Vec<u8>>, s: usize, e: usize) -> (r: Vec<Frame>)
    requires
        s <= e < list@.len(),
    ensures
        frames_view(r@) == bulk_frames(list_view(list@).subrange(s as int, e + 1)),
{
    let ghost want = bulk_frames(list_view(list@).subrange(s as int, e + 1));
    let mut resp: Vec<Frame> = Vec::new();
    let mut i: usize = s;
    let n = list.len();
    proof {
        lemma_frames_view(resp@);
    }
    while i <= e
        invariant
            n == list@.len(),
            s <= i <= e + 1,
            e < list@.len(),
            want == bulk_frames(list_view(list@).subrange(s as int, e + 1)),
            frames_view(resp@).len() == i - s,
            forall|k: int| 0 <= k < i - s ==> #[trigger] frames_view(resp@)[k] == want[k],
        decreases e + 1 - i,
    {
        let item = copy_vec(&list[i]);
        let f = Frame::BulkString(item);
        proof {
            crate::frame::lemma_frames_view_push(resp@, f);
        }
        resp.push(f);
        i = i + 1;
    }
    assert(frames_view(resp@) =~= want);
    resp
}

/// LRANGE.
fn execute_lrange(map: &mut StoreMap, key: Vec<u8>, start: i64, stop: i64, now: u128) -> (r: Frame)
    requires
        old(map).wf(),
    ensures
        final(map).wf(),
        (r@, final(map)@) == spec_execute(StoreCommand::LRange { key, start, stop }, old(map)@, now),
{
    match map.get(key.as_slice(), now) {
        None => {
            let empty: Vec<Frame> = Vec::new();
            proof {
                lemma_frames_view(empty@);
            }
            assert(frames_view(empty@) =~= Seq::<FrameV>::empty());
            Frame::Array(empty)
        },
        Some(entry) => match &entry.data {
            DataType::String(_) => Frame::Error("WRONGTYPE error".to_owned()),
            DataType::List(list) => {
                let len: i128 = list.len() as i128;
                let mut s: i128 = start as i128;
                if s < 0 {
                    s = s + len;
                }
                if s < 0 {
                    s = 0;
                }
                let mut e: i128 = stop as i128;
                if e < 0 {
                    e = e + len;
                }
                if e > len - 1 {
                    e = len - 1;
                }
                if s > e {
                    let empty: Vec<Frame> = Vec::new();
                    proof {
                        lemma_frames_view(empty@);
                    }
                    assert(frames_view(empty@) =~= Seq::<FrameV>::empty());
                    Frame::Array(empty)
                } else {
                    let frames = range_frames(list, s as usize, e as usize);
                    Frame::Array(frames)
                }
            },
        },
    }
}

/// DEL.
fn execute_del(map: &mut StoreMap, keys: Vec<Vec<u8>>, now: u128) -> (r: Frame)
    requires
        old(map).wf(),
        keys@.len() <= i64::MAX,
    ensures
        final(map).wf(),
        (r@, final(map)@) == spec_execute(StoreCommand::Del { keys }, old(map)@, now),
{
    let ghost ks = bytes_seq(keys@);
    let ghost m0 = map@;
    let mut count: i64 = 0;
    let mut i: usize = 0;
    assert(ks.skip(0) =~= ks);
    while i < keys.len()
        invariant
            map.wf(),
            i <= keys@.len(),
            keys@.len() <= i64::MAX,
            ks == bytes_seq(keys@),
            0 <= count <= i,
            del_keys(m0, ks, now) == (count + del_keys(map@, ks.skip(i as int), now).0, del_keys(
                map@,
                ks.skip(i as int),
                now,
            ).1),
        decreases keys@.len() - i,
    {
        let ghost before = map@;
        let k = &keys[i];
        assert(ks.skip(i as int)[0] == k@);
        assert(ks.skip(i as int).drop_first() =~= ks.skip(i + 1));
        let gone = map.remove(k.as_slice(), now);
        if gone.is_some() {
            count = count + 1;
        }
        i = i + 1;
    }
    assert(ks.skip(i as int) =~= Seq::<Seq<u8>>::empty());
    Frame::Integer(count)
}

/// EXISTS.
fn execute_exists(map: &mut StoreMap, keys: Vec<Vec<u8>>, now: u128) -> (r: Frame)
    requires
        old(map).wf(),
        keys@.len() <= i64::MAX,
    ensures
        final(map).wf(),
        (r@, final(map)@) == spec_execute(StoreCommand::Exists { keys }, old(map)@, now),
{
    let ghost ks = bytes_seq(keys@);
    let ghost m0 = map@;
    let mut count: i64 = 0;
    let mut i: usize = 0;
    assert(ks.skip(0) =~= ks);
    while i < keys.len()
        invariant
            map.wf(),
            i <= keys@.len(),
            keys@.len() <= i64::MAX,
            ks == bytes_seq(keys@),
            0 <= count <= i,
            exists_keys(m0, ks, now) == (count + exists_keys(map@, ks.skip(i as int), now).0,
                exists_keys(map@, ks.skip(i as int), now).1),
        decreases keys@.len() - i,
    {
        let k = &keys[i];
        assert(ks.skip(i as int)[0] == k@);
        assert(ks.skip(i as int).drop_first() =~= ks.skip(i + 1));
        if map.contains_key(k.as_slice(), now) {
            count = count + 1;
        }
        i = i + 1;
    }
    assert(ks.skip(i as int) =~= Seq::<Seq<u8>>::empty());
    Frame::Integer(count)
}

impl StoreCommand {
    /// Can this command run on the store at `now`? A pop must not find an
    /// empty list under its key, and DEL and EXISTS count in a signed 64-bit
    /// integer.
    pub fn can_execute(&self, map: &StoreMap, now: u128) -> (r: bool)
        requires
            map.wf(),
        ensures
            r == execute_ok(*self, map@, now),
    {
        match self {
            StoreCommand::Del { keys } => keys.len() as u64 <= i64::MAX as u64,
            StoreCommand::Exists { keys } => keys.len() as u64 <= i64::MAX as u64,
            StoreCommand::LPop(key) => list_not_empty_at(map, key, now),
            StoreCommand::RPop(key) => list_not_empty_at(map, key, now),
            _ => true,
        }
    }
}

/// Does `key` not hold a live empty list?
fn list_not_empty_at(map: &StoreMap, key: &Vec<u8>, now: u128) -> (r: bool)
    requires
        map.wf(),
    ensures
        r == no_empty_list_at(map@, key@, now),
{
    match map.peek(key.as_slice(), now) {
        None => true,
        Some(entry) => match &entry.data {
            DataType::List(l) => l.len() > 0,
            DataType::String(_) => true,
        },
    }
}

impl StoreCommand {
    /// Runs the commands one after the other on the store at instant `now`
    /// and returns their replies in order, or `None`, after running those
    /// before it, at the first command that cannot run (see
    /// [`StoreCommand::can_execute`]).
    #[verifier::loop_isolation(false)]
    pub fn execute_all(cmds: Vec<StoreCommand>, map: &mut StoreMap, now: u128) -> (r: Option<Vec<Frame>>)
        requires
            old(map).wf(),
        ensures
            final(map).wf(),
            r is Some <==> batch_ok(cmds@, old(map)@, now),
            r matches Some(fs) ==> (frames_view(fs@), final(map)@) == spec_execute_all(cmds@, old(map)@, now),
    {
        let ghost all = cmds@;
        let ghost m0 = map@;
        let mut cmds = cmds;
        let mut replies: Vec<Frame> = Vec::new();
        proof {
            lemma_frames_view(replies@);
            assert(Seq::<FrameV>::empty() + spec_execute_all(all, m0, now).0 =~= spec_execute_all(all, m0, now).0);
        }
        while cmds.len() > 0
            invariant
                map.wf(),
                batch_ok(all, m0, now) == batch_ok(cmds@, map@, now),
                spec_execute_all(all, m0, now) == (
                    frames_view(replies@) + spec_execute_all(cmds@, map@, now).0,
                    spec_execute_all(cmds@, map@, now).1,
                ),
            decreases cmds@.len(),
        {
            let ghost before = cmds@;
            let ghost mb = map@;
            let c = cmds.remove(0);
            assert(before.drop_first() =~= cmds@);
            if !c.can_execute(map, now) {
                assert(before[0] == c);
                assert(!batch_ok(before, mb, now));
                return None;
            }
            let f = c.execute(map, now);
            proof {
                lemma_frames_view_push(replies@, f);
                let rest = spec_execute_all(cmds@, map@, now);
                assert(frames_view(replies@).push(f@) + rest.0 =~= frames_view(replies@) + (seq![f@] + rest.0));
            }
            replies.push(f);
        }
        proof {
            assert(frames_view(replies@) + Seq::<FrameV>::empty() =~= frames_view(replies@));
        }
        Some(replies)
    }

    /// Executes this command against the store at instant `now` and returns
    /// the reply frame.
    pub fn execute(self, map: &mut StoreMap, now: u128) -> (r: Frame)
        requires
            old(map).wf(),
            execute_ok(self, old(map)@, now),
        ensures
            final(map).wf(),
            (r@, final(map)@) == spec_execute(self, old(map)@, now),
    {
        match self {
            StoreCommand::Ping(arg) => match arg {
                Some(a) => Frame::BulkString(a),
                None => Frame::SimpleString("PONG".to_owned()),
            },
            StoreCommand::Echo(arg) => Frame::BulkString(arg),
            StoreCommand::SetValue { key, value, expires_at } => {
                let _prev = map.insert(key, StoredEntry { data: DataType::String(value), expires_at });
                Frame::SimpleString("OK".to_owned())
            },
            StoreCommand::Get { key } => execute_get(map, key, now),
            StoreCommand::Del { keys } => execute_del(map, keys, now),
            StoreCommand::Exists { keys } => execute_exists(map, keys, now),
            StoreCommand::Ttl(key) => execute_ttl(map, key, now),
            StoreCommand::LPush { key, items } => execute_push(map, key, items, true, now),
            StoreCommand::RPush { key, items } => execute_push(map, key, items, false, now),
            StoreCommand::LPop(key) => execute_pop(map, key, true, now),
            StoreCommand::RPop(key) => execute_pop(map, key, false, now),
            StoreCommand::LRange { key, start, stop } => execute_lrange(map, key, start, stop, now),
            StoreCommand::LLen(key) => execute_llen(map, key, now),
        }
    }
}

} // verus!
