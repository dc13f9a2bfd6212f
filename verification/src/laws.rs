//! Properties of the store that span several commands: what a read gives
//! back of a write, how expiry hides keys, how DEL and EXISTS count, and
//! which keys a command may touch.

use vstd::prelude::*;
use crate::command::{bytes_seq, StoreCommand};
use crate::execute::{
    batch_ok, bulk_frames, del_keys, execute_ok, exists_keys, live, no_empty_list_at, pop_outcome,
    push_outcome, pushed, range_first, range_items, range_last, spec_execute, spec_execute_all,
    wrongtype_text,
};
use crate::frame::FrameV;
use crate::store::{expired, lazy, DataV, EntryV, StoreMap, StoreV};

verus! {

/// The two stores hold the same live entries at `now`: a key is live in one
/// exactly when it is live in the other, with the same entry.
pub open spec fn same_live(a: StoreV, b: StoreV, now: u128) -> bool {
    forall|k: Seq<u8>|
        #![trigger a.contains_key(k)]
        #![trigger b.contains_key(k)]
        live(a, k, now) == live(b, k, now) && (live(a, k, now) ==> a[k] == b[k])
}

/// An entry written by SET.
pub open spec fn string_entry(value: Seq<u8>, expires_at: Option<u128>) -> EntryV {
    EntryV { data: DataV::String(value), expires_at }
}

/// Lazy expiry of one key changes no live entry.
proof fn lemma_lazy_same_live(m: StoreV, key: Seq<u8>, now: u128)
    ensures
        same_live(m, lazy(m, key, now), now),
        lazy(m, key, now).contains_key(key) == live(m, key, now),
{
}

/// Storing the same entry under the same key in two stores that hold the
/// same live entries keeps them so.
proof fn lemma_insert_same_live(a: StoreV, b: StoreV, key: Seq<u8>, e: EntryV, now: u128)
    requires
        same_live(a, b, now),
    ensures
        same_live(a.insert(key, e), b.insert(key, e), now),
{
    assert forall|k: Seq<u8>|
        live(a.insert(key, e), k, now) == live(b.insert(key, e), k, now) && (live(
            a.insert(key, e),
            k,
            now,
        ) ==> a.insert(key, e)[k] == b.insert(key, e)[k]) by {
        if k != key {
            assert(live(a, k, now) == live(b, k, now));
        }
    }
}

/// Removing the same key from two stores that hold the same live entries
/// keeps them so.
proof fn lemma_remove_same_live(a: StoreV, b: StoreV, key: Seq<u8>, now: u128)
    requires
        same_live(a, b, now),
    ensures
        same_live(a.remove(key), b.remove(key), now),
{
    assert forall|k: Seq<u8>|
        live(a.remove(key), k, now) == live(b.remove(key), k, now) && (live(a.remove(key), k, now)
            ==> a.remove(key)[k] == b.remove(key)[k]) by {
        if k != key {
            assert(live(a, k, now) == live(b, k, now));
        }
    }
}

/// GET after SET: a key just written reads back as the value written until
/// its expiry instant has passed, and as absent after that.
pub proof fn lemma_get_after_set(
    m: StoreV,
    key: Vec<u8>,
    value: Vec<u8>,
    expires_at: Option<u128>,
    now: u128,
    read_key: Vec<u8>,
    later: u128,
)
    requires
        read_key@ == key@,
    ensures
        ({
            let after_set = spec_execute(StoreCommand::SetValue { key, value, expires_at }, m, now).1;
            spec_execute(StoreCommand::Get { key: read_key }, after_set, later).0 == if expired(
                string_entry(value@, expires_at),
                later,
            ) {
                FrameV::Null
            } else {
                FrameV::BulkString(value@)
            }
        }),
{
}

/// TTL after SET: a key written without expiry reports -1; one written with
/// an expiry instant reports the whole seconds left until it, and -2 once
/// it has passed.
pub proof fn lemma_ttl_after_set(
    m: StoreV,
    key: Vec<u8>,
    value: Vec<u8>,
    expires_at: Option<u128>,
    now: u128,
    read_key: Vec<u8>,
    later: u128,
)
    requires
        read_key@ == key@,
    ensures
        ({
            let after_set = spec_execute(StoreCommand::SetValue { key, value, expires_at }, m, now).1;
            spec_execute(StoreCommand::Ttl(read_key), after_set, later).0 == match expires_at {
                None => FrameV::Integer(-1i64),
                Some(t) => if t < later {
                    FrameV::Integer(-2i64)
                } else {
                    FrameV::Integer(((t - later) / 1000) as i64)
                },
            }
        }),
{
}

/// A key whose entry has expired reads as absent to every command that
/// names it, and that command drops the entry.
pub proof fn lemma_expired_key_is_absent(
    m: StoreV,
    key: Vec<u8>,
    keys: Vec<Vec<u8>>,
    start: i64,
    stop: i64,
    now: u128,
)
    requires
        m.contains_key(key@),
        expired(m[key@], now),
        bytes_seq(keys@) == seq![key@],
    ensures
        spec_execute(StoreCommand::Get { key }, m, now) == (FrameV::Null, m.remove(key@)),
        spec_execute(StoreCommand::Ttl(key), m, now) == (FrameV::Integer(-2i64), m.remove(key@)),
        spec_execute(StoreCommand::LLen(key), m, now) == (FrameV::Integer(0i64), m.remove(key@)),
        spec_execute(StoreCommand::LRange { key, start, stop }, m, now) == (
            FrameV::Array(Seq::empty()),
            m.remove(key@),
        ),
        spec_execute(StoreCommand::LPop(key), m, now) == (FrameV::Null, m.remove(key@)),
        spec_execute(StoreCommand::RPop(key), m, now) == (FrameV::Null, m.remove(key@)),
        spec_execute(StoreCommand::Exists { keys }, m, now) == (FrameV::Integer(0i64), m.remove(key@)),
        spec_execute(StoreCommand::Del { keys }, m, now) == (FrameV::Integer(0i64), m.remove(key@)),
{
    let ks = bytes_seq(keys@);
    let m1 = lazy(m, key@, now);
    assert(ks[0] == key@);
    assert(ks.drop_first() =~= Seq::<Seq<u8>>::empty());
    assert(m1.remove(key@) =~= m.remove(key@));
    assert(exists_keys(m1, ks.drop_first(), now) == (0int, m1));
    assert(del_keys(m1.remove(key@), ks.drop_first(), now) == (0int, m1.remove(key@)));
}

/// How many of the keys, position by position, are live at `now`: a key
/// named twice counts twice.
pub open spec fn live_count(m: StoreV, ks: Seq<Seq<u8>>, now: u128) -> int
    decreases ks.len(),
{
    if ks.len() == 0 {
        0
    } else {
        (if live(m, ks[0], now) {
            1int
        } else {
            0int
        }) + live_count(m, ks.drop_first(), now)
    }
}

/// The named keys whose entries have expired at `now`.
pub open spec fn expired_among(m: StoreV, ks: Seq<Seq<u8>>, now: u128) -> Set<Seq<u8>> {
    Set::new(|k: Seq<u8>| ks.contains(k) && m.contains_key(k) && expired(m[k], now))
}

/// The distinct named keys that are live at `now`.
pub open spec fn live_among(m: StoreV, ks: Seq<Seq<u8>>, now: u128) -> Set<Seq<u8>> {
    Set::new(|k: Seq<u8>| ks.contains(k) && live(m, k, now))
}

/// A key occurs in a non-empty sequence when it is the first one or occurs
/// in the rest.
proof fn lemma_contains_split(ks: Seq<Seq<u8>>, k: Seq<u8>)
    requires
        ks.len() > 0,
    ensures
        ks.contains(k) == (ks[0] == k || ks.drop_first().contains(k)),
{
    if ks.drop_first().contains(k) {
        let j = choose|j: int| 0 <= j < ks.drop_first().len() && ks.drop_first()[j] == k;
        assert(ks[j + 1] == k);
    }
    if ks.contains(k) && ks[0] != k {
        let j = choose|j: int| 0 <= j < ks.len() && ks[j] == k;
        assert(ks.drop_first()[j - 1] == k);
    }
}

/// Stores with the same live entries count the same live keys.
proof fn lemma_live_count_same_live(a: StoreV, b: StoreV, ks: Seq<Seq<u8>>, now: u128)
    requires
        same_live(a, b, now),
    ensures
        live_count(a, ks, now) == live_count(b, ks, now),
    decreases ks.len(),
{
    if ks.len() > 0 {
        assert(live(a, ks[0], now) == live(b, ks[0], now));
        lemma_live_count_same_live(a, b, ks.drop_first(), now);
    }
}

/// EXISTS answers how many of the named keys are live, a key named twice
/// counting twice, and drops just the named keys that have expired.
pub proof fn lemma_exists_counts_live(m: StoreV, ks: Seq<Seq<u8>>, now: u128)
    ensures
        exists_keys(m, ks, now) == (live_count(m, ks, now), m.remove_keys(expired_among(m, ks, now))),
    decreases ks.len(),
{
    if ks.len() == 0 {
        assert(m.remove_keys(expired_among(m, ks, now)) =~= m);
    } else {
        let k0 = ks[0];
        let rest = ks.drop_first();
        let m1 = lazy(m, k0, now);
        lemma_exists_counts_live(m1, rest, now);
        lemma_lazy_same_live(m, k0, now);
        lemma_live_count_same_live(m1, m, rest, now);
        assert forall|k: Seq<u8>| #![trigger expired_among(m, ks, now).contains(k)]
            expired_among(m, ks, now).contains(k) == (k == k0 && m.contains_key(k0) && expired(m[k0], now)
                || expired_among(m1, rest, now).contains(k)) by {
            lemma_contains_split(ks, k);
        }
        assert(m1.remove_keys(expired_among(m1, rest, now)) =~= m.remove_keys(
            expired_among(m, ks, now),
        ));
    }
}

/// DEL answers how many distinct named keys were live, and removes every
/// named key, the expired ones too.
pub proof fn lemma_del_counts_live(m: StoreV, ks: Seq<Seq<u8>>, now: u128)
    ensures
        live_among(m, ks, now).finite(),
        del_keys(m, ks, now) == (live_among(m, ks, now).len() as int, m.remove_keys(ks.to_set())),
    decreases ks.len(),
{
    broadcast use vstd::seq_lib::seq_to_set_is_finite;

    if ks.len() == 0 {
        assert(live_among(m, ks, now) =~= Set::<Seq<u8>>::empty());
        assert(m.remove_keys(ks.to_set()) =~= m);
    } else {
        let k0 = ks[0];
        let rest = ks.drop_first();
        let m1 = lazy(m, k0, now);
        let m2 = m1.remove(k0);
        lemma_del_counts_live(m2, rest, now);
        assert(m2 =~= m.remove(k0));
        let tail = live_among(m2, rest, now);
        assert forall|k: Seq<u8>| #![trigger live_among(m, ks, now).contains(k)]
            live_among(m, ks, now).contains(k) == (k == k0 && live(m, k0, now) || tail.contains(k)) by {
            lemma_contains_split(ks, k);
        }
        assert(!tail.contains(k0));
        if live(m, k0, now) {
            assert(live_among(m, ks, now) =~= tail.insert(k0));
        } else {
            assert(live_among(m, ks, now) =~= tail);
        }
        assert forall|k: Seq<u8>| #![trigger ks.to_set().contains(k)]
            ks.to_set().contains(k) == (k == k0 || rest.to_set().contains(k)) by {
            lemma_contains_split(ks, k);
        }
        assert(m2.remove_keys(rest.to_set()) =~= m.remove_keys(ks.to_set()));
    }
}

/// Holding the same live entries is transitive.
proof fn lemma_same_live_trans(a: StoreV, b: StoreV, c: StoreV, now: u128)
    requires
        same_live(a, b, now),
        same_live(b, c, now),
    ensures
        same_live(a, c, now),
{
    assert forall|k: Seq<u8>| live(a, k, now) == live(c, k, now) && (live(a, k, now) ==> a[k] == c[k]) by {
        assert(live(a, k, now) == live(b, k, now));
        assert(live(b, k, now) == live(c, k, now));
    }
}

/// Stores that hold the same live entries at `now` hold the same live
/// entries at every later instant too.
pub proof fn lemma_same_live_later(a: StoreV, b: StoreV, now: u128, later: u128)
    requires
        same_live(a, b, now),
        now <= later,
    ensures
        same_live(a, b, later),
{
    assert forall|k: Seq<u8>| live(a, k, later) == live(b, k, later) && (live(a, k, later) ==> a[k]
        == b[k]) by {
        assert(live(a, k, now) == live(b, k, now));
    }
}

/// Removing keys from two stores that hold the same live entries keeps them
/// so, when the keys removed from just one of them are not live.
proof fn lemma_remove_keys_same_live(a: StoreV, b: StoreV, sa: Set<Seq<u8>>, sb: Set<Seq<u8>>, now: u128)
    requires
        same_live(a, b, now),
        forall|k: Seq<u8>| sa.contains(k) != sb.contains(k) ==> !live(a, k, now),
    ensures
        same_live(a.remove_keys(sa), b.remove_keys(sb), now),
{
    assert forall|k: Seq<u8>|
        live(a.remove_keys(sa), k, now) == live(b.remove_keys(sb), k, now) && (live(
            a.remove_keys(sa),
            k,
            now,
        ) ==> a.remove_keys(sa)[k] == b.remove_keys(sb)[k]) by {
        assert(live(a, k, now) == live(b, k, now));
    }
}

/// Lazy expiry of one key in two stores that hold the same live entries.
proof fn lemma_lazy_pair(a: StoreV, b: StoreV, key: Seq<u8>, now: u128)
    requires
        same_live(a, b, now),
    ensures
        same_live(lazy(a, key, now), lazy(b, key, now), now),
        lazy(a, key, now).contains_key(key) == lazy(b, key, now).contains_key(key),
        lazy(a, key, now).contains_key(key) ==> lazy(a, key, now)[key] == lazy(b, key, now)[key],
{
    lemma_lazy_same_live(a, key, now);
    lemma_lazy_same_live(b, key, now);
    lemma_same_live_trans(lazy(a, key, now), a, b, now);
    lemma_same_live_trans(lazy(a, key, now), b, lazy(b, key, now), now);
    assert(live(a, key, now) == live(b, key, now));
}

/// Expired entries are unobservable: two stores that hold the same live
/// entries at `now` answer every command alike at `now`, and still hold the
/// same live entries afterwards.
pub proof fn lemma_execute_same_live(cmd: StoreCommand, a: StoreV, b: StoreV, now: u128)
    requires
        same_live(a, b, now),
    ensures
        spec_execute(cmd, a, now).0 == spec_execute(cmd, b, now).0,
        same_live(spec_execute(cmd, a, now).1, spec_execute(cmd, b, now).1, now),
{
    match cmd {
        StoreCommand::Ping(_) => {},
        StoreCommand::Echo(_) => {},
        StoreCommand::SetValue { key, value, expires_at } => {
            lemma_insert_same_live(a, b, key@, string_entry(value@, expires_at), now);
        },
        StoreCommand::Get { key } => {
            lemma_lazy_pair(a, b, key@, now);
        },
        StoreCommand::Ttl(key) => {
            lemma_lazy_pair(a, b, key@, now);
        },
        StoreCommand::LLen(key) => {
            lemma_lazy_pair(a, b, key@, now);
        },
        StoreCommand::LRange { key, start, stop } => {
            lemma_lazy_pair(a, b, key@, now);
        },
        StoreCommand::LPush { key, items } => {
            lemma_push_same_live(a, b, key@, bytes_seq(items@), true, now);
        },
        StoreCommand::RPush { key, items } => {
            lemma_push_same_live(a, b, key@, bytes_seq(items@), false, now);
        },
        StoreCommand::LPop(key) => {
            lemma_pop_same_live(a, b, key@, true, now);
        },
        StoreCommand::RPop(key) => {
            lemma_pop_same_live(a, b, key@, false, now);
        },
        StoreCommand::Del { keys } => {
            let ks = bytes_seq(keys@);
            lemma_del_counts_live(a, ks, now);
            lemma_del_counts_live(b, ks, now);
            assert(live_among(a, ks, now) =~= live_among(b, ks, now)) by {
                assert forall|k: Seq<u8>| live_among(a, ks, now).contains(k) == live_among(b, ks, now).contains(k) by {
                    assert(live(a, k, now) == live(b, k, now));
                }
            }
            lemma_remove_keys_same_live(a, b, ks.to_set(), ks.to_set(), now);
        },
        StoreCommand::Exists { keys } => {
            let ks = bytes_seq(keys@);
            lemma_exists_counts_live(a, ks, now);
            lemma_exists_counts_live(b, ks, now);
            lemma_live_count_same_live(a, b, ks, now);
            assert forall|k: Seq<u8>|
                expired_among(a, ks, now).contains(k) != expired_among(b, ks, now).contains(k) implies !live(a, k, now) by {
                assert(live(a, k, now) == live(b, k, now));
            }
            lemma_remove_keys_same_live(a, b, expired_among(a, ks, now), expired_among(b, ks, now), now);
        },
    }
}

/// LPUSH and RPUSH on stores that hold the same live entries.
proof fn lemma_push_same_live(a: StoreV, b: StoreV, key: Seq<u8>, items: Seq<Seq<u8>>, front: bool, now: u128)
    requires
        same_live(a, b, now),
    ensures
        push_outcome(a, key, items, front, now).0 == push_outcome(b, key, items, front, now).0,
        same_live(push_outcome(a, key, items, front, now).1, push_outcome(b, key, items, front, now).1, now),
{
    lemma_lazy_pair(a, b, key, now);
    let a1 = lazy(a, key, now);
    let b1 = lazy(b, key, now);
    if a1.contains_key(key) {
        if let DataV::List(l) = a1[key].data {
            lemma_insert_same_live(a1, b1, key, EntryV { data: DataV::List(pushed(l, items, front)), expires_at: a1[key].expires_at }, now);
        }
    } else {
        lemma_insert_same_live(a1, b1, key, EntryV { data: DataV::List(pushed(Seq::empty(), items, front)), expires_at: None }, now);
    }
}

/// LPOP and RPOP on stores that hold the same live entries.
proof fn lemma_pop_same_live(a: StoreV, b: StoreV, key: Seq<u8>, front: bool, now: u128)
    requires
        same_live(a, b, now),
    ensures
        pop_outcome(a, key, front, now).0 == pop_outcome(b, key, front, now).0,
        same_live(pop_outcome(a, key, front, now).1, pop_outcome(b, key, front, now).1, now),
{
    lemma_lazy_pair(a, b, key, now);
    let a1 = lazy(a, key, now);
    let b1 = lazy(b, key, now);
    if a1.contains_key(key) {
        if let DataV::List(l) = a1[key].data {
            let rest = if front { l.drop_first() } else { l.drop_last() };
            lemma_remove_same_live(a1, b1, key, now);
            lemma_insert_same_live(a1, b1, key, EntryV { data: DataV::List(rest), expires_at: a1[key].expires_at }, now);
        }
    }
}

/// The active sweep is unobservable: after a sweep at `now`, every command
/// at `now` or later answers as it would have without the sweep.
pub proof fn lemma_sweep_unobservable(s: StoreMap, now: u128, cmd: StoreCommand, later: u128)
    requires
        s.wf(),
        now <= later,
    ensures
        same_live(s@, s@.remove_keys(s.swept_keys(now)), now),
        spec_execute(cmd, s@.remove_keys(s.swept_keys(now)), later).0 == spec_execute(cmd, s@, later).0,
{
    let after = s@.remove_keys(s.swept_keys(now));
    assert forall|k: Seq<u8>| live(s@, k, now) == live(after, k, now) && (live(s@, k, now) ==> s@[k]
        == after[k]) by {
        if s.swept_keys(now).contains(k) {
            assert(expired(s@[k], now));
        }
    }
    lemma_same_live_later(s@, after, now, later);
    lemma_execute_same_live(cmd, after, s@, later);
}

/// No key holds an empty list.
pub open spec fn no_empty_lists(m: StoreV) -> bool {
    forall|k: Seq<u8>| #[trigger] m.contains_key(k) ==> (m[k].data matches DataV::List(l) ==> l.len() > 0)
}

/// LPUSH or RPUSH with no items.
pub open spec fn pushes_nothing(cmd: StoreCommand) -> bool {
    match cmd {
        StoreCommand::LPush { items, .. } => items@.len() == 0,
        StoreCommand::RPush { items, .. } => items@.len() == 0,
        _ => false,
    }
}

/// Removing keys keeps a store free of empty lists.
proof fn lemma_remove_keys_no_empty(m: StoreV, s: Set<Seq<u8>>)
    requires
        no_empty_lists(m),
    ensures
        no_empty_lists(m.remove_keys(s)),
{
    assert forall|k: Seq<u8>| #[trigger] m.remove_keys(s).contains_key(k) implies (m.remove_keys(s)[k].data matches DataV::List(l) ==> l.len() > 0) by {
        assert(m.contains_key(k));
    }
}

/// The store never holds an empty list: a pop that takes a list's last
/// element removes the key, so a store without empty lists keeps none after
/// any command but a push of no items (which the request parser never
/// produces), and a pop on such a store always finds an element.
pub proof fn lemma_no_empty_lists(cmd: StoreCommand, m: StoreV, now: u128)
    requires
        no_empty_lists(m),
        !pushes_nothing(cmd),
    ensures
        no_empty_lists(spec_execute(cmd, m, now).1),
        forall|key: Seq<u8>| #[trigger] no_empty_list_at(m, key, now),
{
    assert forall|key: Seq<u8>| #[trigger] no_empty_list_at(m, key, now) by {
        if lazy(m, key, now).contains_key(key) {
            assert(m.contains_key(key));
        }
    }
    match cmd {
        StoreCommand::Del { keys } => {
            lemma_del_counts_live(m, bytes_seq(keys@), now);
            lemma_remove_keys_no_empty(m, bytes_seq(keys@).to_set());
        },
        StoreCommand::Exists { keys } => {
            lemma_exists_counts_live(m, bytes_seq(keys@), now);
            lemma_remove_keys_no_empty(m, expired_among(m, bytes_seq(keys@), now));
        },
        StoreCommand::LPush { key, items } => {
            lemma_push_no_empty(m, key@, bytes_seq(items@), true, now);
        },
        StoreCommand::RPush { key, items } => {
            lemma_push_no_empty(m, key@, bytes_seq(items@), false, now);
        },
        StoreCommand::SetValue { key, value, expires_at } => {
            let after = spec_execute(cmd, m, now).1;
            assert forall|k: Seq<u8>| #[trigger] after.contains_key(k) implies (after[k].data matches DataV::List(l) ==> l.len() > 0) by {
                if k != key@ {
                    assert(m.contains_key(k));
                }
            }
        },
        _ => {
            let after = spec_execute(cmd, m, now).1;
            assert forall|k: Seq<u8>| #[trigger] after.contains_key(k) implies (after[k].data matches DataV::List(l) ==> l.len() > 0) by {
                assert(m.contains_key(k));
            }
        },
    }
}

/// A push of at least one item leaves no empty list.
proof fn lemma_push_no_empty(m: StoreV, key: Seq<u8>, items: Seq<Seq<u8>>, front: bool, now: u128)
    requires
        no_empty_lists(m),
        items.len() > 0,
    ensures
        no_empty_lists(push_outcome(m, key, items, front, now).1),
{
    let after = push_outcome(m, key, items, front, now).1;
    assert(items.reverse().len() == items.len());
    assert forall|k: Seq<u8>| #[trigger] after.contains_key(k) implies (after[k].data matches DataV::List(l) ==> l.len() > 0) by {
        if k != key {
            assert(m.contains_key(k));
        }
    }
}

/// The keys a command names.
pub open spec fn command_keys(cmd: StoreCommand) -> Set<Seq<u8>> {
    match cmd {
        StoreCommand::Ping(_) => Set::empty(),
        StoreCommand::Echo(_) => Set::empty(),
        StoreCommand::SetValue { key, .. } => set![key@],
        StoreCommand::Get { key } => set![key@],
        StoreCommand::Del { keys } => bytes_seq(keys@).to_set(),
        StoreCommand::Exists { keys } => bytes_seq(keys@).to_set(),
        StoreCommand::Ttl(key) => set![key@],
        StoreCommand::LPush { key, .. } => set![key@],
        StoreCommand::RPush { key, .. } => set![key@],
        StoreCommand::LPop(key) => set![key@],
        StoreCommand::RPop(key) => set![key@],
        StoreCommand::LRange { key, .. } => set![key@],
        StoreCommand::LLen(key) => set![key@],
    }
}

/// A command touches no key but those it names: every other key keeps its
/// entry, or its absence.
pub proof fn lemma_other_keys_untouched(cmd: StoreCommand, m: StoreV, now: u128, k: Seq<u8>)
    requires
        !command_keys(cmd).contains(k),
    ensures
        spec_execute(cmd, m, now).1.contains_key(k) == m.contains_key(k),
        m.contains_key(k) ==> spec_execute(cmd, m, now).1[k] == m[k],
{
    match cmd {
        StoreCommand::Del { keys } => {
            lemma_del_counts_live(m, bytes_seq(keys@), now);
        },
        StoreCommand::Exists { keys } => {
            lemma_exists_counts_live(m, bytes_seq(keys@), now);
        },
        _ => {},
    }
}

/// The list a key holds at `now`: its live list, or the empty list.
pub open spec fn list_at(m: StoreV, key: Seq<u8>, now: u128) -> Seq<Seq<u8>> {
    if live(m, key, now) {
        match m[key].data {
            DataV::List(l) => l,
            DataV::String(_) => Seq::empty(),
        }
    } else {
        Seq::empty()
    }
}

/// LRANGE 0 -1 of a list gives all of it.
proof fn lemma_full_range(l: Seq<Seq<u8>>)
    ensures
        range_items(l, 0i64, -1i64) == bulk_frames(l),
{
    if l.len() > 0 {
        assert(l.subrange(0, l.len() as int) =~= l);
    } else {
        assert(bulk_frames(l) =~= Seq::<FrameV>::empty());
    }
}

/// LPUSH puts the items at the head, the last one first; RPUSH puts them
/// at the tail in order; LRANGE 0 -1 then gives the whole list.
pub proof fn lemma_push_then_range(
    m: StoreV,
    key: Vec<u8>,
    items: Vec<Vec<u8>>,
    now: u128,
    read_key: Vec<u8>,
)
    requires
        read_key@ == key@,
        !(live(m, key@, now) && m[key@].data is String),
    ensures
        spec_execute(
            StoreCommand::LRange { key: read_key, start: 0i64, stop: -1i64 },
            spec_execute(StoreCommand::LPush { key, items }, m, now).1,
            now,
        ).0 == FrameV::Array(bulk_frames(bytes_seq(items@).reverse() + list_at(m, key@, now))),
        spec_execute(
            StoreCommand::LRange { key: read_key, start: 0i64, stop: -1i64 },
            spec_execute(StoreCommand::RPush { key, items }, m, now).1,
            now,
        ).0 == FrameV::Array(bulk_frames(list_at(m, key@, now) + bytes_seq(items@))),
{
    let ks = bytes_seq(items@);
    lemma_full_range(ks.reverse() + list_at(m, key@, now));
    lemma_full_range(list_at(m, key@, now) + ks);
    assert(ks.reverse() + Seq::<Seq<u8>>::empty() =~= ks.reverse());
    assert(Seq::<Seq<u8>>::empty() + ks =~= ks);
}

/// A store command as requests produce it: a push names at least one item,
/// and DEL and EXISTS name no more keys than their signed 64-bit count holds.
pub open spec fn well_formed_command(cmd: StoreCommand) -> bool {
    &&& !pushes_nothing(cmd)
    &&& match cmd {
        StoreCommand::Del { keys } => keys@.len() <= i64::MAX,
        StoreCommand::Exists { keys } => keys@.len() <= i64::MAX,
        _ => true,
    }
}

/// EXEC never fails on a store without empty lists: each queued command
/// that requests produce can run on the store the ones before it leave, and
/// the store still holds no empty list afterwards.
pub proof fn lemma_batch_ok(cmds: Seq<StoreCommand>, m: StoreV, now: u128)
    requires
        no_empty_lists(m),
        forall|i: int| 0 <= i < cmds.len() ==> well_formed_command(#[trigger] cmds[i]),
    ensures
        batch_ok(cmds, m, now),
        no_empty_lists(spec_execute_all(cmds, m, now).1),
    decreases cmds.len(),
{
    if cmds.len() > 0 {
        let c = cmds[0];
        assert(well_formed_command(c));
        lemma_no_empty_lists(c, m, now);
        assert(execute_ok(c, m, now)) by {
            match c {
                StoreCommand::LPop(key) => assert(no_empty_list_at(m, key@, now)),
                StoreCommand::RPop(key) => assert(no_empty_list_at(m, key@, now)),
                _ => {},
            }
        }
        assert forall|i: int| 0 <= i < cmds.drop_first().len() implies well_formed_command(#[trigger] cmds.drop_first()[i]) by {
            assert(well_formed_command(cmds[i + 1]));
        }
        lemma_batch_ok(cmds.drop_first(), spec_execute(c, m, now).1, now);
    }
}

/// Commands check the type a key holds: a list command on a key holding a
/// live string, and GET on a key holding a live list, answer the WRONGTYPE
/// error and leave the store as it was.
pub proof fn lemma_wrongtype(
    m: StoreV,
    key: Vec<u8>,
    items: Vec<Vec<u8>>,
    start: i64,
    stop: i64,
    now: u128,
)
    requires
        live(m, key@, now),
    ensures
        m[key@].data is String ==> {
            &&& spec_execute(StoreCommand::LPush { key, items }, m, now) == (FrameV::Error(wrongtype_text()), m)
            &&& spec_execute(StoreCommand::RPush { key, items }, m, now) == (FrameV::Error(wrongtype_text()), m)
            &&& spec_execute(StoreCommand::LPop(key), m, now) == (FrameV::Error(wrongtype_text()), m)
            &&& spec_execute(StoreCommand::RPop(key), m, now) == (FrameV::Error(wrongtype_text()), m)
            &&& spec_execute(StoreCommand::LLen(key), m, now) == (FrameV::Error(wrongtype_text()), m)
            &&& spec_execute(StoreCommand::LRange { key, start, stop }, m, now) == (
                FrameV::Error(wrongtype_text()),
                m,
            )
        },
        m[key@].data is List ==> spec_execute(StoreCommand::Get { key }, m, now) == (
            FrameV::Error(wrongtype_text()),
            m,
        ),
{
}


/// LRANGE answers the elements from the first index to the last, both
/// inclusive: a negative index counts from the end, a first index before
/// the start means the start, a last index past the end means the last
/// element, and when the first index lies after the last the answer is
/// empty (so is it when the last index lies before the start, or the first
/// past the end).
pub proof fn lemma_lrange(m: StoreV, key: Vec<u8>, start: i64, stop: i64, now: u128)
    requires
        live(m, key@, now),
        m[key@].data is List,
    ensures
        ({
            let l = m[key@].data->List_0;
            let n = l.len() as int;
            let s0 = if start < 0 { start + n } else { start as int };
            let e0 = if stop < 0 { stop + n } else { stop as int };
            let s = if s0 < 0 { 0 } else { s0 };
            let e = if e0 > n - 1 { n - 1 } else { e0 };
            let answer = spec_execute(StoreCommand::LRange { key, start, stop }, m, now).0;
            &&& answer matches FrameV::Array(xs) && xs.len() == (if s <= e { e - s + 1 } else { 0 }) && (forall|i: int|
                0 <= i < xs.len() ==> xs[i] == FrameV::BulkString(l[s + i]))
            &&& e0 < 0 ==> answer == FrameV::Array(Seq::empty())
            &&& s0 >= n ==> answer == FrameV::Array(Seq::empty())
        }),
{
    let l = m[key@].data->List_0;
    let n = l.len() as int;
    let s = range_first(n, start);
    let e = range_last(n, stop);
    if s <= e {
        assert(bulk_frames(l.subrange(s, e + 1)).len() == e - s + 1);
    }
}

/// LPUSH and RPUSH answer the length of the list afterwards: its length
/// before plus the number of items pushed, which LLEN then answers too.
pub proof fn lemma_push_answers_length(
    m: StoreV,
    key: Vec<u8>,
    items: Vec<Vec<u8>>,
    front: bool,
    now: u128,
    read_key: Vec<u8>,
)
    requires
        read_key@ == key@,
        !(live(m, key@, now) && m[key@].data is String),
    ensures
        ({
            let cmd = if front {
                StoreCommand::LPush { key, items }
            } else {
                StoreCommand::RPush { key, items }
            };
            let r = spec_execute(cmd, m, now);
            &&& r.0 == FrameV::Integer((list_at(m, key@, now).len() + items@.len()) as i64)
            &&& spec_execute(StoreCommand::LLen(read_key), r.1, now).0 == r.0
        }),
{
    let ks = bytes_seq(items@);
    assert(ks.len() == items@.len());
    assert(ks.reverse().len() == ks.len());
}


/// LPOP takes the first element of a list and RPOP the last: the answer is
/// that element, and the key keeps the rest of the list, or goes away with
/// the last element.
pub proof fn lemma_pop_takes_an_end(m: StoreV, key: Vec<u8>, now: u128)
    requires
        live(m, key@, now),
        m[key@].data matches DataV::List(l) && l.len() > 0,
    ensures
        ({
            let l = m[key@].data->List_0;
            let lp = spec_execute(StoreCommand::LPop(key), m, now);
            let rp = spec_execute(StoreCommand::RPop(key), m, now);
            &&& lp.0 == FrameV::BulkString(l[0])
            &&& rp.0 == FrameV::BulkString(l[l.len() - 1])
            &&& l.len() == 1 ==> !lp.1.contains_key(key@) && !rp.1.contains_key(key@)
            &&& l.len() > 1 ==> lp.1.contains_key(key@) && lp.1[key@].data == DataV::List(l.subrange(1, l.len() as int))
            &&& l.len() > 1 ==> rp.1.contains_key(key@) && rp.1[key@].data == DataV::List(l.subrange(0, l.len() - 1))
        }),
{
    let l = m[key@].data->List_0;
    assert(l.drop_first() =~= l.subrange(1, l.len() as int));
    assert(l.drop_last() =~= l.subrange(0, l.len() - 1));
}

} // verus!
