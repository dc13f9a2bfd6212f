//! The key-value store: entries that hold a string or a list, optional
//! expiry instants, lazy expiry on access and a bounded active sweep.
//!
//! Instants are milliseconds on the server's monotonic clock; the caller
//! reads the clock and passes the current instant in.

use std::collections::VecDeque;
use vstd::prelude::*;

verus! {

/// The value a key holds.
pub enum DataType {
    String(Vec<u8>),
    List(VecDeque<Vec<u8>>),
}

/// A stored value and the instant (in milliseconds) after which it is gone.
pub struct StoredEntry {
    pub data: DataType,
    pub expires_at: Option<u128>,
}

/// The mathematical value of a [`DataType`].
pub enum DataV {
    String(Seq<u8>),
    List(Seq<Seq<u8>>),
}

/// The mathematical value of a [`StoredEntry`].
pub struct EntryV {
    pub data: DataV,
    pub expires_at: Option<u128>,
}

/// The contents of a store: each key's entry.
pub type StoreV = Map<Seq<u8>, EntryV>;

/// The byte strings of a list.
pub open spec fn list_view(l: Seq<Vec<u8>>) -> Seq<Seq<u8>> {
    l.map_values(|x: Vec<u8>| x@)
}

/// The value of a data item.
pub open spec fn data_view(d: DataType) -> DataV {
    match d {
        DataType::String(s) => DataV::String(s@),
        DataType::List(l) => DataV::List(list_view(l@)),
    }
}

/// The value of an entry.
pub open spec fn entry_view(e: StoredEntry) -> EntryV {
    EntryV { data: data_view(e.data), expires_at: e.expires_at }
}

impl View for StoredEntry {
    type V = EntryV;

    open spec fn view(&self) -> EntryV {
        entry_view(*self)
    }
}

/// An entry is expired at `now` when its expiry instant lies strictly before `now`.
pub open spec fn expired(e: EntryV, now: u128) -> bool {
    match e.expires_at {
        Some(t) => t < now,
        None => false,
    }
}

/// The store after lazy expiry of `key`: an expired entry is removed, anything
/// else stays as it is.
pub open spec fn lazy(m: StoreV, key: Seq<u8>, now: u128) -> StoreV {
    if m.contains_key(key) && expired(m[key], now) {
        m.remove(key)
    } else {
        m
    }
}

impl StoredEntry {
    /// An entry holding `data` that never expires.
    pub fn new(data: DataType) -> (r: Self)
        ensures
            r.data == data,
            r.expires_at is None,
    {
        Self { data, expires_at: None }
    }

    /// Whether this entry has expired at `now`.
    pub fn is_expired(&self, now: u128) -> (r: bool)
        ensures
            r == expired(self@, now),
    {
        match self.expires_at {
            Some(t) => t < now,
            None => false,
        }
    }
}

/// Are the byte strings `a` and `b` equal?
pub fn bytes_eq(a: &[u8], b: &[u8]) -> (r: bool)
    ensures
        r == (a@ == b@),
{
    if a.len() != b.len() {
        return false;
    }
    let mut i: usize = 0;
    while i < a.len()
        invariant
            i <= a@.len(),
            a@.len() == b@.len(),
            forall|j: int| 0 <= j < i ==> a@[j] == b@[j],
        decreases a@.len() - i,
    {
        if a[i] != b[i] {
            return false;
        }
        i = i + 1;
    }
    assert(a@ =~= b@);
    true
}

/// The store: a sequence of entries with pairwise distinct keys. Its order
/// is the order in which the active sweep visits keys.
pub struct StoreMap {
    entries: Vec<(Vec<u8>, StoredEntry)>,
}

impl StoreMap {
    /// The keys in the order in which the sweep visits them.
    pub closed spec fn key_order(&self) -> Seq<Seq<u8>> {
        self.entries@.map_values(|p: (Vec<u8>, StoredEntry)| p.0@)
    }

    /// No key occurs twice.
    pub closed spec fn wf(&self) -> bool {
        forall|i: int, j: int|
            0 <= i < j < self.entries@.len() ==> self.entries@[i].0@ != self.entries@[j].0@
    }

    /// Does some entry have key `k`?
    closed spec fn has_key(&self, k: Seq<u8>) -> bool {
        exists|i: int| 0 <= i < self.entries@.len() && self.entries@[i].0@ == k
    }

    /// The index of the entry with key `k`.
    closed spec fn index_of(&self, k: Seq<u8>) -> int {
        choose|i: int| 0 <= i < self.entries@.len() && self.entries@[i].0@ == k
    }

    /// Each key's entry.
    pub closed spec fn contents(&self) -> StoreV {
        Map::new(|k: Seq<u8>| self.has_key(k), |k: Seq<u8>| entry_view(self.entries@[self.index_of(k)].1))
    }

    /// The entry at index `i` is the map's entry for its key.
    proof fn lemma_at(&self, i: int)
        requires
            self.wf(),
            0 <= i < self.entries@.len(),
        ensures
            self@.contains_key(self.entries@[i].0@),
            self@[self.entries@[i].0@] == entry_view(self.entries@[i].1),
    {
        let k = self.entries@[i].0@;
        assert(self.has_key(k));
        let j = self.index_of(k);
        assert(self.entries@[j].0@ == k);
        if j != i {
            if j < i {
                assert(self.entries@[j].0@ != self.entries@[i].0@);
            } else {
                assert(self.entries@[i].0@ != self.entries@[j].0@);
            }
        }
    }

    /// The key order lists each key of the map once.
    pub proof fn lemma_key_order(&self)
        requires
            self.wf(),
        ensures
            self.key_order().len() == self@.dom().len(),
            self.key_order().no_duplicates(),
            forall|k: Seq<u8>| self@.contains_key(k) <==> self.key_order().contains(k),
            self@.dom().finite(),
    {
        let ko = self.key_order();
        assert forall|k: Seq<u8>| self@.contains_key(k) <==> ko.contains(k) by {
            if self@.contains_key(k) {
                let i = self.index_of(k);
                assert(ko[i] == k);
            }
            if ko.contains(k) {
                let i = choose|i: int| 0 <= i < ko.len() && ko[i] == k;
                assert(self.entries@[i].0@ == k);
            }
        }
        assert(ko.no_duplicates()) by {
            assert forall|i: int, j: int| 0 <= i < ko.len() && 0 <= j < ko.len() && i != j implies ko[i]
                != ko[j] by {
                if i < j {
                    assert(self.entries@[i].0@ != self.entries@[j].0@);
                } else {
                    assert(self.entries@[j].0@ != self.entries@[i].0@);
                }
            }
        }
        assert(self@.dom() =~= ko.to_set());
        ko.unique_seq_to_set();
    }

    /// The index of the entry with key `key`.
    fn find(&self, key: &[u8]) -> (r: Option<usize>)
        requires
            self.wf(),
        ensures
            match r {
                Some(i) => i < self.entries@.len() && self.entries@[i as int].0@ == key@
                    && self@.contains_key(key@) && self@[key@] == entry_view(
                    self.entries@[i as int].1,
                ),
                None => !self@.contains_key(key@),
            },
    {
        let mut i: usize = 0;
        while i < self.entries.len()
            invariant
                self.wf(),
                i <= self.entries@.len(),
                forall|j: int| 0 <= j < i ==> self.entries@[j].0@ != key@,
            decreases self.entries@.len() - i,
        {
            if bytes_eq(self.entries[i].0.as_slice(), key) {
                proof {
                    self.lemma_at(i as int);
                }
                return Some(i);
            }
            i = i + 1;
        }
        proof {
            if self.has_key(key@) {
                let j = self.index_of(key@);
                assert(self.entries@[j].0@ == key@);
            }
        }
        None
    }


    /// An empty store.
    pub fn new() -> (r: Self)
        ensures
            r.wf(),
            r@ == Map::<Seq<u8>, EntryV>::empty(),
    {
        let r = StoreMap { entries: Vec::new() };
        assert(r@ =~= Map::<Seq<u8>, EntryV>::empty());
        r
    }

    /// Stores `value` under `key`, replacing whatever the key held (expired
    /// or not), and hands back the entry it replaced.
    pub fn insert(&mut self, key: Vec<u8>, value: StoredEntry) -> (r: Option<StoredEntry>)
        requires
            old(self).wf(),
        ensures
            final(self).wf(),
            final(self)@ == old(self)@.insert(key@, value@),
            match r {
                Some(e) => old(self)@.contains_key(key@) && e@ == old(self)@[key@],
                None => !old(self)@.contains_key(key@),
            },
    {
        let ghost pre = self@;
        match self.find(key.as_slice()) {
            Some(i) => {
                let old_entry = self.remove_at(i);
                self.push_new(key, value);
                assert(self@ =~= pre.insert(key@, value@));
                Some(old_entry)
            },
            None => {
                self.push_new(key, value);
                None
            },
        }
    }

    /// The entry under `key` if it is live at `now`, leaving the store as
    /// it is.
    pub fn peek(&self, key: &[u8], now: u128) -> (r: Option<&StoredEntry>)
        requires
            self.wf(),
        ensures
            match r {
                Some(e) => self@.contains_key(key@) && !expired(self@[key@], now) && e@ == self@[key@],
                None => !(self@.contains_key(key@) && !expired(self@[key@], now)),
            },
    {
        match self.find(key) {
            Some(i) => {
                if self.entries[i].1.is_expired(now) {
                    None
                } else {
                    Some(&self.entries[i].1)
                }
            },
            None => None,
        }
    }

    /// Lazy expiry: removes the entry under `key` if it has expired at `now`.
    pub fn lazy_delete(&mut self, key: &[u8], now: u128)
        requires
            old(self).wf(),
        ensures
            final(self).wf(),
            final(self)@ == lazy(old(self)@, key@, now),
    {
        match self.find(key) {
            Some(i) => {
                if self.entries[i].1.is_expired(now) {
                    let _gone = self.remove_at(i);
                }
            },
            None => {},
        }
    }

    /// Whether `key` holds a live entry at `now` (after lazy expiry).
    pub fn contains_key(&mut self, key: &[u8], now: u128) -> (r: bool)
        requires
            old(self).wf(),
        ensures
            final(self).wf(),
            final(self)@ == lazy(old(self)@, key@, now),
            r == final(self)@.contains_key(key@),
    {
        self.lazy_delete(key, now);
        let found = self.find(key);
        found.is_some()
    }

    /// The live entry under `key` at `now` (after lazy expiry).
    pub fn get(&mut self, key: &[u8], now: u128) -> (r: Option<&StoredEntry>)
        requires
            old(self).wf(),
        ensures
            final(self).wf(),
            final(self)@ == lazy(old(self)@, key@, now),
            match r {
                Some(e) => final(self)@.contains_key(key@) && e@ == final(self)@[key@],
                None => !final(self)@.contains_key(key@),
            },
    {
        self.lazy_delete(key, now);
        match self.find(key) {
            Some(i) => Some(&self.entries[i].1),
            None => None,
        }
    }

    /// Removes the live entry under `key` at `now` (after lazy expiry) and
    /// hands it back.
    pub fn remove(&mut self, key: &[u8], now: u128) -> (r: Option<StoredEntry>)
        requires
            old(self).wf(),
        ensures
            final(self).wf(),
            final(self)@ == lazy(old(self)@, key@, now).remove(key@),
            match r {
                Some(e) => lazy(old(self)@, key@, now).contains_key(key@) && e@ == lazy(
                    old(self)@,
                    key@,
                    now,
                )[key@],
                None => !lazy(old(self)@, key@, now).contains_key(key@),
            },
    {
        self.lazy_delete(key, now);
        let ghost mid = self@;
        match self.find(key) {
            Some(i) => {
                let e = self.remove_at(i);
                Some(e)
            },
            None => {
                assert(mid.remove(key@) =~= mid);
                None
            },
        }
    }


    /// Mutable access to the live entry under `key` at `now` (after lazy
    /// expiry). Whatever the caller leaves in the entry is what the store
    /// then holds under `key`.
    #[verifier::spinoff_prover]
    pub fn get_mut(&mut self, key: &[u8], now: u128) -> (r: Option<&mut StoredEntry>)
        requires
            old(self).wf(),
        ensures
            final(self).wf(),
            match r {
                Some(e) => {
                    &&& lazy(old(self)@, key@, now).contains_key(key@)
                    &&& e@ == lazy(old(self)@, key@, now)[key@]
                    &&& final(self)@ == lazy(old(self)@, key@, now).insert(key@, final(e)@)
                },
                None => {
                    &&& !lazy(old(self)@, key@, now).contains_key(key@)
                    &&& final(self)@ == lazy(old(self)@, key@, now)
                },
            },
    {
        self.lazy_delete(key, now);
        match self.find(key) {
            Some(i) => {
                let ghost mid = *self;
                proof {
                    assert forall|post: StoreMap|
                        post.entries@.len() == mid.entries@.len() && (forall|j: int|
                            0 <= j < mid.entries@.len() && j != i ==> post.entries@[j]
                                == mid.entries@[j]) && post.entries@[i as int].0
                            == mid.entries@[i as int].0 implies #[trigger] post.wf() && post@
                        == mid@.insert(key@, entry_view(post.entries@[i as int].1)) by {
                        StoreMap::lemma_update(mid, post, i as int);
                    }
                }
                let r = &mut self.entries[i].1;
                Some(r)
            },
            None => None,
        }
    }

    /// Replacing the value at index `i` keeps every key where it was and
    /// changes the value under that index's key.
    proof fn lemma_update(pre: StoreMap, post: StoreMap, i: int)
        requires
            pre.wf(),
            0 <= i < pre.entries@.len(),
            post.entries@.len() == pre.entries@.len(),
            forall|j: int| 0 <= j < pre.entries@.len() && j != i ==> post.entries@[j] == pre.entries@[j],
            post.entries@[i].0 == pre.entries@[i].0,
        ensures
            post.wf(),
            post@ == pre@.insert(pre.entries@[i].0@, entry_view(post.entries@[i].1)),
    {
        let k = pre.entries@[i].0@;
        let ev = entry_view(post.entries@[i].1);
        assert(post.wf()) by {
            assert forall|a: int, b: int| 0 <= a < b < post.entries@.len() implies post.entries@[a].0@
                != post.entries@[b].0@ by {
                assert(post.entries@[a].0 == pre.entries@[a].0);
                assert(post.entries@[b].0 == pre.entries@[b].0);
            }
        }
        assert forall|kk: Seq<u8>| #[trigger] post@.contains_key(kk) == pre@.insert(k, ev).contains_key(kk)
            && (post@.contains_key(kk) ==> post@[kk] == pre@.insert(k, ev)[kk]) by {
            if post.has_key(kk) {
                let j = post.index_of(kk);
                post.lemma_at(j);
                if j != i {
                    pre.lemma_at(j);
                }
            }
            if pre@.insert(k, ev).contains_key(kk) {
                if kk == k {
                    post.lemma_at(i);
                } else {
                    let j0 = pre.index_of(kk);
                    assert(pre.entries@[j0].0@ == kk);
                    assert(post.entries@[j0].0 == pre.entries@[j0].0);
                }
            }
        }
        assert(post@ =~= pre@.insert(k, ev));
    }


    /// How many entries one sweep visits: the first twenty, or all of them
    /// when there are fewer.
    pub open spec fn sweep_window(&self) -> nat {
        if self.key_order().len() < 20 {
            self.key_order().len()
        } else {
            20
        }
    }

    /// The keys that one sweep at `now` removes: the expired ones among the
    /// entries it visits.
    pub open spec fn swept_keys(&self, now: u128) -> Set<Seq<u8>> {
        Set::new(
            |k: Seq<u8>|
                self.key_order().take(self.sweep_window() as int).contains(k) && expired(
                    self@[k],
                    now,
                ),
        )
    }

    /// Active expiry: visits the first twenty entries in the store's order,
    /// removes those that have expired at `now`, and reports how many it
    /// removed.
    pub fn sweep_expired(&mut self, now: u128) -> (r: usize)
        requires
            old(self).wf(),
        ensures
            final(self).wf(),
            final(self)@ == old(self)@.remove_keys(old(self).swept_keys(now)),
            r == old(self).swept_keys(now).len(),
            r <= 20,
    {
        let ghost pre = *self;
        let ghost ko = pre.key_order();
        proof {
            pre.lemma_key_order();
        }
        let window: usize = if self.entries.len() < 20 {
            self.entries.len()
        } else {
            20
        };
        let mut p: usize = 0;
        let mut i: usize = 0;
        let mut removed_count: usize = 0;
        let ghost mut removed: Set<Seq<u8>> = Set::empty();
        assert(removed =~= Set::new(|k: Seq<u8>| ko.take(0).contains(k) && expired(pre@[k], now)));
        assert(self.key_order().skip(0) =~= ko.skip(0));
        while p < window
            invariant
                self.wf(),
                pre.wf(),
                ko == pre.key_order(),
                ko.no_duplicates(),
                ko.len() == pre.entries@.len(),
                window == pre.sweep_window(),
                i <= p <= window,
                removed == Set::new(|k: Seq<u8>| ko.take(p as int).contains(k) && expired(pre@[k], now)),
                removed.finite(),
                removed.len() == removed_count,
                removed_count + i == p,
                self@ == pre@.remove_keys(removed),
                self.key_order().skip(i as int) == ko.skip(p as int),
                self.key_order().len() + removed_count == ko.len(),
            decreases window - p,
        {
            let ghost k = ko[p as int];
            let ghost t0 = ko.take(p as int);
            let ghost t1 = ko.take(p + 1);
            assert(self.key_order().skip(i as int)[0] == ko.skip(p as int)[0]);
            assert(self.entries@[i as int].0@ == k);
            proof {
                self.lemma_at(i as int);
                assert(!ko.take(p as int).contains(k)) by {
                    if ko.take(p as int).contains(k) {
                        let j = choose|j: int| 0 <= j < p && t0[j] == k;
                        assert(ko[j] == ko[p as int]);
                    }
                }
                assert(!removed.contains(k));
                assert(pre@.contains_key(k)) by {
                    assert(ko.contains(k));
                }
                assert(self@[k] == pre@[k]);
            }
            if self.entries[i].1.is_expired(now) {
                let ghost before = *self;
                let _gone = self.remove_at(i);
                proof {
                    let r2 = removed.insert(k);
                    assert(r2 =~= Set::new(
                        |kk: Seq<u8>| ko.take(p + 1).contains(kk) && expired(pre@[kk], now),
                    )) by {
                        assert forall|kk: Seq<u8>| #[trigger] r2.contains(kk) == (ko.take(p + 1).contains(kk)
                            && expired(pre@[kk], now)) by {
                            if ko.take(p + 1).contains(kk) {
                                let j = choose|j: int| 0 <= j < p + 1 && t1[j] == kk;
                                if j < p {
                                    assert(ko.take(p as int)[j] == kk);
                                }
                            }
                            if ko.take(p as int).contains(kk) {
                                let j = choose|j: int| 0 <= j < p && t0[j] == kk;
                                assert(ko.take(p + 1)[j] == kk);
                            }
                            if kk == k {
                                assert(ko.take(p + 1)[p as int] == kk);
                            }
                        }
                    }
                    assert(self@ =~= pre@.remove_keys(r2));
                    let ghost a1 = self.key_order().skip(i as int);
                    let ghost b1 = ko.skip(p + 1);
                    let ghost a0 = before.key_order().skip(i as int);
                    let ghost b0 = ko.skip(p as int);
                    assert(self.key_order() == before.key_order().remove(i as int));
                    assert(a1 =~= b1) by {
                        assert forall|t: int| 0 <= t < a1.len() implies #[trigger] a1[t] == b1[t] by {
                            assert(a1[t] == before.key_order()[i + 1 + t]);
                            assert(a0[t + 1] == b0[t + 1]);
                        }
                    }
                    removed = r2;
                }
                removed_count = removed_count + 1;
            } else {
                proof {
                    let r2 = removed;
                    assert(r2 =~= Set::new(
                        |kk: Seq<u8>| ko.take(p + 1).contains(kk) && expired(pre@[kk], now),
                    )) by {
                        assert forall|kk: Seq<u8>| #[trigger] r2.contains(kk) == (ko.take(p + 1).contains(kk)
                            && expired(pre@[kk], now)) by {
                            if ko.take(p + 1).contains(kk) {
                                let j = choose|j: int| 0 <= j < p + 1 && t1[j] == kk;
                                if j < p {
                                    assert(ko.take(p as int)[j] == kk);
                                }
                            }
                            if ko.take(p as int).contains(kk) {
                                let j = choose|j: int| 0 <= j < p && t0[j] == kk;
                                assert(ko.take(p + 1)[j] == kk);
                            }
                        }
                    }
                    let ghost a1 = self.key_order().skip(i + 1);
                    let ghost b1 = ko.skip(p + 1);
                    let ghost a0 = self.key_order().skip(i as int);
                    let ghost b0 = ko.skip(p as int);
                    assert(a1 =~= b1) by {
                        assert forall|t: int| 0 <= t < a1.len() implies #[trigger] a1[t] == b1[t] by {
                            assert(a0[t + 1] == b0[t + 1]);
                        }
                    }
                }
                i = i + 1;
            }
            p = p + 1;
        }
        assert(removed =~= pre.swept_keys(now));
        removed_count
    }

    /// Removes the entry at index `i`.
    fn remove_at(&mut self, i: usize) -> (r: StoredEntry)
        requires
            old(self).wf(),
            i < old(self).entries@.len(),
        ensures
            final(self).wf(),
            r == old(self).entries@[i as int].1,
            final(self)@ == old(self)@.remove(old(self).entries@[i as int].0@),
            final(self).key_order() == old(self).key_order().remove(i as int),
    {
        let ghost pre = *self;
        let ghost k = pre.entries@[i as int].0@;
        proof {
            pre.lemma_at(i as int);
        }
        let (_key, entry) = self.entries.remove(i);
        let ghost post = *self;
        assert(post.entries@ == pre.entries@.remove(i as int));
        assert(post.wf()) by {
            assert forall|a: int, b: int| 0 <= a < b < post.entries@.len() implies post.entries@[a].0@
                != post.entries@[b].0@ by {
                let a0 = if a < i { a } else { a + 1 };
                let b0 = if b < i { b } else { b + 1 };
                assert(post.entries@[a] == pre.entries@[a0]);
                assert(post.entries@[b] == pre.entries@[b0]);
            }
        }
        assert forall|kk: Seq<u8>| #[trigger] post@.contains_key(kk) == pre@.remove(k).contains_key(kk)
            && (post@.contains_key(kk) ==> post@[kk] == pre@.remove(k)[kk]) by {
            if post.has_key(kk) {
                let j = post.index_of(kk);
                post.lemma_at(j);
                let j0 = if j < i { j } else { j + 1 };
                assert(post.entries@[j] == pre.entries@[j0]);
                pre.lemma_at(j0);
                assert(j0 != i);
                assert(pre.entries@[j0].0@ != k) by {
                    if j0 < i {
                    } else {
                    }
                }
            }
            if pre@.remove(k).contains_key(kk) {
                let j0 = pre.index_of(kk);
                assert(pre.entries@[j0].0@ == kk);
                assert(j0 != i);
                let j = if j0 < i { j0 } else { j0 - 1 };
                assert(post.entries@[j] == pre.entries@[j0]);
            }
        }
        assert(post@ =~= pre@.remove(k));
        assert(post.key_order() =~= pre.key_order().remove(i as int));
        entry
    }

    /// Adds an entry under a key that the store does not hold.
    fn push_new(&mut self, key: Vec<u8>, entry: StoredEntry)
        requires
            old(self).wf(),
            !old(self)@.contains_key(key@),
        ensures
            final(self).wf(),
            final(self)@ == old(self)@.insert(key@, entry_view(entry)),
            final(self).key_order() == old(self).key_order().push(key@),
    {
        let ghost pre = *self;
        let ghost k = key@;
        let ghost ev = entry_view(entry);
        self.entries.push((key, entry));
        let ghost post = *self;
        let ghost n = pre.entries@.len() as int;
        assert(post.entries@ == pre.entries@.push((post.entries@[n].0, post.entries@[n].1)));
        assert forall|j: int| 0 <= j < n implies pre.entries@[j].0@ != k by {
            if pre.entries@[j].0@ == k {
                assert(pre.has_key(k));
            }
        }
        assert(post.wf()) by {
            assert forall|a: int, b: int| 0 <= a < b < post.entries@.len() implies post.entries@[a].0@
                != post.entries@[b].0@ by {
                assert(post.entries@[a] == pre.entries@[a]);
                if b < n {
                    assert(post.entries@[b] == pre.entries@[b]);
                }
            }
        }
        assert forall|kk: Seq<u8>| #[trigger] post@.contains_key(kk) == pre@.insert(k, ev).contains_key(kk)
            && (post@.contains_key(kk) ==> post@[kk] == pre@.insert(k, ev)[kk]) by {
            if post.has_key(kk) {
                let j = post.index_of(kk);
                post.lemma_at(j);
                if j < n {
                    assert(post.entries@[j] == pre.entries@[j]);
                    pre.lemma_at(j);
                }
            }
            if pre@.insert(k, ev).contains_key(kk) {
                if kk == k {
                    post.lemma_at(n);
                } else {
                    let j0 = pre.index_of(kk);
                    assert(pre.entries@[j0].0@ == kk);
                    assert(post.entries@[j0] == pre.entries@[j0]);
                }
            }
        }
        assert(post@ =~= pre@.insert(k, ev));
        assert(post.key_order() =~= pre.key_order().push(k));
    }
}

impl View for StoreMap {
    type V = StoreV;

    open spec fn view(&self) -> StoreV {
        self.contents()
    }
}

} // verus!
