//! The live keyspace: a write-through store of byte-string keys to values
//! with optional absolute expiry, modelled as a `Map` from keys to entries.
//!
//! The store is an association list with unique keys; every operation is
//! specified against the map view. Expiry is lazy: `get` reports an expired
//! entry as [`GetValue::Expired`] and the caller evicts it with `delete`, as
//! the connection handler does.

use vstd::prelude::*;

use crate::ascii::{bytes_eq, copy_bytes};

verus! {

/// Ghost model of one stored entry.
pub struct EntryModel {
    pub value: Seq<u8>,
    pub expires_at: Option<u64>,
}

/// What a lookup in the live store reports.
#[derive(Debug)]
pub enum GetValue {
    /// The key is present and not expired; carries its value.
    Found(Vec<u8>),
    /// The key is absent.
    Missing,
    /// The key is present but its expiry has passed; carries the stale value.
    Expired(Vec<u8>),
}

/// The absolute expiry instant for an optional ttl applied at `now_ms`,
/// saturating at the largest representable instant.
pub open spec fn expiry_at(ttl_ms: Option<u64>, now_ms: u64) -> Option<u64> {
    match ttl_ms {
        Some(t) => Some(
            if now_ms + t > u64::MAX {
                u64::MAX
            } else {
                (now_ms + t) as u64
            },
        ),
        None => None,
    }
}

/// An entry is expired once its expiry instant is at or before `now_ms`.
pub open spec fn entry_expired(e: EntryModel, now_ms: u64) -> bool {
    match e.expires_at {
        Some(x) => x <= now_ms,
        None => false,
    }
}

/// A stored value together with its optional absolute expiry instant, in
/// milliseconds.
#[derive(Debug)]
pub struct DbValue {
    value: Vec<u8>,
    expires_at: Option<u64>,
}

impl DbValue {
    pub closed spec fn model(self) -> EntryModel {
        EntryModel { value: self.value@, expires_at: self.expires_at }
    }

    pub fn new(value: Vec<u8>, expires_at: Option<u64>) -> (r: Self)
        ensures
            r.model() == (EntryModel { value: value@, expires_at }),
    {
        Self { value, expires_at }
    }

    /// Consumes the entry, yielding its value.
    pub fn into_value(self) -> (r: Vec<u8>)
        ensures
            r@ == self.model().value,
    {
        self.value
    }
}

/// The map denoted by an association list, later entries shadowing earlier
/// ones.
pub open spec fn entries_map(entries: Seq<(Vec<u8>, DbValue)>) -> Map<Seq<u8>, EntryModel>
    decreases entries.len(),
{
    if entries.len() == 0 {
        Map::empty()
    } else {
        entries_map(entries.drop_last()).insert(
            entries.last().0@,
            entries.last().1.model(),
        )
    }
}

/// No two entries share a key.
pub open spec fn unique_keys(entries: Seq<(Vec<u8>, DbValue)>) -> bool {
    forall|i: int, j: int|
        0 <= i < j < entries.len() ==> (#[trigger] entries[i]).0@ != (#[trigger] entries[j]).0@
}

/// With unique keys, the association list denotes the evident map: its domain
/// is its set of keys and each key maps to its entry.
pub proof fn lemma_entries_map_lookup(entries: Seq<(Vec<u8>, DbValue)>)
    requires
        unique_keys(entries),
    ensures
        forall|k: Seq<u8>|
            #[trigger] entries_map(entries).dom().contains(k) <==> exists|i: int|
                0 <= i < entries.len() && (#[trigger] entries[i]).0@ == k,
        forall|i: int|
            0 <= i < entries.len() ==> entries_map(entries)[(#[trigger] entries[i]).0@]
                == entries[i].1.model(),
    decreases entries.len(),
{
    if entries.len() > 0 {
        let prefix = entries.drop_last();
        assert(unique_keys(prefix)) by {
            assert(forall|i: int|
                0 <= i < prefix.len() ==> #[trigger] prefix[i] == entries[i]);
        }
        lemma_entries_map_lookup(prefix);
        assert forall|i: int| 0 <= i < entries.len() implies entries_map(entries)[(
        #[trigger] entries[i]).0@] == entries[i].1.model() by {
            if i < entries.len() - 1 {
                assert(entries[i].0@ != entries.last().0@);
                assert(prefix[i] == entries[i]);
            }
        }
        assert forall|k: Seq<u8>| #[trigger]
            entries_map(entries).dom().contains(k) implies exists|i: int|
            0 <= i < entries.len() && (#[trigger] entries[i]).0@ == k by {
            if k == entries.last().0@ {
                assert(entries[entries.len() - 1].0@ == k);
            } else {
                let i = choose|i: int| 0 <= i < prefix.len() && (#[trigger] prefix[i]).0@ == k;
                assert(entries[i].0@ == k);
            }
        }
        assert forall|k: Seq<u8>|
            (exists|i: int|
                0 <= i < entries.len() && (#[trigger] entries[i]).0@ == k) implies #[trigger]
            entries_map(entries).dom().contains(k) by {
            let i = choose|i: int| 0 <= i < entries.len() && (#[trigger] entries[i]).0@ == k;
            if i < entries.len() - 1 {
                assert(prefix[i].0@ == k);
            }
        }
    }
}

/// Replacing the entry at `i` with one carrying the same key updates the map
/// at that key.
pub proof fn lemma_entries_map_update(entries: Seq<(Vec<u8>, DbValue)>, i: int, e: (Vec<u8>, DbValue))
    requires
        unique_keys(entries),
        0 <= i < entries.len(),
        e.0@ == entries[i].0@,
    ensures
        entries_map(entries.update(i, e)) =~= entries_map(entries).insert(e.0@, e.1.model()),
    decreases entries.len(),
{
    let prefix = entries.drop_last();
    assert(unique_keys(prefix)) by {
        assert(forall|j: int| 0 <= j < prefix.len() ==> #[trigger] prefix[j] == entries[j]);
    }
    if i == entries.len() - 1 {
        assert(entries.update(i, e).drop_last() =~= prefix);
        assert(entries.update(i, e).last() == e);
        assert(entries_map(entries.update(i, e)) =~= entries_map(entries).insert(
            e.0@,
            e.1.model(),
        ));
    } else {
        assert(entries.update(i, e).drop_last() =~= prefix.update(i, e));
        assert(entries.update(i, e).last() == entries.last());
        lemma_entries_map_update(prefix, i, e);
        assert(e.0@ != entries.last().0@);
        assert(entries_map(entries.update(i, e)) =~= entries_map(entries).insert(
            e.0@,
            e.1.model(),
        ));
    }
}

/// Removing the entry at `i` removes its key from the map.
pub proof fn lemma_entries_map_remove(entries: Seq<(Vec<u8>, DbValue)>, i: int)
    requires
        unique_keys(entries),
        0 <= i < entries.len(),
    ensures
        entries_map(entries.remove(i)) =~= entries_map(entries).remove(entries[i].0@),
    decreases entries.len(),
{
    let prefix = entries.drop_last();
    assert(unique_keys(prefix)) by {
        assert(forall|j: int| 0 <= j < prefix.len() ==> #[trigger] prefix[j] == entries[j]);
    }
    lemma_entries_map_lookup(entries);
    if i == entries.len() - 1 {
        assert(entries.remove(i) =~= prefix);
        assert(!entries_map(prefix).dom().contains(entries[i].0@)) by {
            lemma_entries_map_lookup(prefix);
            if entries_map(prefix).dom().contains(entries[i].0@) {
                let j = choose|j: int|
                    0 <= j < prefix.len() && (#[trigger] prefix[j]).0@ == entries[i].0@;
                assert(entries[j].0@ == entries[i].0@);
            }
        }
        assert(entries_map(entries.remove(i)) =~= entries_map(entries).remove(entries[i].0@));
    } else {
        assert(entries.remove(i).drop_last() =~= prefix.remove(i));
        assert(entries.remove(i).last() == entries.last());
        lemma_entries_map_remove(prefix, i);
        assert(entries[i].0@ != entries.last().0@);
        assert(entries_map(entries.remove(i)) =~= entries_map(entries).remove(entries[i].0@));
    }
}

/// The behaviour a keyspace offers to the dispatcher. The original design
/// leaves the store behind this trait so the handler can run over any
/// implementation; [`RedisDatabase`] is the one provided.
pub trait Database {
    /// The map this store denotes.
    spec fn db(&self) -> Map<Seq<u8>, EntryModel>;

    /// The store's internal invariant.
    spec fn inv(&self) -> bool;

    /// Looks up `key` at time `now_ms`, reporting a live value, an absent
    /// key, or a present-but-expired entry (which the caller evicts).
    fn get(&self, key: &[u8], now_ms: u64) -> (r: GetValue)
        requires
            self.inv(),
        ensures
            match r {
                GetValue::Found(v) => self.db().dom().contains(key@) && !entry_expired(
                    self.db()[key@],
                    now_ms,
                ) && v@ == self.db()[key@].value,
                GetValue::Missing => !self.db().dom().contains(key@),
                GetValue::Expired(v) => self.db().dom().contains(key@) && entry_expired(
                    self.db()[key@],
                    now_ms,
                ) && v@ == self.db()[key@].value,
            },
    ;

    /// Installs `value` under `key`, replacing any prior entry; with a ttl
    /// the entry expires `ttl_ms` milliseconds after `now_ms`.
    fn set(&mut self, key: &[u8], value: &[u8], ttl_ms: Option<u64>, now_ms: u64)
        requires
            old(self).inv(),
        ensures
            final(self).inv(),
            final(self).db() == old(self).db().insert(
                key@,
                (EntryModel { value: value@, expires_at: expiry_at(ttl_ms, now_ms) }),
            ),
    ;

    /// Removes `key`, returning the value it held.
    fn delete(&mut self, key: &[u8]) -> (r: Option<Vec<u8>>)
        requires
            old(self).inv(),
        ensures
            final(self).inv(),
            final(self).db() == old(self).db().remove(key@),
            match r {
                Some(v) => old(self).db().dom().contains(key@) && v@ == old(self).db()[key@].value,
                None => !old(self).db().dom().contains(key@),
            },
    ;
}

/// The live store: an association list of unique byte-string keys.
#[derive(Debug)]
pub struct RedisDatabase {
    data: Vec<(Vec<u8>, DbValue)>,
}

impl View for RedisDatabase {
    type V = Map<Seq<u8>, EntryModel>;

    closed spec fn view(&self) -> Map<Seq<u8>, EntryModel> {
        entries_map(self.data@)
    }
}

impl RedisDatabase {
    pub closed spec fn wf(self) -> bool {
        unique_keys(self.data@)
    }

    pub fn new() -> (r: Self)
        ensures
            r.wf(),
            r@ == Map::<Seq<u8>, EntryModel>::empty(),
    {
        let r = Self { data: Vec::new() };
        proof {
            assert(r@ =~= Map::<Seq<u8>, EntryModel>::empty());
        }
        r
    }

    /// The index holding `key`, if any.
    fn find(&self, key: &[u8]) -> (r: Option<usize>)
        ensures
            match r {
                Some(i) => i < self.data@.len() && self.data@[i as int].0@ == key@,
                None => forall|j: int|
                    0 <= j < self.data@.len() ==> (#[trigger] self.data@[j]).0@ != key@,
            },
    {
        let mut i: usize = 0;
        while i < self.data.len()
            invariant
                0 <= i <= self.data@.len(),
                forall|j: int| 0 <= j < i ==> (#[trigger] self.data@[j]).0@ != key@,
            decreases self.data@.len() - i,
        {
            if bytes_eq(self.data[i].0.as_slice(), key) {
                return Some(i);
            }
            i = i + 1;
        }
        None
    }
}

impl RedisDatabase {
    /// Whether the store holds `key` at all, expired or not.
    pub fn contains_key(&self, key: &[u8]) -> (r: bool)
        requires
            self.wf(),
        ensures
            r == self@.dom().contains(key@),
    {
        proof {
            lemma_entries_map_lookup(self.data@);
        }
        match self.find(key) {
            Some(_) => true,
            None => {
                proof {
                    if self@.dom().contains(key@) {
                        let j = choose|j: int|
                            0 <= j < self.data@.len() && (#[trigger] self.data@[j]).0@ == key@;
                    }
                }
                false
            }
        }
    }

    /// All keys whose entries are not expired at `now_ms`, without
    /// duplicates.
    pub fn unexpired_keys(&self, now_ms: u64) -> (r: Vec<Vec<u8>>)
        requires
            self.wf(),
        ensures
            forall|j: int|
                0 <= j < r@.len() ==> self@.dom().contains((#[trigger] r@[j])@) && !entry_expired(
                    self@[r@[j]@],
                    now_ms,
                ),
            forall|k: Seq<u8>|
                self@.dom().contains(k) && !entry_expired(#[trigger] self@[k], now_ms)
                    ==> exists|j: int| 0 <= j < r@.len() && (#[trigger] r@[j])@ == k,
            forall|j1: int, j2: int| 0 <= j1 < j2 < r@.len() ==> (#[trigger] r@[j1])@ != (
            #[trigger] r@[j2])@,
    {
        let mut out: Vec<Vec<u8>> = Vec::new();
        let ghost mut srcs: Seq<int> = Seq::empty();
        let ghost mut locs: Map<int, int> = Map::empty();
        let mut i: usize = 0;
        while i < self.data.len()
            invariant
                self.wf(),
                0 <= i <= self.data@.len(),
                srcs.len() == out@.len(),
                forall|j: int| 0 <= j < srcs.len() ==> 0 <= #[trigger] srcs[j] < i,
                forall|j: int|
                    0 <= j < srcs.len() ==> (#[trigger] out@[j])@ == self.data@[srcs[j]].0@
                        && !entry_expired(self.data@[srcs[j]].1.model(), now_ms),
                forall|j1: int, j2: int| 0 <= j1 < j2 < srcs.len() ==> #[trigger] srcs[j1]
                    < #[trigger] srcs[j2],
                forall|i2: int|
                    0 <= i2 < i && !entry_expired((#[trigger] self.data@[i2]).1.model(), now_ms)
                        ==> 0 <= locs[i2] < out@.len() && srcs[locs[i2]] == i2,
            decreases self.data@.len() - i,
        {
            let entry = &self.data[i].1;
            let expired = match entry.expires_at {
                Some(x) => x <= now_ms,
                None => false,
            };
            proof {
                assert(expired == entry_expired(self.data@[i as int].1.model(), now_ms));
            }
            if !expired {
                let ghost before = out@;
                out.push(copy_bytes(self.data[i].0.as_slice()));
                proof {
                    srcs = srcs.push(i as int);
                    locs = locs.insert(i as int, before.len() as int);
                    assert(forall|j: int|
                        0 <= j < before.len() ==> #[trigger] out@[j] == before[j]);
                    assert(out@[before.len() as int]@ == self.data@[i as int].0@);
                }
            }
            i = i + 1;
        }
        proof {
            lemma_entries_map_lookup(self.data@);
            assert forall|j: int| 0 <= j < out@.len() implies self@.dom().contains((
            #[trigger] out@[j])@) && !entry_expired(self@[out@[j]@], now_ms) by {
                let i2 = srcs[j];
                assert(self.data@[i2].0@ == out@[j]@);
                assert(self@[self.data@[i2].0@] == self.data@[i2].1.model());
            }
            assert forall|k: Seq<u8>|
                self@.dom().contains(k) && !entry_expired(#[trigger] self@[k], now_ms) implies
                exists|j: int| 0 <= j < out@.len() && (#[trigger] out@[j])@ == k by {
                let i2 = choose|i2: int|
                    0 <= i2 < self.data@.len() && (#[trigger] self.data@[i2]).0@ == k;
                assert(self.data@[i2].1.model() == self@[k]);
                let j = locs[i2];
                assert(out@[j]@ == self.data@[srcs[j]].0@);
                assert(srcs[j] == i2);
                assert(out@[j]@ == k);
            }
            assert forall|j1: int, j2: int| 0 <= j1 < j2 < out@.len() implies (
            #[trigger] out@[j1])@ != (#[trigger] out@[j2])@ by {
                assert(srcs[j1] < srcs[j2]);
                assert(self.data@[srcs[j1]].0@ != self.data@[srcs[j2]].0@);
            }
        }
        out
    }
}

impl Database for RedisDatabase {
    open spec fn db(&self) -> Map<Seq<u8>, EntryModel> {
        self@
    }

    open spec fn inv(&self) -> bool {
        self.wf()
    }

    fn set(&mut self, key: &[u8], value: &[u8], ttl_ms: Option<u64>, now_ms: u64) {
        let expires_at: Option<u64> = match ttl_ms {
            Some(t) => Some(
                if t > u64::MAX - now_ms {
                    u64::MAX
                } else {
                    now_ms + t
                },
            ),
            None => None,
        };
        proof {
            assert(expires_at == expiry_at(ttl_ms, now_ms));
        }
        let entry = (copy_bytes(key), DbValue::new(copy_bytes(value), expires_at));
        let ghost e = entry;
        match self.find(key) {
            Some(i) => {
                proof {
                    lemma_entries_map_update(self.data@, i as int, e);
                }
                self.data.set(i, entry);
                proof {
                    assert(unique_keys(self.data@)) by {
                        assert(forall|j: int|
                            0 <= j < self.data@.len() && j != i ==> #[trigger] self.data@[j]
                                == old(self).data@[j]);
                    }
                }
            }
            None => {
                let ghost before = self.data@;
                self.data.push(entry);
                proof {
                    assert(self.data@.drop_last() =~= before);
                    assert(self.data@.last() == e);
                    assert(entries_map(self.data@) =~= entries_map(before).insert(
                        e.0@,
                        e.1.model(),
                    ));
                    assert(unique_keys(self.data@)) by {
                        assert(forall|j: int|
                            0 <= j < before.len() ==> #[trigger] self.data@[j] == before[j]);
                    }
                }
            }
        }
    }

    fn get(&self, key: &[u8], now_ms: u64) -> (r: GetValue) {
        proof {
            lemma_entries_map_lookup(self.data@);
        }
        match self.find(key) {
            Some(i) => {
                let entry = &self.data[i].1;
                let expired = match entry.expires_at {
                    Some(x) => x <= now_ms,
                    None => false,
                };
                if expired {
                    GetValue::Expired(copy_bytes(entry.value.as_slice()))
                } else {
                    GetValue::Found(copy_bytes(entry.value.as_slice()))
                }
            }
            None => {
                proof {
                    if self@.dom().contains(key@) {
                        let j = choose|j: int|
                            0 <= j < self.data@.len() && (#[trigger] self.data@[j]).0@ == key@;
                    }
                }
                GetValue::Missing
            }
        }
    }

    fn delete(&mut self, key: &[u8]) -> (r: Option<Vec<u8>>) {
        proof {
            lemma_entries_map_lookup(self.data@);
        }
        match self.find(key) {
            Some(i) => {
                proof {
                    lemma_entries_map_remove(self.data@, i as int);
                }
                let ghost before = self.data@;
                let entry = self.data.remove(i);
                proof {
                    assert(unique_keys(self.data@)) by {
                        assert(forall|j: int|
                            0 <= j < self.data@.len() ==> (j < i ==> #[trigger] self.data@[j]
                                == before[j]) && (j >= i ==> self.data@[j] == before[j + 1]));
                    }
                }
                Some(entry.1.into_value())
            }
            None => {
                proof {
                    if old(self)@.dom().contains(key@) {
                        let j = choose|j: int|
                            0 <= j < self.data@.len() && (#[trigger] self.data@[j]).0@ == key@;
                    }
                    assert(self@ =~= old(self)@.remove(key@));
                }
                None
            }
        }
    }
}

/// Setting a key with no ttl, then reading it at any later instant, yields
/// the value just written, unexpired.
pub proof fn lemma_set_no_ttl_then_get(
    m: Map<Seq<u8>, EntryModel>,
    k: Seq<u8>,
    v: Seq<u8>,
    now_ms: u64,
    later_ms: u64,
)
    ensures
        ({
            let m2 = m.insert(k, (EntryModel { value: v, expires_at: expiry_at(None, now_ms) }));
            m2.dom().contains(k) && !entry_expired(m2[k], later_ms) && m2[k].value == v
        }),
{
}

/// Setting a key with ttl `t` at `now_ms`, then reading it strictly before
/// `now_ms + t`, yields the value; reading it at or after that instant finds
/// it expired.
pub proof fn lemma_set_ttl_then_get(
    m: Map<Seq<u8>, EntryModel>,
    k: Seq<u8>,
    v: Seq<u8>,
    t: u64,
    now_ms: u64,
    later_ms: u64,
)
    requires
        now_ms + t <= u64::MAX,
    ensures
        ({
            let m2 = m.insert(
                k,
                (EntryModel { value: v, expires_at: expiry_at(Some(t), now_ms) }),
            );
            &&& m2.dom().contains(k)
            &&& m2[k].value == v
            &&& later_ms < now_ms + t ==> !entry_expired(m2[k], later_ms)
            &&& later_ms >= now_ms + t ==> entry_expired(m2[k], later_ms)
        }),
{
}

/// Of any sequence of writes to one key, the last wins: the store afterwards
/// is as if only the last write had happened.
pub proof fn lemma_last_set_wins(
    m: Map<Seq<u8>, EntryModel>,
    k: Seq<u8>,
    e1: EntryModel,
    e2: EntryModel,
)
    ensures
        m.insert(k, e1).insert(k, e2) == m.insert(k, e2),
{
    assert(m.insert(k, e1).insert(k, e2) =~= m.insert(k, e2));
}

} // verus!
