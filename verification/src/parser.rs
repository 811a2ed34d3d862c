//! The RDB snapshot decoder and the snapshot store.
//!
//! A snapshot is a byte blob: the 9-byte header `REDIS0003`, an opcode-driven
//! body, and a trailer after the end-of-file opcode. The decoder is specified
//! by a total function over the byte sequence ([`spec_parse`]) and the
//! executable [`RDBParser`] is proved to follow it. The store built from a
//! snapshot ([`Rdb`]) is modelled as a map from keys to entries, like the
//! live store.

use vstd::prelude::*;

use crate::ascii::{bytes_eq, copy_bytes, is_utf8, is_utf8_exec};
use crate::response::{RespData, Value};

verus! {

/// Why a snapshot failed to decode.
#[derive(Debug, PartialEq, Eq, Clone, Copy)]
pub enum RDBError {
    InvalidMagicNumber,
    InvalidVersion,
    InvalidLength,
    InvalidString,
    InvalidType,
    UnexpectedEOF,
}

/// Ghost model of one snapshot entry.
pub struct SnapEntry {
    pub value: RespData,
    pub expiry: Option<u64>,
}

/// Ghost model of a decoded snapshot.
pub struct RdbModel {
    pub version: u8,
    pub db: u32,
    pub entries: Map<Seq<u8>, SnapEntry>,
}

/// A snapshot value: a decoded object and its optional absolute expiry in
/// milliseconds since the epoch.
#[derive(Debug)]
pub struct RdbValue {
    pub value: Value,
    pub expiry: Option<u64>,
}

impl RdbValue {
    pub open spec fn model(self) -> SnapEntry {
        SnapEntry { value: self.value.model(), expiry: self.expiry }
    }
}

/// The map denoted by an association list of snapshot entries.
pub open spec fn snap_entries_map(entries: Seq<(Vec<u8>, RdbValue)>) -> Map<Seq<u8>, SnapEntry>
    decreases entries.len(),
{
    if entries.len() == 0 {
        Map::empty()
    } else {
        snap_entries_map(entries.drop_last()).insert(
            entries.last().0@,
            entries.last().1.model(),
        )
    }
}

/// No two entries share a key.
pub open spec fn snap_unique_keys(entries: Seq<(Vec<u8>, RdbValue)>) -> bool {
    forall|i: int, j: int|
        0 <= i < j < entries.len() ==> (#[trigger] entries[i]).0@ != (#[trigger] entries[j]).0@
}

/// With unique keys, the association list denotes the evident map.
pub proof fn lemma_snap_map_lookup(entries: Seq<(Vec<u8>, RdbValue)>)
    requires
        snap_unique_keys(entries),
    ensures
        forall|k: Seq<u8>|
            #[trigger] snap_entries_map(entries).dom().contains(k) <==> exists|i: int|
                0 <= i < entries.len() && (#[trigger] entries[i]).0@ == k,
        forall|i: int|
            0 <= i < entries.len() ==> snap_entries_map(entries)[(#[trigger] entries[i]).0@]
                == entries[i].1.model(),
    decreases entries.len(),
{
    if entries.len() > 0 {
        let prefix = entries.drop_last();
        assert(snap_unique_keys(prefix)) by {
            assert(forall|i: int|
                0 <= i < prefix.len() ==> #[trigger] prefix[i] == entries[i]);
        }
        lemma_snap_map_lookup(prefix);
        assert forall|i: int| 0 <= i < entries.len() implies snap_entries_map(entries)[(
        #[trigger] entries[i]).0@] == entries[i].1.model() by {
            if i < entries.len() - 1 {
                assert(entries[i].0@ != entries.last().0@);
                assert(prefix[i] == entries[i]);
            }
        }
        assert forall|k: Seq<u8>| #[trigger]
            snap_entries_map(entries).dom().contains(k) implies exists|i: int|
            0 <= i < entries.len() && (#[trigger] entries[i]).0@ == k by {
            if k == entries.last().0@ {
                assert(entries[entries.len() - 1].0@ == k);
            } else {
                let i = choose|i: int| 0 <= i < prefix.len() && (#[trigger] prefix[i]).0@ == k;
                assert(entries[i].0@ == k);
            }
        }
        assert forall|k: Seq<u8>|
            (exists|i: int|
                0 <= i < entries.len() && (#[trigger] entries[i]).0@ == k) implies #[trigger]
            snap_entries_map(entries).dom().contains(k) by {
            let i = choose|i: int| 0 <= i < entries.len() && (#[trigger] entries[i]).0@ == k;
            if i < entries.len() - 1 {
                assert(prefix[i].0@ == k);
            }
        }
    }
}

/// Replacing the entry at `i` with one of the same key updates the map there.
pub proof fn lemma_snap_map_update(
    entries: Seq<(Vec<u8>, RdbValue)>,
    i: int,
    e: (Vec<u8>, RdbValue),
)
    requires
        snap_unique_keys(entries),
        0 <= i < entries.len(),
        e.0@ == entries[i].0@,
    ensures
        snap_entries_map(entries.update(i, e)) =~= snap_entries_map(entries).insert(
            e.0@,
            e.1.model(),
        ),
    decreases entries.len(),
{
    let prefix = entries.drop_last();
    assert(snap_unique_keys(prefix)) by {
        assert(forall|j: int| 0 <= j < prefix.len() ==> #[trigger] prefix[j] == entries[j]);
    }
    if i == entries.len() - 1 {
        assert(entries.update(i, e).drop_last() =~= prefix);
        assert(entries.update(i, e).last() == e);
        assert(snap_entries_map(entries.update(i, e)) =~= snap_entries_map(entries).insert(
            e.0@,
            e.1.model(),
        ));
    } else {
        assert(entries.update(i, e).drop_last() =~= prefix.update(i, e));
        assert(entries.update(i, e).last() == entries.last());
        lemma_snap_map_update(prefix, i, e);
        assert(e.0@ != entries.last().0@);
        assert(snap_entries_map(entries.update(i, e)) =~= snap_entries_map(entries).insert(
            e.0@,
            e.1.model(),
        ));
    }
}

/// Removing the entry at `i` removes its key from the map.
pub proof fn lemma_snap_map_remove(entries: Seq<(Vec<u8>, RdbValue)>, i: int)
    requires
        snap_unique_keys(entries),
        0 <= i < entries.len(),
    ensures
        snap_entries_map(entries.remove(i)) =~= snap_entries_map(entries).remove(entries[i].0@),
    decreases entries.len(),
{
    let prefix = entries.drop_last();
    assert(snap_unique_keys(prefix)) by {
        assert(forall|j: int| 0 <= j < prefix.len() ==> #[trigger] prefix[j] == entries[j]);
    }
    lemma_snap_map_lookup(entries);
    if i == entries.len() - 1 {
        assert(entries.remove(i) =~= prefix);
        assert(!snap_entries_map(prefix).dom().contains(entries[i].0@)) by {
            lemma_snap_map_lookup(prefix);
            if snap_entries_map(prefix).dom().contains(entries[i].0@) {
                let j = choose|j: int|
                    0 <= j < prefix.len() && (#[trigger] prefix[j]).0@ == entries[i].0@;
                assert(entries[j].0@ == entries[i].0@);
            }
        }
        assert(snap_entries_map(entries.remove(i)) =~= snap_entries_map(entries).remove(
            entries[i].0@,
        ));
    } else {
        assert(entries.remove(i).drop_last() =~= prefix.remove(i));
        assert(entries.remove(i).last() == entries.last());
        lemma_snap_map_remove(prefix, i);
        assert(entries[i].0@ != entries.last().0@);
        assert(snap_entries_map(entries.remove(i)) =~= snap_entries_map(entries).remove(
            entries[i].0@,
        ));
    }
}

/// The value of `s[0..4]` as a little-endian 32-bit integer.
pub open spec fn le32(s: Seq<u8>) -> int
    recommends
        s.len() >= 4,
{
    s[0] + 256 * s[1] + 65536 * s[2] + 16777216 * s[3]
}

/// The value of `s[0..8]` as a little-endian 64-bit integer.
pub open spec fn le64(s: Seq<u8>) -> int
    recommends
        s.len() >= 8,
{
    s[0] + 256 * s[1] + 65536 * s[2] + 16777216 * s[3] + 4294967296 * s[4] + 1099511627776 * s[5]
        + 281474976710656 * s[6] + 72057594037927936 * s[7]
}

/// Length encoding: a byte `0..=253` is the length itself; `254` is followed
/// by a little-endian 32-bit length; `255` is malformed. Returns the length
/// and the bytes consumed.
pub open spec fn spec_read_length(s: Seq<u8>) -> Result<(int, int), RDBError> {
    if s.len() < 1 {
        Err(RDBError::UnexpectedEOF)
    } else if s[0] <= 253 {
        Ok((s[0] as int, 1))
    } else if s[0] == 254 {
        if s.len() < 5 {
            Err(RDBError::UnexpectedEOF)
        } else {
            Ok((le32(s.subrange(1, 5)), 5))
        }
    } else {
        Err(RDBError::InvalidLength)
    }
}

/// A length-prefixed string, which must be well-formed UTF-8. Returns the
/// bytes and the total consumption.
pub open spec fn spec_read_string(s: Seq<u8>) -> Result<(Seq<u8>, int), RDBError> {
    match spec_read_length(s) {
        Err(e) => Err(e),
        Ok((l, c)) => {
            if s.len() < c + l {
                Err(RDBError::UnexpectedEOF)
            } else {
                let b = s.subrange(c, c + l);
                if is_utf8(b) {
                    Ok((b, c + l))
                } else {
                    Err(RDBError::InvalidString)
                }
            }
        }
    }
}

/// An object of the given value type. Only type 0 (string) is accepted.
pub open spec fn spec_read_object(s: Seq<u8>, object_type: u8) -> Result<(RespData, int), RDBError> {
    if object_type == 0 {
        match spec_read_string(s) {
            Err(e) => Err(e),
            Ok((b, c)) => Ok((RespData::Str(b), c)),
        }
    } else {
        Err(RDBError::InvalidType)
    }
}

/// A key followed by an object of type `object_type`.
pub open spec fn spec_read_entry(s: Seq<u8>, object_type: u8) -> Result<
    ((Seq<u8>, RespData), int),
    RDBError,
> {
    match spec_read_string(s) {
        Err(e) => Err(e),
        Ok((key, c1)) => match spec_read_object(s.skip(c1), object_type) {
            Err(e) => Err(e),
            Ok((v, c2)) => Ok(((key, v), c1 + c2)),
        },
    }
}

/// How many bytes the auxiliary-field scan discards: everything before the
/// next `0xFF`, `0xFA` or `0xFE` byte (or all of `s` when none occurs).
pub open spec fn skip_aux(s: Seq<u8>) -> int
    decreases s.len(),
{
    if s.len() == 0 {
        0
    } else if s[0] == 255 || s[0] == 250 || s[0] == 254 {
        0
    } else {
        1 + skip_aux(s.skip(1))
    }
}

pub proof fn lemma_skip_aux_bounds(s: Seq<u8>)
    ensures
        0 <= skip_aux(s) <= s.len(),
    decreases s.len(),
{
    if s.len() > 0 && !(s[0] == 255 || s[0] == 250 || s[0] == 254) {
        lemma_skip_aux_bounds(s.skip(1));
    }
}

/// The body: a sequence of opcode-dispatched records folded into the model,
/// ended by the end-of-file opcode `0xFF`; trailing bytes are ignored.
#[verifier::opaque]
pub open spec fn spec_parse_body(s: Seq<u8>, m: RdbModel) -> Result<RdbModel, RDBError>
    decreases s.len(),
{
    if s.len() == 0 {
        Err(RDBError::UnexpectedEOF)
    } else {
        let b = s[0];
        let rest = s.skip(1);
        if b == 255 {
            Ok(m)
        } else if b == 250 {
            let c = skip_aux(rest);
            if 0 <= c <= rest.len() {
                spec_parse_body(rest.skip(c), m)
            } else {
                Err(RDBError::UnexpectedEOF)
            }
        } else if b == 254 {
            match spec_read_length(rest) {
                Err(e) => Err(e),
                Ok((n, c)) => {
                    if 0 <= c <= rest.len() {
                        spec_parse_body(
                            rest.skip(c),
                            (RdbModel { version: m.version, db: n as u32, entries: m.entries }),
                        )
                    } else {
                        Err(RDBError::UnexpectedEOF)
                    }
                }
            }
        } else if b == 251 {
            if rest.len() < 2 {
                Err(RDBError::UnexpectedEOF)
            } else {
                spec_parse_body(rest.skip(2), m)
            }
        } else if b == 253 {
            if rest.len() < 5 {
                Err(RDBError::UnexpectedEOF)
            } else {
                let exp = (le32(rest.subrange(0, 4)) * 1000) as u64;
                let t = rest[4];
                match spec_read_entry(rest.skip(5), t) {
                    Err(e) => Err(e),
                    Ok(((k, v), c)) => {
                        if 0 <= c <= rest.len() - 5 {
                            spec_parse_body(
                                rest.skip(5 + c),
                                (RdbModel {
                                    version: m.version,
                                    db: m.db,
                                    entries: m.entries.insert(
                                        k,
                                        (SnapEntry { value: v, expiry: Some(exp) }),
                                    ),
                                }),
                            )
                        } else {
                            Err(RDBError::UnexpectedEOF)
                        }
                    }
                }
            }
        } else if b == 252 {
            if rest.len() < 9 {
                Err(RDBError::UnexpectedEOF)
            } else {
                let exp = le64(rest.subrange(0, 8)) as u64;
                let t = rest[8];
                match spec_read_entry(rest.skip(9), t) {
                    Err(e) => Err(e),
                    Ok(((k, v), c)) => {
                        if 0 <= c <= rest.len() - 9 {
                            spec_parse_body(
                                rest.skip(9 + c),
                                (RdbModel {
                                    version: m.version,
                                    db: m.db,
                                    entries: m.entries.insert(
                                        k,
                                        (SnapEntry { value: v, expiry: Some(exp) }),
                                    ),
                                }),
                            )
                        } else {
                            Err(RDBError::UnexpectedEOF)
                        }
                    }
                }
            }
        } else {
            match spec_read_entry(rest, b) {
                Err(e) => Err(e),
                Ok(((k, v), c)) => {
                    if 0 <= c <= rest.len() {
                        spec_parse_body(
                            rest.skip(c),
                            (RdbModel {
                                version: m.version,
                                db: m.db,
                                entries: m.entries.insert(
                                    k,
                                    (SnapEntry { value: v, expiry: None }),
                                ),
                            }),
                        )
                    } else {
                        Err(RDBError::UnexpectedEOF)
                    }
                }
            }
        }
    }
}

/// The 9-byte header `REDIS0003`; yields the stored version byte, which
/// mirrors the source: the second version character minus `'0'`.
pub open spec fn spec_parse_header(s: Seq<u8>) -> Result<u8, RDBError> {
    if s.len() < 9 {
        Err(RDBError::UnexpectedEOF)
    } else if !(s[0] == 82 && s[1] == 69 && s[2] == 68 && s[3] == 73 && s[4] == 83) {
        Err(RDBError::InvalidMagicNumber)
    } else if !(s[5] == 48 && s[6] == 48 && s[7] == 48 && s[8] == 51) {
        Err(RDBError::InvalidVersion)
    } else {
        Ok((s[6] - 48) as u8)
    }
}

/// A whole snapshot: header, then body, starting from an empty store on
/// database 0.
pub open spec fn spec_parse(s: Seq<u8>) -> Result<RdbModel, RDBError> {
    match spec_parse_header(s) {
        Err(e) => Err(e),
        Ok(ver) => spec_parse_body(
            s.skip(9),
            (RdbModel { version: ver, db: 0, entries: Map::empty() }),
        ),
    }
}

/// Unfolding lemmas for `spec_parse_body`, one per record kind.
pub proof fn lemma_body_empty(s: Seq<u8>, m: RdbModel)
    requires
        s.len() == 0,
    ensures
        spec_parse_body(s, m) == Err::<RdbModel, _>(RDBError::UnexpectedEOF),
{
    reveal(spec_parse_body);
}

pub proof fn lemma_body_eof(s: Seq<u8>, m: RdbModel)
    requires
        s.len() >= 1,
        s[0] == 255,
    ensures
        spec_parse_body(s, m) == Ok::<_, RDBError>(m),
{
    reveal(spec_parse_body);
}

pub proof fn lemma_body_aux(s: Seq<u8>, m: RdbModel)
    requires
        s.len() >= 1,
        s[0] == 250,
    ensures
        spec_parse_body(s, m) == spec_parse_body(s.skip(1).skip(skip_aux(s.skip(1))), m),
{
    reveal(spec_parse_body);
    lemma_skip_aux_bounds(s.skip(1));
}

pub proof fn lemma_body_selectdb(s: Seq<u8>, m: RdbModel)
    requires
        s.len() >= 1,
        s[0] == 254,
    ensures
        match spec_read_length(s.skip(1)) {
            Ok((n, c)) => spec_parse_body(s, m) == spec_parse_body(
                s.skip(1).skip(c),
                (RdbModel { version: m.version, db: n as u32, entries: m.entries }),
            ),
            Err(e) => spec_parse_body(s, m) == Err::<RdbModel, _>(e),
        },
{
    reveal(spec_parse_body);
}

pub proof fn lemma_body_resize(s: Seq<u8>, m: RdbModel)
    requires
        s.len() >= 1,
        s[0] == 251,
    ensures
        s.skip(1).len() < 2 ==> spec_parse_body(s, m) == Err::<RdbModel, _>(
            RDBError::UnexpectedEOF,
        ),
        s.skip(1).len() >= 2 ==> spec_parse_body(s, m) == spec_parse_body(s.skip(1).skip(2), m),
{
    reveal(spec_parse_body);
}

/// Every successful keyed read consumes within bounds.
pub proof fn lemma_read_entry_bounds(s: Seq<u8>, t: u8)
    ensures
        spec_read_entry(s, t) matches Ok(kvc) ==> 0 <= kvc.1 <= s.len(),
{
}

pub proof fn lemma_body_exp_s(s: Seq<u8>, m: RdbModel)
    requires
        s.len() >= 1,
        s[0] == 253,
    ensures
        s.skip(1).len() < 5 ==> spec_parse_body(s, m) == Err::<RdbModel, _>(
            RDBError::UnexpectedEOF,
        ),
        s.skip(1).len() >= 5 ==> (match spec_read_entry(s.skip(1).skip(5), s.skip(1)[4]) {
            Ok(kvc) => spec_parse_body(s, m) == spec_parse_body(
                s.skip(1).skip(5 + kvc.1),
                (RdbModel {
                    version: m.version,
                    db: m.db,
                    entries: m.entries.insert(
                        kvc.0.0,
                        (SnapEntry {
                            value: kvc.0.1,
                            expiry: Some((le32(s.skip(1).subrange(0, 4)) * 1000) as u64),
                        }),
                    ),
                }),
            ),
            Err(e) => spec_parse_body(s, m) == Err::<RdbModel, _>(e),
        }),
{
    reveal(spec_parse_body);
    let rest = s.skip(1);
    if rest.len() >= 5 {
        lemma_read_entry_bounds(rest.skip(5), rest[4]);
        assert(rest.skip(5).len() == rest.len() - 5);
    }
}

pub proof fn lemma_body_exp_ms(s: Seq<u8>, m: RdbModel)
    requires
        s.len() >= 1,
        s[0] == 252,
    ensures
        s.skip(1).len() < 9 ==> spec_parse_body(s, m) == Err::<RdbModel, _>(
            RDBError::UnexpectedEOF,
        ),
        s.skip(1).len() >= 9 ==> (match spec_read_entry(s.skip(1).skip(9), s.skip(1)[8]) {
            Ok(kvc) => spec_parse_body(s, m) == spec_parse_body(
                s.skip(1).skip(9 + kvc.1),
                (RdbModel {
                    version: m.version,
                    db: m.db,
                    entries: m.entries.insert(
                        kvc.0.0,
                        (SnapEntry {
                            value: kvc.0.1,
                            expiry: Some(le64(s.skip(1).subrange(0, 8)) as u64),
                        }),
                    ),
                }),
            ),
            Err(e) => spec_parse_body(s, m) == Err::<RdbModel, _>(e),
        }),
{
    reveal(spec_parse_body);
    let rest = s.skip(1);
    if rest.len() >= 9 {
        lemma_read_entry_bounds(rest.skip(9), rest[8]);
        assert(rest.skip(9).len() == rest.len() - 9);
    }
}

pub proof fn lemma_body_plain(s: Seq<u8>, m: RdbModel)
    requires
        s.len() >= 1,
        s[0] != 255,
        s[0] != 250,
        s[0] != 254,
        s[0] != 251,
        s[0] != 253,
        s[0] != 252,
    ensures
        match spec_read_entry(s.skip(1), s[0]) {
            Ok(kvc) => spec_parse_body(s, m) == spec_parse_body(
                s.skip(1).skip(kvc.1),
                (RdbModel {
                    version: m.version,
                    db: m.db,
                    entries: m.entries.insert(
                        kvc.0.0,
                        (SnapEntry { value: kvc.0.1, expiry: None }),
                    ),
                }),
            ),
            Err(e) => spec_parse_body(s, m) == Err::<RdbModel, _>(e),
        },
{
    reveal(spec_parse_body);
    lemma_read_entry_bounds(s.skip(1), s[0]);
}

/// The model a store denotes.
pub open spec fn model_of(rdb: Rdb) -> RdbModel {
    RdbModel { version: rdb.spec_version(), db: rdb.spec_db(), entries: rdb@ }
}

/// The snapshot store: keys to snapshot values, read-mostly, shrunk only by
/// lazy eviction.
#[derive(Debug)]
pub struct Rdb {
    version: u8,
    db: u32,
    data: Vec<(Vec<u8>, RdbValue)>,
}

impl View for Rdb {
    type V = Map<Seq<u8>, SnapEntry>;

    closed spec fn view(&self) -> Map<Seq<u8>, SnapEntry> {
        snap_entries_map(self.data@)
    }
}

impl Rdb {
    pub closed spec fn wf(self) -> bool {
        snap_unique_keys(self.data@)
    }

    pub closed spec fn spec_version(self) -> u8 {
        self.version
    }

    pub closed spec fn spec_db(self) -> u32 {
        self.db
    }

    pub fn new() -> (r: Rdb)
        ensures
            r.wf(),
            r@ == Map::<Seq<u8>, SnapEntry>::empty(),
            r.spec_version() == 0,
            r.spec_db() == 0,
    {
        let r = Rdb { version: 0, db: 0, data: Vec::new() };
        proof {
            assert(r@ =~= Map::<Seq<u8>, SnapEntry>::empty());
        }
        r
    }

    /// Selects the current database number.
    pub fn set_db(&mut self, db: u32)
        ensures
            final(self).wf() == old(self).wf(),
            final(self)@ == old(self)@,
            final(self).spec_db() == db,
            final(self).spec_version() == old(self).spec_version(),
    {
        self.db = db;
    }

    /// The current database number.
    pub fn current_db(&self) -> (r: u32)
        ensures
            r == self.spec_db(),
    {
        self.db
    }

    /// Records the format version byte.
    pub fn set_version(&mut self, version: u8)
        ensures
            final(self).wf() == old(self).wf(),
            final(self)@ == old(self)@,
            final(self).spec_version() == version,
            final(self).spec_db() == old(self).spec_db(),
    {
        self.version = version;
    }

    /// The index holding `key`, if any.
    fn find(&self, key: &[u8]) -> (r: Option<usize>)
        ensures
            match r {
                Some(i) => i < self.data@.len() && self.data@[i as int].0@ == key@,
                None => forall|j: int|
                    0 <= j < self.data@.len() ==> (#[trigger] self.data@[j]).0@ != key@,
            },
    {
        let mut i: usize = 0;
        while i < self.data.len()
            invariant
                0 <= i <= self.data@.len(),
                forall|j: int| 0 <= j < i ==> (#[trigger] self.data@[j]).0@ != key@,
            decreases self.data@.len() - i,
        {
            if bytes_eq(self.data[i].0.as_slice(), key) {
                return Some(i);
            }
            i = i + 1;
        }
        None
    }

    /// Installs `value` under `key` with the given expiry, replacing any
    /// prior entry for the key.
    pub fn add_object(&mut self, key: Vec<u8>, value: Value, expiry: Option<u64>)
        requires
            old(self).wf(),
        ensures
            final(self).wf(),
            final(self)@ == old(self)@.insert(
                key@,
                (SnapEntry { value: value.model(), expiry }),
            ),
            final(self).spec_version() == old(self).spec_version(),
            final(self).spec_db() == old(self).spec_db(),
    {
        let ghost key_view = key@;
        let ghost value_model = value.model();
        let entry = (key, RdbValue { value, expiry });
        let ghost e = entry;
        let idx = self.find(entry.0.as_slice());
        match idx {
            Some(i) => {
                proof {
                    lemma_snap_map_update(self.data@, i as int, e);
                }
                self.data.set(i, entry);
                proof {
                    assert(snap_unique_keys(self.data@)) by {
                        assert(forall|j: int|
                            0 <= j < self.data@.len() && j != i ==> #[trigger] self.data@[j]
                                == old(self).data@[j]);
                    }
                }
            }
            None => {
                let ghost before = self.data@;
                self.data.push(entry);
                proof {
                    assert(self.data@.drop_last() =~= before);
                    assert(self.data@.last() == e);
                    assert(snap_entries_map(self.data@) =~= snap_entries_map(before).insert(
                        e.0@,
                        e.1.model(),
                    ));
                    assert(snap_unique_keys(self.data@)) by {
                        assert(forall|j: int|
                            0 <= j < before.len() ==> #[trigger] self.data@[j] == before[j]);
                    }
                }
            }
        }
    }

    /// All keys currently in the snapshot, without duplicates.
    pub fn get_keys(&self) -> (r: Vec<Vec<u8>>)
        requires
            self.wf(),
        ensures
            forall|i: int| 0 <= i < r@.len() ==> self@.dom().contains((#[trigger] r@[i])@),
            forall|k: Seq<u8>|
                #[trigger] self@.dom().contains(k) ==> exists|i: int|
                    0 <= i < r@.len() && (#[trigger] r@[i])@ == k,
            forall|i: int, j: int| 0 <= i < j < r@.len() ==> (#[trigger] r@[i])@ != (
            #[trigger] r@[j])@,
    {
        proof {
            lemma_snap_map_lookup(self.data@);
        }
        let mut out: Vec<Vec<u8>> = Vec::new();
        let mut i: usize = 0;
        while i < self.data.len()
            invariant
                self.wf(),
                0 <= i <= self.data@.len(),
                out@.len() == i,
                forall|j: int| 0 <= j < i ==> (#[trigger] out@[j])@ == self.data@[j].0@,
            decreases self.data@.len() - i,
    {
            out.push(copy_bytes(self.data[i].0.as_slice()));
            i = i + 1;
        }
        proof {
            lemma_snap_map_lookup(self.data@);
            assert forall|k: Seq<u8>| #[trigger] self@.dom().contains(k) implies exists|j: int|
                0 <= j < out@.len() && (#[trigger] out@[j])@ == k by {
                let j = choose|j: int|
                    0 <= j < self.data@.len() && (#[trigger] self.data@[j]).0@ == k;
                assert((out@[j])@ == k);
            }
        }
        out
    }

    /// The entry stored under `key`, if any.
    pub fn get(&self, key: &[u8]) -> (r: Option<&RdbValue>)
        requires
            self.wf(),
        ensures
            match r {
                Some(v) => self@.dom().contains(key@) && v.model() == self@[key@],
                None => !self@.dom().contains(key@),
            },
    {
        proof {
            lemma_snap_map_lookup(self.data@);
        }
        match self.find(key) {
            Some(i) => Some(&self.data[i].1),
            None => {
                proof {
                    if self@.dom().contains(key@) {
                        let j = choose|j: int|
                            0 <= j < self.data@.len() && (#[trigger] self.data@[j]).0@ == key@;
                    }
                }
                None
            }
        }
    }

    /// Removes `key`, returning its entry. Used for lazy eviction of expired
    /// snapshot entries.
    pub fn delete(&mut self, key: &[u8]) -> (r: Option<RdbValue>)
        requires
            old(self).wf(),
        ensures
            final(self).wf(),
            final(self)@ == old(self)@.remove(key@),
            final(self).spec_version() == old(self).spec_version(),
            final(self).spec_db() == old(self).spec_db(),
            match r {
                Some(v) => old(self)@.dom().contains(key@) && v.model() == old(self)@[key@],
                None => !old(self)@.dom().contains(key@),
            },
    {
        proof {
            lemma_snap_map_lookup(self.data@);
        }
        match self.find(key) {
            Some(i) => {
                proof {
                    lemma_snap_map_remove(self.data@, i as int);
                }
                let ghost before = self.data@;
                let entry = self.data.remove(i);
                proof {
                    assert(snap_unique_keys(self.data@)) by {
                        assert(forall|j: int|
                            0 <= j < self.data@.len() ==> (j < i ==> #[trigger] self.data@[j]
                                == before[j]) && (j >= i ==> self.data@[j] == before[j + 1]));
                    }
                }
                Some(entry.1)
            }
            None => {
                proof {
                    if old(self)@.dom().contains(key@) {
                        let j = choose|j: int|
                            0 <= j < self.data@.len() && (#[trigger] self.data@[j]).0@ == key@;
                    }
                    assert(self@ =~= old(self)@.remove(key@));
                }
                None
            }
        }
    }
}

/// The executable snapshot decoder over a byte buffer.
pub struct RDBParser<'a> {
    buf: &'a [u8],
    pos: usize,
}

impl<'a> RDBParser<'a> {
    /// The whole buffer.
    pub closed spec fn sbuf(self) -> Seq<u8> {
        self.buf@
    }

    /// The cursor.
    pub closed spec fn spos(self) -> int {
        self.pos as int
    }

    pub open spec fn wf(self) -> bool {
        0 <= self.spos() <= self.sbuf().len()
    }

    /// The bytes not yet consumed.
    pub open spec fn rem(self) -> Seq<u8> {
        self.sbuf().skip(self.spos())
    }

    pub fn new(buf: &'a [u8]) -> (r: RDBParser<'a>)
        ensures
            r.sbuf() == buf@,
            r.spos() == 0,
            r.wf(),
    {
        RDBParser { buf, pos: 0 }
    }

    /// Reads one byte.
    fn read_byte(&mut self) -> (r: Result<u8, RDBError>)
        requires
            old(self).wf(),
        ensures
            final(self).sbuf() == old(self).sbuf(),
            final(self).wf(),
            match r {
                Ok(b) => old(self).rem().len() >= 1 && b == old(self).rem()[0] && final(self).spos() == old(self).spos() + 1,
                Err(e) => e == RDBError::UnexpectedEOF && old(self).rem().len() == 0 && final(self).spos() == old(self).spos(),
            },
    {
        if self.pos < self.buf.len() {
            let b = self.buf[self.pos];
            self.pos = self.pos + 1;
            Ok(b)
        } else {
            Err(RDBError::UnexpectedEOF)
        }
    }

    /// Reads exactly `n` bytes.
    fn read_vec(&mut self, n: usize) -> (r: Result<Vec<u8>, RDBError>)
        requires
            old(self).wf(),
        ensures
            final(self).sbuf() == old(self).sbuf(),
            final(self).wf(),
            match r {
                Ok(v) => old(self).rem().len() >= n && v@ == old(self).rem().take(n as int)
                    && final(self).spos() == old(self).spos() + n,
                Err(e) => e == RDBError::UnexpectedEOF && old(self).rem().len() < n && final(self).spos() == old(self).spos(),
            },
    {
        if n <= self.buf.len() - self.pos {
            let v = copy_bytes(&self.buf[self.pos..self.pos + n]);
            proof {
                assert(v@ =~= old(self).rem().take(n as int));
            }
            self.pos = self.pos + n;
            Ok(v)
        } else {
            Err(RDBError::UnexpectedEOF)
        }
    }

    /// Reads a length-encoded integer.
    fn read_length(&mut self) -> (r: Result<u32, RDBError>)
        requires
            old(self).wf(),
        ensures
            final(self).sbuf() == old(self).sbuf(),
            final(self).wf(),
            final(self).spos() >= old(self).spos(),
            match r {
                Ok(n) => spec_read_length(old(self).rem()) == Ok::<_, RDBError>(
                    (n as int, final(self).spos() - old(self).spos()),
                ),
                Err(e) => spec_read_length(old(self).rem()) == Err::<(int, int), _>(e),
            },
    {
        let b = match self.read_byte() {
            Ok(b) => b,
            Err(e) => {
                return Err(e);
            }
        };
        if b <= 253 {
            Ok(b as u32)
        } else if b == 254 {
            let ghost rem1 = self.rem();
            let v = match self.read_vec(4) {
                Ok(v) => v,
                Err(e) => {
                    proof {
                        assert(old(self).rem().len() < 5);
                    }
                    return Err(e);
                }
            };
            let n: u32 = v[0] as u32 + 256 * (v[1] as u32) + 65536 * (v[2] as u32) + 16777216
                * (v[3] as u32);
            proof {
                assert(old(self).rem().subrange(1, 5) =~= rem1.take(4));
                assert(n as int == le32(old(self).rem().subrange(1, 5)));
            }
            Ok(n)
        } else {
            Err(RDBError::InvalidLength)
        }
    }

    /// Reads a length-prefixed string, validating it as UTF-8.
    fn read_string(&mut self) -> (r: Result<Vec<u8>, RDBError>)
        requires
            old(self).wf(),
        ensures
            final(self).sbuf() == old(self).sbuf(),
            final(self).wf(),
            final(self).spos() >= old(self).spos(),
            match r {
                Ok(v) => spec_read_string(old(self).rem()) == Ok::<_, RDBError>(
                    (v@, final(self).spos() - old(self).spos()),
                ),
                Err(e) => spec_read_string(old(self).rem()) == Err::<(Seq<u8>, int), _>(e),
            },
    {
        let ghost rem0 = old(self).rem();
        let n = match self.read_length() {
            Ok(n) => n,
            Err(e) => {
                return Err(e);
            }
        };
        let ghost c = self.spos() - old(self).spos();
        if (n as u64) > (usize::MAX as u64) {
            proof {
                assert(self.rem().len() <= usize::MAX);
                assert(rem0.len() < c + n);
            }
            return Err(RDBError::UnexpectedEOF);
        }
        let v = match self.read_vec(n as usize) {
            Ok(v) => v,
            Err(e) => {
                proof {
                    assert(rem0.len() < c + n);
                }
                return Err(e);
            }
        };
        proof {
            assert(v@ =~= rem0.subrange(c, c + n));
        }
        if is_utf8_exec(v.as_slice()) {
            Ok(v)
        } else {
            Err(RDBError::InvalidString)
        }
    }

    /// Reads an object of the given value type; only strings (type 0).
    fn read_object(&mut self, object_type: u8) -> (r: Result<Value, RDBError>)
        requires
            old(self).wf(),
        ensures
            final(self).sbuf() == old(self).sbuf(),
            final(self).wf(),
            final(self).spos() >= old(self).spos(),
            match r {
                Ok(v) => spec_read_object(old(self).rem(), object_type) == Ok::<_, RDBError>(
                    (v.model(), final(self).spos() - old(self).spos()),
                ),
                Err(e) => spec_read_object(old(self).rem(), object_type) == Err::<
                    (RespData, int),
                    _,
                >(e),
            },
    {
        if object_type == 0 {
            match self.read_string() {
                Ok(v) => {
                    let val = Value::String(v);
                    proof {
                        assert(spec_read_object(old(self).rem(), object_type) == Ok::<
                            _,
                            RDBError,
                        >((val.model(), self.spos() - old(self).spos())));
                    }
                    Ok(val)
                }
                Err(e) => Err(e),
            }
        } else {
            Err(RDBError::InvalidType)
        }
    }

    /// Reads the header, recording the version in the store.
    fn parse_header(&mut self, rdb: &mut Rdb) -> (r: Result<(), RDBError>)
        requires
            old(self).wf(),
            old(rdb).wf(),
        ensures
            final(self).sbuf() == old(self).sbuf(),
            final(self).wf(),
            final(rdb).wf(),
            match r {
                Ok(()) => {
                    &&& spec_parse_header(old(self).rem()) matches Ok(ver)
                        && final(rdb).spec_version() == ver
                    &&& final(self).spos() == old(self).spos() + 9
                    &&& final(rdb)@ == old(rdb)@
                    &&& final(rdb).spec_db() == old(rdb).spec_db()
                },
                Err(e) => spec_parse_header(old(self).rem()) == Err::<u8, _>(e),
            },
    {
        let v = match self.read_vec(9) {
            Ok(v) => v,
            Err(e) => {
                return Err(e);
            }
        };
        if !(v[0] == 82 && v[1] == 69 && v[2] == 68 && v[3] == 73 && v[4] == 83) {
            return Err(RDBError::InvalidMagicNumber);
        }
        if !(v[5] == 48 && v[6] == 48 && v[7] == 48 && v[8] == 51) {
            return Err(RDBError::InvalidVersion);
        }
        rdb.set_version(v[6] - 48);
        Ok(())
    }

    /// Reads one keyed record (key string, then an object of the given
    /// type) and installs it with the given expiry.
    fn read_keyed_entry(&mut self, rdb: &mut Rdb, object_type: u8, expiry: Option<u64>) -> (r:
        Result<(), RDBError>)
        requires
            old(self).wf(),
            old(rdb).wf(),
        ensures
            final(self).sbuf() == old(self).sbuf(),
            final(self).wf(),
            final(rdb).wf(),
            final(self).spos() >= old(self).spos(),
            match r {
                Ok(()) => (spec_read_entry(old(self).rem(), object_type) matches Ok(kvc)
                    && final(self).spos() == old(self).spos() + kvc.1 && model_of(*final(rdb))
                    == (RdbModel {
                    version: old(rdb).spec_version(),
                    db: old(rdb).spec_db(),
                    entries: old(rdb)@.insert(
                        kvc.0.0,
                        (SnapEntry { value: kvc.0.1, expiry }),
                    ),
                })),
                Err(e) => spec_read_entry(old(self).rem(), object_type) == Err::<
                    ((Seq<u8>, RespData), int),
                    _,
                >(e),
            },
    {
        let ghost rem0 = old(self).rem();
        let key = match self.read_string() {
            Ok(k) => k,
            Err(e) => {
                return Err(e);
            }
        };
        let ghost c1 = self.spos() - old(self).spos();
        proof {
            assert(self.rem() =~= rem0.skip(c1));
        }
        let obj = match self.read_object(object_type) {
            Ok(o) => o,
            Err(e) => {
                return Err(e);
            }
        };
        let ghost c2 = self.spos() - old(self).spos() - c1;
        proof {
            assert(spec_read_entry(rem0, object_type) == Ok::<_, RDBError>(
                ((key@, obj.model()), c1 + c2),
            ));
        }
        rdb.add_object(key, obj, expiry);
        Ok(())
    }

    /// Skips an auxiliary field: everything up to the next `0xFF`, `0xFA`
    /// or `0xFE` byte (or the end of the buffer).
    fn skip_aux_field(&mut self)
        requires
            old(self).wf(),
        ensures
            final(self).sbuf() == old(self).sbuf(),
            final(self).wf(),
            final(self).spos() == old(self).spos() + skip_aux(old(self).rem()),
    {
        let ghost pos1 = self.spos();
        let ghost rem1 = self.rem();
        loop
            invariant
                self.wf(),
                self.sbuf() == old(self).sbuf(),
                pos1 <= self.spos(),
                rem1 == self.sbuf().skip(pos1),
                skip_aux(rem1) == self.spos() - pos1 + skip_aux(self.rem()),
            ensures
                self.wf(),
                self.sbuf() == old(self).sbuf(),
                pos1 <= self.spos(),
                self.spos() - pos1 == skip_aux(rem1),
            decreases self.sbuf().len() - self.spos(),
        {
            if self.pos >= self.buf.len() {
                proof {
                    assert(self.rem().len() == 0);
                }
                break;
            }
            let c = self.buf[self.pos];
            if c == 255 || c == 250 || c == 254 {
                proof {
                    assert(self.rem()[0] == c);
                }
                break;
            }
            proof {
                assert(self.rem()[0] == c);
                assert(self.rem().skip(1) =~= self.sbuf().skip(self.spos() + 1));
            }
            self.pos = self.pos + 1;
        }
    }

    /// Handles one auxiliary-field record.
    fn step_aux(&mut self, rdb: &mut Rdb, Ghost(rem_i): Ghost<Seq<u8>>, Ghost(m_i):
        Ghost<RdbModel>) -> (r: Result<(), RDBError>)
        requires
            old(self).wf(),
            old(rdb).wf(),
            rem_i.len() >= 1,
            rem_i[0] == 250,
            old(self).rem() == rem_i.skip(1),
            model_of(*old(rdb)) == m_i,
        ensures
            final(self).sbuf() == old(self).sbuf(),
            final(self).wf(),
            final(rdb).wf(),
            final(self).spos() >= old(self).spos(),
            match r {
                Ok(()) => spec_parse_body(rem_i, m_i) == spec_parse_body(
                    final(self).rem(),
                    model_of(*final(rdb)),
                ),
                Err(e) => spec_parse_body(rem_i, m_i) == Err::<RdbModel, _>(e),
            },
    {
        let ghost rest = rem_i.skip(1);
        self.skip_aux_field();
        proof {
            lemma_skip_aux_bounds(rest);
            assert(self.rem() =~= rest.skip(skip_aux(rest)));
            lemma_body_aux(rem_i, m_i);
        }
        Ok(())
    }

    /// Handles one database-selector record.
    fn step_selectdb(&mut self, rdb: &mut Rdb, Ghost(rem_i): Ghost<Seq<u8>>, Ghost(m_i):
        Ghost<RdbModel>) -> (r: Result<(), RDBError>)
        requires
            old(self).wf(),
            old(rdb).wf(),
            rem_i.len() >= 1,
            rem_i[0] == 254,
            old(self).rem() == rem_i.skip(1),
            model_of(*old(rdb)) == m_i,
        ensures
            final(self).sbuf() == old(self).sbuf(),
            final(self).wf(),
            final(rdb).wf(),
            final(self).spos() >= old(self).spos(),
            match r {
                Ok(()) => spec_parse_body(rem_i, m_i) == spec_parse_body(
                    final(self).rem(),
                    model_of(*final(rdb)),
                ),
                Err(e) => spec_parse_body(rem_i, m_i) == Err::<RdbModel, _>(e),
            },
    {
        let ghost rest = rem_i.skip(1);
        let n = match self.read_length() {
            Ok(n) => n,
            Err(e) => {
                proof {
                    lemma_body_selectdb(rem_i, m_i);
                }
                return Err(e);
            }
        };
        rdb.set_db(n);
        proof {
            let c = self.spos() - old(self).spos();
            assert(spec_read_length(rest) == Ok::<_, RDBError>((n as int, c)));
            assert(self.rem() =~= rest.skip(c));
            assert(model_of(*rdb) == (RdbModel {
                version: m_i.version,
                db: n,
                entries: m_i.entries,
            }));
            lemma_body_selectdb(rem_i, m_i);
        }
        Ok(())
    }

    /// Handles one size-hint record (two raw bytes, discarded).
    fn step_resize(&mut self, rdb: &mut Rdb, Ghost(rem_i): Ghost<Seq<u8>>, Ghost(m_i):
        Ghost<RdbModel>) -> (r: Result<(), RDBError>)
        requires
            old(self).wf(),
            old(rdb).wf(),
            rem_i.len() >= 1,
            rem_i[0] == 251,
            old(self).rem() == rem_i.skip(1),
            model_of(*old(rdb)) == m_i,
        ensures
            final(self).sbuf() == old(self).sbuf(),
            final(self).wf(),
            final(rdb).wf(),
            final(self).spos() >= old(self).spos(),
            match r {
                Ok(()) => spec_parse_body(rem_i, m_i) == spec_parse_body(
                    final(self).rem(),
                    model_of(*final(rdb)),
                ),
                Err(e) => spec_parse_body(rem_i, m_i) == Err::<RdbModel, _>(e),
            },
    {
        let ghost rest = rem_i.skip(1);
        match self.read_vec(2) {
            Ok(_) => {}
            Err(e) => {
                proof {
                    lemma_body_resize(rem_i, m_i);
                }
                return Err(e);
            }
        }
        proof {
            assert(self.rem() =~= rest.skip(2));
            lemma_body_resize(rem_i, m_i);
        }
        Ok(())
    }

    /// Handles one entry with second-granularity expiry.
    fn step_exp_s(&mut self, rdb: &mut Rdb, Ghost(rem_i): Ghost<Seq<u8>>, Ghost(m_i):
        Ghost<RdbModel>) -> (r: Result<(), RDBError>)
        requires
            old(self).wf(),
            old(rdb).wf(),
            rem_i.len() >= 1,
            rem_i[0] == 253,
            old(self).rem() == rem_i.skip(1),
            model_of(*old(rdb)) == m_i,
        ensures
            final(self).sbuf() == old(self).sbuf(),
            final(self).wf(),
            final(rdb).wf(),
            final(self).spos() >= old(self).spos(),
            match r {
                Ok(()) => spec_parse_body(rem_i, m_i) == spec_parse_body(
                    final(self).rem(),
                    model_of(*final(rdb)),
                ),
                Err(e) => spec_parse_body(rem_i, m_i) == Err::<RdbModel, _>(e),
            },
    {
        let ghost rest = rem_i.skip(1);
        let v = match self.read_vec(4) {
            Ok(v) => v,
            Err(e) => {
                proof {
                    lemma_body_exp_s(rem_i, m_i);
                }
                return Err(e);
            }
        };
        let secs: u32 = v[0] as u32 + 256 * (v[1] as u32) + 65536 * (v[2] as u32) + 16777216 * (
        v[3] as u32);
        let exp: u64 = (secs as u64) * 1000;
        proof {
            assert(v@ =~= rest.subrange(0, 4));
            assert(secs as int == le32(rest.subrange(0, 4)));
            assert(exp == (le32(rest.subrange(0, 4)) * 1000) as u64);
            assert(self.rem() =~= rest.skip(4));
        }
        let t = match self.read_byte() {
            Ok(t) => t,
            Err(e) => {
                proof {
                    assert(rest.len() < 5);
                    lemma_body_exp_s(rem_i, m_i);
                }
                return Err(e);
            }
        };
        let ghost pos_entry = self.spos();
        proof {
            assert(t == rest[4]);
            assert(self.rem() =~= rest.skip(5));
        }
        match self.read_keyed_entry(rdb, t, Some(exp)) {
            Ok(()) => {}
            Err(e) => {
                proof {
                    lemma_body_exp_s(rem_i, m_i);
                }
                return Err(e);
            }
        }
        proof {
            assert(self.rem() =~= rest.skip(5 + (self.spos() - pos_entry)));
            lemma_body_exp_s(rem_i, m_i);
        }
        Ok(())
    }

    /// Handles one entry with millisecond-granularity expiry.
    fn step_exp_ms(&mut self, rdb: &mut Rdb, Ghost(rem_i): Ghost<Seq<u8>>, Ghost(m_i):
        Ghost<RdbModel>) -> (r: Result<(), RDBError>)
        requires
            old(self).wf(),
            old(rdb).wf(),
            rem_i.len() >= 1,
            rem_i[0] == 252,
            old(self).rem() == rem_i.skip(1),
            model_of(*old(rdb)) == m_i,
        ensures
            final(self).sbuf() == old(self).sbuf(),
            final(self).wf(),
            final(rdb).wf(),
            final(self).spos() >= old(self).spos(),
            match r {
                Ok(()) => spec_parse_body(rem_i, m_i) == spec_parse_body(
                    final(self).rem(),
                    model_of(*final(rdb)),
                ),
                Err(e) => spec_parse_body(rem_i, m_i) == Err::<RdbModel, _>(e),
            },
    {
        let ghost rest = rem_i.skip(1);
        let v = match self.read_vec(8) {
            Ok(v) => v,
            Err(e) => {
                proof {
                    lemma_body_exp_ms(rem_i, m_i);
                }
                return Err(e);
            }
        };
        let exp: u64 = v[0] as u64 + 256 * (v[1] as u64) + 65536 * (v[2] as u64) + 16777216 * (
        v[3] as u64) + 4294967296 * (v[4] as u64) + 1099511627776 * (v[5] as u64)
            + 281474976710656 * (v[6] as u64) + 72057594037927936 * (v[7] as u64);
        proof {
            assert(v@ =~= rest.subrange(0, 8));
            assert(exp as int == le64(rest.subrange(0, 8)));
            assert(self.rem() =~= rest.skip(8));
        }
        let t = match self.read_byte() {
            Ok(t) => t,
            Err(e) => {
                proof {
                    assert(rest.len() < 9);
                    lemma_body_exp_ms(rem_i, m_i);
                }
                return Err(e);
            }
        };
        let ghost pos_entry = self.spos();
        proof {
            assert(t == rest[8]);
            assert(self.rem() =~= rest.skip(9));
        }
        match self.read_keyed_entry(rdb, t, Some(exp)) {
            Ok(()) => {}
            Err(e) => {
                proof {
                    lemma_body_exp_ms(rem_i, m_i);
                }
                return Err(e);
            }
        }
        proof {
            assert(self.rem() =~= rest.skip(9 + (self.spos() - pos_entry)));
            lemma_body_exp_ms(rem_i, m_i);
        }
        Ok(())
    }

    /// Handles one entry without expiry, whose value-type byte is `b`.
    fn step_plain(&mut self, rdb: &mut Rdb, b: u8, Ghost(rem_i): Ghost<Seq<u8>>, Ghost(m_i):
        Ghost<RdbModel>) -> (r: Result<(), RDBError>)
        requires
            old(self).wf(),
            old(rdb).wf(),
            rem_i.len() >= 1,
            rem_i[0] == b,
            old(self).rem() == rem_i.skip(1),
            model_of(*old(rdb)) == m_i,
            rem_i[0] != 255,
            rem_i[0] != 250,
            rem_i[0] != 254,
            rem_i[0] != 251,
            rem_i[0] != 253,
            rem_i[0] != 252,

        ensures
            final(self).sbuf() == old(self).sbuf(),
            final(self).wf(),
            final(rdb).wf(),
            final(self).spos() >= old(self).spos(),
            match r {
                Ok(()) => spec_parse_body(rem_i, m_i) == spec_parse_body(
                    final(self).rem(),
                    model_of(*final(rdb)),
                ),
                Err(e) => spec_parse_body(rem_i, m_i) == Err::<RdbModel, _>(e),
            },
    {
        let ghost rest = rem_i.skip(1);
        let ghost pos_entry = self.spos();
        match self.read_keyed_entry(rdb, b, None) {
            Ok(()) => {}
            Err(e) => {
                proof {
                    lemma_body_plain(rem_i, m_i);
                }
                return Err(e);
            }
        }
        proof {
            assert(self.rem() =~= rest.skip(self.spos() - pos_entry));
            lemma_body_plain(rem_i, m_i);
        }
        Ok(())
    }

    /// Handles one body record whose opcode byte `b` (not `0xFF`) has just
    /// been consumed; `rem_i` is the unconsumed input including `b` and
    /// `m_i` the model before the record.
    fn body_step(&mut self, rdb: &mut Rdb, b: u8, Ghost(rem_i): Ghost<Seq<u8>>, Ghost(m_i):
        Ghost<RdbModel>) -> (r: Result<(), RDBError>)
        requires
            old(self).wf(),
            old(rdb).wf(),
            rem_i.len() >= 1,
            rem_i[0] == b,
            b != 255,
            old(self).rem() == rem_i.skip(1),
            model_of(*old(rdb)) == m_i,
        ensures
            final(self).sbuf() == old(self).sbuf(),
            final(self).wf(),
            final(rdb).wf(),
            final(self).spos() >= old(self).spos(),
            match r {
                Ok(()) => spec_parse_body(rem_i, m_i) == spec_parse_body(
                    final(self).rem(),
                    model_of(*final(rdb)),
                ),
                Err(e) => spec_parse_body(rem_i, m_i) == Err::<RdbModel, _>(e),
            },
    {
        if b == 250 {
            self.step_aux(rdb, Ghost(rem_i), Ghost(m_i))
        } else if b == 254 {
            self.step_selectdb(rdb, Ghost(rem_i), Ghost(m_i))
        } else if b == 251 {
            self.step_resize(rdb, Ghost(rem_i), Ghost(m_i))
        } else if b == 253 {
            self.step_exp_s(rdb, Ghost(rem_i), Ghost(m_i))
        } else if b == 252 {
            self.step_exp_ms(rdb, Ghost(rem_i), Ghost(m_i))
        } else {
            self.step_plain(rdb, b, Ghost(rem_i), Ghost(m_i))
        }
    }

    /// Reads body records into `rdb` until the end-of-file opcode.
    fn parse_body(&mut self, rdb: &mut Rdb) -> (r: Result<(), RDBError>)
        requires
            old(self).wf(),
            old(rdb).wf(),
        ensures
            final(self).sbuf() == old(self).sbuf(),
            final(self).wf(),
            final(rdb).wf(),
            match r {
                Ok(()) => spec_parse_body(old(self).rem(), model_of(*old(rdb))) == Ok::<
                    _,
                    RDBError,
                >(model_of(*final(rdb))),
                Err(e) => spec_parse_body(old(self).rem(), model_of(*old(rdb))) == Err::<
                    RdbModel,
                    _,
                >(e),
            },
    {
        loop
            invariant
                self.wf(),
                self.sbuf() == old(self).sbuf(),
                rdb.wf(),
                spec_parse_body(old(self).rem(), model_of(*old(rdb))) == spec_parse_body(
                    self.rem(),
                    model_of(*rdb),
                ),
            decreases self.sbuf().len() - self.spos(),
        {
            let ghost rem_i = self.rem();
            let ghost m_i = model_of(*rdb);
            let b = match self.read_byte() {
                Ok(b) => b,
                Err(e) => {
                    proof {
                        lemma_body_empty(rem_i, m_i);
                    }
                    return Err(e);
                }
            };
            proof {
                assert(rem_i[0] == b);
                assert(self.rem() =~= rem_i.skip(1));
            }
            if b == 255 {
                proof {
                    lemma_body_eof(rem_i, m_i);
                }
                return Ok(());
            }
            match self.body_step(rdb, b, Ghost(rem_i), Ghost(m_i)) {
                Ok(()) => {}
                Err(e) => {
                    return Err(e);
                }
            }
        }
    }

    /// Decodes a whole snapshot from the cursor onward.
    pub fn parse(&mut self) -> (r: Result<Rdb, RDBError>)
        requires
            old(self).wf(),
        ensures
            final(self).sbuf() == old(self).sbuf(),
            final(self).wf(),
            match r {
                Ok(rdb) => rdb.wf() && spec_parse(old(self).rem()) == Ok::<_, RDBError>(
                    model_of(rdb),
                ),
                Err(e) => spec_parse(old(self).rem()) == Err::<RdbModel, _>(e),
            },
    {
        let mut rdb = Rdb::new();
        match self.parse_header(&mut rdb) {
            Ok(()) => {}
            Err(e) => {
                return Err(e);
            }
        }
        proof {
            assert(self.rem() =~= old(self).rem().skip(9));
        }
        match self.parse_body(&mut rdb) {
            Ok(()) => Ok(rdb),
            Err(e) => Err(e),
        }
    }
}

} // verus!
