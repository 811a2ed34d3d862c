use miniredis::db::{Database, GetValue, RedisDatabase};
use miniredis::parser::Rdb;
use miniredis::response::Value;
use miniredis::server::{keys_star, lookup, LookupResult};

#[test]
fn set_then_get_returns_value() {
    let mut db = RedisDatabase::new();
    db.set(b"k", b"v", None, 100);
    match db.get(b"k", 999_999_999) {
        GetValue::Found(v) => assert_eq!(v, b"v".to_vec()),
        _ => panic!("expected the stored value"),
    }
}

#[test]
fn ttl_entry_lives_until_its_instant() {
    let mut db = RedisDatabase::new();
    db.set(b"k", b"v", Some(100), 1000);
    match db.get(b"k", 1099) {
        GetValue::Found(v) => assert_eq!(v, b"v".to_vec()),
        _ => panic!("expected the value before expiry"),
    }
    match db.get(b"k", 1100) {
        GetValue::Expired(v) => assert_eq!(v, b"v".to_vec()),
        _ => panic!("expected the entry to be expired at its instant"),
    }
}

#[test]
fn last_set_wins() {
    let mut db = RedisDatabase::new();
    db.set(b"k", b"first", None, 0);
    db.set(b"k", b"second", None, 1);
    db.set(b"k", b"third", None, 2);
    match db.get(b"k", 10) {
        GetValue::Found(v) => assert_eq!(v, b"third".to_vec()),
        _ => panic!("expected the last write"),
    }
}

#[test]
fn delete_removes_the_entry() {
    let mut db = RedisDatabase::new();
    db.set(b"k", b"v", None, 0);
    assert_eq!(db.delete(b"k"), Some(b"v".to_vec()));
    assert!(matches!(db.get(b"k", 1), GetValue::Missing));
    assert_eq!(db.delete(b"k"), None);
}

#[test]
fn expired_get_evicts_from_live_store() {
    let mut live = RedisDatabase::new();
    let mut snap = Rdb::new();
    live.set(b"k", b"v", Some(1), 0);
    match lookup(&mut live, &mut snap, b"k", 5) {
        LookupResult::Absent => {}
        _ => panic!("expected the expired key to read as absent"),
    }
    assert!(matches!(live.get(b"k", 5), GetValue::Missing));
}

#[test]
fn live_shadows_snapshot() {
    let mut live = RedisDatabase::new();
    let mut snap = Rdb::new();
    snap.add_object(b"foo".to_vec(), Value::String(b"bar".to_vec()), None);
    live.set(b"foo", b"newer", None, 0);
    match lookup(&mut live, &mut snap, b"foo", 1) {
        LookupResult::Live(v) => assert_eq!(v, b"newer".to_vec()),
        _ => panic!("expected the live value to shadow the snapshot"),
    }
}

#[test]
fn snapshot_answers_on_live_miss() {
    let mut live = RedisDatabase::new();
    let mut snap = Rdb::new();
    snap.add_object(b"foo".to_vec(), Value::String(b"bar".to_vec()), None);
    match lookup(&mut live, &mut snap, b"foo", 1) {
        LookupResult::Snapshot(v) => assert_eq!(v, b"bar".to_vec()),
        _ => panic!("expected the snapshot value"),
    }
}

#[test]
fn expired_snapshot_entry_is_evicted() {
    let mut live = RedisDatabase::new();
    let mut snap = Rdb::new();
    snap.add_object(b"old".to_vec(), Value::String(b"x".to_vec()), Some(10));
    match lookup(&mut live, &mut snap, b"old", 10) {
        LookupResult::Absent => {}
        _ => panic!("expected the expired snapshot entry to read as absent"),
    }
    assert!(snap.get(b"old").is_none());
}

#[test]
fn keys_star_is_the_shadowed_union() {
    let mut live = RedisDatabase::new();
    let snap_entries: &[(&[u8], Option<u64>)] =
        &[(b"b", None), (b"c", None), (b"d", Some(10))];
    let mut snap = Rdb::new();
    for (k, exp) in snap_entries {
        snap.add_object(k.to_vec(), Value::String(b"v".to_vec()), *exp);
    }
    live.set(b"a", b"v", None, 0);
    live.set(b"b", b"v", Some(1), 0);
    // At time 100: `a` is live; live `b` is expired and also shadows the
    // snapshot `b`; snapshot `c` is live; snapshot `d` is expired.
    let mut keys = keys_star(&live, &snap, 100);
    keys.sort();
    assert_eq!(keys, vec![b"a".to_vec(), b"c".to_vec()]);
}
