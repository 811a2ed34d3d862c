//! The request/reply engine: the pure core of the connection handler.
//!
//! Everything here is computation: bytes in, reply bytes and state changes
//! out. The caller owns the socket loop; it hands in the read bytes and the
//! current time in milliseconds, writes the reply out, and consumes what the
//! decoder used.

use vstd::prelude::*;

use crate::ascii::{bytes_eq, copy_bytes};
use crate::command::{dispatch, Command, CommandModel, ok_text};
use crate::config::Config;
use crate::db::{entry_expired, Database, EntryModel, GetValue, RedisDatabase};
use crate::encoding::{
    bulk_bytes, bulk_list_bytes, encode_response_as_simple_string, err_unknown,
    err_unknown_bytes, null_bulk, null_bulk_bytes, simple_string_bytes, to_bulk_string,
    to_list_of_bulk_strings, views_of,
};
use crate::parser::{Rdb, SnapEntry};
use crate::response::{
    decode_frame, parse_frame, DecodeOutcome, FrameOut, RespData, RespParser, Value,
};

verus! {

/// The byte pattern `*`, the only one `KEYS` supports.
pub open spec fn star_text() -> Seq<u8> {
    seq![42u8]
}

/// A snapshot entry is expired once its expiry instant is at or before
/// `now_ms`.
pub open spec fn snap_expired(e: SnapEntry, now_ms: u64) -> bool {
    match e.expiry {
        Some(x) => x <= now_ms,
        None => false,
    }
}

/// Where a combined lookup found its value, if anywhere.
pub enum LookupResult {
    /// From the live store.
    Live(Vec<u8>),
    /// From the snapshot store.
    Snapshot(Vec<u8>),
    /// Nowhere: absent, expired, or not a string value.
    Absent,
}

/// Ghost model of a combined lookup result.
pub enum LookupModel {
    Live(Seq<u8>),
    Snapshot(Seq<u8>),
    Absent,
}

/// Resolution order of a `GET`: the live store first (an expired hit counts
/// as absent), then the snapshot (whose entry must be an unexpired string).
pub open spec fn lookup_spec(
    live: Map<Seq<u8>, EntryModel>,
    snap: Map<Seq<u8>, SnapEntry>,
    k: Seq<u8>,
    now_ms: u64,
) -> LookupModel {
    if live.dom().contains(k) {
        if !entry_expired(live[k], now_ms) {
            LookupModel::Live(live[k].value)
        } else {
            LookupModel::Absent
        }
    } else if snap.dom().contains(k) {
        if snap_expired(snap[k], now_ms) {
            LookupModel::Absent
        } else {
            match snap[k].value {
                RespData::Str(b) => LookupModel::Snapshot(b),
                RespData::Arr(_) => LookupModel::Absent,
            }
        }
    } else {
        LookupModel::Absent
    }
}

/// The live store after a `GET` of `k`: unchanged but for the lazy eviction
/// of an expired hit.
pub open spec fn live_after_get(live: Map<Seq<u8>, EntryModel>, k: Seq<u8>, now_ms: u64) -> Map<
    Seq<u8>,
    EntryModel,
> {
    if live.dom().contains(k) && entry_expired(live[k], now_ms) {
        live.remove(k)
    } else {
        live
    }
}

/// The snapshot store after a `GET` of `k`: consulted only on a live miss,
/// and then shrunk only by the lazy eviction of an expired entry.
pub open spec fn snap_after_get(
    live: Map<Seq<u8>, EntryModel>,
    snap: Map<Seq<u8>, SnapEntry>,
    k: Seq<u8>,
    now_ms: u64,
) -> Map<Seq<u8>, SnapEntry> {
    if !live.dom().contains(k) && snap.dom().contains(k) && snap_expired(snap[k], now_ms) {
        snap.remove(k)
    } else {
        snap
    }
}

/// Looks `key` up across both stores at `now_ms`, evicting lazily.
pub fn lookup(live: &mut RedisDatabase, snap: &mut Rdb, key: &[u8], now_ms: u64) -> (r:
    LookupResult)
    requires
        old(live).wf(),
        old(snap).wf(),
    ensures
        final(live).wf(),
        final(snap).wf(),
        final(live)@ == live_after_get(old(live)@, key@, now_ms),
        final(snap)@ == snap_after_get(old(live)@, old(snap)@, key@, now_ms),
        match r {
            LookupResult::Live(v) => lookup_spec(old(live)@, old(snap)@, key@, now_ms)
                == LookupModel::Live(v@),
            LookupResult::Snapshot(b) => lookup_spec(old(live)@, old(snap)@, key@, now_ms)
                == LookupModel::Snapshot(b@),
            LookupResult::Absent => lookup_spec(old(live)@, old(snap)@, key@, now_ms)
                == LookupModel::Absent,
        },
{
    match live.get(key, now_ms) {
        GetValue::Found(v) => LookupResult::Live(v),
        GetValue::Expired(_) => {
            live.delete(key);
            LookupResult::Absent
        }
        GetValue::Missing => {
            let mut expired = false;
            let mut found: Option<Vec<u8>> = None;
            match snap.get(key) {
                Some(rv) => {
                    expired = match rv.expiry {
                        Some(x) => x <= now_ms,
                        None => false,
                    };
                    if !expired {
                        match &rv.value {
                            Value::String(b) => {
                                found = Some(copy_bytes(b.as_slice()));
                            }
                            Value::Array(_) => {}
                        }
                    }
                }
                None => {}
            }
            if expired {
                snap.delete(key);
                LookupResult::Absent
            } else {
                match found {
                    Some(b) => LookupResult::Snapshot(b),
                    None => LookupResult::Absent,
                }
            }
        }
    }
}

/// Live entries shadow the snapshot: when `k` is live and unexpired, a
/// lookup yields the live value and touches nothing, whatever the snapshot
/// holds for `k`.
pub proof fn lemma_live_shadows_snapshot(
    live: Map<Seq<u8>, EntryModel>,
    snap: Map<Seq<u8>, SnapEntry>,
    k: Seq<u8>,
    now_ms: u64,
)
    requires
        live.dom().contains(k),
        !entry_expired(live[k], now_ms),
    ensures
        lookup_spec(live, snap, k, now_ms) == LookupModel::Live(live[k].value),
        live_after_get(live, k, now_ms) == live,
        snap_after_get(live, snap, k, now_ms) == snap,
{
}

/// Membership in a `KEYS *` listing: the unexpired live keys, together with
/// the unexpired snapshot keys that no live entry (even an expired one)
/// shadows.
pub open spec fn in_keys_star(
    live: Map<Seq<u8>, EntryModel>,
    snap: Map<Seq<u8>, SnapEntry>,
    k: Seq<u8>,
    now_ms: u64,
) -> bool {
    ||| (live.dom().contains(k) && !entry_expired(live[k], now_ms))
    ||| (snap.dom().contains(k) && !snap_expired(snap[k], now_ms) && !live.dom().contains(k))
}

/// A correct `KEYS *` listing: exactly the member keys, without duplicates,
/// in some order.
pub open spec fn keys_listing(
    live: Map<Seq<u8>, EntryModel>,
    snap: Map<Seq<u8>, SnapEntry>,
    now_ms: u64,
    ks: Seq<Seq<u8>>,
) -> bool {
    &&& forall|j: int| 0 <= j < ks.len() ==> in_keys_star(live, snap, #[trigger] ks[j], now_ms)
    &&& forall|k: Seq<u8>|
        #[trigger] in_keys_star(live, snap, k, now_ms) ==> exists|j: int|
            0 <= j < ks.len() && ks[j] == k
    &&& forall|j1: int, j2: int| 0 <= j1 < j2 < ks.len() ==> #[trigger] ks[j1] != #[trigger] ks[j2]
}

/// The keys a `KEYS *` reports, in an unspecified order.
pub fn keys_star(live: &RedisDatabase, snap: &Rdb, now_ms: u64) -> (r: Vec<Vec<u8>>)
    requires
        live.wf(),
        snap.wf(),
    ensures
        keys_listing(live@, snap@, now_ms, views_of(r@)),
{
    let mut out = live.unexpired_keys(now_ms);
    let ghost live_part = out@;
    let sk = snap.get_keys();
    let ghost mut srcs: Seq<int> = Seq::empty();
    let ghost mut locs: Map<int, int> = Map::empty();
    let mut i: usize = 0;
    while i < sk.len()
        invariant
            live.wf(),
            snap.wf(),
            0 <= i <= sk@.len(),
            forall|j: int|
                0 <= j < sk@.len() ==> snap@.dom().contains((#[trigger] sk@[j])@),
            forall|k: Seq<u8>|
                #[trigger] snap@.dom().contains(k) ==> exists|j: int|
                    0 <= j < sk@.len() && (#[trigger] sk@[j])@ == k,
            forall|j1: int, j2: int| 0 <= j1 < j2 < sk@.len() ==> (#[trigger] sk@[j1])@ != (
            #[trigger] sk@[j2])@,
            live_part.len() <= out@.len(),
            forall|j: int| 0 <= j < live_part.len() ==> #[trigger] out@[j] == live_part[j],
            forall|j: int|
                0 <= j < live_part.len() ==> live@.dom().contains((#[trigger] out@[j])@)
                    && !entry_expired(live@[out@[j]@], now_ms),
            forall|k: Seq<u8>|
                live@.dom().contains(k) && !entry_expired(#[trigger] live@[k], now_ms)
                    ==> exists|j: int| 0 <= j < live_part.len() && (#[trigger] live_part[j])@
                    == k,
            srcs.len() + live_part.len() == out@.len(),
            forall|j: int| 0 <= j < srcs.len() ==> 0 <= #[trigger] srcs[j] < i,
            forall|j: int|
                0 <= j < srcs.len() ==> (#[trigger] out@[live_part.len() + j])@
                    == sk@[srcs[j]]@ && !live@.dom().contains(out@[live_part.len() + j]@)
                    && snap@.dom().contains(out@[live_part.len() + j]@) && !snap_expired(
                    snap@[out@[live_part.len() + j]@],
                    now_ms,
                ),
            forall|j1: int, j2: int| 0 <= j1 < j2 < srcs.len() ==> #[trigger] srcs[j1]
                < #[trigger] srcs[j2],
            forall|i2: int|
                0 <= i2 < i && !live@.dom().contains((#[trigger] sk@[i2])@) && !snap_expired(
                    snap@[sk@[i2]@],
                    now_ms,
                ) ==> 0 <= locs[i2] < srcs.len() && srcs[locs[i2]] == i2,
            forall|j1: int, j2: int| 0 <= j1 < j2 < out@.len() ==> (#[trigger] out@[j1])@ != (
            #[trigger] out@[j2])@,
        decreases sk@.len() - i,
    {
        let k = &sk[i];
        if !live.contains_key(k.as_slice()) {
            let keep: bool = match snap.get(k.as_slice()) {
                Some(rv) => match rv.expiry {
                    Some(x) => x > now_ms,
                    None => true,
                },
                None => false,
            };
            if keep {
                let ghost before = out@;
                proof {
                    assert forall|j1: int| 0 <= j1 < before.len() implies (
                    #[trigger] before[j1])@ != sk@[i as int]@ by {
                        if j1 < live_part.len() {
                            assert(out@[j1] == live_part[j1]);
                            assert(live@.dom().contains(out@[j1]@));
                        } else {
                            let j = j1 - live_part.len();
                            assert(out@[live_part.len() + j]@ == sk@[srcs[j]]@);
                            assert(srcs[j] < i);
                            assert(sk@[srcs[j]]@ != sk@[i as int]@);
                        }
                    }
                }
                out.push(copy_bytes(k.as_slice()));
                proof {
                    assert(forall|j: int|
                        0 <= j < before.len() ==> #[trigger] out@[j] == before[j]);
                    assert(out@[before.len() as int]@ == sk@[i as int]@);
                    srcs = srcs.push(i as int);
                    locs = locs.insert(i as int, srcs.len() - 1);
                }
            }
        }
        i = i + 1;
    }
    proof {
        let ks = views_of(out@);
        assert forall|j: int| 0 <= j < ks.len() implies in_keys_star(
            live@,
            snap@,
            #[trigger] ks[j],
            now_ms,
        ) by {
            assert(ks[j] == out@[j]@);
            if j < live_part.len() {
                assert(out@[j] == live_part[j]);
                assert(live@.dom().contains(out@[j]@));
            } else {
                let j2 = j - live_part.len();
                assert(out@[live_part.len() + j2]@ == sk@[srcs[j2]]@);
                assert(!live@.dom().contains(out@[live_part.len() + j2]@));
                assert(snap@.dom().contains(out@[live_part.len() + j2]@));
            }
        }
        assert forall|k: Seq<u8>| #[trigger]
            in_keys_star(live@, snap@, k, now_ms) implies exists|j: int|
            0 <= j < ks.len() && ks[j] == k by {
            if live@.dom().contains(k) && !entry_expired(live@[k], now_ms) {
                let j = choose|j: int|
                    0 <= j < live_part.len() && (#[trigger] live_part[j])@ == k;
                assert(ks[j] == k);
            } else {
                let i2 = choose|i2: int|
                    0 <= i2 < sk@.len() && (#[trigger] sk@[i2])@ == k;
                let j2 = locs[i2];
                assert(srcs[j2] == i2);
                assert(out@[live_part.len() + j2]@ == sk@[i2]@);
                assert(ks[live_part.len() + j2] == k);
            }
        }
        assert forall|j1: int, j2: int| 0 <= j1 < j2 < ks.len() implies #[trigger] ks[j1]
            != #[trigger] ks[j2] by {
            assert(out@[j1]@ != out@[j2]@);
        }
    }
    out
}

/// The startup value a `CONFIG GET` of `p` reports, if any.
pub open spec fn config_lookup(cfg: Config, p: Seq<u8>) -> Option<Seq<u8>> {
    cfg.spec_get(p)
}

/// What reply a command gets and how it changes the stores.
pub open spec fn reply_for(
    cmd: CommandModel,
    live: Map<Seq<u8>, EntryModel>,
    snap: Map<Seq<u8>, SnapEntry>,
    cfg: Config,
    now_ms: u64,
    reply: Seq<u8>,
    live2: Map<Seq<u8>, EntryModel>,
    snap2: Map<Seq<u8>, SnapEntry>,
) -> bool {
    match cmd {
        CommandModel::Ping(p) => reply == simple_string_bytes(p) && live2 == live && snap2
            == snap,
        CommandModel::Echo(m) => reply == simple_string_bytes(m) && live2 == live && snap2
            == snap,
        CommandModel::Put { key, value, px } => {
            &&& live2 == live.insert(
                key,
                (EntryModel { value, expires_at: crate::db::expiry_at(px, now_ms) }),
            )
            &&& snap2 == snap
            &&& reply == simple_string_bytes(ok_text())
        },
        CommandModel::Get(k) => {
            &&& live2 == live_after_get(live, k, now_ms)
            &&& snap2 == snap_after_get(live, snap, k, now_ms)
            &&& reply == (match lookup_spec(live, snap, k, now_ms) {
                LookupModel::Live(v) => simple_string_bytes(v),
                LookupModel::Snapshot(b) => bulk_bytes(b),
                LookupModel::Absent => null_bulk_bytes(),
            })
        },
        CommandModel::ConfigGet(p) => {
            &&& live2 == live
            &&& snap2 == snap
            &&& reply == (match config_lookup(cfg, p) {
                Some(v) => bulk_list_bytes(seq![p, v]),
                None => null_bulk_bytes(),
            })
        },
        CommandModel::Keys(pat) => {
            &&& live2 == live
            &&& snap2 == snap
            &&& if pat == star_text() {
                exists|ks: Seq<Seq<u8>>| #![auto]
                    keys_listing(live, snap, now_ms, ks) && reply == bulk_list_bytes(ks)
            } else {
                reply == bulk_list_bytes(Seq::<Seq<u8>>::empty())
            }
        },
    }
}

/// What command a decoded top-level frame denotes, if any: it must be an
/// array whose first element names a command.
pub open spec fn frame_model(v: RespData) -> Option<CommandModel> {
    match v {
        RespData::Arr(items) => dispatch(items),
        RespData::Str(_) => None,
    }
}

/// Applies one decoded frame to the stores and produces the reply bytes; an
/// unrecognized frame gets the error reply and changes nothing.
pub fn handle_frame(
    req: &Value,
    live: &mut RedisDatabase,
    snap: &mut Rdb,
    config: &Config,
    now_ms: u64,
) -> (r: Vec<u8>)
    requires
        old(live).wf(),
        old(snap).wf(),
    ensures
        final(live).wf(),
        final(snap).wf(),
        match frame_model(req.model()) {
            Some(cmd) => reply_for(
                cmd,
                old(live)@,
                old(snap)@,
                *config,
                now_ms,
                r@,
                final(live)@,
                final(snap)@,
            ),
            None => r@ == err_unknown_bytes() && final(live)@ == old(live)@ && final(snap)@
                == old(snap)@,
        },
{
    let cmd_opt = match req {
        Value::Array(items) => Command::handle_command(items.as_slice()),
        Value::String(_) => None,
    };
    match cmd_opt {
        None => err_unknown(),
        Some(cmd) => match cmd {
            Command::Ping(p) => encode_response_as_simple_string(p.as_slice()),
            Command::Echo(m) => encode_response_as_simple_string(m.as_slice()),
            Command::Put(sc) => {
                live.set(sc.key.as_slice(), sc.value.as_slice(), sc.px, now_ms);
                let ok_pat: [u8; 2] = [79, 75];
                proof {
                    assert(ok_pat@ =~= ok_text());
                }
                encode_response_as_simple_string(ok_pat.as_slice())
            }
            Command::Get(k) => match lookup(live, snap, k.as_slice(), now_ms) {
                LookupResult::Live(v) => encode_response_as_simple_string(v.as_slice()),
                LookupResult::Snapshot(b) => to_bulk_string(b.as_slice()),
                LookupResult::Absent => null_bulk(),
            },
            Command::Config(p) => match config.get(p.as_slice()) {
                Some(v) => {
                    let mut items: Vec<Vec<u8>> = Vec::new();
                    items.push(copy_bytes(p.as_slice()));
                    items.push(copy_bytes(v.as_slice()));
                    let r = to_list_of_bulk_strings(&items);
                    proof {
                        assert(views_of(items@) =~= seq![p@, v@]);
                    }
                    r
                }
                None => null_bulk(),
            },
            Command::Keys(pat) => {
                let star_pat: [u8; 1] = [42];
                proof {
                    assert(star_pat@ =~= star_text());
                }
                if bytes_eq(pat.as_slice(), star_pat.as_slice()) {
                    let ks = keys_star(live, snap, now_ms);
                    let r = to_list_of_bulk_strings(&ks);
                    proof {
                        assert(keys_listing(live@, snap@, now_ms, views_of(ks@)) && r@
                            == bulk_list_bytes(views_of(ks@)));
                    }
                    r
                } else {
                    let empty: Vec<Vec<u8>> = Vec::new();
                    let r = to_list_of_bulk_strings(&empty);
                    proof {
                        assert(views_of(empty@) =~= Seq::<Seq<u8>>::empty());
                    }
                    r
                }
            }
        },
    }
}

/// What the server does with the front of a connection's buffer.
pub enum ServerStep {
    /// A complete frame: the reply to write and the bytes consumed.
    Reply(Vec<u8>, usize),
    /// No complete frame yet: read more bytes.
    NeedMore,
    /// The buffer does not follow the protocol: close the connection.
    Close,
}

/// Handles the first frame of `buf` against the stores at `now_ms`.
pub fn handle_request(
    buf: &[u8],
    live: &mut RedisDatabase,
    snap: &mut Rdb,
    config: &Config,
    now_ms: u64,
) -> (r: ServerStep)
    requires
        old(live).wf(),
        old(snap).wf(),
    ensures
        final(live).wf(),
        final(snap).wf(),
        match r {
            ServerStep::Reply(reply, n) => {
                ||| (parse_frame(buf@) matches FrameOut::Found(m, c) && n == c && (
                match frame_model(m) {
                    Some(cmd) => reply_for(
                        cmd,
                        old(live)@,
                        old(snap)@,
                        *config,
                        now_ms,
                        reply@,
                        final(live)@,
                        final(snap)@,
                    ),
                    None => reply@ == err_unknown_bytes() && final(live)@ == old(live)@
                        && final(snap)@ == old(snap)@,
                }))
                ||| (parse_frame(buf@) matches FrameOut::FoundNull(c) && n == c && reply@
                    == err_unknown_bytes() && final(live)@ == old(live)@ && final(snap)@ == old(
                    snap,
                )@)
            },
            ServerStep::NeedMore => (parse_frame(buf@) is Partial) && final(live)@ == old(live)@
                && final(snap)@ == old(snap)@,
            ServerStep::Close => (parse_frame(buf@) is Bad) && final(live)@ == old(live)@
                && final(snap)@ == old(snap)@,
        },
{
    let (outcome, consumed) = decode_frame(buf);
    match outcome {
        DecodeOutcome::Complete(v) => {
            let reply = handle_frame(&v, live, snap, config, now_ms);
            ServerStep::Reply(reply, consumed)
        }
        DecodeOutcome::NullFrame => ServerStep::Reply(err_unknown(), consumed),
        DecodeOutcome::Incomplete => ServerStep::NeedMore,
        DecodeOutcome::Malformed => ServerStep::Close,
    }
}

/// Decodes the first frame of a request buffer, as the original entry point
/// does: the value, or `None` for anything but a complete frame.
pub fn parse(data: &[u8]) -> (r: Option<Value>)
    ensures
        match r {
            Some(v) => parse_frame(data@) matches FrameOut::Found(m, c) && m == v.model(),
            None => !(parse_frame(data@) is Found),
        },
{
    let mut parser = RespParser::new(data);
    proof {
        assert(parser.rem() =~= data@);
    }
    let (value, _) = parser.parse();
    value
}

/// What command a raw request buffer denotes, if any.
pub open spec fn spec_process_request(s: Seq<u8>) -> Option<CommandModel> {
    match parse_frame(s) {
        FrameOut::Found(m, _) => frame_model(m),
        _ => None,
    }
}

/// Decodes a request buffer and dispatches it to a typed command.
pub fn process_request(request: &[u8]) -> (r: Option<Command>)
    ensures
        match r {
            Some(c) => spec_process_request(request@) == Some(c.model()),
            None => spec_process_request(request@) is None,
        },
{
    match parse(request) {
        Some(v) => match v {
            Value::Array(items) => Command::handle_command(items.as_slice()),
            Value::String(_) => None,
        },
        None => None,
    }
}

} // verus!
