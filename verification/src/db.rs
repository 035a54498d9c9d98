//! The store: shards of mutable tables, frozen batches and the log.
use vstd::prelude::*;
use crate::bytes::{clone_bytes, clone_value, value_view};
use crate::consistent_hash::shard_of;
use crate::index::{
    ascending, has_visible, is_scan, lemma_write_leaves_others, lemma_written_is_visible, visible,
    Scan, Versions,
};
use crate::iterator::{
    all_ascending, from_first_tier, from_tier, has_key, is_merge, tiers_view, EIterator,
    MergeIterator, Row,
};
use crate::key::{bound_view, in_bounds};
use crate::index_batch::{all_encodable, IndexBatch};
use crate::mem_table::MemTable;
use crate::oracle::{
    conflicting_keys, is_floor, keys_seq, retained, LocalOracle, WriteConflict,
};
use crate::transaction::Transaction;
use crate::record::{record_encodable, Record, RecordType, RecordView};
use crate::wal::{
    records_encodable, encode_failure, files_view, frame, frames,
    lemma_log_roundtrip, parse_log, records_view, WalFile, WalManager, WriteError,
};
use crate::DbOption;

verus! {

/// The store as a plain value.
pub struct DbView {
    /// The versions of each shard's mutable table.
    pub shards: Seq<Versions>,
    /// The versions of each frozen batch, oldest first.
    pub immutable: Seq<Versions>,
    /// The records of the active log.
    pub log: Seq<RecordView>,
    /// The closed logs, oldest first.
    pub sealed: Seq<Seq<u8>>,
    /// The size bound of a log.
    pub max_wal_size: usize,
}

/// The table that holds one version only.
pub open spec fn single(rec: RecordView) -> Versions {
    Map::<(Seq<u8>, u64), Option<Seq<u8>>>::empty().insert((rec.key, rec.ts), rec.value)
}

/// The store after the edit `rec` went to the log and to shard `s`.
pub open spec fn appended(v: DbView, s: int, rec: RecordView) -> DbView {
    DbView {
        shards: v.shards.update(s, v.shards[s].insert((rec.key, rec.ts), rec.value)),
        log: v.log.push(rec),
        ..v
    }
}

/// The store after the edit `rec` made the log rotate: the active log is
/// closed and a new one holds `rec` alone; the table of shard `s` is frozen as
/// the newest batch and a new table holds `rec` alone.
pub open spec fn rotated(v: DbView, s: int, rec: RecordView) -> DbView {
    DbView {
        shards: v.shards.update(s, single(rec)),
        immutable: v.immutable.push(v.shards[s]),
        log: seq![rec],
        sealed: v.sealed.push(frames(v.log)),
        ..v
    }
}

/// What a write of `rec` to shard `s` does to the store `v`, and what it
/// returns. A record that cannot be encoded, or that no empty log can take,
/// is refused and changes nothing. A record that the active log can take is
/// appended to it and inserted into the shard. Any other record makes the log
/// rotate.
pub open spec fn write_result(v: DbView, s: int, rec: RecordView) -> (DbView, Result<(), WriteError>) {
    if !record_encodable(rec) {
        (v, Err(WriteError::Encode(encode_failure(rec))))
    } else if frames(v.log).len() + frame(rec).len() <= v.max_wal_size {
        (appended(v, s, rec), Ok(()))
    } else if frame(rec).len() > v.max_wal_size {
        (v, Err(WriteError::MaxSizeExceeded))
    } else {
        (rotated(v, s, rec), Ok(()))
    }
}

/// What writing `recs` in their order does to the store `v`, the edit at
/// each position going through the shard that `route` gives for it, and what
/// that returns: the first write that fails ends the run.
pub open spec fn write_all(v: DbView, route: Seq<int>, recs: Seq<RecordView>) -> (
    DbView,
    Result<(), WriteError>,
)
    decreases recs.len(),
{
    if recs.len() == 0 {
        (v, Ok(()))
    } else {
        let before = write_all(v, route.drop_last(), recs.drop_last());
        if before.1.is_err() {
            before
        } else {
            write_result(before.0, route.last(), recs.last())
        }
    }
}

/// `route` names a shard of the store for each of `n` edits.
pub open spec fn valid_route(route: Seq<int>, n: int, shards: int) -> bool {
    &&& route.len() == n
    &&& forall|i: int| 0 <= i < n ==> 0 <= #[trigger] route[i] < shards
}

/// The type of the record at position `i` of a batch of `n`: alone it is
/// `Full`; else the first is `First`, the last is `Last` and those between
/// are `Middle`.
pub open spec fn batch_type(i: int, n: int) -> RecordType {
    if n == 1 {
        RecordType::Full
    } else if i == 0 {
        RecordType::First
    } else if i == n - 1 {
        RecordType::Last
    } else {
        RecordType::Middle
    }
}

/// Edits as plain values: key, timestamp, and value or tombstone.
pub open spec fn edits_view(kvs: Seq<(Vec<u8>, u64, Option<Vec<u8>>)>) -> Seq<
    (Seq<u8>, u64, Option<Seq<u8>>),
> {
    Seq::new(kvs.len(), |i: int| (kvs[i].0@, kvs[i].1, value_view(kvs[i].2)))
}

/// The records that a batch of edits is logged as.
pub open spec fn batch_records(kvs: Seq<(Seq<u8>, u64, Option<Seq<u8>>)>) -> Seq<RecordView> {
    Seq::new(
        kvs.len(),
        |i: int|
            RecordView {
                record_type: batch_type(i, kvs.len() as int),
                key: kvs[i].0,
                ts: kvs[i].1,
                value: kvs[i].2,
            },
    )
}

/// The same records, each on its own.
pub open spec fn as_full(recs: Seq<RecordView>) -> Seq<RecordView> {
    Seq::new(recs.len(), |i: int| RecordView { record_type: RecordType::Full, ..recs[i] })
}

/// A write keeps the number of shards.
pub proof fn lemma_write_keeps_shards(v: DbView, s: int, rec: RecordView)
    requires
        0 <= s < v.shards.len(),
    ensures
        write_result(v, s, rec).0.shards.len() == v.shards.len(),
        write_result(v, s, rec).0.max_wal_size == v.max_wal_size,
{
}

/// A run that has failed after `k` edits stays as it is, whatever follows.
pub proof fn lemma_write_all_stops(v: DbView, route: Seq<int>, recs: Seq<RecordView>, k: int)
    requires
        0 <= k <= recs.len(),
        route.len() == recs.len(),
        write_all(v, route.take(k), recs.take(k)).1.is_err(),
    ensures
        write_all(v, route, recs) == write_all(v, route.take(k), recs.take(k)),
    decreases recs.len() - k,
{
    if k == recs.len() {
        assert(route.take(k) =~= route);
        assert(recs.take(k) =~= recs);
    } else {
        assert(route.drop_last().take(k) =~= route.take(k));
        assert(recs.drop_last().take(k) =~= recs.take(k));
        lemma_write_all_stops(v, route.drop_last(), recs.drop_last(), k);
    }
}

/// Running `a` and then `b` is running the two in a row.
pub proof fn lemma_write_all_concat(
    v: DbView,
    r1: Seq<int>,
    a: Seq<RecordView>,
    r2: Seq<int>,
    b: Seq<RecordView>,
)
    requires
        r1.len() == a.len(),
        r2.len() == b.len(),
    ensures
        write_all(v, r1 + r2, a + b) == if write_all(v, r1, a).1.is_err() {
            write_all(v, r1, a)
        } else {
            write_all(write_all(v, r1, a).0, r2, b)
        },
    decreases b.len(),
{
    if b.len() == 0 {
        assert(r1 + r2 =~= r1);
        assert(a + b =~= a);
    } else {
        assert((r1 + r2).drop_last() =~= r1 + r2.drop_last());
        assert((a + b).drop_last() =~= a + b.drop_last());
        assert((a + b).last() == b.last());
        assert((r1 + r2).last() == r2.last());
        lemma_write_all_concat(v, r1, a, r2.drop_last(), b.drop_last());
    }
}

/// The records of a run of log files, oldest file first.
pub open spec fn all_records(files: Seq<Seq<u8>>) -> Seq<RecordView>
    decreases files.len(),
{
    if files.len() == 0 {
        Seq::empty()
    } else {
        all_records(files.drop_last()) + parse_log(files.last())
    }
}

/// The records of the first `i` files come first among the records of all.
pub proof fn lemma_all_records_prefix(files: Seq<Seq<u8>>, i: int)
    requires
        0 <= i <= files.len(),
    ensures
        all_records(files.take(i)).len() <= all_records(files).len(),
        all_records(files).take(all_records(files.take(i)).len() as int) == all_records(
            files.take(i),
        ),
    decreases files.len() - i,
{
    if i == files.len() {
        assert(files.take(i) =~= files);
        assert(all_records(files).take(all_records(files).len() as int) =~= all_records(files));
    } else {
        lemma_all_records_prefix(files.drop_last(), i);
        assert(files.drop_last().take(i) =~= files.take(i));
        let p = all_records(files.take(i));
        let q = all_records(files.drop_last());
        assert(all_records(files).take(p.len() as int) =~= q.take(p.len() as int));
    }
}

/// A store that was just opened over `files`: empty tables, no batch, an
/// empty log.
pub open spec fn opened(files: Seq<Seq<u8>>, shards: int, max_wal_size: usize) -> DbView {
    DbView {
        shards: Seq::new(
            shards as nat,
            |i: int| Map::<(Seq<u8>, u64), Option<Seq<u8>>>::empty(),
        ),
        immutable: Seq::empty(),
        log: Seq::empty(),
        sealed: files,
        max_wal_size,
    }
}

/// A run of writes keeps the number of shards, and the closed logs that were
/// there stay where they are.
pub proof fn lemma_write_all_keeps(v: DbView, route: Seq<int>, recs: Seq<RecordView>)
    requires
        valid_route(route, recs.len() as int, v.shards.len() as int),
    ensures
        write_all(v, route, recs).0.shards.len() == v.shards.len(),
        write_all(v, route, recs).0.max_wal_size == v.max_wal_size,
        write_all(v, route, recs).0.sealed.len() >= v.sealed.len(),
        write_all(v, route, recs).0.sealed.take(v.sealed.len() as int) == v.sealed,
    decreases recs.len(),
{
    if recs.len() == 0 {
        assert(v.sealed.take(v.sealed.len() as int) =~= v.sealed);
    } else {
        let r0 = route.drop_last();
        assert(valid_route(r0, recs.len() - 1, v.shards.len() as int)) by {
            assert forall|i: int| 0 <= i < recs.len() - 1 implies 0 <= #[trigger] r0[i]
                < v.shards.len() by {
                assert(r0[i] == route[i]);
            }
        }
        lemma_write_all_keeps(v, r0, recs.drop_last());
        let before = write_all(v, r0, recs.drop_last());
        if !before.1.is_err() {
            let s = route.last();
            assert(0 <= route[route.len() - 1] < v.shards.len());
            let after = write_result(before.0, s, recs.last());
            assert(after.0.sealed.take(v.sealed.len() as int) =~= before.0.sealed.take(
                v.sealed.len() as int,
            ));
        }
    }
}

/// What the frozen batches show of `key` at `ts`: the newest version at or
/// before `ts` in the newest batch that has one.
pub open spec fn find_in_batches(batches: Seq<Versions>, key: Seq<u8>, ts: u64) -> Option<
    Option<Seq<u8>>,
>
    decreases batches.len(),
{
    if batches.len() == 0 {
        None
    } else {
        match visible(batches.last(), key, ts) {
            Some(x) => Some(x),
            None => find_in_batches(batches.drop_last(), key, ts),
        }
    }
}

/// What a read of `key` at `ts` through shard `s` returns: what the shard's
/// table shows, else what the frozen batches show; a tombstone and a key
/// without a version both read as absent.
pub open spec fn read(v: DbView, s: int, key: Seq<u8>, ts: u64) -> Option<Seq<u8>> {
    match visible(v.shards[s], key, ts) {
        Some(x) => x,
        None => match find_in_batches(v.immutable, key, ts) {
            Some(x) => x,
            None => None,
        },
    }
}

/// The tiers of the store from the highest priority down: the shards' tables
/// in their order, then the frozen batches from the newest to the oldest.
pub open spec fn tier_versions(v: DbView) -> Seq<Versions> {
    Seq::new(
        v.shards.len() + v.immutable.len(),
        |i: int|
            if i < v.shards.len() {
                v.shards[i]
            } else {
                v.immutable[v.immutable.len() - 1 - (i - v.shards.len())]
            },
    )
}

/// `scans` holds, tier by tier, the scan of `[lower, upper]` at `ts`.
pub open spec fn scans_of(
    tiers: Seq<Versions>,
    lower: Option<Seq<u8>>,
    upper: Option<Seq<u8>>,
    ts: u64,
    scans: Seq<Scan>,
) -> bool {
    &&& scans.len() == tiers.len()
    &&& forall|i: int|
        0 <= i < tiers.len() ==> is_scan(#[trigger] tiers[i], lower, upper, ts, scans[i])
}

/// A write that makes the log rotate leaves its edit as the only version of
/// the shard's new table and as the only record of the new log, and freezes
/// the shard's old table, as it was before the write, as the newest batch: the
/// edit is in that batch only where the table held a version at the same
/// internal key before.
pub proof fn lemma_rotation_keeps_edit_apart(v: DbView, s: int, rec: RecordView)
    requires
        0 <= s < v.shards.len(),
        record_encodable(rec),
        frames(v.log).len() + frame(rec).len() > v.max_wal_size,
        frame(rec).len() <= v.max_wal_size,
    ensures
        write_result(v, s, rec).1.is_ok(),
        write_result(v, s, rec).0.shards[s].dom() =~= set![(rec.key, rec.ts)],
        write_result(v, s, rec).0.shards[s][(rec.key, rec.ts)] == rec.value,
        write_result(v, s, rec).0.log == seq![rec],
        write_result(v, s, rec).0.immutable.len() == v.immutable.len() + 1,
        write_result(v, s, rec).0.immutable.last() == v.shards[s],
        write_result(v, s, rec).0.immutable.drop_last() == v.immutable,
        write_result(v, s, rec).0.sealed.last() == frames(v.log),
        forall|other: int|
            0 <= other < v.shards.len() && other != s ==> write_result(v, s, rec).0.shards[other]
                == v.shards[other],
{
    let after = write_result(v, s, rec).0;
    assert(after.immutable.drop_last() =~= v.immutable);
}

/// A row that a scan across tiers emits lies within the bounds and holds,
/// for its key, what the first tier with a version of the key at or before
/// `ts` shows there; the tiers before that one have no such version.
pub proof fn lemma_merged_row_is_first_visible(
    tiers: Seq<Versions>,
    lower: Option<Seq<u8>>,
    upper: Option<Seq<u8>>,
    ts: u64,
    scans: Seq<Scan>,
    out: Scan,
    a: int,
)
    requires
        scans_of(tiers, lower, upper, ts, scans),
        is_merge(scans, out),
        0 <= a < out.len(),
    ensures
        in_bounds(out[a].0, lower, upper),
        exists|i: int|
            0 <= i < tiers.len() && visible(#[trigger] tiers[i], out[a].0, ts) == Some(out[a].1)
                && forall|j: int| 0 <= j < i ==> visible(#[trigger] tiers[j], out[a].0, ts).is_none(),
{
    let row = out[a];
    assert(from_first_tier(scans, row));
    let i = choose|i: int| from_tier(scans, row, i);
    assert(is_scan(tiers[i], lower, upper, ts, scans[i]));
    let b = choose|b: int| 0 <= b < scans[i].len() && scans[i][b] == row;
    assert(in_bounds(scans[i][b].0, lower, upper));
    assert forall|j: int| 0 <= j < i implies visible(#[trigger] tiers[j], row.0, ts).is_none() by {
        assert(is_scan(tiers[j], lower, upper, ts, scans[j]));
        assert(!has_key(scans[j], row.0));
        if has_visible(tiers[j], row.0, ts) {
            let c = choose|c: int| 0 <= c < scans[j].len() && (#[trigger] scans[j][c]).0 == row.0;
            assert(has_key(scans[j], row.0));
        }
    }
    assert(visible(tiers[i], row.0, ts) == Some(row.1));
}

/// A scan across tiers emits every key within the bounds that has, in some
/// tier, a version at or before `ts`; it emits its keys in ascending order,
/// none twice.
pub proof fn lemma_merged_scan_is_complete(
    tiers: Seq<Versions>,
    lower: Option<Seq<u8>>,
    upper: Option<Seq<u8>>,
    ts: u64,
    scans: Seq<Scan>,
    out: Scan,
    i: int,
    key: Seq<u8>,
)
    requires
        scans_of(tiers, lower, upper, ts, scans),
        is_merge(scans, out),
        0 <= i < tiers.len(),
        in_bounds(key, lower, upper),
        has_visible(tiers[i], key, ts),
    ensures
        has_key(out, key),
        ascending(out),
{
    assert(is_scan(tiers[i], lower, upper, ts, scans[i]));
    let b = choose|b: int| 0 <= b < scans[i].len() && (#[trigger] scans[i][b]).0 == key;
    assert(has_key(out, scans[i][b].0));
}

/// No version of `key` is in `m`.
pub open spec fn key_free(m: Versions, key: Seq<u8>) -> bool {
    forall|t: u64| !m.dom().contains((key, t))
}

/// Every version of `key` in `m` is at or before `t`.
pub open spec fn key_at_most(m: Versions, key: Seq<u8>, t: u64) -> bool {
    forall|t2: u64| #[trigger] m.dom().contains((key, t2)) ==> t2 <= t
}

/// What a read through shard `s` finds: what the shard's table shows, else
/// what the frozen batches show.
pub open spec fn found(v: DbView, s: int, key: Seq<u8>, ts: u64) -> Option<Option<Seq<u8>>> {
    match visible(v.shards[s], key, ts) {
        Some(x) => Some(x),
        None => find_in_batches(v.immutable, key, ts),
    }
}

/// The versions of `key` are all in shard `s`, none of them after `t`.
pub open spec fn owned_up_to(v: DbView, s: int, key: Seq<u8>, t: u64) -> bool {
    &&& 0 <= s < v.shards.len()
    &&& key_at_most(v.shards[s], key, t)
    &&& forall|other: int|
        0 <= other < v.shards.len() && other != s ==> key_free(#[trigger] v.shards[other], key)
}

/// No table but that of shard `s` holds `key`, and a read of `key` at `ts`
/// through shard `s` finds `value`.
pub open spec fn settled(v: DbView, s: int, key: Seq<u8>, ts: u64, value: Option<Seq<u8>>) -> bool {
    &&& 0 <= s < v.shards.len()
    &&& found(v, s, key, ts) == Some(value)
    &&& forall|other: int|
        0 <= other < v.shards.len() && other != s ==> key_free(#[trigger] v.shards[other], key)
}

/// A table that holds one version shows it for its key from its timestamp
/// on, and nothing else.
pub proof fn lemma_single_visible(rec: RecordView, key: Seq<u8>, ts: u64)
    ensures
        visible(single(rec), key, ts) == if key == rec.key && rec.ts <= ts {
            Some(rec.value)
        } else {
            None
        },
{
    let empty = Map::<(Seq<u8>, u64), Option<Seq<u8>>>::empty();
    assert(!has_visible(empty, key, ts));
    if key == rec.key && rec.ts <= ts {
        lemma_written_is_visible(empty, rec.key, rec.ts, rec.value, ts);
    } else {
        lemma_write_leaves_others(empty, rec.key, rec.ts, rec.value, key, ts);
    }
}

/// A table without a version of `key` shows nothing for it.
pub proof fn lemma_key_free_invisible(m: Versions, key: Seq<u8>, ts: u64)
    requires
        key_free(m, key),
    ensures
        visible(m, key, ts).is_none(),
{
    if has_visible(m, key, ts) {
        let t = choose|t: u64| t <= ts && #[trigger] m.dom().contains((key, t));
        assert(false);
    }
}

/// Freezing a table as the newest batch: the batches then show what the
/// table shows, else what they showed before.
pub proof fn lemma_find_after_freeze(batches: Seq<Versions>, table: Versions, key: Seq<u8>, ts: u64)
    ensures
        find_in_batches(batches.push(table), key, ts) == match visible(table, key, ts) {
            Some(x) => Some(x),
            None => find_in_batches(batches, key, ts),
        },
{
    assert(batches.push(table).last() == table);
    assert(batches.push(table).drop_last() =~= batches);
}

/// While the versions of `key` are all in shard `s` and none is after `t`, a
/// write of another key, or of `key` through `s` at or before `t`, keeps it so.
pub proof fn lemma_write_keeps_owned(
    v: DbView,
    s: int,
    key: Seq<u8>,
    t: u64,
    target: int,
    rec: RecordView,
)
    requires
        owned_up_to(v, s, key, t),
        0 <= target < v.shards.len(),
        rec.key == key ==> target == s && rec.ts <= t,
    ensures
        owned_up_to(write_result(v, target, rec).0, s, key, t),
{
    let after = write_result(v, target, rec).0;
    assert forall|other: int| 0 <= other < after.shards.len() && other != s implies key_free(
        #[trigger] after.shards[other],
        key,
    ) by {
        assert(key_free(v.shards[other], key));
    }
}

/// The write of a version of `key` at `rec.ts` through shard `s`, where the
/// versions of `key` are all in `s` and none is after `rec.ts`, settles what
/// a read at `ts >= rec.ts` finds: the value written.
pub proof fn lemma_write_settles(v: DbView, s: int, rec: RecordView, ts: u64)
    requires
        owned_up_to(v, s, rec.key, rec.ts),
        rec.ts <= ts,
        write_result(v, s, rec).1.is_ok(),
    ensures
        settled(write_result(v, s, rec).0, s, rec.key, ts, rec.value),
{
    let after = write_result(v, s, rec).0;
    if frames(v.log).len() + frame(rec).len() <= v.max_wal_size {
        lemma_written_is_visible(v.shards[s], rec.key, rec.ts, rec.value, ts);
    } else {
        lemma_single_visible(rec, rec.key, ts);
    }
    assert forall|other: int| 0 <= other < after.shards.len() && other != s implies key_free(
        #[trigger] after.shards[other],
        rec.key,
    ) by {
        assert(key_free(v.shards[other], rec.key));
    }
}

/// Once a read of `key` at `ts` through shard `s` is settled, a write of
/// another key, or of `key` through `s` after `ts`, leaves it settled.
pub proof fn lemma_write_keeps_settled(
    v: DbView,
    s: int,
    key: Seq<u8>,
    ts: u64,
    value: Option<Seq<u8>>,
    target: int,
    rec: RecordView,
)
    requires
        settled(v, s, key, ts, value),
        0 <= target < v.shards.len(),
        rec.key == key ==> target == s && rec.ts > ts,
    ensures
        settled(write_result(v, target, rec).0, s, key, ts, value),
{
    let after = write_result(v, target, rec).0;
    if !record_encodable(rec) {
    } else if frames(v.log).len() + frame(rec).len() <= v.max_wal_size {
        lemma_write_leaves_others(v.shards[target], rec.key, rec.ts, rec.value, key, ts);
        assert forall|other: int| 0 <= other < after.shards.len() && other != s implies key_free(
            #[trigger] after.shards[other],
            key,
        ) by {
            assert(key_free(v.shards[other], key));
        }
    } else if frame(rec).len() > v.max_wal_size {
    } else {
        lemma_single_visible(rec, key, ts);
        lemma_find_after_freeze(v.immutable, v.shards[target], key, ts);
        if target != s {
            assert(key_free(v.shards[target], key));
            lemma_key_free_invisible(v.shards[target], key, ts);
        }
        assert forall|other: int| 0 <= other < after.shards.len() && other != s implies key_free(
            #[trigger] after.shards[other],
            key,
        ) by {
            if other != target {
                assert(key_free(v.shards[other], key));
            }
        }
    }
}

/// The edits of `recs` that write `key` all go through shard `s`; those
/// before position `i` are stamped at or before the edit at `i`, and those
/// after it are stamped after `ts`.
pub open spec fn last_write_before(
    route: Seq<int>,
    recs: Seq<RecordView>,
    i: int,
    s: int,
    ts: u64,
) -> bool {
    &&& 0 <= i < recs.len()
    &&& route[i] == s
    &&& recs[i].ts <= ts
    &&& forall|j: int|
        0 <= j < recs.len() && (#[trigger] recs[j]).key == recs[i].key ==> route[j] == s && (j < i
            ==> recs[j].ts <= recs[i].ts) && (j > i ==> recs[j].ts > ts)
}

/// A run of writes that only writes `key` through shard `s`, at or before
/// `t`, keeps the versions of `key` in `s` and at or before `t`.
pub proof fn lemma_run_keeps_owned(
    v: DbView,
    route: Seq<int>,
    recs: Seq<RecordView>,
    s: int,
    key: Seq<u8>,
    t: u64,
)
    requires
        owned_up_to(v, s, key, t),
        valid_route(route, recs.len() as int, v.shards.len() as int),
        forall|j: int|
            0 <= j < recs.len() && (#[trigger] recs[j]).key == key ==> route[j] == s && recs[j].ts
                <= t,
    ensures
        owned_up_to(write_all(v, route, recs).0, s, key, t),
        write_all(v, route, recs).0.shards.len() == v.shards.len(),
    decreases recs.len(),
{
    if recs.len() > 0 {
        let r0 = route.drop_last();
        let c0 = recs.drop_last();
        assert forall|j: int| 0 <= j < c0.len() implies 0 <= #[trigger] r0[j] < v.shards.len() by {
            assert(r0[j] == route[j]);
        }
        assert forall|j: int| 0 <= j < c0.len() && (#[trigger] c0[j]).key == key implies r0[j] == s
            && c0[j].ts <= t by {
            assert(c0[j] == recs[j]);
            assert(r0[j] == route[j]);
        }
        lemma_run_keeps_owned(v, r0, c0, s, key, t);
        let before = write_all(v, r0, c0);
        if !before.1.is_err() {
            let last = recs.len() - 1;
            assert(recs.last() == recs[last]);
            assert(0 <= route[last] < v.shards.len());
            lemma_write_keeps_owned(before.0, s, key, t, route.last(), recs.last());
            lemma_write_keeps_shards(before.0, route.last(), recs.last());
        }
    }
}

/// After a run of writes that succeeded, a read of a key through its shard
/// at `ts` returns what the last write of the key at or before `ts` wrote:
/// the edit at position `i`, where the writes of the key all went through
/// that shard, in the order of their timestamps, and the store held no
/// version of the key outside that shard, nor one after the edit's
/// timestamp, before the run.
pub proof fn lemma_written_is_read(
    v: DbView,
    route: Seq<int>,
    recs: Seq<RecordView>,
    i: int,
    s: int,
    ts: u64,
)
    requires
        valid_route(route, recs.len() as int, v.shards.len() as int),
        last_write_before(route, recs, i, s, ts),
        owned_up_to(v, s, recs[i].key, recs[i].ts),
        write_all(v, route, recs).1.is_ok(),
    ensures
        settled(write_all(v, route, recs).0, s, recs[i].key, ts, recs[i].value),
        read(write_all(v, route, recs).0, s, recs[i].key, ts) == recs[i].value,
    decreases recs.len(),
{
    let key = recs[i].key;
    let r0 = route.drop_last();
    let c0 = recs.drop_last();
    let last = recs.len() - 1;
    let before = write_all(v, r0, c0);
    assert(recs.last() == recs[last]);
    assert(route.last() == route[last]);
    assert(0 <= route[last] < v.shards.len());
    assert forall|j: int| 0 <= j < c0.len() implies 0 <= #[trigger] r0[j] < v.shards.len() by {
        assert(r0[j] == route[j]);
    }
    if i == last {
        assert forall|j: int| 0 <= j < c0.len() && (#[trigger] c0[j]).key == key implies r0[j] == s
            && c0[j].ts <= recs[i].ts by {
            assert(c0[j] == recs[j]);
            assert(r0[j] == route[j]);
        }
        lemma_run_keeps_owned(v, r0, c0, s, key, recs[i].ts);
        lemma_write_settles(before.0, s, recs[i], ts);
    } else {
        assert(c0[i] == recs[i]);
        assert(r0[i] == route[i]);
        assert forall|j: int| 0 <= j < c0.len() && (#[trigger] c0[j]).key == c0[i].key implies r0[j]
            == s && (j < i ==> c0[j].ts <= c0[i].ts) && (j > i ==> c0[j].ts > ts) by {
            assert(c0[j] == recs[j]);
            assert(r0[j] == route[j]);
        }
        lemma_written_is_read(v, r0, c0, i, s, ts);
        lemma_write_all_keeps(v, r0, c0);
        lemma_write_keeps_settled(before.0, s, key, ts, recs[i].value, route.last(), recs.last());
    }
}

/// A write stamped after `ts` leaves a read at `ts` through its own shard as
/// it was; so it does for a read through another shard, as long as the table
/// that the write went to shows nothing for the key at `ts`.
pub proof fn lemma_later_write_leaves_read(
    v: DbView,
    target: int,
    rec: RecordView,
    s: int,
    key: Seq<u8>,
    ts: u64,
)
    requires
        0 <= target < v.shards.len(),
        0 <= s < v.shards.len(),
        rec.ts > ts,
        target != s ==> visible(v.shards[target], key, ts).is_none(),
    ensures
        read(write_result(v, target, rec).0, s, key, ts) == read(v, s, key, ts),
{
    if !record_encodable(rec) {
    } else if frames(v.log).len() + frame(rec).len() <= v.max_wal_size {
        lemma_write_leaves_others(v.shards[target], rec.key, rec.ts, rec.value, key, ts);
    } else if frame(rec).len() > v.max_wal_size {
    } else {
        lemma_single_visible(rec, key, ts);
        lemma_find_after_freeze(v.immutable, v.shards[target], key, ts);
    }
}

/// Every record that a write took is the last record of the active log, and
/// the closed logs are read back whole: a log that was written frame by frame
/// gives its records in the order written.
pub proof fn lemma_write_is_logged(v: DbView, s: int, rec: RecordView)
    requires
        0 <= s < v.shards.len(),
        write_result(v, s, rec).1.is_ok(),
    ensures
        write_result(v, s, rec).0.log.last() == rec,
        record_encodable(rec),
        parse_log(frames(seq![rec])) == seq![rec],
{
    assert(records_encodable(seq![rec]));
    lemma_log_roundtrip(seq![rec]);
}

/// The log files of the store: the closed ones, then the active one.
pub open spec fn stored(v: DbView) -> Seq<Seq<u8>> {
    v.sealed.push(frames(v.log))
}

/// The records that the log files of the store hold, oldest first.
pub open spec fn history(v: DbView) -> Seq<RecordView> {
    all_records(v.sealed) + v.log
}

/// Reading the log files of the store gives its history.
pub proof fn lemma_stored_history(v: DbView)
    requires
        records_encodable(v.log),
    ensures
        all_records(stored(v)) == history(v),
{
    lemma_log_roundtrip(v.log);
    assert(stored(v).drop_last() =~= v.sealed);
    assert(stored(v).last() == frames(v.log));
}

/// A write that succeeds adds its record at the end of the history, whether
/// or not the log rotates, and leaves a log of records that can be encoded.
pub proof fn lemma_write_extends_history(v: DbView, s: int, rec: RecordView)
    requires
        0 <= s < v.shards.len(),
        records_encodable(v.log),
    ensures
        records_encodable(write_result(v, s, rec).0.log),
        write_result(v, s, rec).1.is_ok() ==> history(write_result(v, s, rec).0) == history(
            v,
        ).push(rec),
        write_result(v, s, rec).1.is_err() ==> write_result(v, s, rec).0 == v,
{
    let after = write_result(v, s, rec).0;
    if !record_encodable(rec) {
    } else if frames(v.log).len() + frame(rec).len() <= v.max_wal_size {
        assert forall|i: int| 0 <= i < after.log.len() implies record_encodable(
            #[trigger] after.log[i],
        ) by {
            if i < v.log.len() {
                assert(after.log[i] == v.log[i]);
            }
        }
        assert(history(after) =~= history(v).push(rec));
    } else if frame(rec).len() > v.max_wal_size {
    } else {
        lemma_log_roundtrip(v.log);
        assert(after.sealed.drop_last() =~= v.sealed);
        assert(after.sealed.last() == frames(v.log));
        assert(history(after) =~= history(v).push(rec));
    }
}

/// A store opened over the log files of another replays that store's
/// history. Where the replay succeeds, a read of a key through its shard at
/// `ts` returns what the last write of the key at or before `ts` wrote, where
/// the writes of the key all went through that shard in the order of their
/// timestamps.
pub proof fn lemma_reopened_store_reads_written(
    v: DbView,
    shards: int,
    max_wal_size: usize,
    route: Seq<int>,
    i: int,
    s: int,
    ts: u64,
)
    requires
        records_encodable(v.log),
        0 < shards,
        valid_route(route, history(v).len() as int, shards),
        last_write_before(route, history(v), i, s, ts),
        write_all(opened(stored(v), shards, max_wal_size), route, as_full(history(v))).1.is_ok(),
    ensures
        write_all(
            opened(stored(v), shards, max_wal_size),
            route,
            as_full(all_records(stored(v))),
        ) == write_all(opened(stored(v), shards, max_wal_size), route, as_full(history(v))),
        read(
            write_all(opened(stored(v), shards, max_wal_size), route, as_full(history(v))).0,
            s,
            history(v)[i].key,
            ts,
        ) == history(v)[i].value,
{
    lemma_stored_history(v);
    let recs = as_full(history(v));
    let start = opened(stored(v), shards, max_wal_size);
    assert(recs[i].key == history(v)[i].key);
    assert forall|j: int| 0 <= j < recs.len() && (#[trigger] recs[j]).key == recs[i].key implies route[j]
        == s && (j < i ==> recs[j].ts <= recs[i].ts) && (j > i ==> recs[j].ts > ts) by {
        assert(history(v)[j].key == history(v)[i].key);
    }
    assert(owned_up_to(start, s, recs[i].key, recs[i].ts));
    lemma_written_is_read(start, route, recs, i, s, ts);
}

/// An embedded store of versioned keys.
pub struct Db {
    option: DbOption,
    oracle: LocalOracle,
    wal_manager: WalManager,
    mutable_shards: Vec<MemTable>,
    immutable: Vec<IndexBatch>,
    wal: WalFile,
}

impl Db {
    /// The parts of the store fit together: there is a shard, every table and
    /// batch is well formed, what the shards hold can be encoded, and the
    /// active log is a run of whole frames within the configured bound.
    pub closed spec fn wf(&self) -> bool {
        &&& 0 < self.mutable_shards.len() <= u32::MAX
        &&& forall|i: int|
            0 <= i < self.mutable_shards.len() ==> (#[trigger] self.mutable_shards[i]).wf()
                && all_encodable(self.mutable_shards[i]@)
        &&& forall|i: int| 0 <= i < self.immutable.len() ==> (#[trigger] self.immutable[i]).wf()
        &&& self.wal.wf()
        &&& self.wal.max_size() == self.option.max_wal_size
        &&& self.wal_manager.max_wal_size() == self.option.max_wal_size
    }

    /// The store as a plain value.
    pub closed spec fn view(&self) -> DbView {
        DbView {
            shards: Seq::new(self.mutable_shards.len() as nat, |i: int| self.mutable_shards[i]@),
            immutable: Seq::new(self.immutable.len() as nat, |i: int| self.immutable[i]@),
            log: self.wal.records(),
            sealed: self.wal_manager.files(),
            max_wal_size: self.option.max_wal_size,
        }
    }

    /// The records of the active log of a store that is fit for use can all
    /// be encoded.
    pub proof fn lemma_log_encodable(&self)
        requires
            self.wf(),
        ensures
            records_encodable(self@.log),
    {
        self.wal.lemma_whole();
    }

    /// The oracle of the store.
    pub closed spec fn oracle(&self) -> LocalOracle {
        self.oracle
    }

    /// Opens a store over the log files that exist, oldest first, with
    /// `shards` shards, and replays every record of every file, each as an
    /// edit on its own. A replayed write that fails ends the opening.
    pub fn new(oracle: LocalOracle, files: Vec<Vec<u8>>, option: DbOption, shards: u32) -> (r:
        Result<Db, WriteError>)
        requires
            shards > 0,
        ensures
            match r {
                Ok(db) => {
                    &&& db.wf()
                    &&& db.oracle() == oracle
                    &&& db@.shards.len() == shards
                    &&& all_records(files_view(files@)).len() == 0 ==> db@ == opened(
                        files_view(files@),
                        shards as int,
                        option.max_wal_size,
                    )
                    &&& exists|route: Seq<int>| #[trigger]
                        valid_route(
                            route,
                            all_records(files_view(files@)).len() as int,
                            shards as int,
                        ) && (db@, Ok::<(), WriteError>(())) == write_all(
                            opened(files_view(files@), shards as int, option.max_wal_size),
                            route,
                            as_full(all_records(files_view(files@))),
                        )
                },
                Err(e) => exists|route: Seq<int>| #[trigger]
                    valid_route(route, all_records(files_view(files@)).len() as int, shards as int)
                        && write_all(
                        opened(files_view(files@), shards as int, option.max_wal_size),
                        route,
                        as_full(all_records(files_view(files@))),
                    ).1 == Err::<(), WriteError>(e),
            },
    {
        let ghost fv = files_view(files@);
        let ghost v0 = opened(fv, shards as int, option.max_wal_size);
        let count = files.len();
        let wal_manager = WalManager::new(files, option.max_wal_size);
        let mut mutable_shards: Vec<MemTable> = Vec::new();
        let mut k: u32 = 0;
        while k < shards
            invariant
                k <= shards,
                mutable_shards.len() == k,
                forall|i: int|
                    0 <= i < k ==> (#[trigger] mutable_shards[i]).wf() && mutable_shards[i]@
                        == Map::<(Seq<u8>, u64), Option<Seq<u8>>>::empty(),
            decreases shards - k,
        {
            mutable_shards.push(MemTable::new());
            k += 1;
        }
        let wal = wal_manager.create_wal_file();
        let mut db = Db {
            option,
            oracle,
            wal_manager,
            mutable_shards,
            immutable: Vec::new(),
            wal,
        };
        let ghost mut route: Seq<int> = Seq::empty();
        proof {
            assert(db@.shards =~= v0.shards);
            assert(db@.immutable =~= v0.immutable);
            assert(db@ == v0);
            assert(fv.take(0) =~= Seq::<Seq<u8>>::empty());
            assert(as_full(all_records(fv.take(0))) =~= Seq::<RecordView>::empty());
        }
        let mut i: usize = 0;
        while i < count
            invariant
                db.wf(),
                db.oracle() == oracle,
                fv == files_view(files@),
                count == fv.len(),
                v0 == opened(fv, shards as int, option.max_wal_size),
                db@.shards.len() == shards,
                i <= count,
                db@.sealed.len() >= count,
                db@.sealed.take(count as int) == fv,
                valid_route(route, all_records(fv.take(i as int)).len() as int, shards as int),
                (db@, Ok::<(), WriteError>(())) == write_all(
                    v0,
                    route,
                    as_full(all_records(fv.take(i as int))),
                ),
            decreases count - i,
        {
            let ghost before = db@;
            let ghost done = all_records(fv.take(i as int));
            let records = db.wal_manager.pack_wal_file(&db.wal_manager.list()[i]);
            proof {
                assert(db@.sealed.take(count as int)[i as int] == fv[i as int]);
                assert(records_view(records@) == parse_log(fv[i as int]));
            }
            let r = db.recover(records);
            let ghost mut witness: Seq<int> = Seq::empty();
            proof {
                let more = parse_log(fv[i as int]);
                let r2 = choose|r2: Seq<int>| #[trigger]
                    valid_route(r2, more.len() as int, shards as int) && (db@, r) == write_all(
                        before,
                        r2,
                        as_full(more),
                    );
                assert(fv.take(i + 1).drop_last() =~= fv.take(i as int));
                assert(fv.take(i + 1).last() == fv[i as int]);
                assert(all_records(fv.take(i + 1)) == done + more);
                assert(as_full(done + more) =~= as_full(done) + as_full(more));
                lemma_write_all_concat(v0, route, as_full(done), r2, as_full(more));
                lemma_write_all_keeps(before, r2, as_full(more));
                let next = route + r2;
                assert(valid_route(next, (done + more).len() as int, shards as int));
                assert(db@.sealed.take(count as int) =~= before.sealed.take(count as int)) by {
                    assert(db@.sealed.take(before.sealed.len() as int) == before.sealed);
                    assert(db@.sealed.take(before.sealed.len() as int).take(count as int)
                        =~= db@.sealed.take(count as int));
                }
                if r.is_err() {
                    let all = all_records(fv);
                    lemma_all_records_prefix(fv, i + 1);
                    let rest = (all.len() - next.len()) as nat;
                    let whole = next + Seq::new(rest, |j: int| 0int);
                    assert(whole.take(next.len() as int) =~= next);
                    assert(as_full(all).take(next.len() as int) =~= as_full(done + more));
                    assert(write_all(v0, next, as_full(done + more)) == (db@, r));
                    lemma_write_all_stops(v0, whole, as_full(all), next.len() as int);
                    assert(valid_route(whole, all.len() as int, shards as int));
                    assert(write_all(v0, whole, as_full(all)).1 == r);
                    witness = whole;
                }
                route = next;
            }
            match r {
                Ok(_) => {},
                Err(e) => {
                    proof {
                        assert(valid_route(
                            witness,
                            all_records(fv).len() as int,
                            shards as int,
                        ) && write_all(v0, witness, as_full(all_records(fv))).1 == Err::<
                            (),
                            WriteError,
                        >(e));
                    }
                    return Err(e);
                },
            }
            i += 1;
        }
        proof {
            assert(fv.take(count as int) =~= fv);
            if all_records(fv).len() == 0 {
                assert(as_full(all_records(fv)) =~= Seq::<RecordView>::empty());
            }
        }
        Ok(db)
    }

    /// Opens a read at the oracle's current timestamp.
    pub fn start_read(&mut self) -> (ts: u64)
        requires
            old(self).wf(),
        ensures
            final(self).wf(),
            final(self)@ == old(self)@,
            ts == old(self).oracle().now(),
            final(self).oracle().now() == old(self).oracle().now(),
            final(self).oracle().reads() == old(self).oracle().reads().insert(ts),
            final(self).oracle().commits() == old(self).oracle().commits(),
    {
        self.oracle.start_read()
    }

    /// Gives back one read at `ts`.
    pub fn read_commit(&mut self, ts: u64)
        requires
            old(self).wf(),
        ensures
            final(self).wf(),
            final(self)@ == old(self)@,
            final(self).oracle().now() == old(self).oracle().now(),
            final(self).oracle().reads() == old(self).oracle().reads().remove(ts),
            final(self).oracle().commits() == old(self).oracle().commits(),
    {
        self.oracle.read_commit(ts)
    }

    /// The timestamp at which a write would start.
    pub fn start_write(&self) -> (ts: u64)
        ensures
            ts == self.oracle().now(),
    {
        self.oracle.start_write()
    }

    /// Advances the oracle's timestamp by one and returns it.
    pub fn tick(&mut self) -> (ts: u64)
        requires
            old(self).wf(),
            old(self).oracle().now() < u64::MAX,
        ensures
            final(self).wf(),
            final(self)@ == old(self)@,
            ts == old(self).oracle().now() + 1,
            final(self).oracle().now() == ts,
            final(self).oracle().reads() == old(self).oracle().reads(),
            final(self).oracle().commits() == old(self).oracle().commits(),
    {
        self.oracle.tick()
    }

    /// Validates a commit against the commits recorded in
    /// `(read_at, write_at]` and records it where none of them wrote a key of
    /// `in_write`.
    pub fn write_commit(&mut self, read_at: u64, write_at: u64, in_write: Vec<Vec<u8>>) -> (r:
        Result<(), WriteConflict>)
        requires
            old(self).wf(),
        ensures
            final(self).wf(),
            final(self)@ == old(self)@,
            final(self).oracle().now() == old(self).oracle().now(),
            final(self).oracle().reads() == old(self).oracle().reads(),
            match r {
                Ok(_) => {
                    &&& conflicting_keys(
                        old(self).oracle().commits(),
                        read_at,
                        write_at,
                        keys_seq(in_write@),
                    ).len() == 0
                    &&& final(self).oracle().commits() == old(self).oracle().commits().push(
                        (write_at, keys_seq(in_write@)),
                    )
                },
                Err(c) => {
                    &&& c@ == conflicting_keys(
                        old(self).oracle().commits(),
                        read_at,
                        write_at,
                        keys_seq(in_write@),
                    )
                    &&& c@.len() > 0
                    &&& final(self).oracle().commits() == old(self).oracle().commits()
                },
            },
    {
        self.oracle.write_commit(read_at, write_at, in_write)
    }

    /// Drops the recorded commits that are older than every read in use.
    pub fn gc(&mut self)
        requires
            old(self).wf(),
        ensures
            final(self).wf(),
            final(self)@ == old(self)@,
            final(self).oracle().now() == old(self).oracle().now(),
            final(self).oracle().reads() == old(self).oracle().reads(),
            old(self).oracle().reads().len() == 0 ==> final(self).oracle().commits() == old(
                self,
            ).oracle().commits(),
            forall|t: u64| #[trigger]
                is_floor(old(self).oracle().reads(), t) ==> final(self).oracle().commits()
                    == retained(old(self).oracle().commits(), t),
    {
        self.oracle.gc()
    }

    /// Starts a transaction that reads at the oracle's current timestamp.
    pub fn new_txn(&mut self) -> (txn: Transaction)
        requires
            old(self).wf(),
        ensures
            final(self).wf(),
            final(self)@ == old(self)@,
            txn.wf(),
            txn.read_at() == old(self).oracle().now(),
            txn.local() == Map::<Seq<u8>, Option<Seq<u8>>>::empty(),
            final(self).oracle().now() == old(self).oracle().now(),
            final(self).oracle().reads() == old(self).oracle().reads().insert(txn.read_at()),
            final(self).oracle().commits() == old(self).oracle().commits(),
    {
        Transaction::new(self)
    }

    /// The log files in the order of their creation: the closed ones, then
    /// the active one.
    pub fn wal_files(&self) -> (files: Vec<Vec<u8>>)
        requires
            self.wf(),
        ensures
            files_view(files@) == self@.sealed.push(frames(self@.log)),
    {
        proof {
            self.wal.lemma_whole();
        }
        let closed = self.wal_manager.list();
        let mut files: Vec<Vec<u8>> = Vec::new();
        let mut i: usize = 0;
        while i < closed.len()
            invariant
                i <= closed.len(),
                files.len() == i,
                self.wf(),
                files_view(closed@) == self@.sealed,
                forall|j: int| 0 <= j < i ==> #[trigger] files_view(files@)[j] == closed@[j]@,
            decreases closed.len() - i,
        {
            let ghost before = files_view(files@);
            files.push(clone_bytes(&closed[i]));
            proof {
                assert forall|j: int| 0 <= j < i + 1 implies #[trigger] files_view(files@)[j]
                    == closed@[j]@ by {
                    if j < i {
                        assert(files_view(files@)[j] == before[j]);
                    }
                }
            }
            i += 1;
        }
        let ghost copied = files_view(files@);
        files.push(clone_bytes(self.wal.as_bytes()));
        proof {
            self.wal.lemma_whole();
            assert forall|j: int| 0 <= j < closed.len() implies files_view(files@)[j]
                == #[trigger] files_view(closed@)[j] by {
                assert(files_view(files@)[j] == copied[j]);
            }
            assert(files_view(files@) =~= self@.sealed.push(frames(self@.log)));
        }
        files
    }

    /// The number of frozen batches.
    pub fn immutable_len(&self) -> (n: usize)
        ensures
            n == self@.immutable.len(),
    {
        self.immutable.len()
    }

    /// The number of shards.
    pub fn shard_count(&self) -> (n: usize)
        requires
            self.wf(),
        ensures
            n == self@.shards.len(),
            0 < n <= u32::MAX,
    {
        self.mutable_shards.len()
    }

    /// Reads `key` at `ts` through shard `shard`: the shard's table first,
    /// then the frozen batches from the newest to the oldest, up to the first
    /// tier that holds a version at or before `ts`.
    pub fn get_from(&self, shard: usize, key: &Vec<u8>, ts: u64) -> (r: Option<Vec<u8>>)
        requires
            self.wf(),
            shard < self@.shards.len(),
        ensures
            value_view(r) == read(self@, shard as int, key@, ts),
    {
        let ghost v = self@;
        match self.mutable_shards[shard].get(key, ts) {
            Some(value) => {
                return match value {
                    Some(b) => Some(clone_bytes(b)),
                    None => None,
                };
            },
            None => {},
        }
        let mut i: usize = self.immutable.len();
        proof {
            assert(v.immutable.take(i as int) =~= v.immutable);
        }
        while i > 0
            invariant
                self.wf(),
                v == self@,
                i <= self.immutable.len(),
                visible(v.shards[shard as int], key@, ts).is_none(),
                find_in_batches(v.immutable, key@, ts) == find_in_batches(
                    v.immutable.take(i as int),
                    key@,
                    ts,
                ),
            decreases i,
        {
            i -= 1;
            proof {
                assert(v.immutable.take(i + 1).last() == self.immutable[i as int]@);
                assert(v.immutable.take(i + 1).drop_last() =~= v.immutable.take(i as int));
            }
            match self.immutable[i].find(key, ts) {
                Some(value) => {
                    return value;
                },
                None => {},
            }
        }
        None
    }

    /// Reads `key` at `ts` through the shard that owns the key.
    pub fn get(&self, key: &Vec<u8>, ts: u64) -> (r: Option<Vec<u8>>)
        requires
            self.wf(),
        ensures
            exists|s: int|
                0 <= s < self@.shards.len() && value_view(r) == #[trigger] read(self@, s, key@, ts),
    {
        let shard = shard_of(key, self.mutable_shards.len() as u32);
        self.get_from(shard, key, ts)
    }

    /// Scans `[lower, upper]` at `ts` in every tier: the shards' tables in
    /// their order, then the frozen batches from the newest to the oldest.
    pub fn inner_range(&self, lower: Option<&Vec<u8>>, upper: Option<&Vec<u8>>, ts: u64) -> (r:
        Vec<Vec<Row>>)
        requires
            self.wf(),
        ensures
            scans_of(
                tier_versions(self@),
                bound_view(lower),
                bound_view(upper),
                ts,
                tiers_view(r@),
            ),
            all_ascending(tiers_view(r@)),
    {
        let ghost v = self@;
        let ghost tv = tier_versions(v);
        let ghost lo = bound_view(lower);
        let ghost up = bound_view(upper);
        let mut iters: Vec<Vec<Row>> = Vec::new();
        let n = self.mutable_shards.len();
        let m = self.immutable.len();
        let mut i: usize = 0;
        while i < n
            invariant
                self.wf(),
                v == self@,
                tv == tier_versions(v),
                lo == bound_view(lower),
                up == bound_view(upper),
                n == self.mutable_shards.len(),
                m == self.immutable.len(),
                i <= n,
                iters.len() == i,
                forall|j: int|
                    0 <= j < i ==> is_scan(#[trigger] tv[j], lo, up, ts, tiers_view(iters@)[j]),
            decreases n - i,
        {
            let rows = self.mutable_shards[i].range(lower, upper, ts);
            let ghost before = tiers_view(iters@);
            iters.push(rows);
            proof {
                assert(tv[i as int] == self.mutable_shards[i as int]@);
                assert forall|j: int| 0 <= j < i + 1 implies is_scan(
                    #[trigger] tv[j],
                    lo,
                    up,
                    ts,
                    tiers_view(iters@)[j],
                ) by {
                    if j < i {
                        assert(tiers_view(iters@)[j] == before[j]);
                    }
                }
            }
            i += 1;
        }
        let mut k: usize = 0;
        while k < m
            invariant
                self.wf(),
                v == self@,
                tv == tier_versions(v),
                lo == bound_view(lower),
                up == bound_view(upper),
                n == self.mutable_shards.len(),
                m == self.immutable.len(),
                k <= m,
                iters.len() == n + k,
                forall|j: int|
                    0 <= j < n + k ==> is_scan(#[trigger] tv[j], lo, up, ts, tiers_view(iters@)[j]),
            decreases m - k,
        {
            let rows = self.immutable[m - 1 - k].range(lower, upper, ts);
            let ghost before = tiers_view(iters@);
            iters.push(rows);
            proof {
                assert(tv[n + k] == self.immutable[m - 1 - k]@);
                assert forall|j: int| 0 <= j < n + k + 1 implies is_scan(
                    #[trigger] tv[j],
                    lo,
                    up,
                    ts,
                    tiers_view(iters@)[j],
                ) by {
                    if j < n + k {
                        assert(tiers_view(iters@)[j] == before[j]);
                    }
                }
            }
            k += 1;
        }
        proof {
            assert forall|j: int| 0 <= j < tiers_view(iters@).len() implies ascending(
                #[trigger] tiers_view(iters@)[j],
            ) by {
                assert(is_scan(tv[j], lo, up, ts, tiers_view(iters@)[j]));
            }
        }
        iters
    }

    /// Scans `[lower, upper]` at `ts` across all tiers: each key once, in
    /// ascending order, with the row of the highest tier that holds the key.
    pub fn range(&self, lower: Option<&Vec<u8>>, upper: Option<&Vec<u8>>, ts: u64) -> (r:
        MergeIterator)
        requires
            self.wf(),
        ensures
            exists|scans: Seq<Scan>| #[trigger]
                scans_of(tier_versions(self@), bound_view(lower), bound_view(upper), ts, scans)
                    && is_merge(scans, r.rest()),
    {
        let iters = self.inner_range(lower, upper, ts);
        MergeIterator::new(iters)
    }

    /// Writes one edit through the shard that owns the key.
    pub fn write(&mut self, record_type: RecordType, key: Vec<u8>, ts: u64, value: Option<Vec<u8>>) -> (r:
        Result<(), WriteError>)
        requires
            old(self).wf(),
        ensures
            final(self).wf(),
            final(self).oracle() == old(self).oracle(),
            exists|s: int|
                0 <= s < old(self)@.shards.len() && (final(self)@, r) == #[trigger] write_result(
                    old(self)@,
                    s,
                    RecordView { record_type, key: key@, ts, value: value_view(value) },
                ),
    {
        let shard = shard_of(&key, self.mutable_shards.len() as u32);
        self.write_to(shard, record_type, key, ts, value)
    }

    /// Writes `recs` one after the other, each through the shard that owns its
    /// key, and stops at the first write that fails.
    fn write_each(&mut self, recs: &Vec<Record<Vec<u8>, Vec<u8>>>) -> (r: Result<(), WriteError>)
        requires
            old(self).wf(),
        ensures
            final(self).wf(),
            final(self).oracle() == old(self).oracle(),
            final(self)@.shards.len() == old(self)@.shards.len(),
            exists|route: Seq<int>| #[trigger]
                valid_route(route, recs.len() as int, old(self)@.shards.len() as int) && (
                    final(self)@,
                    r,
                ) == write_all(old(self)@, route, records_view(recs@)),
    {
        let ghost v0 = self@;
        let ghost rv = records_view(recs@);
        let ghost n = v0.shards.len() as int;
        let ghost route: Seq<int> = Seq::empty();
        let mut i: usize = 0;
        proof {
            assert(rv.take(0) =~= Seq::<RecordView>::empty());
        }
        while i < recs.len()
            invariant
                self.wf(),
                self.oracle() == old(self).oracle(),
                v0 == old(self)@,
                rv == records_view(recs@),
                n == v0.shards.len(),
                self@.shards.len() == n,
                i <= recs.len(),
                valid_route(route, i as int, n),
                (self@, Ok::<(), WriteError>(())) == write_all(v0, route, rv.take(i as int)),
            decreases recs.len() - i,
        {
            let ghost before = self@;
            let rec = &recs[i];
            let r = self.write(
                rec.record_type,
                clone_bytes(&rec.key),
                rec.ts,
                clone_value(&rec.value),
            );
            proof {
                assert(rv[i as int] == recs@[i as int]@);
                let s = choose|s: int|
                    0 <= s < before.shards.len() && (self@, r) == #[trigger] write_result(
                        before,
                        s,
                        rv[i as int],
                    );
                lemma_write_keeps_shards(before, s, rv[i as int]);
                let next = route.push(s);
                assert(next.drop_last() =~= route);
                assert(rv.take(i + 1).drop_last() =~= rv.take(i as int));
                assert(rv.take(i + 1).last() == rv[i as int]);
                assert((self@, r) == write_all(v0, next, rv.take(i + 1)));
                if r.is_err() {
                    let rest = (recs.len() - i - 1) as nat;
                    let whole = next + Seq::new(rest, |j: int| 0int);
                    assert(whole.take(i + 1) =~= next);
                    lemma_write_all_stops(v0, whole, rv, i + 1);
                    assert(valid_route(whole, recs.len() as int, n));
                }
                route = next;
            }
            if r.is_err() {
                return r;
            }
            i += 1;
        }
        proof {
            assert(rv.take(recs.len() as int) =~= rv);
        }
        Ok(())
    }

    /// Writes a batch of edits, framed as one batch in the log: a single
    /// edit as a `Full` record, more as `First`, `Middle` and `Last`. Stops at
    /// the first write that fails.
    pub fn write_batch(&mut self, kvs: Vec<(Vec<u8>, u64, Option<Vec<u8>>)>) -> (r: Result<
        (),
        WriteError,
    >)
        requires
            old(self).wf(),
        ensures
            final(self).wf(),
            final(self).oracle() == old(self).oracle(),
            exists|route: Seq<int>| #[trigger]
                valid_route(route, kvs.len() as int, old(self)@.shards.len() as int) && (
                    final(self)@,
                    r,
                ) == write_all(old(self)@, route, batch_records(edits_view(kvs@))),
    {
        let n = kvs.len();
        let mut recs: Vec<Record<Vec<u8>, Vec<u8>>> = Vec::new();
        let mut i: usize = 0;
        while i < n
            invariant
                n == kvs.len(),
                i <= n,
                recs.len() == i,
                forall|j: int|
                    0 <= j < i ==> #[trigger] records_view(recs@)[j] == batch_records(
                        edits_view(kvs@),
                    )[j],
            decreases n - i,
        {
            let record_type = if n == 1 {
                RecordType::Full
            } else if i == 0 {
                RecordType::First
            } else if i == n - 1 {
                RecordType::Last
            } else {
                RecordType::Middle
            };
            let ghost before = records_view(recs@);
            recs.push(
                Record::new(record_type, clone_bytes(&kvs[i].0), kvs[i].1, clone_value(&kvs[i].2)),
            );
            proof {
                assert forall|j: int| 0 <= j < i + 1 implies #[trigger] records_view(recs@)[j]
                    == batch_records(edits_view(kvs@))[j] by {
                    if j < i {
                        assert(records_view(recs@)[j] == before[j]);
                    }
                }
            }
            i += 1;
        }
        proof {
            assert(records_view(recs@) =~= batch_records(edits_view(kvs@)));
        }
        self.write_each(&recs)
    }

    /// Replays the records read from a log, each as an edit on its own.
    pub fn recover(&mut self, records: Vec<Record<Vec<u8>, Vec<u8>>>) -> (r: Result<(), WriteError>)
        requires
            old(self).wf(),
        ensures
            final(self).wf(),
            final(self).oracle() == old(self).oracle(),
            final(self)@.shards.len() == old(self)@.shards.len(),
            exists|route: Seq<int>| #[trigger]
                valid_route(route, records.len() as int, old(self)@.shards.len() as int) && (
                    final(self)@,
                    r,
                ) == write_all(old(self)@, route, as_full(records_view(records@))),
    {
        let mut recs: Vec<Record<Vec<u8>, Vec<u8>>> = Vec::new();
        let mut i: usize = 0;
        while i < records.len()
            invariant
                i <= records.len(),
                recs.len() == i,
                forall|j: int|
                    0 <= j < i ==> #[trigger] records_view(recs@)[j] == as_full(
                        records_view(records@),
                    )[j],
            decreases records.len() - i,
        {
            let ghost before = records_view(recs@);
            let rec = &records[i];
            recs.push(
                Record::new(RecordType::Full, clone_bytes(&rec.key), rec.ts, clone_value(&rec.value)),
            );
            proof {
                assert forall|j: int| 0 <= j < i + 1 implies #[trigger] records_view(recs@)[j]
                    == as_full(records_view(records@))[j] by {
                    if j < i {
                        assert(records_view(recs@)[j] == before[j]);
                    }
                }
            }
            i += 1;
        }
        proof {
            assert(records_view(recs@) =~= as_full(records_view(records@)));
        }
        self.write_each(&recs)
    }

    /// Writes one edit through shard `shard`: appends it to the log, then
    /// inserts it into the shard's table; where the log is full, rotates.
    pub fn write_to(
        &mut self,
        shard: usize,
        record_type: RecordType,
        key: Vec<u8>,
        ts: u64,
        value: Option<Vec<u8>>,
    ) -> (r: Result<(), WriteError>)
        requires
            old(self).wf(),
            shard < old(self)@.shards.len(),
        ensures
            final(self).wf(),
            final(self).oracle() == old(self).oracle(),
            (final(self)@, r) == write_result(
                old(self)@,
                shard as int,
                RecordView { record_type, key: key@, ts, value: value_view(value) },
            ),
    {
        let ghost rec = RecordView { record_type, key: key@, ts, value: value_view(value) };
        let ghost v = self@;
        proof {
            self.wal.lemma_whole();
        }
        let result = self.wal.write(Record::new(record_type, &key, ts, value.as_ref()));
        match result {
            Ok(_) => {
                self.mutable_shards[shard].insert(key, ts, value);
                proof {
                    assert(self@.shards =~= appended(v, shard as int, rec).shards);
                    assert(self@.immutable =~= v.immutable);
                    assert(self@ == appended(v, shard as int, rec));
                }
                Ok(())
            },
            Err(WriteError::MaxSizeExceeded) => {
                let mut fresh = self.wal_manager.create_wal_file();
                match fresh.write(Record::new(record_type, &key, ts, value.as_ref())) {
                    Ok(_) => {},
                    Err(e) => {
                        assert(e == WriteError::MaxSizeExceeded);
                        assert(self@ == v);
                        return Err(e);
                    },
                }
                std::mem::swap(&mut self.wal, &mut fresh);
                self.wal_manager.seal(fresh);
                let mut mem_table = MemTable::new();
                mem_table.insert(key, ts, value);
                std::mem::swap(&mut self.mutable_shards[shard], &mut mem_table);
                match IndexBatch::freeze(mem_table) {
                    Ok(batch) => {
                        self.immutable.push(batch);
                        proof {
                            assert(self@.shards =~= rotated(v, shard as int, rec).shards);
                            assert(self@.immutable =~= rotated(v, shard as int, rec).immutable);
                            assert(self@.log =~= seq![rec]);
                            assert(self@ == rotated(v, shard as int, rec));
                        }
                        Ok(())
                    },
                    Err(e) => {
                        proof {
                            assert(false);
                        }
                        Err(e)
                    },
                }
            },
            Err(e) => {
                assert(self@ == v);
                Err(e)
            },
        }
    }
}

/// What a transaction needs of a store: reads, writes and scans at a
/// timestamp.
pub trait GetWrite {
    /// The store is fit for use.
    spec fn ready(&self) -> bool;

    /// The store as a plain value.
    spec fn state(&self) -> DbView;

    /// Reads `key` at `ts` through the shard that owns the key.
    fn get(&self, key: &Vec<u8>, ts: u64) -> (r: Option<Vec<u8>>)
        requires
            self.ready(),
        ensures
            exists|s: int|
                0 <= s < self.state().shards.len() && value_view(r) == #[trigger] read(
                    self.state(),
                    s,
                    key@,
                    ts,
                ),
    ;

    /// Writes one edit through the shard that owns the key.
    fn write(&mut self, record_type: RecordType, key: Vec<u8>, ts: u64, value: Option<Vec<u8>>) -> (r:
        Result<(), WriteError>)
        requires
            old(self).ready(),
        ensures
            final(self).ready(),
            exists|s: int|
                0 <= s < old(self).state().shards.len() && (final(self).state(), r)
                    == #[trigger] write_result(
                    old(self).state(),
                    s,
                    RecordView { record_type, key: key@, ts, value: value_view(value) },
                ),
    ;

    /// Writes a batch of edits, framed as one batch in the log.
    fn write_batch(&mut self, kvs: Vec<(Vec<u8>, u64, Option<Vec<u8>>)>) -> (r: Result<
        (),
        WriteError,
    >)
        requires
            old(self).ready(),
        ensures
            final(self).ready(),
            exists|route: Seq<int>| #[trigger]
                valid_route(route, kvs.len() as int, old(self).state().shards.len() as int) && (
                    final(self).state(),
                    r,
                ) == write_all(old(self).state(), route, batch_records(edits_view(kvs@))),
    ;

    /// Scans `[lower, upper]` at `ts` in every tier, from the highest
    /// priority down.
    fn inner_range(&self, lower: Option<&Vec<u8>>, upper: Option<&Vec<u8>>, ts: u64) -> (r: Vec<
        Vec<Row>,
    >)
        requires
            self.ready(),
        ensures
            scans_of(
                tier_versions(self.state()),
                bound_view(lower),
                bound_view(upper),
                ts,
                tiers_view(r@),
            ),
            all_ascending(tiers_view(r@)),
    ;
}

impl GetWrite for Db {
    open spec fn ready(&self) -> bool {
        self.wf()
    }

    open spec fn state(&self) -> DbView {
        self@
    }

    fn get(&self, key: &Vec<u8>, ts: u64) -> (r: Option<Vec<u8>>) {
        let r = Db::get(self, key, ts);
        proof {
            let s = choose|s: int|
                0 <= s < self@.shards.len() && value_view(r) == #[trigger] read(self@, s, key@, ts);
            assert(value_view(r) == read(self.state(), s, key@, ts));
        }
        r
    }

    fn write(&mut self, record_type: RecordType, key: Vec<u8>, ts: u64, value: Option<Vec<u8>>) -> (r:
        Result<(), WriteError>) {
        let ghost rec = RecordView { record_type, key: key@, ts, value: value_view(value) };
        let r = Db::write(self, record_type, key, ts, value);
        proof {
            let s = choose|s: int|
                0 <= s < old(self)@.shards.len() && (self@, r) == #[trigger] write_result(
                    old(self)@,
                    s,
                    rec,
                );
            assert((self.state(), r) == write_result(old(self).state(), s, rec));
        }
        r
    }

    fn write_batch(&mut self, kvs: Vec<(Vec<u8>, u64, Option<Vec<u8>>)>) -> (r: Result<
        (),
        WriteError,
    >) {
        let ghost recs = batch_records(edits_view(kvs@));
        let ghost n = kvs.len() as int;
        let r = Db::write_batch(self, kvs);
        proof {
            let route = choose|route: Seq<int>| #[trigger]
                valid_route(route, n, old(self)@.shards.len() as int) && (self@, r) == write_all(
                    old(self)@,
                    route,
                    recs,
                );
            assert(valid_route(route, n, old(self).state().shards.len() as int));
        }
        r
    }

    fn inner_range(&self, lower: Option<&Vec<u8>>, upper: Option<&Vec<u8>>, ts: u64) -> (r: Vec<
        Vec<Row>,
    >) {
        Db::inner_range(self, lower, upper, ts)
    }
}

} // verus!
