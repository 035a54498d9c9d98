//! The mutable table: the newest tier, ordered by internal key.
use vstd::prelude::*;
use crate::bytes::{clone_bytes, clone_value, value_ref_view, value_view, values_view};
use crate::index::{
    find_visible, is_newest, is_scan, keys_view, lemma_visible_is_newest, lemma_newest_at_visible, lemma_none_visible,
    lemma_scan_of_positions, lemma_versions_insert, lemma_versions_update, lower_bound,
    scan_positions, sorted, versions_of, visible, InternalKey, Scan, Versions,
};
use crate::key::{bound_view, key_order, lemma_version_trichotomy, KeyOrder};
use crate::record::{Record, RecordType, RecordView};
use crate::wal::{parse_log, records_view, recover, WriteError};

verus! {

/// An ordered map from internal key to value or tombstone, together with the
/// largest timestamp ever inserted.
///
/// Internal keys and their values are kept in two columns of equal length, the
/// keys strictly ascending.
#[derive(Debug)]
pub struct MemTable {
    keys: Vec<InternalKey>,
    values: Vec<Option<Vec<u8>>>,
    max_ts: u64,
}

/// What replaying a log has come to: the versions applied, the largest
/// timestamp applied, and the records of the batch that is open, if one is.
pub struct Replay {
    pub versions: Versions,
    pub max_ts: u64,
    pub pending: Option<Seq<RecordView>>,
}

/// The state after the version of `r` is applied.
pub open spec fn applied(versions: Versions, max_ts: u64, r: RecordView) -> (Versions, u64) {
    (
        versions.insert((r.key, r.ts), r.value),
        if r.ts > max_ts {
            r.ts
        } else {
            max_ts
        },
    )
}

/// The state after the versions of `batch` are applied in their order.
pub open spec fn applied_all(versions: Versions, max_ts: u64, batch: Seq<RecordView>) -> (
    Versions,
    u64,
)
    decreases batch.len(),
{
    if batch.len() == 0 {
        (versions, max_ts)
    } else {
        let before = applied_all(versions, max_ts, batch.drop_last());
        applied(before.0, before.1, batch.last())
    }
}

/// Replays one record. A `Full` record is applied at once. A `First` opens a
/// batch, a `Middle` joins the open batch, and a `Last` closes it and applies
/// its records in their order. A `First` while a batch is open, and a
/// `Middle` or `Last` while none is, break the protocol: there is no next
/// state.
pub open spec fn replay_step(state: Replay, r: RecordView) -> Option<Replay> {
    match r.record_type {
        RecordType::Full => {
            let a = applied(state.versions, state.max_ts, r);
            Some(Replay { versions: a.0, max_ts: a.1, pending: state.pending })
        },
        RecordType::First => match state.pending {
            None => Some(Replay { pending: Some(seq![r]), ..state }),
            Some(_) => None,
        },
        RecordType::Middle => match state.pending {
            Some(batch) => Some(Replay { pending: Some(batch.push(r)), ..state }),
            None => None,
        },
        RecordType::Last => match state.pending {
            Some(batch) => {
                let a = applied_all(state.versions, state.max_ts, batch.push(r));
                Some(Replay { versions: a.0, max_ts: a.1, pending: None })
            },
            None => None,
        },
    }
}

/// Replays `recs` from `state`; nothing where a record breaks the protocol.
pub open spec fn replay(state: Replay, recs: Seq<RecordView>) -> Option<Replay>
    decreases recs.len(),
{
    if recs.len() == 0 {
        Some(state)
    } else {
        match replay(state, recs.drop_last()) {
            Some(before) => replay_step(before, recs.last()),
            None => None,
        }
    }
}

/// The state from which the replay into an empty table starts.
pub open spec fn start_of_replay() -> Replay {
    Replay {
        versions: Map::<(Seq<u8>, u64), Option<Seq<u8>>>::empty(),
        max_ts: 0,
        pending: None,
    }
}

/// What a lookup returns, as a plain value.
pub open spec fn lookup_view(r: Option<Option<&Vec<u8>>>) -> Option<Option<Seq<u8>>> {
    match r {
        Some(v) => Some(value_ref_view(v)),
        None => None,
    }
}

/// The rows that a scan returned, as plain values.
pub open spec fn rows_view(rows: Seq<(Vec<u8>, Option<Vec<u8>>)>) -> Scan {
    Seq::new(rows.len(), |i: int| (rows[i].0@, value_view(rows[i].1)))
}

impl Default for MemTable {
    /// An empty table.
    fn default() -> (r: Self)
        ensures
            r.wf(),
            r@ == Map::<(Seq<u8>, u64), Option<Seq<u8>>>::empty(),
            r.spec_max_ts() == 0,
    {
        MemTable::new()
    }
}

/// A replay that has broken the protocol after `k` records stays broken.
pub proof fn lemma_replay_stops(state: Replay, recs: Seq<RecordView>, k: int)
    requires
        0 <= k <= recs.len(),
        replay(state, recs.take(k)).is_none(),
    ensures
        replay(state, recs).is_none(),
    decreases recs.len() - k,
{
    if k == recs.len() {
        assert(recs.take(k) =~= recs);
    } else {
        assert(recs.drop_last().take(k) =~= recs.take(k));
        lemma_replay_stops(state, recs.drop_last(), k);
    }
}

impl MemTable {
    /// The two columns have equal length and the keys ascend strictly.
    pub closed spec fn wf(&self) -> bool {
        &&& self.keys.len() == self.values.len()
        &&& sorted(keys_view(self.keys@))
    }

    /// The versions held.
    pub closed spec fn view(&self) -> Versions {
        versions_of(keys_view(self.keys@), values_view(self.values@))
    }

    /// The internal keys held, in ascending order.
    pub closed spec fn key_seq(&self) -> Seq<(Seq<u8>, u64)> {
        keys_view(self.keys@)
    }

    /// The values held, each beside its internal key.
    pub closed spec fn value_seq(&self) -> Seq<Option<Seq<u8>>> {
        values_view(self.values@)
    }

    /// The largest timestamp inserted so far; zero for an empty table.
    pub closed spec fn spec_max_ts(&self) -> u64 {
        self.max_ts
    }

    /// The columns determine the versions, and are sorted and of equal length.
    pub proof fn lemma_columns(&self)
        requires
            self.wf(),
        ensures
            sorted(self.key_seq()),
            self.key_seq().len() == self.value_seq().len(),
            self@ == versions_of(self.key_seq(), self.value_seq()),
    {
    }

    /// An empty table.
    pub fn new() -> (r: Self)
        ensures
            r.wf(),
            r@ == Map::<(Seq<u8>, u64), Option<Seq<u8>>>::empty(),
            r.spec_max_ts() == 0,
            r.key_seq().len() == 0,
    {
        let r = MemTable { keys: Vec::new(), values: Vec::new(), max_ts: 0 };
        assert(r@ =~= Map::<(Seq<u8>, u64), Option<Seq<u8>>>::empty());
        r
    }

    /// The number of versions held.
    pub fn len(&self) -> (n: usize)
        requires
            self.wf(),
        ensures
            n == self.key_seq().len(),
    {
        self.keys.len()
    }

    /// The largest timestamp inserted so far.
    pub fn max_ts(&self) -> (t: u64)
        ensures
            t == self.spec_max_ts(),
    {
        self.max_ts
    }

    /// Writes the version `(key, ts)`, replacing what stood there, and raises
    /// the largest timestamp to `ts` where `ts` is larger.
    pub fn insert(&mut self, key: Vec<u8>, ts: u64, value: Option<Vec<u8>>)
        requires
            old(self).wf(),
        ensures
            final(self).wf(),
            final(self)@ == old(self)@.insert((key@, ts), value_view(value)),
            final(self).spec_max_ts() == if ts > old(self).spec_max_ts() {
                ts
            } else {
                old(self).spec_max_ts()
            },
    {
        let ghost kv = keys_view(self.keys@);
        let ghost vals = values_view(self.values@);
        let ghost v = value_view(value);
        let idx = lower_bound(&self.keys, &key, ts);
        let mut present = false;
        if idx < self.keys.len() {
            proof {
                assert(kv[idx as int] == self.keys@[idx as int]@);
                lemma_version_trichotomy(kv[idx as int].0, kv[idx as int].1, key@, ts);
            }
            present = self.keys[idx].ts == ts && key_order(&self.keys[idx].key, &key)
                == KeyOrder::Equal;
        }
        if present {
            self.values[idx] = value;
            proof {
                lemma_versions_update(kv, vals, idx as int, v);
                assert(values_view(self.values@) =~= vals.update(idx as int, v));
            }
        } else {
            self.keys.insert(idx, InternalKey { key, ts });
            self.values.insert(idx, value);
            proof {
                lemma_versions_insert(kv, vals, idx as int, key@, ts, v);
                assert(keys_view(self.keys@) =~= kv.insert(idx as int, (key@, ts)));
                assert(values_view(self.values@) =~= vals.insert(idx as int, v));
            }
        }
        if ts > self.max_ts {
            self.max_ts = ts;
        }
    }

    /// The table as the state from which a replay starts: no batch is open.
    pub open spec fn replay_start(&self) -> Replay {
        Replay { versions: self@, max_ts: self.spec_max_ts(), pending: None }
    }

    /// Replays the records of a log into the table. Records of a batch are
    /// applied when the batch closes; a batch that is still open at the end
    /// is dropped. At the first record that breaks the batch protocol the
    /// replay stops with an error, and the table holds what was applied
    /// before.
    pub fn recover(&mut self, records: &Vec<Record<Vec<u8>, Vec<u8>>>) -> (r: Result<
        (),
        WriteError,
    >)
        requires
            old(self).wf(),
        ensures
            final(self).wf(),
            match r {
                Ok(_) => match replay(old(self).replay_start(), records_view(records@)) {
                    Some(end) => final(self)@ == end.versions && final(self).spec_max_ts()
                        == end.max_ts,
                    None => false,
                },
                Err(e) => e == WriteError::Internal && exists|k: int|
                    0 < k <= records.len() && #[trigger] replay(
                        old(self).replay_start(),
                        records_view(records@).take(k),
                    ).is_none() && (match replay(
                        old(self).replay_start(),
                        records_view(records@).take(k - 1),
                    ) {
                        Some(end) => final(self)@ == end.versions && final(self).spec_max_ts()
                            == end.max_ts,
                        None => false,
                    }),
            },
    {
        let ghost start = self.replay_start();
        let ghost rv = records_view(records@);
        let mut batch: Vec<usize> = Vec::new();
        let mut open = false;
        let ghost mut pending: Option<Seq<RecordView>> = None;
        let mut i: usize = 0;
        proof {
            assert(rv.take(0) =~= Seq::<RecordView>::empty());
        }
        while i < records.len()
            invariant
                self.wf(),
                rv == records_view(records@),
                start == old(self).replay_start(),
                i <= records.len(),
                open == pending.is_some(),
                !open ==> batch.len() == 0,
                pending matches Some(p) ==> p.len() == batch.len() && forall|j: int|
                    0 <= j < batch.len() ==> 0 <= #[trigger] batch[j] < i && p[j] == rv[batch[j] as int],
                replay(start, rv.take(i as int)) == Some(
                    Replay { versions: self@, max_ts: self.spec_max_ts(), pending },
                ),
            decreases records.len() - i,
        {
            let rec = &records[i];
            let ghost state = Replay { versions: self@, max_ts: self.spec_max_ts(), pending };
            proof {
                assert(rv[i as int] == records@[i as int]@);
                assert(rv.take(i + 1).drop_last() =~= rv.take(i as int));
                assert(rv.take(i + 1).last() == rv[i as int]);
                assert(replay(start, rv.take(i + 1)) == replay_step(state, rv[i as int]));
            }
            match rec.record_type {
                RecordType::Full => {
                    self.insert(clone_bytes(&rec.key), rec.ts, clone_value(&rec.value));
                },
                RecordType::First => {
                    if open {
                        proof {
                            assert(replay(start, rv.take(i + 1)).is_none());
                            assert(replay(start, rv.take(i + 1 - 1)) == Some(state));
                        }
                        return Err(WriteError::Internal);
                    }
                    batch.push(i);
                    open = true;
                    proof {
                        pending = Some(seq![rv[i as int]]);
                    }
                },
                RecordType::Middle => {
                    if !open {
                        proof {
                            assert(replay(start, rv.take(i + 1)).is_none());
                            assert(replay(start, rv.take(i + 1 - 1)) == Some(state));
                        }
                        return Err(WriteError::Internal);
                    }
                    batch.push(i);
                    proof {
                        pending = Some(pending.unwrap().push(rv[i as int]));
                    }
                },
                RecordType::Last => {
                    if !open {
                        proof {
                            assert(replay(start, rv.take(i + 1)).is_none());
                            assert(replay(start, rv.take(i + 1 - 1)) == Some(state));
                        }
                        return Err(WriteError::Internal);
                    }
                    batch.push(i);
                    let ghost whole = pending.unwrap().push(rv[i as int]);
                    let ghost v0 = self@;
                    let ghost m0 = self.spec_max_ts();
                    let mut j: usize = 0;
                    proof {
                        assert(whole.take(0) =~= Seq::<RecordView>::empty());
                    }
                    while j < batch.len()
                        invariant
                            self.wf(),
                            rv == records_view(records@),
                            j <= batch.len(),
                            whole.len() == batch.len(),
                            forall|x: int|
                                0 <= x < batch.len() ==> 0 <= #[trigger] batch[x] < records.len()
                                    && whole[x] == rv[batch[x] as int],
                            (self@, self.spec_max_ts()) == applied_all(v0, m0, whole.take(j as int)),
                        decreases batch.len() - j,
                    {
                        let item = &records[batch[j]];
                        proof {
                            assert(rv[batch[j as int] as int] == records@[batch[j as int] as int]@);
                            assert(whole.take(j + 1).drop_last() =~= whole.take(j as int));
                            assert(whole.take(j + 1).last() == whole[j as int]);
                        }
                        self.insert(clone_bytes(&item.key), item.ts, clone_value(&item.value));
                        j += 1;
                    }
                    proof {
                        assert(whole.take(batch.len() as int) =~= whole);
                        pending = None;
                    }
                    batch.clear();
                    open = false;
                },
            }
            i += 1;
        }
        proof {
            assert(rv.take(records.len() as int) =~= rv);
        }
        Ok(())
    }

    /// The table that replaying the log `file` gives: its records are read up
    /// to the first frame that fails, and replayed into an empty table.
    pub fn from_wal(file: &[u8]) -> (r: Result<MemTable, WriteError>)
        ensures
            match r {
                Ok(table) => table.wf() && (match replay(start_of_replay(), parse_log(file@)) {
                    Some(end) => table@ == end.versions && table.spec_max_ts() == end.max_ts,
                    None => false,
                }),
                Err(e) => e == WriteError::Internal && replay(
                    start_of_replay(),
                    parse_log(file@),
                ).is_none(),
            },
    {
        let mut table = MemTable::new();
        let records = recover(file);
        let ghost start = table.replay_start();
        match table.recover(&records) {
            Ok(_) => Ok(table),
            Err(e) => {
                proof {
                    let rv = records_view(records@);
                    let k = choose|k: int|
                        0 < k <= records.len() && #[trigger] replay(start, rv.take(k)).is_none();
                    lemma_replay_stops(start, rv, k);
                }
                Err(e)
            },
        }
    }

    /// Takes the table apart into its two columns: the internal keys in
    /// ascending order and the values beside them.
    pub fn into_columns(self) -> (r: (Vec<InternalKey>, Vec<Option<Vec<u8>>>))
        requires
            self.wf(),
        ensures
            keys_view(r.0@) == self.key_seq(),
            values_view(r.1@) == self.value_seq(),
    {
        (self.keys, self.values)
    }

    /// Reads `key` at `ts`: the newest version at or before `ts`, which may be
    /// a tombstone, or nothing where the key has no such version.
    pub fn get(&self, key: &Vec<u8>, ts: u64) -> (r: Option<Option<&Vec<u8>>>)
        requires
            self.wf(),
        ensures
            lookup_view(r) == visible(self@, key@, ts),
            match r {
                Some(v) => exists|t: u64| #[trigger]
                    is_newest(self@, key@, ts, t) && self@[(key@, t)] == value_ref_view(v),
                None => forall|t: u64| t <= ts ==> !self@.dom().contains((key@, t)),
            },
    {
        proof {
            lemma_visible_is_newest(self@, key@, ts);
        }
        let ghost kv = keys_view(self.keys@);
        let ghost vals = values_view(self.values@);
        match find_visible(&self.keys, key, ts) {
            Some(i) => {
                proof {
                    lemma_newest_at_visible(kv, vals, key@, ts, i as int);
                }
                Some(self.values[i].as_ref())
            },
            None => {
                proof {
                    lemma_none_visible(kv, vals, key@, ts);
                }
                None
            },
        }
    }

    /// Scans the keys within `[lower, upper]` at `ts`: each such key that has a
    /// version at or before `ts`, once, in ascending order, with the newest
    /// such version.
    pub fn range(&self, lower: Option<&Vec<u8>>, upper: Option<&Vec<u8>>, ts: u64) -> (rows: Vec<
        (Vec<u8>, Option<Vec<u8>>),
    >)
        requires
            self.wf(),
        ensures
            is_scan(self@, bound_view(lower), bound_view(upper), ts, rows_view(rows@)),
    {
        let ghost kv = keys_view(self.keys@);
        let ghost vals = values_view(self.values@);
        let pos = scan_positions(&self.keys, lower, upper, ts);
        let mut rows: Vec<(Vec<u8>, Option<Vec<u8>>)> = Vec::new();
        let mut a: usize = 0;
        while a < pos.len()
            invariant
                self.wf(),
                kv == keys_view(self.keys@),
                vals == values_view(self.values@),
                0 <= a <= pos.len(),
                rows.len() == a,
                forall|b: int| 0 <= b < pos.len() ==> 0 <= #[trigger] pos[b] < kv.len(),
                forall|b: int|
                    0 <= b < a ==> #[trigger] rows_view(rows@)[b] == (
                        kv[pos[b] as int].0,
                        vals[pos[b] as int],
                    ),
            decreases pos.len() - a,
        {
            let i = pos[a];
            let ghost before = rows_view(rows@);
            let row = (clone_bytes(&self.keys[i].key), clone_value(&self.values[i]));
            rows.push(row);
            proof {
                assert forall|b: int| 0 <= b < a + 1 implies #[trigger] rows_view(rows@)[b] == (
                    kv[pos[b] as int].0,
                    vals[pos[b] as int],
                ) by {
                    if b < a {
                        assert(rows_view(rows@)[b] == before[b]);
                    }
                }
            }
            a += 1;
        }
        proof {
            lemma_scan_of_positions(
                kv,
                vals,
                bound_view(lower),
                bound_view(upper),
                ts,
                pos@,
                rows_view(rows@),
            );
        }
        rows
    }
}

} // verus!
