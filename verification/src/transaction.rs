//! Transactions: a local buffer of edits over a snapshot of the store.
use vstd::prelude::*;
use crate::bytes::{clone_bytes, clone_value, value_view};
use crate::db::{
    batch_records, edits_view, read, scans_of, tier_versions, valid_route, write_all, Db, DbView,
};
use crate::index::{
    ascending, has_visible, is_newest, is_scan, lemma_newest_is_visible, visible, Scan, Versions,
};
use crate::iterator::{is_merge, tiers_view, EIterator, MergeIterator};
use crate::key::{bound_view, in_bounds};
use crate::mem_table::{rows_view, MemTable};
use crate::oracle::{conflicting_keys, keys_seq};
use crate::wal::WriteError;

verus! {

/// Why a commit failed.
#[derive(Debug)]
pub enum CommitError {
    /// Commits made since the transaction began wrote these keys of its
    /// write-set.
    WriteConflict(Vec<Vec<u8>>),
    /// The edits could not all be written.
    WriteError(WriteError),
}

/// The edits of a buffer, as a map from key to value or tombstone. The buffer
/// keeps each edit as the version of its key at timestamp zero.
pub open spec fn edits_of(buffer: Versions) -> Map<Seq<u8>, Option<Seq<u8>>> {
    Map::new(|k: Seq<u8>| buffer.dom().contains((k, 0u64)), |k: Seq<u8>| buffer[(k, 0u64)])
}

/// Every version of the buffer is at timestamp zero.
pub open spec fn flat(buffer: Versions) -> bool {
    forall|kt: (Seq<u8>, u64)| #[trigger] buffer.dom().contains(kt) ==> kt.1 == 0
}

/// `rows` lists the edits of `m` whose key lies within `[lower, upper]`,
/// ascending by key.
pub open spec fn lists(
    m: Map<Seq<u8>, Option<Seq<u8>>>,
    lower: Option<Seq<u8>>,
    upper: Option<Seq<u8>>,
    rows: Scan,
) -> bool {
    &&& ascending(rows)
    &&& forall|i: int|
        0 <= i < rows.len() ==> in_bounds((#[trigger] rows[i]).0, lower, upper) && m.dom().contains(
            rows[i].0,
        ) && m[rows[i].0] == rows[i].1
    &&& forall|k: Seq<u8>|
        in_bounds(k, lower, upper) && #[trigger] m.dom().contains(k) ==> exists|i: int|
            0 <= i < rows.len() && (#[trigger] rows[i]).0 == k
}

/// `out` is what a transaction with the pending edits `local` scans over
/// `[lower, upper]` in the store `v` at `ts`: the merge of `mine`, the
/// pending edits within the bounds, with `scans`, the scans of the store's
/// tiers; the pending edits have the highest priority.
pub open spec fn is_txn_scan(
    local: Map<Seq<u8>, Option<Seq<u8>>>,
    v: DbView,
    lower: Option<Seq<u8>>,
    upper: Option<Seq<u8>>,
    ts: u64,
    mine: Scan,
    scans: Seq<Scan>,
    out: Scan,
) -> bool {
    &&& lists(local, lower, upper, mine)
    &&& scans_of(tier_versions(v), lower, upper, ts, scans)
    &&& is_merge(seq![mine] + scans, out)
}

/// What a commit does and returns. Without pending edits it changes nothing
/// and succeeds. Otherwise it takes the next timestamp as its write
/// timestamp; where commits recorded after `read_at` wrote keys of `rows`, it
/// fails with those keys and changes nothing else; else it records its
/// write-set and writes its edits as one batch at the write timestamp.
pub open spec fn commit_outcome(
    before: DbView,
    commits_before: Seq<(u64, Seq<Seq<u8>>)>,
    now_before: u64,
    after: DbView,
    commits_after: Seq<(u64, Seq<Seq<u8>>)>,
    now_after: u64,
    read_at: u64,
    rows: Scan,
    r: Result<(), CommitError>,
) -> bool {
    if rows.len() == 0 {
        r.is_ok() && after == before && commits_after == commits_before && now_after == now_before
    } else {
        let write_at = (now_before + 1) as u64;
        let conflict = conflicting_keys(commits_before, read_at, write_at, keys_of(rows));
        &&& now_after == write_at
        &&& if conflict.len() > 0 {
            &&& r matches Err(CommitError::WriteConflict(k)) && keys_seq(k@) == conflict
            &&& after == before
            &&& commits_after == commits_before
        } else {
            &&& commits_after == commits_before.push((write_at, keys_of(rows)))
            &&& exists|route: Seq<int>| #[trigger]
                valid_route(route, rows.len() as int, before.shards.len() as int) && write_all(
                    before,
                    route,
                    batch_records(stamped(rows, write_at)),
                ) == (
                    after,
                    match r {
                        Ok(_) => Ok::<(), WriteError>(()),
                        Err(CommitError::WriteError(e)) => Err(e),
                        Err(CommitError::WriteConflict(_)) => Ok(()),
                    },
                ) && !(r matches Err(CommitError::WriteConflict(_)))
        }
    }
}

/// The keys of `rows`, in their order.
pub open spec fn keys_of(rows: Scan) -> Seq<Seq<u8>> {
    Seq::new(rows.len(), |i: int| rows[i].0)
}

/// The edits `rows`, each stamped with `ts`.
pub open spec fn stamped(rows: Scan, ts: u64) -> Seq<(Seq<u8>, u64, Option<Seq<u8>>)> {
    Seq::new(rows.len(), |i: int| (rows[i].0, ts, rows[i].1))
}

/// A transaction: the timestamp it reads at, the timestamp it committed at
/// once it has one, and its pending edits, ordered by key.
#[derive(Debug)]
pub struct Transaction {
    read_at: u64,
    write_at: Option<u64>,
    local: MemTable,
}

impl Transaction {
    /// The buffer is well formed and flat.
    pub closed spec fn wf(&self) -> bool {
        self.local.wf() && flat(self.local@)
    }

    /// The timestamp that the transaction reads at.
    pub closed spec fn read_at(&self) -> u64 {
        self.read_at
    }

    /// The pending edits: for each key the value to write, or a tombstone.
    pub closed spec fn local(&self) -> Map<Seq<u8>, Option<Seq<u8>>> {
        edits_of(self.local@)
    }

    /// A transaction that reads at the oracle's current timestamp.
    pub fn new(db: &mut Db) -> (txn: Self)
        requires
            old(db).wf(),
        ensures
            final(db).wf(),
            final(db)@ == old(db)@,
            txn.wf(),
            txn.read_at() == old(db).oracle().now(),
            txn.local() == Map::<Seq<u8>, Option<Seq<u8>>>::empty(),
            final(db).oracle().now() == old(db).oracle().now(),
            final(db).oracle().reads() == old(db).oracle().reads().insert(txn.read_at()),
            final(db).oracle().commits() == old(db).oracle().commits(),
    {
        let read_at = db.start_read();
        let txn = Transaction { read_at, write_at: None, local: MemTable::new() };
        proof {
            assert(txn.local() =~= Map::<Seq<u8>, Option<Seq<u8>>>::empty());
        }
        txn
    }

    /// The timestamp that the transaction reads at.
    pub fn read_ts(&self) -> (ts: u64)
        ensures
            ts == self.read_at(),
    {
        self.read_at
    }

    /// Reads `key`: the pending edit where there is one, a tombstone reading
    /// as absent; else what the store shows at the read timestamp.
    pub fn get(&self, db: &Db, key: &Vec<u8>) -> (r: Option<Vec<u8>>)
        requires
            self.wf(),
            db.wf(),
        ensures
            self.local().dom().contains(key@) ==> value_view(r) == self.local()[key@],
            !self.local().dom().contains(key@) ==> exists|s: int|
                0 <= s < db@.shards.len() && value_view(r) == #[trigger] read(
                    db@,
                    s,
                    key@,
                    self.read_at(),
                ),
    {
        proof {
            lemma_flat_visible(self.local@, key@);
        }
        match self.local.get(key, 0) {
            Some(value) => match value {
                Some(b) => Some(clone_bytes(b)),
                None => None,
            },
            None => {
                let r = db.get(key, self.read_at);
                proof {
                    let s = choose|s: int|
                        0 <= s < db@.shards.len() && value_view(r) == #[trigger] read(
                            db@,
                            s,
                            key@,
                            self.read_at,
                        );
                    assert(value_view(r) == read(db@, s, key@, self.read_at()));
                }
                r
            },
        }
    }

    /// Scans `[lower, upper]`: the pending edits within the bounds merged
    /// with the snapshot of the store at the read timestamp; a pending edit
    /// stands before what the store holds for its key.
    pub fn range(&self, db: &Db, lower: Option<&Vec<u8>>, upper: Option<&Vec<u8>>) -> (r:
        MergeIterator)
        requires
            self.wf(),
            db.wf(),
        ensures
            exists|mine: Scan, scans: Seq<Scan>| #[trigger]
                is_txn_scan(
                    self.local(),
                    db@,
                    bound_view(lower),
                    bound_view(upper),
                    self.read_at(),
                    mine,
                    scans,
                    r.rest(),
                ),
    {
        let mine = self.local.range(lower, upper, 0);
        let ghost mv = rows_view(mine@);
        proof {
            lemma_flat_scan(self.local@, bound_view(lower), bound_view(upper), mv);
        }
        let mut tiers = db.inner_range(lower, upper, self.read_at);
        let ghost scans = tiers_view(tiers@);
        tiers.insert(0, mine);
        proof {
            assert(tiers_view(tiers@) =~= seq![mv] + scans);
            assert forall|i: int| 0 <= i < tiers_view(tiers@).len() implies ascending(
                #[trigger] tiers_view(tiers@)[i],
            ) by {
                if i > 0 {
                    assert(tiers_view(tiers@)[i] == scans[i - 1]);
                }
            }
        }
        let r = MergeIterator::new(tiers);
        proof {
            assert(is_txn_scan(
                self.local(),
                db@,
                bound_view(lower),
                bound_view(upper),
                self.read_at(),
                mv,
                scans,
                r.rest(),
            ));
        }
        r
    }

    /// Commits: gives back the read timestamp and, where edits are pending,
    /// takes a write timestamp, has the oracle validate the write-set and
    /// writes the edits as one batch.
    pub fn commit(self, db: &mut Db) -> (r: Result<(), CommitError>)
        requires
            self.wf(),
            old(db).wf(),
            old(db).oracle().now() < u64::MAX,
        ensures
            final(db).wf(),
            final(db).oracle().reads() == old(db).oracle().reads().remove(self.read_at()),
            exists|rows: Scan| #[trigger]
                lists(self.local(), None, None, rows) && commit_outcome(
                    old(db)@,
                    old(db).oracle().commits(),
                    old(db).oracle().now(),
                    final(db)@,
                    final(db).oracle().commits(),
                    final(db).oracle().now(),
                    self.read_at(),
                    rows,
                    r,
                ),
    {
        let mut txn = self;
        let read_at = txn.read_at;
        db.read_commit(read_at);
        let rows = txn.local.range(None, None, 0);
        let ghost rv = rows_view(rows@);
        let ghost v0 = old(db)@;
        let ghost c0 = old(db).oracle().commits();
        let ghost n0 = old(db).oracle().now();
        proof {
            assert(bound_view(None) == None::<Seq<u8>>);
            lemma_flat_scan(self.local@, None, None, rv);
            assert(lists(self.local(), None, None, rv));
        }
        if rows.len() == 0 {
            proof {
                assert(commit_outcome(
                    v0,
                    c0,
                    n0,
                    db@,
                    db.oracle().commits(),
                    db.oracle().now(),
                    read_at,
                    rv,
                    Ok(()),
                ));
            }
            return Ok(());
        }
        let write_at = db.tick();
        txn.write_at = Some(write_at);
        let mut keys: Vec<Vec<u8>> = Vec::new();
        let mut kvs: Vec<(Vec<u8>, u64, Option<Vec<u8>>)> = Vec::new();
        let mut i: usize = 0;
        while i < rows.len()
            invariant
                rv == rows_view(rows@),
                i <= rows.len(),
                keys.len() == i,
                kvs.len() == i,
                forall|j: int| 0 <= j < i ==> #[trigger] keys_seq(keys@)[j] == keys_of(rv)[j],
                forall|j: int|
                    0 <= j < i ==> #[trigger] edits_view(kvs@)[j] == stamped(rv, write_at)[j],
            decreases rows.len() - i,
        {
            let ghost keys_before = keys_seq(keys@);
            let ghost kvs_before = edits_view(kvs@);
            keys.push(clone_bytes(&rows[i].0));
            kvs.push((clone_bytes(&rows[i].0), write_at, clone_value(&rows[i].1)));
            proof {
                assert forall|j: int| 0 <= j < i + 1 implies #[trigger] keys_seq(keys@)[j]
                    == keys_of(rv)[j] by {
                    if j < i {
                        assert(keys_seq(keys@)[j] == keys_before[j]);
                    }
                }
                assert forall|j: int| 0 <= j < i + 1 implies #[trigger] edits_view(kvs@)[j]
                    == stamped(rv, write_at)[j] by {
                    if j < i {
                        assert(edits_view(kvs@)[j] == kvs_before[j]);
                    }
                }
            }
            i += 1;
        }
        proof {
            assert(keys_seq(keys@) =~= keys_of(rv));
            assert(edits_view(kvs@) =~= stamped(rv, write_at));
        }
        match db.write_commit(read_at, write_at, keys) {
            Ok(_) => {},
            Err(c) => {
                let r = Err(CommitError::WriteConflict(c.to_keys()));
                proof {
                    assert(commit_outcome(
                        v0,
                        c0,
                        n0,
                        db@,
                        db.oracle().commits(),
                        db.oracle().now(),
                        read_at,
                        rv,
                        r,
                    ));
                }
                return r;
            },
        }
        let ghost c1 = db.oracle().commits();
        let w = db.write_batch(kvs);
        let r = match w {
            Ok(_) => Ok(()),
            Err(e) => Err(CommitError::WriteError(e)),
        };
        proof {
            let route = choose|route: Seq<int>| #[trigger]
                valid_route(route, rv.len() as int, v0.shards.len() as int) && (db@, w)
                    == write_all(v0, route, batch_records(stamped(rv, write_at)));
            assert(valid_route(route, rv.len() as int, v0.shards.len() as int));
            assert(db.oracle().commits() == c1);
            assert(commit_outcome(
                v0,
                c0,
                n0,
                db@,
                db.oracle().commits(),
                db.oracle().now(),
                read_at,
                rv,
                r,
            ));
        }
        r
    }

    /// Buffers the write of `value` to `key`.
    pub fn set(&mut self, key: Vec<u8>, value: Vec<u8>)
        requires
            old(self).wf(),
        ensures
            final(self).wf(),
            final(self).read_at() == old(self).read_at(),
            final(self).local() == old(self).local().insert(key@, Some(value@)),
    {
        self.entry(key, Some(value))
    }

    /// Buffers the removal of `key`.
    pub fn remove(&mut self, key: Vec<u8>)
        requires
            old(self).wf(),
        ensures
            final(self).wf(),
            final(self).read_at() == old(self).read_at(),
            final(self).local() == old(self).local().insert(key@, None),
    {
        self.entry(key, None)
    }

    /// Buffers an edit of `key`, replacing the edit that was pending for it.
    pub fn entry(&mut self, key: Vec<u8>, value: Option<Vec<u8>>)
        requires
            old(self).wf(),
        ensures
            final(self).wf(),
            final(self).read_at() == old(self).read_at(),
            final(self).local() == old(self).local().insert(key@, value_view(value)),
    {
        self.local.insert(key, 0, value);
        proof {
            assert(final(self).local() =~= old(self).local().insert(key@, value_view(value)));
        }
    }
}

/// The scan of a flat buffer at timestamp zero lists its edits.
pub proof fn lemma_flat_scan(
    buffer: Versions,
    lower: Option<Seq<u8>>,
    upper: Option<Seq<u8>>,
    rows: Scan,
)
    requires
        flat(buffer),
        is_scan(buffer, lower, upper, 0, rows),
    ensures
        lists(edits_of(buffer), lower, upper, rows),
{
    let m = edits_of(buffer);
    assert forall|i: int| 0 <= i < rows.len() implies in_bounds(
        (#[trigger] rows[i]).0,
        lower,
        upper,
    ) && m.dom().contains(rows[i].0) && m[rows[i].0] == rows[i].1 by {
        lemma_flat_visible(buffer, rows[i].0);
    }
    assert forall|k: Seq<u8>| in_bounds(k, lower, upper) && #[trigger] m.dom().contains(
        k,
    ) implies exists|i: int| 0 <= i < rows.len() && (#[trigger] rows[i]).0 == k by {
        lemma_flat_visible(buffer, k);
        assert(has_visible(buffer, k, 0));
    }
}

/// In a flat buffer a key reads, at any timestamp, as its edit.
pub proof fn lemma_flat_visible(buffer: Versions, key: Seq<u8>)
    requires
        flat(buffer),
    ensures
        visible(buffer, key, 0) == if edits_of(buffer).dom().contains(key) {
            Some(edits_of(buffer)[key])
        } else {
            None
        },
        has_visible(buffer, key, 0) == edits_of(buffer).dom().contains(key),
{
    if buffer.dom().contains((key, 0u64)) {
        assert(is_newest(buffer, key, 0, 0));
        lemma_newest_is_visible(buffer, key, 0, 0);
    } else {
        if has_visible(buffer, key, 0) {
            let t = choose|t: u64| t <= 0 && #[trigger] buffer.dom().contains((key, t));
            assert(t == 0);
        }
    }
}

} // verus!
