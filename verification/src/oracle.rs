//! The oracle: timestamps, live reads and the write-sets of past commits.
use vstd::prelude::*;
use vstd::multiset::Multiset;
use vstd::seq_lib::{to_multiset_build, to_multiset_remove};
use crate::bytes::clone_bytes;
use crate::key::{key_order, KeyOrder};

verus! {

/// Keys as plain values.
pub open spec fn keys_seq(keys: Seq<Vec<u8>>) -> Seq<Seq<u8>> {
    Seq::new(keys.len(), |i: int| keys[i]@)
}

/// Commits as plain values: each a write timestamp with the keys written.
pub open spec fn commits_seq(commits: Seq<(u64, Vec<Vec<u8>>)>) -> Seq<(u64, Seq<Seq<u8>>)> {
    Seq::new(commits.len(), |i: int| (commits[i].0, keys_seq(commits[i].1@)))
}

/// Some commit with a timestamp in `(read_at, write_at]` wrote `key`.
pub open spec fn conflicts(
    commits: Seq<(u64, Seq<Seq<u8>>)>,
    read_at: u64,
    write_at: u64,
    key: Seq<u8>,
) -> bool {
    exists|i: int|
        0 <= i < commits.len() && read_at < (#[trigger] commits[i]).0 <= write_at
            && commits[i].1.contains(key)
}

/// The keys of `write_set`, in its order, that a commit in
/// `(read_at, write_at]` wrote too.
pub open spec fn conflicting_keys(
    commits: Seq<(u64, Seq<Seq<u8>>)>,
    read_at: u64,
    write_at: u64,
    write_set: Seq<Seq<u8>>,
) -> Seq<Seq<u8>> {
    write_set.filter(|k: Seq<u8>| conflicts(commits, read_at, write_at, k))
}

/// `t` is the least of the read timestamps in use.
pub open spec fn is_floor(reads: Multiset<u64>, t: u64) -> bool {
    &&& reads.count(t) > 0
    &&& forall|x: u64| reads.count(x) > 0 ==> t <= x
}

/// The commits that are left once those before `floor` are dropped.
pub open spec fn retained(commits: Seq<(u64, Seq<Seq<u8>>)>, floor: u64) -> Seq<
    (u64, Seq<Seq<u8>>),
> {
    commits.filter(|c: (u64, Seq<Seq<u8>>)| c.0 >= floor)
}

/// The keys on which a commit was refused.
#[derive(Debug)]
pub struct WriteConflict {
    keys: Vec<Vec<u8>>,
}

impl WriteConflict {
    /// The keys, as plain values.
    pub closed spec fn view(&self) -> Seq<Seq<u8>> {
        keys_seq(self.keys@)
    }

    /// Hands over the keys.
    pub fn to_keys(self) -> (keys: Vec<Vec<u8>>)
        ensures
            keys_seq(keys@) == self@,
    {
        self.keys
    }
}

/// Whether `key` is among `keys`.
pub fn contains_key(keys: &Vec<Vec<u8>>, key: &Vec<u8>) -> (r: bool)
    ensures
        r == keys_seq(keys@).contains(key@),
{
    let mut i: usize = 0;
    while i < keys.len()
        invariant
            i <= keys.len(),
            forall|j: int| 0 <= j < i ==> (#[trigger] keys_seq(keys@)[j]) != key@,
        decreases keys.len() - i,
    {
        if key_order(&keys[i], key) == KeyOrder::Equal {
            assert(keys_seq(keys@)[i as int] == key@);
            return true;
        }
        i += 1;
    }
    false
}

/// A local oracle: a counter for timestamps, the read timestamps of the
/// transactions that are open, and the write-sets of those that committed.
#[derive(Debug)]
pub struct LocalOracle {
    now: u64,
    in_read: Vec<u64>,
    committed: Vec<(u64, Vec<Vec<u8>>)>,
}

impl Default for LocalOracle {
    /// An oracle at timestamp zero with no reads and no commits.
    fn default() -> (r: Self)
        ensures
            r.now() == 0,
            r.reads() == Multiset::<u64>::empty(),
            r.commits() == Seq::<(u64, Seq<Seq<u8>>)>::empty(),
    {
        LocalOracle::new()
    }
}

impl LocalOracle {
    /// The current timestamp.
    pub closed spec fn now(&self) -> u64 {
        self.now
    }

    /// The read timestamps of the open transactions, each as often as it was
    /// handed out and not yet given back.
    pub closed spec fn reads(&self) -> Multiset<u64> {
        self.in_read@.to_multiset()
    }

    /// The commits recorded, oldest first.
    pub closed spec fn commits(&self) -> Seq<(u64, Seq<Seq<u8>>)> {
        commits_seq(self.committed@)
    }

    /// An oracle at timestamp zero with no reads and no commits.
    pub fn new() -> (r: Self)
        ensures
            r.now() == 0,
            r.reads() == Multiset::<u64>::empty(),
            r.commits() == Seq::<(u64, Seq<Seq<u8>>)>::empty(),
    {
        let r = LocalOracle { now: 0, in_read: Vec::new(), committed: Vec::new() };
        proof {
            broadcast use vstd::seq_lib::group_to_multiset_ensures;

            assert(r.in_read@.to_multiset() =~= Multiset::<u64>::empty());
            assert(r.commits() =~= Seq::<(u64, Seq<Seq<u8>>)>::empty());
        }
        r
    }

    /// Opens a read at the current timestamp.
    pub fn start_read(&mut self) -> (ts: u64)
        ensures
            ts == old(self).now(),
            final(self).now() == old(self).now(),
            final(self).reads() == old(self).reads().insert(ts),
            final(self).commits() == old(self).commits(),
    {
        let ts = self.now;
        proof {
            to_multiset_build(self.in_read@, ts);
        }
        self.in_read.push(ts);
        ts
    }

    /// Gives back one read at `ts`; does nothing where none is open.
    pub fn read_commit(&mut self, ts: u64)
        ensures
            final(self).now() == old(self).now(),
            final(self).reads() == old(self).reads().remove(ts),
            final(self).commits() == old(self).commits(),
    {
        let mut i: usize = 0;
        while i < self.in_read.len()
            invariant
                i <= self.in_read.len(),
                *self == *old(self),
                forall|j: int| 0 <= j < i ==> self.in_read@[j] != ts,
            decreases self.in_read.len() - i,
        {
            if self.in_read[i] == ts {
                proof {
                    to_multiset_remove(self.in_read@, i as int);
                }
                self.in_read.remove(i);
                return ;
            }
            i += 1;
        }
        proof {
            broadcast use vstd::seq_lib::group_to_multiset_ensures;

            assert(!self.in_read@.contains(ts));
            assert(self.in_read@.to_multiset().count(ts) == 0);
            assert(self.reads().remove(ts) =~= self.reads());
        }
    }

    /// The timestamp at which a write would start: the current one.
    pub fn start_write(&self) -> (ts: u64)
        ensures
            ts == self.now(),
    {
        self.now
    }

    /// Advances the current timestamp by one and returns it.
    pub fn tick(&mut self) -> (ts: u64)
        requires
            old(self).now() < u64::MAX,
        ensures
            ts == old(self).now() + 1,
            final(self).now() == ts,
            final(self).reads() == old(self).reads(),
            final(self).commits() == old(self).commits(),
    {
        self.now = self.now + 1;
        self.now
    }

    /// Drops the commits that are older than every read in use; where no
    /// read is in use, drops nothing.
    pub fn gc(&mut self)
        ensures
            final(self).now() == old(self).now(),
            final(self).reads() == old(self).reads(),
            old(self).reads().len() == 0 ==> final(self).commits() == old(self).commits(),
            forall|t: u64| #[trigger]
                is_floor(old(self).reads(), t) ==> final(self).commits() == retained(
                    old(self).commits(),
                    t,
                ),
    {
        proof {
            broadcast use vstd::seq_lib::group_to_multiset_ensures;

        }
        if self.in_read.len() == 0 {
            return ;
        }
        let mut floor = self.in_read[0];
        let mut i: usize = 1;
        while i < self.in_read.len()
            invariant
                *self == *old(self),
                1 <= i <= self.in_read.len(),
                self.in_read@.contains(floor),
                forall|j: int| 0 <= j < i ==> floor <= self.in_read@[j],
            decreases self.in_read.len() - i,
        {
            if self.in_read[i] < floor {
                floor = self.in_read[i];
            }
            i += 1;
        }
        proof {
            assert forall|x: u64| self.reads().count(x) > 0 implies floor <= x by {
                assert(self.in_read@.contains(x));
                let j = choose|j: int| 0 <= j < self.in_read@.len() && self.in_read@[j] == x;
                assert(floor <= self.in_read@[j]);
            }
            assert(is_floor(self.reads(), floor));
        }
        let ghost all = self.commits();
        let ghost pred = |c: (u64, Seq<Seq<u8>>)| c.0 >= floor;
        let mut k: usize = 0;
        let ghost mut done: int = 0;
        proof {
            assert(all.take(0) =~= Seq::<(u64, Seq<Seq<u8>>)>::empty());
            assert(all.skip(0) =~= all);
            assert(all.take(0).filter(pred) + all.skip(0) =~= all) by {
                reveal(Seq::filter);
            }
        }
        while k < self.committed.len()
            invariant
                self.now == old(self).now,
                self.in_read == old(self).in_read,
                all == old(self).commits(),
                pred == (|c: (u64, Seq<Seq<u8>>)| c.0 >= floor),
                0 <= done <= all.len(),
                k <= self.committed.len(),
                k == all.take(done).filter(pred).len(),
                self.commits() == all.take(done).filter(pred) + all.skip(done),
            decreases all.len() - done,
        {
            let ghost before = self.commits();
            proof {
                assert(before[k as int] == all.skip(done)[0]);
                all.take(done).lemma_filter_push(all[done], pred);
                assert(all.take(done + 1) =~= all.take(done).push(all[done]));
                assert(all.skip(done).skip(1) =~= all.skip(done + 1));
                assert(self.commits()[k as int].0 == self.committed@[k as int].0);
            }
            if self.committed[k].0 < floor {
                self.committed.remove(k);
                proof {
                    assert(self.commits() =~= before.remove(k as int));
                    assert(before.remove(k as int) =~= all.take(done + 1).filter(pred) + all.skip(
                        done + 1,
                    ));
                }
            } else {
                proof {
                    assert(before =~= all.take(done + 1).filter(pred) + all.skip(done + 1));
                }
                k += 1;
            }
            proof {
                done = done + 1;
            }
        }
        proof {
            assert(done == all.len()) by {
                if done < all.len() {
                    assert(self.commits().len() == k + (all.len() - done));
                }
            }
            assert(all.take(done) =~= all);
            assert(all.skip(done) =~= Seq::<(u64, Seq<Seq<u8>>)>::empty());
            assert(self.commits() =~= retained(all, floor));
            assert forall|t: u64| #[trigger] is_floor(old(self).reads(), t) implies t == floor by {}
        }
    }

    /// Whether a commit recorded in `(read_at, write_at]` wrote `key`.
    pub fn is_conflicting(&self, read_at: u64, write_at: u64, key: &Vec<u8>) -> (r: bool)
        ensures
            r == conflicts(self.commits(), read_at, write_at, key@),
    {
        let mut i: usize = 0;
        while i < self.committed.len()
            invariant
                i <= self.committed.len(),
                forall|j: int|
                    0 <= j < i ==> !(read_at < (#[trigger] self.commits()[j]).0 <= write_at
                        && self.commits()[j].1.contains(key@)),
            decreases self.committed.len() - i,
        {
            let ts = self.committed[i].0;
            if read_at < ts && ts <= write_at && contains_key(&self.committed[i].1, key) {
                assert(self.commits()[i as int].1.contains(key@));
                return true;
            }
            i += 1;
        }
        false
    }

    /// Validates a commit that read at `read_at` and writes `write_set` at
    /// `write_at`. Where no commit recorded in `(read_at, write_at]` wrote a
    /// key of `write_set`, records `(write_at, write_set)`. Otherwise changes
    /// nothing and returns the keys of `write_set` that such a commit wrote.
    pub fn write_commit(&mut self, read_at: u64, write_at: u64, write_set: Vec<Vec<u8>>) -> (r:
        Result<(), WriteConflict>)
        ensures
            final(self).now() == old(self).now(),
            final(self).reads() == old(self).reads(),
            match r {
                Ok(_) => {
                    &&& conflicting_keys(
                        old(self).commits(),
                        read_at,
                        write_at,
                        keys_seq(write_set@),
                    ).len() == 0
                    &&& final(self).commits() == old(self).commits().push(
                        (write_at, keys_seq(write_set@)),
                    )
                },
                Err(c) => {
                    &&& c@ == conflicting_keys(
                        old(self).commits(),
                        read_at,
                        write_at,
                        keys_seq(write_set@),
                    )
                    &&& c@.len() > 0
                    &&& final(self).commits() == old(self).commits()
                },
            },
    {
        let ghost ks = keys_seq(write_set@);
        let ghost pred = |k: Seq<u8>| conflicts(self.commits(), read_at, write_at, k);
        let mut keys: Vec<Vec<u8>> = Vec::new();
        let mut i: usize = 0;
        proof {
            assert(ks.take(0) =~= Seq::<Seq<u8>>::empty());
            assert(keys_seq(keys@) =~= ks.take(0).filter(pred));
        }
        while i < write_set.len()
            invariant
                i <= write_set.len(),
                *self == *old(self),
                ks == keys_seq(write_set@),
                pred == (|k: Seq<u8>| conflicts(self.commits(), read_at, write_at, k)),
                keys_seq(keys@) == ks.take(i as int).filter(pred),
            decreases write_set.len() - i,
        {
            let ghost before = keys_seq(keys@);
            proof {
                ks.take(i as int).lemma_filter_push(ks[i as int], pred);
                assert(ks.take(i + 1) =~= ks.take(i as int).push(ks[i as int]));
                assert(ks[i as int] == write_set@[i as int]@);
            }
            if self.is_conflicting(read_at, write_at, &write_set[i]) {
                keys.push(clone_bytes(&write_set[i]));
                proof {
                    assert(keys_seq(keys@) =~= before.push(ks[i as int]));
                }
            }
            i += 1;
        }
        proof {
            assert(ks.take(write_set.len() as int) =~= ks);
        }
        if keys.len() == 0 {
            self.committed.push((write_at, write_set));
            proof {
                assert(self.commits() =~= old(self).commits().push((write_at, ks)));
            }
            Ok(())
        } else {
            Err(WriteConflict { keys })
        }
    }
}

/// Dropping the commits before `floor` changes no validation of a commit
/// that read at or after `floor`.
pub proof fn lemma_gc_keeps_conflicts(
    commits: Seq<(u64, Seq<Seq<u8>>)>,
    floor: u64,
    read_at: u64,
    write_at: u64,
    key: Seq<u8>,
)
    requires
        floor <= read_at,
    ensures
        conflicts(retained(commits, floor), read_at, write_at, key) == conflicts(
            commits,
            read_at,
            write_at,
            key,
        ),
{
    let pred = |c: (u64, Seq<Seq<u8>>)| c.0 >= floor;
    let kept = retained(commits, floor);
    if conflicts(commits, read_at, write_at, key) {
        let i = choose|i: int|
            0 <= i < commits.len() && read_at < (#[trigger] commits[i]).0 <= write_at
                && commits[i].1.contains(key);
        commits.lemma_filter_contains(pred, i);
        let j = choose|j: int| 0 <= j < kept.len() && kept[j] == commits[i];
        assert(read_at < kept[j].0 <= write_at && kept[j].1.contains(key));
    }
    if conflicts(kept, read_at, write_at, key) {
        let j = choose|j: int|
            0 <= j < kept.len() && read_at < (#[trigger] kept[j]).0 <= write_at
                && kept[j].1.contains(key);
        assert(kept.contains(kept[j]));
        commits.lemma_filter_contains_rev(pred, kept[j]);
        let i = choose|i: int| 0 <= i < commits.len() && commits[i] == kept[j];
        assert(read_at < commits[i].0 <= write_at && commits[i].1.contains(key));
    }
}

/// Every key that a refused commit is told of is a key of its own
/// write-set that a commit recorded in `(read_at, write_at]` wrote, and every
/// such key is told.
pub proof fn lemma_conflicting_keys(
    commits: Seq<(u64, Seq<Seq<u8>>)>,
    read_at: u64,
    write_at: u64,
    write_set: Seq<Seq<u8>>,
    key: Seq<u8>,
)
    ensures
        conflicting_keys(commits, read_at, write_at, write_set).contains(key) <==> (
        write_set.contains(key) && conflicts(commits, read_at, write_at, key)),
{
    let pred = |k: Seq<u8>| conflicts(commits, read_at, write_at, k);
    let out = write_set.filter(pred);
    if out.contains(key) {
        write_set.lemma_filter_contains_rev(pred, key);
        let i = choose|i: int| 0 <= i < out.len() && out[i] == key;
        write_set.lemma_filter_pred(pred, i);
    }
    if write_set.contains(key) && conflicts(commits, read_at, write_at, key) {
        let i = choose|i: int| 0 <= i < write_set.len() && write_set[i] == key;
        write_set.lemma_filter_contains(pred, i);
    }
}

/// Two transactions that read at the same timestamp and write disjoint sets
/// of keys do not stand in each other's way: where neither conflicts with
/// the commits recorded so far, the second passes validation after the first
/// has committed.
pub proof fn lemma_disjoint_writes_both_commit(
    commits: Seq<(u64, Seq<Seq<u8>>)>,
    read_at: u64,
    first_at: u64,
    first: Seq<Seq<u8>>,
    second_at: u64,
    second: Seq<Seq<u8>>,
)
    requires
        forall|k: Seq<u8>| !(first.contains(k) && second.contains(k)),
        conflicting_keys(commits, read_at, first_at, first).len() == 0,
        conflicting_keys(commits, read_at, second_at, second).len() == 0,
    ensures
        conflicting_keys(commits.push((first_at, first)), read_at, second_at, second).len() == 0,
{
    let after = commits.push((first_at, first));
    let out = conflicting_keys(after, read_at, second_at, second);
    if out.len() > 0 {
        let k = out[0];
        assert(out.contains(k));
        lemma_conflicting_keys(after, read_at, second_at, second, k);
        let i = choose|i: int|
            0 <= i < after.len() && read_at < (#[trigger] after[i]).0 <= second_at
                && after[i].1.contains(k);
        if i < commits.len() {
            assert(after[i] == commits[i]);
            assert(conflicts(commits, read_at, second_at, k));
            lemma_conflicting_keys(commits, read_at, second_at, second, k);
            assert(conflicting_keys(commits, read_at, second_at, second).contains(k));
        } else {
            assert(after[i] == (first_at, first));
        }
    }
}

/// Of two transactions that read at the same timestamp and write a common
/// key, the one that commits second is refused, and the common key is among
/// the keys it is told of.
pub proof fn lemma_overlapping_writes_conflict(
    commits: Seq<(u64, Seq<Seq<u8>>)>,
    read_at: u64,
    first_at: u64,
    first: Seq<Seq<u8>>,
    second_at: u64,
    second: Seq<Seq<u8>>,
    key: Seq<u8>,
)
    requires
        read_at < first_at <= second_at,
        first.contains(key),
        second.contains(key),
    ensures
        conflicting_keys(commits.push((first_at, first)), read_at, second_at, second).contains(
            key,
        ),
        conflicting_keys(commits.push((first_at, first)), read_at, second_at, second).len() > 0,
{
    let after = commits.push((first_at, first));
    assert(after[commits.len() as int] == (first_at, first));
    assert(conflicts(after, read_at, second_at, key));
    lemma_conflicting_keys(after, read_at, second_at, second, key);
}

} // verus!
