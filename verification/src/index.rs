//! Sorted sequences of internal keys and the lookups that every tier shares.
//!
//! Both the mutable table and a frozen batch keep their internal keys in one
//! strictly ascending sequence. A position in that sequence stands for a
//! version; what the version holds is kept beside it by the owner.
use vstd::prelude::*;
use crate::key::{
    bound_view, in_bounds, key_le, key_lt, key_order, lemma_key_le_lt, lemma_key_lt_irreflexive,
    lemma_key_trichotomy, lemma_version_lt_transitive, lemma_version_trichotomy, version_lt,
    within_bounds, KeyOrder,
};

verus! {

/// A user key together with the timestamp of one of its versions.
#[derive(Debug)]
pub struct InternalKey {
    pub key: Vec<u8>,
    pub ts: u64,
}

impl View for InternalKey {
    type V = (Seq<u8>, u64);

    open spec fn view(&self) -> (Seq<u8>, u64) {
        (self.key@, self.ts)
    }
}

impl Clone for InternalKey {
    fn clone(&self) -> (r: Self)
        ensures
            r@ == self@,
    {
        InternalKey { key: self.key.clone(), ts: self.ts }
    }
}

/// The internal keys of a vector, as plain values.
pub open spec fn keys_view(keys: Seq<InternalKey>) -> Seq<(Seq<u8>, u64)> {
    Seq::new(keys.len(), |i: int| keys[i]@)
}

/// Internal keys in strictly ascending order.
pub open spec fn sorted(keys: Seq<(Seq<u8>, u64)>) -> bool {
    forall|i: int, j: int|
        0 <= i < j < keys.len() ==> version_lt(
            #[trigger] keys[i].0,
            keys[i].1,
            #[trigger] keys[j].0,
            keys[j].1,
        )
}

/// Position `idx` parts `keys` into those below `(key, ts)` and the rest.
pub open spec fn is_lower_bound(keys: Seq<(Seq<u8>, u64)>, key: Seq<u8>, ts: u64, idx: int) -> bool {
    &&& 0 <= idx <= keys.len()
    &&& forall|i: int| 0 <= i < idx ==> version_lt((#[trigger] keys[i]).0, keys[i].1, key, ts)
    &&& forall|i: int| idx <= i < keys.len() ==> !version_lt((#[trigger] keys[i]).0, keys[i].1, key, ts)
}

/// Compares two internal keys: user key ascending, then timestamp descending.
pub fn version_before(k1: &Vec<u8>, t1: u64, k2: &Vec<u8>, t2: u64) -> (r: bool)
    ensures
        r == version_lt(k1@, t1, k2@, t2),
{
    proof {
        lemma_key_trichotomy(k1@, k2@);
    }
    match key_order(k1, k2) {
        KeyOrder::Less => true,
        KeyOrder::Equal => t1 > t2,
        KeyOrder::Greater => false,
    }
}

/// Binary search for the first position whose internal key is not below `(key, ts)`.
pub fn lower_bound(keys: &Vec<InternalKey>, key: &Vec<u8>, ts: u64) -> (idx: usize)
    requires
        sorted(keys_view(keys@)),
    ensures
        is_lower_bound(keys_view(keys@), key@, ts, idx as int),
{
    let ghost kv = keys_view(keys@);
    let mut lo: usize = 0;
    let mut hi: usize = keys.len();
    while lo < hi
        invariant
            kv == keys_view(keys@),
            sorted(kv),
            0 <= lo <= hi <= keys.len(),
            forall|i: int| 0 <= i < lo ==> version_lt((#[trigger] kv[i]).0, kv[i].1, key@, ts),
            forall|i: int| hi <= i < kv.len() ==> !version_lt((#[trigger] kv[i]).0, kv[i].1, key@, ts),
        decreases hi - lo,
    {
        let mid: usize = lo + (hi - lo) / 2;
        let below = version_before(&keys[mid].key, keys[mid].ts, key, ts);
        proof {
            assert(kv[mid as int] == keys@[mid as int]@);
        }
        if below {
            proof {
                assert forall|i: int| 0 <= i < mid + 1 implies version_lt(
                    (#[trigger] kv[i]).0,
                    kv[i].1,
                    key@,
                    ts,
                ) by {
                    if i < mid {
                        lemma_version_lt_transitive(
                            kv[i].0,
                            kv[i].1,
                            kv[mid as int].0,
                            kv[mid as int].1,
                            key@,
                            ts,
                        );
                    }
                }
            }
            lo = mid + 1;
        } else {
            proof {
                assert forall|i: int| mid <= i < kv.len() implies !version_lt(
                    (#[trigger] kv[i]).0,
                    kv[i].1,
                    key@,
                    ts,
                ) by {
                    if i > mid && version_lt(kv[i].0, kv[i].1, key@, ts) {
                        lemma_version_lt_transitive(
                            kv[mid as int].0,
                            kv[mid as int].1,
                            kv[i].0,
                            kv[i].1,
                            key@,
                            ts,
                        );
                    }
                }
            }
            hi = mid;
        }
    }
    lo
}

/// The versions that a tier holds: for each internal key, a value or a tombstone.
pub type Versions = Map<(Seq<u8>, u64), Option<Seq<u8>>>;

/// `t` is the newest timestamp at or before `ts` at which `key` has a version in `m`.
pub open spec fn is_newest(m: Versions, key: Seq<u8>, ts: u64, t: u64) -> bool {
    &&& t <= ts
    &&& m.dom().contains((key, t))
    &&& forall|t2: u64| t2 <= ts && #[trigger] m.dom().contains((key, t2)) ==> t2 <= t
}

/// `key` has some version in `m` at or before `ts`.
pub open spec fn has_visible(m: Versions, key: Seq<u8>, ts: u64) -> bool {
    exists|t: u64| t <= ts && #[trigger] m.dom().contains((key, t))
}

/// The timestamp of the newest version of `key` in `m` at or before `ts`.
pub open spec fn newest_ts(m: Versions, key: Seq<u8>, ts: u64) -> u64 {
    choose|t: u64| is_newest(m, key, ts, t)
}

/// What a read of `key` at `ts` observes in `m`: nothing where the key has no
/// version at or before `ts`, else the newest such version, which may be a
/// tombstone.
pub open spec fn visible(m: Versions, key: Seq<u8>, ts: u64) -> Option<Option<Seq<u8>>> {
    if has_visible(m, key, ts) {
        Some(m[(key, newest_ts(m, key, ts))])
    } else {
        None
    }
}

/// A key with a version at or before `ts` has a newest one.
pub proof fn lemma_newest_exists(m: Versions, key: Seq<u8>, ts: u64)
    requires
        has_visible(m, key, ts),
    ensures
        is_newest(m, key, ts, newest_ts(m, key, ts)),
    decreases ts,
{
    if m.dom().contains((key, ts)) {
        assert(is_newest(m, key, ts, ts));
    } else {
        let t = choose|t: u64| t <= ts && #[trigger] m.dom().contains((key, t));
        assert(t < ts);
        let below: u64 = (ts - 1) as u64;
        assert(t <= below && m.dom().contains((key, t)));
        lemma_newest_exists(m, key, below);
        assert(is_newest(m, key, ts, newest_ts(m, key, below)));
    }
}

/// The newest version is the one that a read observes.
pub proof fn lemma_newest_is_visible(m: Versions, key: Seq<u8>, ts: u64, t: u64)
    requires
        is_newest(m, key, ts, t),
    ensures
        has_visible(m, key, ts),
        newest_ts(m, key, ts) == t,
        visible(m, key, ts) == Some(m[(key, t)]),
{
    assert(has_visible(m, key, ts));
    lemma_newest_exists(m, key, ts);
}

/// In a sorted sequence an internal key stands at one position only.
pub proof fn lemma_sorted_unique(kv: Seq<(Seq<u8>, u64)>, i: int, j: int)
    requires
        sorted(kv),
        0 <= i < kv.len(),
        0 <= j < kv.len(),
        kv[i] == kv[j],
    ensures
        i == j,
{
    lemma_version_trichotomy(kv[i].0, kv[i].1, kv[j].0, kv[j].1);
    if i < j {
        assert(version_lt(kv[i].0, kv[i].1, kv[j].0, kv[j].1));
    } else if j < i {
        assert(version_lt(kv[j].0, kv[j].1, kv[i].0, kv[i].1));
    }
}

/// Where `kt` stands in `kv`.
pub open spec fn position_of(kv: Seq<(Seq<u8>, u64)>, kt: (Seq<u8>, u64)) -> int {
    choose|i: int| 0 <= i < kv.len() && kv[i] == kt
}

/// The versions held by a sequence of internal keys with their values beside them.
pub open spec fn versions_of(kv: Seq<(Seq<u8>, u64)>, vals: Seq<Option<Seq<u8>>>) -> Versions {
    Map::new(
        |kt: (Seq<u8>, u64)| exists|i: int| 0 <= i < kv.len() && #[trigger] kv[i] == kt,
        |kt: (Seq<u8>, u64)| vals[position_of(kv, kt)],
    )
}

/// An internal key in the map stands at a position of the sequence.
pub proof fn lemma_position_of(kv: Seq<(Seq<u8>, u64)>, vals: Seq<Option<Seq<u8>>>, kt: (Seq<u8>, u64))
    requires
        versions_of(kv, vals).dom().contains(kt),
    ensures
        0 <= position_of(kv, kt) < kv.len(),
        kv[position_of(kv, kt)] == kt,
        versions_of(kv, vals)[kt] == vals[position_of(kv, kt)],
{
    let w = choose|i: int| 0 <= i < kv.len() && #[trigger] kv[i] == kt;
    assert(0 <= w < kv.len() && kv[w] == kt);
}

/// The version at position `i` is in the map, with the value beside it.
pub proof fn lemma_versions_at(kv: Seq<(Seq<u8>, u64)>, vals: Seq<Option<Seq<u8>>>, i: int)
    requires
        sorted(kv),
        0 <= i < kv.len(),
    ensures
        versions_of(kv, vals).dom().contains(kv[i]),
        versions_of(kv, vals)[kv[i]] == vals[i],
        position_of(kv, kv[i]) == i,
{
    let p = position_of(kv, kv[i]);
    assert(0 <= p < kv.len() && kv[p] == kv[i]);
    lemma_sorted_unique(kv, p, i);
}

/// Replacing the value at a position overwrites that version.
pub proof fn lemma_versions_update(
    kv: Seq<(Seq<u8>, u64)>,
    vals: Seq<Option<Seq<u8>>>,
    i: int,
    v: Option<Seq<u8>>,
)
    requires
        sorted(kv),
        0 <= i < kv.len(),
        vals.len() == kv.len(),
    ensures
        versions_of(kv, vals.update(i, v)) == versions_of(kv, vals).insert(kv[i], v),
{
    let a = versions_of(kv, vals.update(i, v));
    let b = versions_of(kv, vals).insert(kv[i], v);
    assert forall|kt: (Seq<u8>, u64)| a.dom().contains(kt) implies #[trigger] b.dom().contains(kt)
        && a[kt] == b[kt] by {
        lemma_position_of(kv, vals.update(i, v), kt);
        let p = position_of(kv, kt);
        lemma_versions_at(kv, vals, p);
        if kt == kv[i] {
            lemma_sorted_unique(kv, p, i);
        }
        assert(a[kt] == vals.update(i, v)[p]);
    }
    assert forall|kt: (Seq<u8>, u64)| b.dom().contains(kt) implies #[trigger] a.dom().contains(kt) by {
        if kt == kv[i] {
            lemma_versions_at(kv, vals.update(i, v), i);
        }
    }
    assert(a =~= b);
}

/// Inserting a new internal key at its lower bound keeps the order and adds
/// exactly that version.
pub proof fn lemma_versions_insert(
    kv: Seq<(Seq<u8>, u64)>,
    vals: Seq<Option<Seq<u8>>>,
    idx: int,
    key: Seq<u8>,
    ts: u64,
    v: Option<Seq<u8>>,
)
    requires
        sorted(kv),
        vals.len() == kv.len(),
        is_lower_bound(kv, key, ts, idx),
        idx < kv.len() ==> kv[idx] != (key, ts),
    ensures
        sorted(kv.insert(idx, (key, ts))),
        versions_of(kv.insert(idx, (key, ts)), vals.insert(idx, v)) == versions_of(kv, vals).insert(
            (key, ts),
            v,
        ),
{
    let kv2 = kv.insert(idx, (key, ts));
    let vals2 = vals.insert(idx, v);
    assert forall|i: int| idx <= i < kv.len() implies version_lt(
        key,
        ts,
        (#[trigger] kv[i]).0,
        kv[i].1,
    ) by {
        lemma_version_trichotomy(kv[idx].0, kv[idx].1, key, ts);
        assert(version_lt(key, ts, kv[idx].0, kv[idx].1));
        if i > idx {
            lemma_version_lt_transitive(key, ts, kv[idx].0, kv[idx].1, kv[i].0, kv[i].1);
        }
    }
    assert forall|i: int, j: int| 0 <= i < j < kv2.len() implies version_lt(
        #[trigger] kv2[i].0,
        kv2[i].1,
        #[trigger] kv2[j].0,
        kv2[j].1,
    ) by {
        let oi = if i < idx { i } else { i - 1 };
        let oj = if j < idx { j } else { j - 1 };
        if i != idx && j != idx {
            assert(kv2[i] == kv[oi] && kv2[j] == kv[oj]);
        } else if i == idx {
            assert(kv2[j] == kv[oj]);
        } else {
            assert(kv2[i] == kv[oi]);
        }
    }
    let a = versions_of(kv2, vals2);
    let b = versions_of(kv, vals).insert((key, ts), v);
    assert forall|kt: (Seq<u8>, u64)| a.dom().contains(kt) implies #[trigger] b.dom().contains(kt)
        && a[kt] == b[kt] by {
        lemma_position_of(kv2, vals2, kt);
        let p = position_of(kv2, kt);
        assert(a[kt] == vals2[p]);
        if p < idx {
            assert(kv2[p] == kv[p]);
            lemma_versions_at(kv, vals, p);
            lemma_version_trichotomy(kv[p].0, kv[p].1, key, ts);
        } else if p > idx {
            assert(kv2[p] == kv[p - 1]);
            lemma_versions_at(kv, vals, p - 1);
            lemma_version_trichotomy(key, ts, kv[p - 1].0, kv[p - 1].1);
        }
    }
    assert forall|kt: (Seq<u8>, u64)| b.dom().contains(kt) implies #[trigger] a.dom().contains(kt) by {
        if kt == (key, ts) {
            assert(kv2[idx] == kt);
        } else {
            lemma_position_of(kv, vals, kt);
            let p = position_of(kv, kt);
            if p < idx {
                assert(kv2[p] == kt);
            } else {
                assert(kv2[p + 1] == kt);
            }
        }
    }
    assert(a =~= b);
}

/// Position `i` holds the newest version of `key` at or before `ts`.
pub open spec fn is_newest_at(kv: Seq<(Seq<u8>, u64)>, key: Seq<u8>, ts: u64, i: int) -> bool {
    &&& 0 <= i < kv.len()
    &&& kv[i].0 == key
    &&& kv[i].1 <= ts
    &&& forall|j: int|
        0 <= j < kv.len() && (#[trigger] kv[j]).0 == key && kv[j].1 <= ts ==> kv[j].1 <= kv[i].1
}

/// No position holds a version of `key` at or before `ts`.
pub open spec fn none_visible(kv: Seq<(Seq<u8>, u64)>, key: Seq<u8>, ts: u64) -> bool {
    forall|j: int| 0 <= j < kv.len() ==> !((#[trigger] kv[j]).0 == key && kv[j].1 <= ts)
}

/// The newest position is what a read of the map observes.
pub proof fn lemma_newest_at_visible(
    kv: Seq<(Seq<u8>, u64)>,
    vals: Seq<Option<Seq<u8>>>,
    key: Seq<u8>,
    ts: u64,
    i: int,
)
    requires
        sorted(kv),
        is_newest_at(kv, key, ts, i),
    ensures
        visible(versions_of(kv, vals), key, ts) == Some(vals[i]),
        is_newest(versions_of(kv, vals), key, ts, kv[i].1),
{
    let m = versions_of(kv, vals);
    lemma_versions_at(kv, vals, i);
    assert(kv[i] == (key, kv[i].1));
    assert forall|t2: u64| t2 <= ts && #[trigger] m.dom().contains((key, t2)) implies t2
        <= kv[i].1 by {
        lemma_position_of(kv, vals, (key, t2));
        let p = position_of(kv, (key, t2));
        assert(kv[p].0 == key && kv[p].1 == t2);
    }
    lemma_newest_is_visible(m, key, ts, kv[i].1);
}

/// Where no position qualifies, a read of the map observes nothing.
pub proof fn lemma_none_visible(
    kv: Seq<(Seq<u8>, u64)>,
    vals: Seq<Option<Seq<u8>>>,
    key: Seq<u8>,
    ts: u64,
)
    requires
        none_visible(kv, key, ts),
    ensures
        visible(versions_of(kv, vals), key, ts) == None::<Option<Seq<u8>>>,
{
    let m = versions_of(kv, vals);
    if has_visible(m, key, ts) {
        let t = choose|t: u64| t <= ts && #[trigger] m.dom().contains((key, t));
        lemma_position_of(kv, vals, (key, t));
        let p = position_of(kv, (key, t));
        assert(kv[p].0 == key && kv[p].1 == t);
    }
}

/// Finds the position of the newest version of `key` at or before `ts`.
pub fn find_visible(keys: &Vec<InternalKey>, key: &Vec<u8>, ts: u64) -> (r: Option<usize>)
    requires
        sorted(keys_view(keys@)),
    ensures
        match r {
            Some(i) => is_newest_at(keys_view(keys@), key@, ts, i as int),
            None => none_visible(keys_view(keys@), key@, ts),
        },
{
    let ghost kv = keys_view(keys@);
    let idx = lower_bound(keys, key, ts);
    if idx < keys.len() {
        let same = key_order(&keys[idx].key, key);
        proof {
            assert(kv[idx as int] == keys@[idx as int]@);
            lemma_key_trichotomy(kv[idx as int].0, key@);
            lemma_key_lt_irreflexive(key@);
        }
        match same {
            KeyOrder::Equal => {
                proof {
                    assert forall|j: int|
                        0 <= j < kv.len() && (#[trigger] kv[j]).0 == key@ && kv[j].1
                            <= ts implies kv[j].1 <= kv[idx as int].1 by {
                        if j > idx {
                            assert(version_lt(kv[idx as int].0, kv[idx as int].1, kv[j].0, kv[j].1));
                        }
                    }
                }
                Some(idx)
            },
            _ => {
                proof {
                    assert(key_lt(key@, kv[idx as int].0));
                    assert forall|j: int| 0 <= j < kv.len() implies !((#[trigger] kv[j]).0 == key@
                        && kv[j].1 <= ts) by {
                        if j > idx {
                            assert(version_lt(kv[idx as int].0, kv[idx as int].1, kv[j].0, kv[j].1));
                            lemma_key_le_lt(key@, kv[idx as int].0, kv[j].0);
                        }
                    }
                }
                None
            },
        }
    } else {
        proof {
            lemma_key_lt_irreflexive(key@);
        }
        None
    }
}

/// Position `i` is emitted by a scan of `[lower, upper]` at `ts`: its key is
/// within the bounds, its timestamp is at or before `ts`, and the position
/// before it does not hold a version of the same key at or before `ts`.
pub open spec fn emits(
    kv: Seq<(Seq<u8>, u64)>,
    lower: Option<Seq<u8>>,
    upper: Option<Seq<u8>>,
    ts: u64,
    i: int,
) -> bool {
    &&& 0 <= i < kv.len()
    &&& in_bounds(kv[i].0, lower, upper)
    &&& kv[i].1 <= ts
    &&& (i == 0 || kv[i - 1].0 != kv[i].0 || kv[i - 1].1 > ts)
}

/// `out` lists, in ascending order, exactly the positions that a scan emits.
pub open spec fn is_scan_positions(
    kv: Seq<(Seq<u8>, u64)>,
    lower: Option<Seq<u8>>,
    upper: Option<Seq<u8>>,
    ts: u64,
    out: Seq<usize>,
) -> bool {
    &&& forall|a: int, b: int| 0 <= a < b < out.len() ==> #[trigger] out[a] < #[trigger] out[b]
    &&& forall|a: int| 0 <= a < out.len() ==> emits(kv, lower, upper, ts, #[trigger] out[a] as int)
    &&& forall|i: int| #[trigger]
        emits(kv, lower, upper, ts, i) ==> exists|a: int| 0 <= a < out.len() && #[trigger] out[a] == i
}

/// In a sorted sequence the user keys ascend, not strictly.
pub proof fn lemma_sorted_keys(kv: Seq<(Seq<u8>, u64)>, i: int, j: int)
    requires
        sorted(kv),
        0 <= i <= j < kv.len(),
    ensures
        key_le(kv[i].0, kv[j].0),
        kv[i].0 == kv[j].0 && i < j ==> kv[i].1 > kv[j].1,
{
    lemma_key_lt_irreflexive(kv[i].0);
    if i < j {
        assert(version_lt(kv[i].0, kv[i].1, kv[j].0, kv[j].1));
    }
}

/// An emitted position holds the newest visible version of its key.
pub proof fn lemma_emits_newest(
    kv: Seq<(Seq<u8>, u64)>,
    lower: Option<Seq<u8>>,
    upper: Option<Seq<u8>>,
    ts: u64,
    i: int,
)
    requires
        sorted(kv),
        emits(kv, lower, upper, ts, i),
    ensures
        is_newest_at(kv, kv[i].0, ts, i),
{
    let key = kv[i].0;
    assert forall|j: int|
        0 <= j < kv.len() && (#[trigger] kv[j]).0 == key && kv[j].1 <= ts implies kv[j].1
        <= kv[i].1 by {
        if j > i {
            lemma_sorted_keys(kv, i, j);
        } else if j < i {
            lemma_sorted_keys(kv, j, i - 1);
            lemma_sorted_keys(kv, i - 1, i);
            lemma_key_trichotomy(kv[j].0, kv[i - 1].0);
            if kv[i - 1].0 != key {
                lemma_key_le_lt(kv[j].0, kv[i - 1].0, kv[i].0);
                lemma_key_lt_irreflexive(key);
            }
        }
    }
}

/// The newest visible version of a key within the bounds is emitted.
pub proof fn lemma_newest_emits(
    kv: Seq<(Seq<u8>, u64)>,
    lower: Option<Seq<u8>>,
    upper: Option<Seq<u8>>,
    ts: u64,
    i: int,
)
    requires
        sorted(kv),
        0 <= i < kv.len(),
        is_newest_at(kv, kv[i].0, ts, i),
        in_bounds(kv[i].0, lower, upper),
    ensures
        emits(kv, lower, upper, ts, i),
{
    if i > 0 && kv[i - 1].0 == kv[i].0 {
        lemma_sorted_keys(kv, i - 1, i);
    }
}

/// Lists the positions of the versions that a scan of `[lower, upper]` at `ts` emits.
pub fn scan_positions(
    keys: &Vec<InternalKey>,
    lower: Option<&Vec<u8>>,
    upper: Option<&Vec<u8>>,
    ts: u64,
) -> (out: Vec<usize>)
    requires
        sorted(keys_view(keys@)),
    ensures
        is_scan_positions(keys_view(keys@), bound_view(lower), bound_view(upper), ts, out@),
{
    let ghost kv = keys_view(keys@);
    let ghost lo = bound_view(lower);
    let ghost up = bound_view(upper);
    let n = keys.len();
    let start: usize = match lower {
        Some(l) => lower_bound(keys, l, u64::MAX),
        None => 0,
    };
    proof {
        assert forall|j: int| 0 <= j < start implies !in_bounds((#[trigger] kv[j]).0, lo, up) by {
            let l = lower.unwrap()@;
            assert(version_lt(kv[j].0, kv[j].1, l, u64::MAX));
            lemma_key_trichotomy(kv[j].0, l);
        }
    }
    let mut out: Vec<usize> = Vec::new();
    let mut i: usize = start;
    let mut past = false;
    while i < n && !past
        invariant
            n == keys.len(),
            kv == keys_view(keys@),
            lo == bound_view(lower),
            up == bound_view(upper),
            sorted(kv),
            start <= i <= n,
            forall|j: int| 0 <= j < start ==> !in_bounds((#[trigger] kv[j]).0, lo, up),
            past ==> forall|j: int| i <= j < n ==> !in_bounds((#[trigger] kv[j]).0, lo, up),
            forall|a: int, b: int| 0 <= a < b < out.len() ==> #[trigger] out[a] < #[trigger] out[b],
            forall|a: int| 0 <= a < out.len() ==> (#[trigger] out[a]) < i,
            forall|a: int| 0 <= a < out.len() ==> emits(kv, lo, up, ts, #[trigger] out[a] as int),
            forall|j: int|
                0 <= j < i && #[trigger] emits(kv, lo, up, ts, j) ==> exists|a: int|
                    0 <= a < out.len() && #[trigger] out[a] == j,
        decreases n - i, (if past { 0int } else { 1int }),
    {
        proof {
            assert(kv[i as int] == keys@[i as int]@);
            if i > 0 {
                assert(kv[i - 1] == keys@[i - 1]@);
            }
        }
        let over = match upper {
            Some(u) => key_order(&keys[i].key, u) == KeyOrder::Greater,
            None => false,
        };
        if over {
            proof {
                let u = upper.unwrap()@;
                assert forall|j: int| i <= j < n implies !in_bounds((#[trigger] kv[j]).0, lo, up) by {
                    lemma_sorted_keys(kv, i as int, j);
                    lemma_key_le_lt(u, kv[i as int].0, kv[j].0);
                    lemma_key_trichotomy(u, kv[j].0);
                }
            }
            past = true;
        } else {
            let first = i == 0 || keys[i - 1].ts > ts || key_order(&keys[i - 1].key, &keys[i].key)
                != KeyOrder::Equal;
            if first && keys[i].ts <= ts && within_bounds(&keys[i].key, lower, upper) {
                let ghost before = out@;
                out.push(i);
                proof {
                    assert(emits(kv, lo, up, ts, i as int));
                    assert forall|j: int| 0 <= j < i + 1 && #[trigger] emits(kv, lo, up, ts, j) implies exists|
                        a: int,
                    |
                        0 <= a < out.len() && #[trigger] out[a] == j by {
                        if j < i {
                            let a = choose|a: int| 0 <= a < before.len() && #[trigger] before[a] == j;
                            assert(out@[a] == j);
                        } else {
                            assert(out@[out.len() - 1] == j);
                        }
                    }
                }
            } else {
                proof {
                    assert(!emits(kv, lo, up, ts, i as int));
                }
            }
            i += 1;
        }
    }
    proof {
        assert forall|j: int| #[trigger] emits(kv, lo, up, ts, j) implies exists|a: int|
            0 <= a < out.len() && #[trigger] out[a] == j by {
            if j >= i {
                assert(!in_bounds(kv[j].0, lo, up));
            }
        }
    }
    out
}

/// What a scan emits: user keys, each with the value or tombstone observed.
pub type Scan = Seq<(Seq<u8>, Option<Seq<u8>>)>;

/// The keys of `out` ascend strictly, so that none occurs twice.
pub open spec fn ascending(out: Scan) -> bool {
    forall|a: int, b: int| 0 <= a < b < out.len() ==> key_lt((#[trigger] out[a]).0, (#[trigger] out[b]).0)
}

/// `out` is the scan of `m` over `[lower, upper]` at `ts`: in ascending key
/// order, each key within the bounds that has a version at or before `ts`,
/// once, with what a read of that key at `ts` observes.
pub open spec fn is_scan(
    m: Versions,
    lower: Option<Seq<u8>>,
    upper: Option<Seq<u8>>,
    ts: u64,
    out: Scan,
) -> bool {
    &&& ascending(out)
    &&& forall|a: int|
        0 <= a < out.len() ==> in_bounds((#[trigger] out[a]).0, lower, upper) && visible(
            m,
            out[a].0,
            ts,
        ) == Some(out[a].1)
    &&& forall|k: Seq<u8>|
        in_bounds(k, lower, upper) && #[trigger] has_visible(m, k, ts) ==> exists|a: int|
            0 <= a < out.len() && (#[trigger] out[a]).0 == k
}

/// The versions at the emitted positions make up the scan of the map.
pub proof fn lemma_scan_of_positions(
    kv: Seq<(Seq<u8>, u64)>,
    vals: Seq<Option<Seq<u8>>>,
    lower: Option<Seq<u8>>,
    upper: Option<Seq<u8>>,
    ts: u64,
    pos: Seq<usize>,
    out: Scan,
)
    requires
        sorted(kv),
        vals.len() == kv.len(),
        is_scan_positions(kv, lower, upper, ts, pos),
        out.len() == pos.len(),
        forall|a: int|
            0 <= a < out.len() ==> #[trigger] out[a] == (kv[pos[a] as int].0, vals[pos[a] as int]),
    ensures
        is_scan(versions_of(kv, vals), lower, upper, ts, out),
{
    let m = versions_of(kv, vals);
    assert forall|a: int, b: int| 0 <= a < b < out.len() implies key_lt(
        (#[trigger] out[a]).0,
        (#[trigger] out[b]).0,
    ) by {
        let i = pos[a] as int;
        let j = pos[b] as int;
        assert(emits(kv, lower, upper, ts, i));
        assert(emits(kv, lower, upper, ts, j));
        lemma_sorted_keys(kv, i, j);
        if kv[i].0 == kv[j].0 {
            lemma_emits_newest(kv, lower, upper, ts, j);
            assert(kv[i].1 <= kv[j].1);
        }
    }
    assert forall|a: int| 0 <= a < out.len() implies in_bounds((#[trigger] out[a]).0, lower, upper)
        && visible(m, out[a].0, ts) == Some(out[a].1) by {
        let i = pos[a] as int;
        assert(emits(kv, lower, upper, ts, i));
        lemma_emits_newest(kv, lower, upper, ts, i);
        lemma_newest_at_visible(kv, vals, kv[i].0, ts, i);
    }
    assert forall|k: Seq<u8>| in_bounds(k, lower, upper) && #[trigger] has_visible(m, k, ts) implies exists|
        a: int,
    |
        0 <= a < out.len() && (#[trigger] out[a]).0 == k by {
        lemma_newest_exists(m, k, ts);
        let t = newest_ts(m, k, ts);
        lemma_position_of(kv, vals, (k, t));
        let p = position_of(kv, (k, t));
        assert forall|j: int|
            0 <= j < kv.len() && (#[trigger] kv[j]).0 == k && kv[j].1 <= ts implies kv[j].1
            <= kv[p].1 by {
            lemma_versions_at(kv, vals, j);
            assert(kv[j] == (k, kv[j].1));
        }
        lemma_newest_emits(kv, lower, upper, ts, p);
        let a = choose|a: int| 0 <= a < pos.len() && #[trigger] pos[a] == p;
        assert(out[a].0 == k);
    }
}

/// What a read observes is a version written at or before the read
/// timestamp, and the newest of those.
pub proof fn lemma_visible_is_newest(m: Versions, key: Seq<u8>, ts: u64)
    ensures
        match visible(m, key, ts) {
            Some(v) => exists|t: u64| #[trigger] is_newest(m, key, ts, t) && m[(key, t)] == v,
            None => forall|t: u64| t <= ts ==> !m.dom().contains((key, t)),
        },
{
    if has_visible(m, key, ts) {
        lemma_newest_exists(m, key, ts);
    } else {
        assert forall|t: u64| t <= ts implies !m.dom().contains((key, t)) by {
            if m.dom().contains((key, t)) {
                assert(has_visible(m, key, ts));
            }
        }
    }
}

/// A version written at `t` is what every read of its key at `ts >= t`
/// observes, as long as the key has no version after `t` and up to `ts`.
pub proof fn lemma_written_is_visible(m: Versions, key: Seq<u8>, t: u64, v: Option<Seq<u8>>, ts: u64)
    requires
        t <= ts,
        forall|t2: u64| t < t2 <= ts ==> !m.dom().contains((key, t2)),
    ensures
        visible(m.insert((key, t), v), key, ts) == Some(v),
{
    let after = m.insert((key, t), v);
    assert(after.dom().contains((key, t)));
    assert forall|t2: u64| t2 <= ts && #[trigger] after.dom().contains((key, t2)) implies t2
        <= t by {
        if t2 > t {
            assert(m.dom().contains((key, t2)));
        }
    }
    lemma_newest_is_visible(after, key, ts, t);
}

/// A version of another key, or one written after `ts`, leaves a read at
/// `ts` as it was.
pub proof fn lemma_write_leaves_others(
    m: Versions,
    key: Seq<u8>,
    t: u64,
    v: Option<Seq<u8>>,
    other: Seq<u8>,
    ts: u64,
)
    requires
        other != key || t > ts,
    ensures
        visible(m.insert((key, t), v), other, ts) == visible(m, other, ts),
        has_visible(m.insert((key, t), v), other, ts) == has_visible(m, other, ts),
{
    let after = m.insert((key, t), v);
    if has_visible(m, other, ts) {
        lemma_newest_exists(m, other, ts);
        let n = newest_ts(m, other, ts);
        assert(after.dom().contains((other, n)));
        assert forall|t2: u64| t2 <= ts && #[trigger] after.dom().contains((other, t2)) implies t2
            <= n by {
            assert(m.dom().contains((other, t2)));
        }
        lemma_newest_is_visible(after, other, ts, n);
    } else {
        if has_visible(after, other, ts) {
            let t2 = choose|t2: u64| t2 <= ts && #[trigger] after.dom().contains((other, t2));
            assert(m.dom().contains((other, t2)));
        }
    }
}

/// Two ascending scans that hold the same rows agree up to position `i`.
proof fn lemma_same_rows_agree(a: Scan, b: Scan, i: int)
    requires
        ascending(a),
        ascending(b),
        forall|x: int| 0 <= x < a.len() ==> b.contains(#[trigger] a[x]),
        forall|x: int| 0 <= x < b.len() ==> a.contains(#[trigger] b[x]),
        0 <= i < a.len(),
    ensures
        i < b.len(),
        a[i] == b[i],
    decreases i,
{
    if i > 0 {
        lemma_same_rows_agree(a, b, i - 1);
    }
    let p = choose|p: int| 0 <= p < b.len() && b[p] == a[i];
    assert(b.contains(a[i]));
    if p < i {
        lemma_same_rows_agree(a, b, p);
        assert(key_lt(a[p].0, a[i].0));
        lemma_key_lt_irreflexive(a[i].0);
    }
    assert(a.contains(b[i]));
    let q = choose|q: int| 0 <= q < a.len() && a[q] == b[i];
    if q < i {
        lemma_same_rows_agree(a, b, q);
        assert(key_lt(b[q].0, b[i].0));
        lemma_key_lt_irreflexive(b[i].0);
    }
    if p > i && q > i {
        assert(key_lt(b[i].0, b[p].0));
        assert(key_lt(a[i].0, a[q].0));
        lemma_key_trichotomy(a[i].0, b[i].0);
    } else if p > i {
        assert(q == i);
    } else if q > i {
        assert(p == i);
    }
}

/// Two ascending scans that hold the same rows are the same scan.
pub proof fn lemma_same_rows_same_scan(a: Scan, b: Scan)
    requires
        ascending(a),
        ascending(b),
        forall|x: int| 0 <= x < a.len() ==> b.contains(#[trigger] a[x]),
        forall|x: int| 0 <= x < b.len() ==> a.contains(#[trigger] b[x]),
    ensures
        a == b,
{
    if a.len() > 0 {
        lemma_same_rows_agree(a, b, a.len() - 1);
    }
    if b.len() > 0 {
        lemma_same_rows_agree(b, a, b.len() - 1);
    }
    assert forall|i: int| 0 <= i < a.len() implies a[i] == b[i] by {
        lemma_same_rows_agree(a, b, i);
    }
    assert(a =~= b);
}

/// The scan of a tier over given bounds at a given timestamp is one scan only.
pub proof fn lemma_scan_unique(
    m: Versions,
    lower: Option<Seq<u8>>,
    upper: Option<Seq<u8>>,
    ts: u64,
    a: Scan,
    b: Scan,
)
    requires
        is_scan(m, lower, upper, ts, a),
        is_scan(m, lower, upper, ts, b),
    ensures
        a == b,
{
    assert forall|x: int| 0 <= x < a.len() implies b.contains(#[trigger] a[x]) by {
        lemma_scan_row_in(m, lower, upper, ts, a, b, x);
    }
    assert forall|x: int| 0 <= x < b.len() implies a.contains(#[trigger] b[x]) by {
        lemma_scan_row_in(m, lower, upper, ts, b, a, x);
    }
    lemma_same_rows_same_scan(a, b);
}

proof fn lemma_scan_row_in(
    m: Versions,
    lower: Option<Seq<u8>>,
    upper: Option<Seq<u8>>,
    ts: u64,
    a: Scan,
    b: Scan,
    x: int,
)
    requires
        is_scan(m, lower, upper, ts, a),
        is_scan(m, lower, upper, ts, b),
        0 <= x < a.len(),
    ensures
        b.contains(a[x]),
{
    let k = a[x].0;
    assert(in_bounds(a[x].0, lower, upper) && visible(m, a[x].0, ts) == Some(a[x].1));
    assert(has_visible(m, k, ts));
    let p = choose|p: int| 0 <= p < b.len() && (#[trigger] b[p]).0 == k;
    assert(visible(m, b[p].0, ts) == Some(b[p].1));
    assert(b[p] == a[x]);
}

} // verus!
