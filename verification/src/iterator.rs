//! Merging the scans of several tiers into one.
//!
//! Each tier hands in its scan, ascending by key. The merge emits every key
//! once, ascending, and takes a key's row from the first tier, in the order
//! given, that holds the key: tiers are listed from the highest priority down.
use vstd::prelude::*;
use crate::bytes::{clone_bytes, clone_value, value_view};
use crate::index::{ascending, Scan};
use crate::key::{
    key_le, key_lt, key_order, lemma_key_le_lt, lemma_key_lt_irreflexive, lemma_key_trichotomy,
    KeyOrder,
};
use crate::mem_table::rows_view;

verus! {

/// A key with the value or tombstone observed for it.
pub type Row = (Vec<u8>, Option<Vec<u8>>);

/// Some row of `s` has the key `k`.
pub open spec fn has_key(s: Scan, k: Seq<u8>) -> bool {
    exists|i: int| 0 <= i < s.len() && (#[trigger] s[i]).0 == k
}

/// `row` is a row of tier `i`, and no tier before `i` holds its key.
pub open spec fn from_tier(tiers: Seq<Scan>, row: (Seq<u8>, Option<Seq<u8>>), i: int) -> bool {
    &&& 0 <= i < tiers.len()
    &&& tiers[i].contains(row)
    &&& forall|j: int| 0 <= j < i ==> !has_key(#[trigger] tiers[j], row.0)
}

/// `row` comes from the first tier that holds its key.
pub open spec fn from_first_tier(tiers: Seq<Scan>, row: (Seq<u8>, Option<Seq<u8>>)) -> bool {
    exists|i: int| from_tier(tiers, row, i)
}

/// `out` is the merge of two scans, the first with priority: ascending, the
/// rows of `a` and those rows of `b` whose key `a` does not hold.
pub open spec fn is_merge2(a: Scan, b: Scan, out: Scan) -> bool {
    &&& ascending(out)
    &&& forall|i: int|
        0 <= i < out.len() ==> a.contains(#[trigger] out[i]) || (b.contains(out[i]) && !has_key(
            a,
            out[i].0,
        ))
    &&& forall|i: int| 0 <= i < a.len() ==> out.contains(#[trigger] a[i])
    &&& forall|i: int| 0 <= i < b.len() ==> has_key(out, (#[trigger] b[i]).0)
}

/// `out` is the merge of `tiers`: ascending by key, each key of any tier
/// once, with the row of the first tier that holds the key.
pub open spec fn is_merge(tiers: Seq<Scan>, out: Scan) -> bool {
    &&& ascending(out)
    &&& forall|a: int| 0 <= a < out.len() ==> from_first_tier(tiers, #[trigger] out[a])
    &&& forall|i: int, b: int|
        0 <= i < tiers.len() && 0 <= b < tiers[i].len() ==> has_key(out, (#[trigger] tiers[i][b]).0)
}

/// Every tier is ascending by key.
pub open spec fn all_ascending(tiers: Seq<Scan>) -> bool {
    forall|i: int| 0 <= i < tiers.len() ==> ascending(#[trigger] tiers[i])
}

/// The scans of a vector of tiers, as plain values.
pub open spec fn tiers_view(tiers: Seq<Vec<Row>>) -> Seq<Scan> {
    Seq::new(tiers.len(), |i: int| rows_view(tiers[i]@))
}

/// Copies a row.
pub fn clone_row(row: &Row) -> (r: Row)
    ensures
        r.0@ == row.0@,
        value_view(r.1) == value_view(row.1),
{
    (clone_bytes(&row.0), clone_value(&row.1))
}

/// In an ascending scan, a row before another has the smaller key.
pub proof fn lemma_ascending_le(s: Scan, i: int, j: int)
    requires
        ascending(s),
        0 <= i <= j < s.len(),
    ensures
        key_le(s[i].0, s[j].0),
{
}

/// Merges two ascending scans; on equal keys the row of `a` stands.
pub fn merge2(a: &Vec<Row>, b: &Vec<Row>) -> (out: Vec<Row>)
    requires
        ascending(rows_view(a@)),
        ascending(rows_view(b@)),
    ensures
        is_merge2(rows_view(a@), rows_view(b@), rows_view(out@)),
{
    let ghost av = rows_view(a@);
    let ghost bv = rows_view(b@);
    let mut out: Vec<Row> = Vec::new();
    let mut i: usize = 0;
    let mut j: usize = 0;
    while i < a.len() || j < b.len()
        invariant
            av == rows_view(a@),
            bv == rows_view(b@),
            ascending(av),
            ascending(bv),
            i <= a.len(),
            j <= b.len(),
            ascending(rows_view(out@)),
            forall|o: int, x: int|
                0 <= o < out.len() && i <= x < av.len() ==> key_lt(
                    (#[trigger] rows_view(out@)[o]).0,
                    (#[trigger] av[x]).0,
                ),
            forall|o: int, y: int|
                0 <= o < out.len() && j <= y < bv.len() ==> key_lt(
                    (#[trigger] rows_view(out@)[o]).0,
                    (#[trigger] bv[y]).0,
                ),
            forall|o: int|
                0 <= o < out.len() ==> av.contains(#[trigger] rows_view(out@)[o]) || (bv.contains(
                    rows_view(out@)[o],
                ) && !has_key(av, rows_view(out@)[o].0)),
            forall|x: int| 0 <= x < i ==> rows_view(out@).contains(#[trigger] av[x]),
            forall|y: int| 0 <= y < j ==> has_key(rows_view(out@), (#[trigger] bv[y]).0),
        decreases (a.len() - i) + (b.len() - j),
    {
        let ghost before = rows_view(out@);
        let take_a = if j >= b.len() {
            true
        } else if i >= a.len() {
            false
        } else {
            key_order(&a[i].0, &b[j].0) != KeyOrder::Greater
        };
        proof {
            if i < a.len() {
                assert(av[i as int] == (a@[i as int].0@, value_view(a@[i as int].1)));
            }
            if j < b.len() {
                assert(bv[j as int] == (b@[j as int].0@, value_view(b@[j as int].1)));
            }
            if i < a.len() && j < b.len() {
                lemma_key_trichotomy(av[i as int].0, bv[j as int].0);
            }
        }
        if take_a {
            let same = j < b.len() && key_order(&a[i].0, &b[j].0) == KeyOrder::Equal;
            out.push(clone_row(&a[i]));
            let ghost row = av[i as int];
            proof {
                assert(rows_view(out@) =~= before.push(row));
                lemma_step(av, bv, before, i as int, j as int, row, true, same);
            }
            i += 1;
            if same {
                j += 1;
            }
        } else {
            out.push(clone_row(&b[j]));
            let ghost row = bv[j as int];
            proof {
                assert(rows_view(out@) =~= before.push(row));
                lemma_step(av, bv, before, i as int, j as int, row, false, false);
            }
            j += 1;
        }
    }
    out
}

/// One step of the merge of two scans keeps what the merge maintains.
proof fn lemma_step(
    av: Scan,
    bv: Scan,
    before: Scan,
    i: int,
    j: int,
    row: (Seq<u8>, Option<Seq<u8>>),
    take_a: bool,
    same: bool,
)
    requires
        ascending(av),
        ascending(bv),
        0 <= i <= av.len(),
        0 <= j <= bv.len(),
        ascending(before),
        forall|o: int, x: int|
            0 <= o < before.len() && i <= x < av.len() ==> key_lt(
                (#[trigger] before[o]).0,
                (#[trigger] av[x]).0,
            ),
        forall|o: int, y: int|
            0 <= o < before.len() && j <= y < bv.len() ==> key_lt(
                (#[trigger] before[o]).0,
                (#[trigger] bv[y]).0,
            ),
        forall|o: int|
            0 <= o < before.len() ==> av.contains(#[trigger] before[o]) || (bv.contains(before[o])
                && !has_key(av, before[o].0)),
        forall|x: int| 0 <= x < i ==> before.contains(#[trigger] av[x]),
        forall|y: int| 0 <= y < j ==> has_key(before, (#[trigger] bv[y]).0),
        take_a ==> i < av.len() && row == av[i] && (j < bv.len() ==> key_le(av[i].0, bv[j].0)),
        take_a ==> (same <==> j < bv.len() && av[i].0 == bv[j].0),
        !take_a ==> !same && j < bv.len() && row == bv[j] && (i < av.len() ==> key_lt(
            bv[j].0,
            av[i].0,
        )),
    ensures
        ({
            let out = before.push(row);
            let i2 = if take_a {
                i + 1
            } else {
                i
            };
            let j2 = if !take_a || same {
                j + 1
            } else {
                j
            };
            &&& ascending(out)
            &&& forall|o: int, x: int|
                0 <= o < out.len() && i2 <= x < av.len() ==> key_lt(
                    (#[trigger] out[o]).0,
                    (#[trigger] av[x]).0,
                )
            &&& forall|o: int, y: int|
                0 <= o < out.len() && j2 <= y < bv.len() ==> key_lt(
                    (#[trigger] out[o]).0,
                    (#[trigger] bv[y]).0,
                )
            &&& forall|o: int|
                0 <= o < out.len() ==> av.contains(#[trigger] out[o]) || (bv.contains(out[o])
                    && !has_key(av, out[o].0))
            &&& forall|x: int| 0 <= x < i2 ==> out.contains(#[trigger] av[x])
            &&& forall|y: int| 0 <= y < j2 ==> has_key(out, (#[trigger] bv[y]).0)
        }),
{
    let out = before.push(row);
    let n = before.len() as int;
    let i2 = if take_a {
        i + 1
    } else {
        i
    };
    let j2 = if !take_a || same {
        j + 1
    } else {
        j
    };
    assert(out[n] == row);
    assert forall|o: int| 0 <= o < n implies out[o] == before[o] by {}
    // the new row is above every row emitted before
    assert forall|o: int| 0 <= o < n implies key_lt((#[trigger] before[o]).0, row.0) by {
        if take_a {
            assert(key_lt(before[o].0, av[i].0));
        } else {
            assert(key_lt(before[o].0, bv[j].0));
        }
    }
    assert forall|o: int, p: int| 0 <= o < p < out.len() implies key_lt(
        (#[trigger] out[o]).0,
        (#[trigger] out[p]).0,
    ) by {
        if p < n {
            assert(key_lt(before[o].0, before[p].0));
        } else {
            assert(key_lt(before[o].0, row.0));
        }
    }
    assert forall|o: int, x: int| 0 <= o < out.len() && i2 <= x < av.len() implies key_lt(
        (#[trigger] out[o]).0,
        (#[trigger] av[x]).0,
    ) by {
        if o < n {
            assert(key_lt(before[o].0, av[x].0));
        } else if take_a {
            assert(key_lt(av[i].0, av[x].0));
        } else {
            assert(key_lt(bv[j].0, av[i].0));
            lemma_ascending_le(av, i, x);
            lemma_key_le_lt(bv[j].0, av[i].0, av[x].0);
        }
    }
    assert forall|o: int, y: int| 0 <= o < out.len() && j2 <= y < bv.len() implies key_lt(
        (#[trigger] out[o]).0,
        (#[trigger] bv[y]).0,
    ) by {
        if o < n {
            assert(key_lt(before[o].0, bv[y].0));
        } else if take_a {
            if same {
                assert(key_lt(bv[j].0, bv[y].0));
            } else {
                lemma_ascending_le(bv, j, y);
                lemma_key_trichotomy(av[i].0, bv[j].0);
                lemma_key_le_lt(av[i].0, bv[j].0, bv[y].0);
            }
        } else {
            assert(key_lt(bv[j].0, bv[y].0));
        }
    }
    assert forall|o: int| 0 <= o < out.len() implies av.contains(#[trigger] out[o]) || (
    bv.contains(out[o]) && !has_key(av, out[o].0)) by {
        if o == n {
            if take_a {
                assert(av[i] == row);
            } else {
                assert(bv[j] == row);
                if has_key(av, row.0) {
                    let x = choose|x: int| 0 <= x < av.len() && (#[trigger] av[x]).0 == row.0;
                    lemma_key_lt_irreflexive(row.0);
                    if x < i {
                        let o2 = choose|o2: int| 0 <= o2 < before.len() && before[o2] == av[x];
                        assert(key_lt(before[o2].0, bv[j].0));
                    } else {
                        lemma_ascending_le(av, i, x);
                        lemma_key_le_lt(bv[j].0, av[i].0, av[x].0);
                    }
                }
            }
        }
    }
    assert forall|x: int| 0 <= x < i2 implies out.contains(#[trigger] av[x]) by {
        if x < i {
            let o = choose|o: int| 0 <= o < before.len() && before[o] == av[x];
            assert(out[o] == av[x]);
        } else {
            assert(out[n] == av[x]);
        }
    }
    assert forall|y: int| 0 <= y < j2 implies has_key(out, (#[trigger] bv[y]).0) by {
        if y < j {
            let o = choose|o: int| 0 <= o < before.len() && (#[trigger] before[o]).0 == bv[y].0;
            assert(out[o].0 == bv[y].0);
        } else {
            assert(out[n].0 == bv[y].0);
        }
    }
}

/// Merging one more tier, of lower priority than all before, extends the merge.
pub proof fn lemma_merge_extend(tiers: Seq<Scan>, acc: Scan, next: Scan, i: int)
    requires
        0 <= i < tiers.len(),
        is_merge(tiers.take(i), acc),
        is_merge2(acc, tiers[i], next),
    ensures
        is_merge(tiers.take(i + 1), next),
{
    let old_tiers = tiers.take(i);
    let new_tiers = tiers.take(i + 1);
    assert forall|a: int| 0 <= a < next.len() implies from_first_tier(
        new_tiers,
        #[trigger] next[a],
    ) by {
        let row = next[a];
        if acc.contains(row) {
            let o = choose|o: int| 0 <= o < acc.len() && acc[o] == row;
            assert(from_first_tier(old_tiers, acc[o]));
            let w = choose|w: int| from_tier(old_tiers, row, w);
            assert(new_tiers[w] == old_tiers[w]);
            assert forall|j: int| 0 <= j < w implies !has_key(#[trigger] new_tiers[j], row.0) by {
                assert(new_tiers[j] == old_tiers[j]);
            }
            assert(from_tier(new_tiers, row, w));
        } else {
            assert(new_tiers[i] == tiers[i]);
            assert forall|j: int| 0 <= j < i implies !has_key(#[trigger] new_tiers[j], row.0) by {
                if has_key(new_tiers[j], row.0) {
                    let b = choose|b: int|
                        0 <= b < new_tiers[j].len() && (#[trigger] new_tiers[j][b]).0 == row.0;
                    assert(old_tiers[j] == new_tiers[j]);
                    assert(has_key(acc, old_tiers[j][b].0));
                }
            }
            assert(from_tier(new_tiers, row, i));
        }
    }
    assert forall|t: int, b: int| 0 <= t < new_tiers.len() && 0 <= b < new_tiers[t].len() implies has_key(
        next,
        (#[trigger] new_tiers[t][b]).0,
    ) by {
        if t < i {
            assert(old_tiers[t] == new_tiers[t]);
            assert(has_key(acc, old_tiers[t][b].0));
            let o = choose|o: int| 0 <= o < acc.len() && (#[trigger] acc[o]).0 == new_tiers[t][b].0;
            assert(next.contains(acc[o]));
            let q = choose|q: int| 0 <= q < next.len() && next[q] == acc[o];
            assert(next[q].0 == new_tiers[t][b].0);
        } else {
            assert(new_tiers[t] == tiers[i]);
        }
    }
}

/// The merge of ascending tiers is one scan only.
pub proof fn lemma_merge_unique(tiers: Seq<Scan>, a: Scan, b: Scan)
    requires
        all_ascending(tiers),
        is_merge(tiers, a),
        is_merge(tiers, b),
    ensures
        a == b,
{
    assert forall|x: int| 0 <= x < a.len() implies b.contains(#[trigger] a[x]) by {
        lemma_merge_row_in(tiers, a, b, x);
    }
    assert forall|x: int| 0 <= x < b.len() implies a.contains(#[trigger] b[x]) by {
        lemma_merge_row_in(tiers, b, a, x);
    }
    crate::index::lemma_same_rows_same_scan(a, b);
}

proof fn lemma_merge_row_in(tiers: Seq<Scan>, a: Scan, b: Scan, x: int)
    requires
        all_ascending(tiers),
        is_merge(tiers, a),
        is_merge(tiers, b),
        0 <= x < a.len(),
    ensures
        b.contains(a[x]),
{
    let row = a[x];
    assert(from_first_tier(tiers, row));
    let i = choose|i: int| from_tier(tiers, row, i);
    let c = choose|c: int| 0 <= c < tiers[i].len() && tiers[i][c] == row;
    assert(has_key(b, tiers[i][c].0));
    let p = choose|p: int| 0 <= p < b.len() && (#[trigger] b[p]).0 == row.0;
    assert(from_first_tier(tiers, b[p]));
    let j = choose|j: int| from_tier(tiers, b[p], j);
    let d = choose|d: int| 0 <= d < tiers[j].len() && tiers[j][d] == b[p];
    if j < i {
        assert(has_key(tiers[j], row.0));
    } else if i < j {
        assert(has_key(tiers[i], b[p].0));
    } else {
        assert(ascending(tiers[i]));
        lemma_key_lt_irreflexive(row.0);
        if c < d {
            assert(key_lt(tiers[i][c].0, tiers[i][d].0));
        } else if d < c {
            assert(key_lt(tiers[i][d].0, tiers[i][c].0));
        }
    }
}

/// Merges the scans of `tiers`, which are listed from the highest priority down.
pub fn merge(tiers: &Vec<Vec<Row>>) -> (out: Vec<Row>)
    requires
        all_ascending(tiers_view(tiers@)),
    ensures
        is_merge(tiers_view(tiers@), rows_view(out@)),
{
    let ghost tv = tiers_view(tiers@);
    let mut acc: Vec<Row> = Vec::new();
    let mut i: usize = 0;
    proof {
        assert(is_merge(tv.take(0), rows_view(acc@)));
    }
    while i < tiers.len()
        invariant
            tv == tiers_view(tiers@),
            all_ascending(tv),
            i <= tiers.len(),
            is_merge(tv.take(i as int), rows_view(acc@)),
        decreases tiers.len() - i,
    {
        proof {
            assert(tv[i as int] == rows_view(tiers@[i as int]@));
            assert(ascending(tv[i as int]));
        }
        let next = merge2(&acc, &tiers[i]);
        proof {
            lemma_merge_extend(tv, rows_view(acc@), rows_view(next@), i as int);
        }
        acc = next;
        i += 1;
    }
    proof {
        assert(tv.take(tiers.len() as int) =~= tv);
    }
    acc
}

/// A source of rows that hands them out one at a time.
pub trait EIterator {
    /// The rows still to come.
    spec fn rest(&self) -> Scan;

    /// Hands out the next row, or nothing once all rows have been handed out.
    fn try_next(&mut self) -> (r: Option<Row>)
        ensures
            match r {
                Some(row) => old(self).rest().len() > 0 && (row.0@, value_view(row.1)) == old(
                    self,
                ).rest()[0] && final(self).rest() == old(self).rest().skip(1),
                None => old(self).rest().len() == 0 && final(self).rest() == old(self).rest(),
            },
    ;
}

/// Rows held in a buffer, handed out in their order.
#[derive(Debug)]
pub struct BufIterator {
    items: Vec<Row>,
    pos: usize,
}

impl BufIterator {
    /// An iterator over `items`.
    pub fn new(items: Vec<Row>) -> (r: Self)
        ensures
            r.rest() == rows_view(items@),
    {
        let r = BufIterator { items, pos: 0 };
        proof {
            assert(r.rest() =~= rows_view(items@));
        }
        r
    }
}

impl EIterator for BufIterator {
    closed spec fn rest(&self) -> Scan {
        if self.pos <= self.items.len() {
            rows_view(self.items@).skip(self.pos as int)
        } else {
            Seq::empty()
        }
    }

    fn try_next(&mut self) -> (r: Option<Row>) {
        if self.pos < self.items.len() {
            let row = clone_row(&self.items[self.pos]);
            proof {
                assert(rows_view(self.items@).skip(self.pos as int).skip(1) =~= rows_view(
                    self.items@,
                ).skip(self.pos + 1));
            }
            self.pos = self.pos + 1;
            Some(row)
        } else {
            None
        }
    }
}

/// The merge of the scans of several tiers, handed out row by row.
#[derive(Debug)]
pub struct MergeIterator {
    rows: BufIterator,
}

impl MergeIterator {
    /// Merges `tiers`, which are listed from the highest priority down.
    pub fn new(tiers: Vec<Vec<Row>>) -> (r: Self)
        requires
            all_ascending(tiers_view(tiers@)),
        ensures
            is_merge(tiers_view(tiers@), r.rest()),
    {
        MergeIterator { rows: BufIterator::new(merge(&tiers)) }
    }
}

impl EIterator for MergeIterator {
    closed spec fn rest(&self) -> Scan {
        self.rows.rest()
    }

    fn try_next(&mut self) -> (r: Option<Row>) {
        self.rows.try_next()
    }
}

} // verus!
