//! A frozen table: two binary columns and an index from internal key to row.
//!
//! The columns are an Arrow record batch with the large-binary fields `key`
//! (never null) and `value` (null for a tombstone). Each cell holds the
//! encoding of a byte string. The index lists the internal keys in ascending
//! order, each with the row at which its cells stand.
use vstd::prelude::*;
use crate::bytes::{value_view, values_view};
use crate::index::{
    find_visible, is_newest, is_scan, keys_view, lemma_visible_is_newest, lemma_newest_at_visible, lemma_none_visible,
    lemma_scan_of_positions, scan_positions, sorted, versions_of, visible, InternalKey, Versions,
};
use crate::key::bound_view;
use crate::mem_table::{rows_view, MemTable};
use crate::serdes::{
    bytes_encoding, decode_bytes, encodable, encode_bytes, lemma_bytes_roundtrip, parse_bytes,
};
use crate::wal::WriteError;
use arrow::error::ArrowError;

verus! {

/// Finished columns: an Arrow `RecordBatch` with the large-binary fields
/// `key` and `value`, as `build_batch` makes it.
#[verifier::external_body]
pub struct ColumnBatch {
    inner: arrow::array::RecordBatch,
}

/// Arrow's error type, `arrow::error::ArrowError`: carried from
/// `RecordBatch::try_new` to the caller, nothing is said of what it holds.
#[verifier::external_type_specification]
#[verifier::external_body]
pub struct ExArrowError(arrow::error::ArrowError);

/// A large-binary column under construction: an Arrow
/// `GenericBinaryBuilder<i64>`.
#[verifier::external_body]
pub struct BinaryColumn {
    inner: arrow::array::GenericBinaryBuilder<i64>,
}

/// The cells appended to a column so far, a null cell as `None`.
pub uninterp spec fn column_cells(c: BinaryColumn) -> Seq<Option<Seq<u8>>>;

/// The rows of finished columns: the bytes of each key cell with the bytes of
/// the value cell beside it, `None` for a null.
pub uninterp spec fn batch_rows(b: ColumnBatch) -> Seq<(Seq<u8>, Option<Seq<u8>>)>;

/// `GenericBinaryBuilder::<i64>::new`: a builder that holds no cell yet.
#[verifier::external_body]
fn column_new() -> (c: BinaryColumn)
    ensures
        column_cells(c) == Seq::<Option<Seq<u8>>>::empty(),
{
    BinaryColumn { inner: arrow::array::GenericBinaryBuilder::<i64>::new() }
}

/// `GenericByteBuilder::append_value`: adds one cell that holds `bytes` after
/// those already there. The builder counts its bytes in 64 bits, which no
/// amount of bytes in memory exceeds.
#[verifier::external_body]
fn column_append_value(c: &mut BinaryColumn, bytes: &[u8])
    ensures
        column_cells(*final(c)) == column_cells(*old(c)).push(Some(bytes@)),
{
    c.inner.append_value(bytes)
}

/// `GenericByteBuilder::append_null`: adds one null cell after those already
/// there.
#[verifier::external_body]
fn column_append_null(c: &mut BinaryColumn)
    ensures
        column_cells(*final(c)) == column_cells(*old(c)).push(None),
{
    c.inner.append_null()
}

/// No cell of the column is null.
pub open spec fn no_null(cells: Seq<Option<Seq<u8>>>) -> bool {
    forall|i: int| 0 <= i < cells.len() ==> (#[trigger] cells[i]).is_some()
}

/// `GenericByteBuilder::finish` on both columns and `RecordBatch::try_new`
/// with the schema of a non-nullable `key` and a nullable `value`, both
/// large-binary. `try_new` accepts the columns exactly when they have the same
/// number of cells and the key column holds no null; the batch then holds the
/// cells row by row.
#[verifier::external_body]
fn build_batch(keys: BinaryColumn, values: BinaryColumn) -> (r: Result<ColumnBatch, ArrowError>)
    ensures
        r.is_ok() <==> (column_cells(keys).len() == column_cells(values).len() && no_null(
            column_cells(keys),
        )),
        r matches Ok(b) ==> batch_rows(b) == Seq::new(
            column_cells(keys).len(),
            |i: int| (column_cells(keys)[i].unwrap(), column_cells(values)[i]),
        ),
{
    let (mut keys, mut values) = (keys, values);
    let schema = arrow::datatypes::Schema::new(
        vec![
            arrow::datatypes::Field::new("key", arrow::datatypes::DataType::LargeBinary, false),
            arrow::datatypes::Field::new("value", arrow::datatypes::DataType::LargeBinary, true),
        ],
    );
    let columns: Vec<arrow::array::ArrayRef> = vec![
        std::sync::Arc::new(keys.inner.finish()),
        std::sync::Arc::new(values.inner.finish()),
    ];
    arrow::array::RecordBatch::try_new(std::sync::Arc::new(schema), columns).map(
        |inner| ColumnBatch { inner },
    )
}

/// `RecordBatch::column`, `AsArray::as_binary` and `ArrayIter::nth` on the
/// value column: the bytes of the value cell at `row`, or nothing for a null
/// cell.
#[verifier::external_body]
fn batch_value(batch: &ColumnBatch, row: usize) -> (r: Option<Vec<u8>>)
    requires
        row < batch_rows(*batch).len(),
    ensures
        value_view(r) == batch_rows(*batch)[row as int].1,
{
    arrow::array::AsArray::as_binary::<i64>(batch.inner.column(1)).iter().nth(row).flatten().map(
        |cell| cell.to_vec(),
    )
}

/// `RecordBatch::column`, `AsArray::as_binary` and `GenericByteArray::value`
/// on the key column: the bytes of the key cell at `row`.
#[verifier::external_body]
fn batch_key(batch: &ColumnBatch, row: usize) -> (r: Vec<u8>)
    requires
        row < batch_rows(*batch).len(),
    ensures
        r@ == batch_rows(*batch)[row as int].0,
{
    arrow::array::AsArray::as_binary::<i64>(batch.inner.column(0)).value(row).to_vec()
}

/// The key cell at row `j` holds the encoding of the key at position `j`.
pub open spec fn key_cell_of(cells: Seq<Option<Seq<u8>>>, kv: Seq<(Seq<u8>, u64)>, j: int) -> bool {
    encodable(kv[j].0) && cells[j] == Some(bytes_encoding(kv[j].0))
}

/// The value cell at row `j` is null for a tombstone and else holds the
/// encoding of the value at position `j`.
pub open spec fn value_cell_of(cells: Seq<Option<Seq<u8>>>, vals: Seq<Option<Seq<u8>>>, j: int) -> bool {
    match vals[j] {
        Some(v) => encodable(v) && cells[j] == Some(bytes_encoding(v)),
        None => cells[j] == None::<Seq<u8>>,
    }
}

/// The byte string that a value cell holds, where the cell holds an encoding.
pub open spec fn cell_value(cell: Option<Seq<u8>>) -> Option<Seq<u8>> {
    match cell {
        Some(c) => match parse_bytes(c) {
            Ok((v, _)) => Some(v),
            Err(_) => None,
        },
        None => None,
    }
}

/// A value cell is null or holds the encoding of a byte string.
pub open spec fn cell_ok(cell: Option<Seq<u8>>) -> bool {
    cell matches Some(c) ==> parse_bytes(c).is_ok()
}

/// A table frozen into columns, read-only from then on.
pub struct IndexBatch {
    batch: ColumnBatch,
    index: Vec<InternalKey>,
    offsets: Vec<usize>,
}

impl IndexBatch {
    /// The index is sorted and each of its entries points at a row whose key
    /// cell holds the encoding of the entry's key and whose value cell is null
    /// or holds an encoding.
    pub closed spec fn wf(&self) -> bool {
        &&& self.index.len() == self.offsets.len()
        &&& sorted(keys_view(self.index@))
        &&& forall|i: int|
            0 <= i < self.offsets.len() ==> {
                &&& (#[trigger] self.offsets[i]) < batch_rows(self.batch).len()
                &&& encodable(self.index[i].key@)
                &&& batch_rows(self.batch)[self.offsets[i] as int].0 == bytes_encoding(
                    self.index[i].key@,
                )
                &&& cell_ok(batch_rows(self.batch)[self.offsets[i] as int].1)
            }
    }

    /// The value column in the order of the index, each cell decoded.
    pub closed spec fn value_seq(&self) -> Seq<Option<Seq<u8>>> {
        Seq::new(
            self.index.len() as nat,
            |i: int| cell_value(batch_rows(self.batch)[self.offsets[i] as int].1),
        )
    }

    /// The versions held.
    pub closed spec fn view(&self) -> Versions {
        versions_of(keys_view(self.index@), self.value_seq())
    }

    /// Freezes a table: encodes each key and each value into its column, in
    /// ascending order of internal key, and records for each internal key the
    /// row at which it stands. Fails where a key or a value is too long to
    /// encode; holds the versions of the table otherwise.
    pub fn freeze(mem_table: MemTable) -> (r: Result<IndexBatch, WriteError>)
        requires
            mem_table.wf(),
        ensures
            match r {
                Ok(b) => b.wf() && b@ == mem_table@ && all_encodable(mem_table@),
                Err(e) => e == WriteError::Internal && !all_encodable(mem_table@),
            },
    {
        proof {
            mem_table.lemma_columns();
        }
        let ghost kv = mem_table.key_seq();
        let ghost vals = mem_table.value_seq();
        let ghost m = mem_table@;
        let (index, values) = mem_table.into_columns();
        let n = index.len();
        let mut key_column = column_new();
        let mut value_column = column_new();
        let mut offsets: Vec<usize> = Vec::new();
        let mut scratch: Vec<u8> = Vec::new();
        let mut i: usize = 0;
        while i < n
            invariant
                n == index.len(),
                n == values.len(),
                kv == keys_view(index@),
                vals == values_view(values@),
                kv.len() == vals.len(),
                sorted(kv),
                m == versions_of(kv, vals),
                m == mem_table@,
                i <= n,
                offsets.len() == i,
                column_cells(key_column).len() == i,
                column_cells(value_column).len() == i,
                forall|j: int| 0 <= j < i ==> #[trigger] offsets[j] == j,
                forall|j: int| 0 <= j < i ==> #[trigger] key_cell_of(column_cells(key_column), kv, j),
                forall|j: int|
                    0 <= j < i ==> #[trigger] value_cell_of(column_cells(value_column), vals, j),
            decreases n - i,
        {
            proof {
                assert(kv[i as int] == index@[i as int]@);
                assert(vals[i as int] == value_view(values@[i as int]));
            }
            scratch.clear();
            if encode_bytes(&index[i].key, &mut scratch).is_err() {
                proof {
                    lemma_not_all_encodable(kv, vals, i as int);
                }
                return Err(WriteError::Internal);
            }
            proof {
                assert(scratch@ =~= bytes_encoding(kv[i as int].0));
            }
            let ghost key_before = column_cells(key_column);
            column_append_value(&mut key_column, scratch.as_slice());
            proof {
                assert forall|j: int| 0 <= j < i + 1 implies #[trigger] key_cell_of(
                    column_cells(key_column),
                    kv,
                    j,
                ) by {
                    if j < i {
                        assert(key_cell_of(key_before, kv, j));
                    }
                }
            }
            let ghost value_before = column_cells(value_column);
            match &values[i] {
                Some(v) => {
                    scratch.clear();
                    if encode_bytes(v, &mut scratch).is_err() {
                        proof {
                            lemma_not_all_encodable(kv, vals, i as int);
                        }
                        return Err(WriteError::Internal);
                    }
                    proof {
                        assert(scratch@ =~= bytes_encoding(v@));
                    }
                    column_append_value(&mut value_column, scratch.as_slice());
                },
                None => {
                    column_append_null(&mut value_column);
                },
            }
            proof {
                assert forall|j: int| 0 <= j < i + 1 implies #[trigger] value_cell_of(
                    column_cells(value_column),
                    vals,
                    j,
                ) by {
                    if j < i {
                        assert(value_cell_of(value_before, vals, j));
                    }
                }
            }
            offsets.push(i);
            i += 1;
        }
        let ghost key_cells = column_cells(key_column);
        let ghost value_cells = column_cells(value_column);
        match build_batch(key_column, value_column) {
            Ok(batch) => {
                let b = IndexBatch { batch, index, offsets };
                proof {
                    assert forall|j: int| 0 <= j < kv.len() implies key_cells[j] == Some(
                        bytes_encoding(kv[j].0),
                    ) && encodable((#[trigger] kv[j]).0) by {
                        assert(key_cell_of(key_cells, kv, j));
                    }
                    assert forall|j: int| 0 <= j < kv.len() implies value_cells[j] == match (
                    #[trigger] vals[j]) {
                        Some(v) => Some(bytes_encoding(v)),
                        None => None,
                    } && (vals[j] matches Some(v) ==> encodable(v)) by {
                        assert(value_cell_of(value_cells, vals, j));
                    }
                    assert forall|j: int| 0 <= j < b.offsets.len() implies {
                        &&& (#[trigger] b.offsets[j]) < batch_rows(b.batch).len()
                        &&& encodable(b.index[j].key@)
                        &&& batch_rows(b.batch)[b.offsets[j] as int].0 == bytes_encoding(
                            b.index[j].key@,
                        )
                        &&& cell_ok(batch_rows(b.batch)[b.offsets[j] as int].1)
                    } by {
                        assert(kv[j] == b.index@[j]@);
                        assert(batch_rows(b.batch)[j] == (key_cells[j].unwrap(), value_cells[j]));
                        match vals[j] {
                            Some(v) => {
                                lemma_bytes_roundtrip(v, Seq::empty());
                                assert(bytes_encoding(v) + Seq::<u8>::empty() =~= bytes_encoding(v));
                            },
                            None => {},
                        }
                    }
                    assert forall|j: int| 0 <= j < vals.len() implies b.value_seq()[j]
                        == #[trigger] vals[j] by {
                        assert(batch_rows(b.batch)[j] == (key_cells[j].unwrap(), value_cells[j]));
                        assert(b.offsets[j] == j);
                        match vals[j] {
                            Some(v) => {
                                lemma_bytes_roundtrip(v, Seq::empty());
                                assert(bytes_encoding(v) + Seq::<u8>::empty() =~= bytes_encoding(v));
                            },
                            None => {},
                        }
                    }
                    assert(b.value_seq() =~= vals);
                    lemma_all_encodable(kv, vals);
                }
                Ok(b)
            },
            Err(_) => {
                proof {
                    assert forall|j: int| 0 <= j < key_cells.len() implies (
                    #[trigger] key_cells[j]).is_some() by {
                        assert(key_cell_of(key_cells, kv, j));
                    }
                    assert(false);
                }
                Err(WriteError::Arrow)
            },
        }
    }

    /// Reads `key` at `ts`: the newest version at or before `ts`, which may be
    /// a tombstone, or nothing where the key has no such version.
    pub fn find(&self, key: &Vec<u8>, ts: u64) -> (r: Option<Option<Vec<u8>>>)
        requires
            self.wf(),
        ensures
            match r {
                Some(v) => Some(value_view(v)),
                None => None,
            } == visible(self@, key@, ts),
            match r {
                Some(v) => exists|t: u64| #[trigger]
                    is_newest(self@, key@, ts, t) && self@[(key@, t)] == value_view(v),
                None => forall|t: u64| t <= ts ==> !self@.dom().contains((key@, t)),
            },
    {
        proof {
            lemma_visible_is_newest(self@, key@, ts);
        }
        let ghost kv = keys_view(self.index@);
        let ghost vals = self.value_seq();
        match find_visible(&self.index, key, ts) {
            Some(i) => {
                proof {
                    lemma_newest_at_visible(kv, vals, key@, ts, i as int);
                }
                Some(self.value_at(i))
            },
            None => {
                proof {
                    lemma_none_visible(kv, vals, key@, ts);
                }
                None
            },
        }
    }

    /// The value of the version at position `i` of the index, decoded from
    /// its cell.
    fn value_at(&self, i: usize) -> (r: Option<Vec<u8>>)
        requires
            self.wf(),
            i < self.index.len(),
        ensures
            value_view(r) == self.value_seq()[i as int],
    {
        match batch_value(&self.batch, self.offsets[i]) {
            Some(cell) => {
                proof {
                    assert(cell@.skip(0) =~= cell@);
                }
                match decode_bytes(cell.as_slice(), 0) {
                    Ok((v, _)) => Some(v),
                    Err(_) => {
                        proof {
                            assert(false);
                        }
                        None
                    },
                }
            },
            None => None,
        }
    }

    /// The user key of the version at position `i` of the index, decoded
    /// from its cell.
    fn key_at(&self, i: usize) -> (r: Vec<u8>)
        requires
            self.wf(),
            i < self.index.len(),
        ensures
            r@ == self.index[i as int].key@,
    {
        let cell = batch_key(&self.batch, self.offsets[i]);
        proof {
            assert(cell@.skip(0) =~= cell@);
            lemma_bytes_roundtrip(self.index[i as int].key@, Seq::empty());
            assert(bytes_encoding(self.index[i as int].key@) + Seq::<u8>::empty()
                =~= bytes_encoding(self.index[i as int].key@));
        }
        match decode_bytes(cell.as_slice(), 0) {
            Ok((key, _)) => key,
            Err(_) => {
                proof {
                    assert(false);
                }
                Vec::new()
            },
        }
    }

    /// Scans the keys within `[lower, upper]` at `ts`: each such key that has a
    /// version at or before `ts`, once, in ascending order, with the newest
    /// such version.
    pub fn range(&self, lower: Option<&Vec<u8>>, upper: Option<&Vec<u8>>, ts: u64) -> (rows: Vec<
        (Vec<u8>, Option<Vec<u8>>),
    >)
        requires
            self.wf(),
        ensures
            is_scan(self@, bound_view(lower), bound_view(upper), ts, rows_view(rows@)),
    {
        let ghost kv = keys_view(self.index@);
        let ghost vals = self.value_seq();
        let pos = scan_positions(&self.index, lower, upper, ts);
        let mut rows: Vec<(Vec<u8>, Option<Vec<u8>>)> = Vec::new();
        let mut a: usize = 0;
        while a < pos.len()
            invariant
                self.wf(),
                kv == keys_view(self.index@),
                vals == self.value_seq(),
                0 <= a <= pos.len(),
                rows.len() == a,
                forall|b: int| 0 <= b < pos.len() ==> 0 <= #[trigger] pos[b] < kv.len(),
                forall|b: int|
                    0 <= b < a ==> #[trigger] rows_view(rows@)[b] == (
                        kv[pos[b] as int].0,
                        vals[pos[b] as int],
                    ),
            decreases pos.len() - a,
        {
            let i = pos[a];
            let ghost before = rows_view(rows@);
            proof {
                assert(kv[i as int] == self.index@[i as int]@);
            }
            let row = (self.key_at(i), self.value_at(i));
            rows.push(row);
            proof {
                assert forall|b: int| 0 <= b < a + 1 implies #[trigger] rows_view(rows@)[b] == (
                    kv[pos[b] as int].0,
                    vals[pos[b] as int],
                ) by {
                    if b < a {
                        assert(rows_view(rows@)[b] == before[b]);
                    }
                }
            }
            a += 1;
        }
        proof {
            lemma_scan_of_positions(
                kv,
                vals,
                bound_view(lower),
                bound_view(upper),
                ts,
                pos@,
                rows_view(rows@),
            );
        }
        rows
    }
}

/// Every key and every value of `m` is short enough to encode.
pub open spec fn all_encodable(m: Versions) -> bool {
    forall|kt: (Seq<u8>, u64)| #[trigger]
        m.dom().contains(kt) ==> encodable(kt.0) && (m[kt] matches Some(v) ==> encodable(v))
}

proof fn lemma_not_all_encodable(kv: Seq<(Seq<u8>, u64)>, vals: Seq<Option<Seq<u8>>>, i: int)
    requires
        sorted(kv),
        kv.len() == vals.len(),
        0 <= i < kv.len(),
        !encodable(kv[i].0) || (vals[i] matches Some(v) && !encodable(v)),
    ensures
        !all_encodable(versions_of(kv, vals)),
{
    crate::index::lemma_versions_at(kv, vals, i);
}

proof fn lemma_all_encodable(kv: Seq<(Seq<u8>, u64)>, vals: Seq<Option<Seq<u8>>>)
    requires
        sorted(kv),
        kv.len() == vals.len(),
        forall|j: int| 0 <= j < kv.len() ==> encodable((#[trigger] kv[j]).0),
        forall|j: int| 0 <= j < kv.len() ==> ((#[trigger] vals[j]) matches Some(v) ==> encodable(v)),
    ensures
        all_encodable(versions_of(kv, vals)),
{
    let m = versions_of(kv, vals);
    assert forall|kt: (Seq<u8>, u64)| #[trigger] m.dom().contains(kt) implies encodable(kt.0) && (
    m[kt] matches Some(v) ==> encodable(v)) by {
        crate::index::lemma_position_of(kv, vals, kt);
        let p = crate::index::position_of(kv, kt);
        assert(kv[p] == kt);
        assert(m[kt] == vals[p]);
    }
}

} // verus!
