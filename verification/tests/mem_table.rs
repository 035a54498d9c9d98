use elsm::mem_table::MemTable;
use elsm::record::{Record, RecordType};
use elsm::wal::{WalFile, WriteError};

fn bytes(s: &str) -> Vec<u8> {
    s.as_bytes().to_vec()
}

#[test]
fn crud() {
    let key_1 = bytes("key_1");
    let key_2 = bytes("key_2");
    let key_3 = bytes("key_3");
    let key_4 = bytes("key_4");
    let value_1 = bytes("value_1");
    let value_3 = bytes("value_3");

    let mut mem_table = MemTable::new();

    mem_table.insert(key_1.clone(), 0, Some(value_1.clone()));
    mem_table.insert(key_1.clone(), 1, Some(value_1.clone()));
    mem_table.insert(key_1.clone(), 2, Some(value_1.clone()));

    mem_table.insert(key_3.clone(), 0, Some(value_3.clone()));

    assert_eq!(mem_table.get(&key_1, 0), Some(Some(&value_1)));
    assert_eq!(mem_table.get(&key_1, 1), Some(Some(&value_1)));
    assert_eq!(mem_table.get(&key_1, 2), Some(Some(&value_1)));

    assert_eq!(mem_table.get(&key_3, 0), Some(Some(&value_3)));

    assert_eq!(mem_table.get(&key_2, 0), None);
    assert_eq!(mem_table.get(&key_4, 0), None);
    assert_eq!(mem_table.get(&key_1, 3), Some(Some(&value_1)));
}

#[test]
fn mod_recover_from_wal() {
    let key = bytes("key");
    let value = bytes("value");
    let mut wal = WalFile::new(usize::MAX);
    wal.write(Record::new(RecordType::Full, &key, 0, Some(&value)))
        .unwrap();
    let file = wal.close();

    let mem_table = MemTable::from_wal(&file).unwrap();
    assert_eq!(mem_table.get(&key, 0), Some(Some(&value)));
}

#[test]
fn insert_recover_and_get() {
    let key = bytes("key");
    let value = bytes("value");
    let mut wal = WalFile::new(usize::MAX);
    let mut mem_table = MemTable::from_wal(wal.as_bytes()).unwrap();
    let record = Record::new(RecordType::Full, key.clone(), 0, Some(value.clone()));
    wal.write(record.as_ref()).unwrap();
    mem_table.insert(record.key, record.ts, record.value);
    assert_eq!(mem_table.get(&key, 0), Some(Some(&value)));

    let file = wal.close();
    let mem_table = MemTable::from_wal(&file).unwrap();
    assert_eq!(mem_table.get(&bytes("key"), 0_u64), Some(Some(&value)));
    assert_eq!(mem_table.len(), 1);
}

#[test]
fn tombstone_is_found_as_absent_value() {
    let mut t = MemTable::new();
    t.insert(bytes("k"), 1, Some(bytes("a")));
    t.insert(bytes("k"), 3, None);
    t.insert(bytes("k"), 5, Some(bytes("c")));
    assert_eq!(t.get(&bytes("k"), 0), None);
    assert_eq!(t.get(&bytes("k"), 1), Some(Some(&bytes("a"))));
    assert_eq!(t.get(&bytes("k"), 2), Some(Some(&bytes("a"))));
    assert_eq!(t.get(&bytes("k"), 3), Some(None));
    assert_eq!(t.get(&bytes("k"), 4), Some(None));
    assert_eq!(t.get(&bytes("k"), u64::MAX), Some(Some(&bytes("c"))));
    assert_eq!(t.max_ts(), 5);
    assert_eq!(t.len(), 3);
}

#[test]
fn insert_replaces_same_version() {
    let mut t = MemTable::new();
    t.insert(bytes("k"), 7, Some(bytes("a")));
    t.insert(bytes("k"), 7, Some(bytes("b")));
    assert_eq!(t.len(), 1);
    assert_eq!(t.get(&bytes("k"), 7), Some(Some(&bytes("b"))));
    t.insert(bytes("j"), 2, None);
    assert_eq!(t.max_ts(), 7);
}

#[test]
fn table_range_is_inclusive_and_ascending() {
    let mut t = MemTable::new();
    for (k, ts, v) in [
        ("d", 1, Some("d1")),
        ("a", 1, Some("a1")),
        ("c", 2, Some("c2")),
        ("b", 1, Some("b1")),
        ("b", 2, None),
        ("c", 9, Some("c9")),
        ("ab", 1, Some("ab1")),
    ] {
        t.insert(bytes(k), ts, v.map(bytes));
    }
    let all = t.range(None, None, 2);
    assert_eq!(
        all,
        vec![
            (bytes("a"), Some(bytes("a1"))),
            (bytes("ab"), Some(bytes("ab1"))),
            (bytes("b"), None),
            (bytes("c"), Some(bytes("c2"))),
            (bytes("d"), Some(bytes("d1"))),
        ]
    );
    let some = t.range(Some(&bytes("ab")), Some(&bytes("c")), 1);
    assert_eq!(
        some,
        vec![
            (bytes("ab"), Some(bytes("ab1"))),
            (bytes("b"), Some(bytes("b1"))),
        ]
    );
    assert_eq!(t.range(Some(&bytes("e")), None, 9), vec![]);
    assert_eq!(t.range(None, Some(&bytes("a")), 0), vec![]);
    assert_eq!(
        t.range(None, Some(&bytes("a")), 1),
        vec![(bytes("a"), Some(bytes("a1")))]
    );
}

#[test]
fn replay_applies_batch_when_it_closes() {
    let rec = |t: RecordType, k: &str, ts: u64, v: Option<&str>| {
        Record::new(t, bytes(k), ts, v.map(bytes))
    };
    let mut t = MemTable::new();
    let log = vec![
        rec(RecordType::First, "a", 1, Some("batch")),
        rec(RecordType::Full, "a", 1, Some("full")),
        rec(RecordType::Middle, "b", 1, None),
        rec(RecordType::Last, "c", 4, Some("c")),
        rec(RecordType::First, "z", 9, Some("open")),
    ];
    assert_eq!(t.recover(&log), Ok(()));
    assert_eq!(t.get(&bytes("a"), 1), Some(Some(&bytes("batch"))));
    assert_eq!(t.get(&bytes("b"), 1), Some(None));
    assert_eq!(t.get(&bytes("c"), 4), Some(Some(&bytes("c"))));
    assert_eq!(t.get(&bytes("z"), 9), None);
    assert_eq!(t.max_ts(), 4);

    let mut t = MemTable::new();
    let broken = vec![
        rec(RecordType::Full, "a", 1, Some("a")),
        rec(RecordType::Middle, "b", 1, Some("b")),
        rec(RecordType::Full, "c", 1, Some("c")),
    ];
    assert_eq!(t.recover(&broken), Err(WriteError::Internal));
    assert_eq!(t.len(), 1);
    assert_eq!(t.get(&bytes("a"), 1), Some(Some(&bytes("a"))));

    let mut t = MemTable::new();
    assert_eq!(
        t.recover(&vec![rec(RecordType::Last, "a", 1, None)]),
        Err(WriteError::Internal)
    );
    let mut t = MemTable::new();
    assert_eq!(
        t.recover(&vec![
            rec(RecordType::First, "a", 1, None),
            rec(RecordType::First, "b", 1, None)
        ]),
        Err(WriteError::Internal)
    );
    assert_eq!(t.len(), 0);

    let mut wal = WalFile::new(usize::MAX);
    let k = bytes("k");
    wal.write(Record::new(RecordType::Middle, &k, 1, None)).unwrap();
    assert_eq!(
        MemTable::from_wal(wal.as_bytes()).err(),
        Some(WriteError::Internal)
    );
    assert_eq!(MemTable::default().len(), 0);
}
