use elsm::db::Db;
use elsm::iterator::EIterator;
use elsm::oracle::LocalOracle;
use elsm::record::{Record, RecordType};
use elsm::transaction::CommitError;
use elsm::user::User;
use elsm::wal::{WalFile, WriteError};
use elsm::DbOption;

fn key(s: &str) -> Vec<u8> {
    s.as_bytes().to_vec()
}

fn num(v: i32) -> Vec<u8> {
    v.to_le_bytes().to_vec()
}

fn open(max_wal_size: usize, shards: u32) -> Db {
    Db::new(
        LocalOracle::default(),
        Vec::new(),
        DbOption {
            max_wal_size,
            immutable_chunk_num: 1,
        },
        shards,
    )
    .unwrap()
}

fn frame_len(key: &Vec<u8>, ts: u64, value: Option<&Vec<u8>>) -> usize {
    let mut wal = WalFile::new(usize::MAX);
    wal.write(Record::new(RecordType::Full, key, ts, value)).unwrap();
    wal.len()
}

#[test]
fn read_committed() {
    let mut db = open(64 * 1024 * 1024, 4);

    let mut txn = db.new_txn();
    txn.set(key("key0"), num(0));
    txn.set(key("key1"), num(1));
    txn.commit(&mut db).unwrap();

    let mut t0 = db.new_txn();
    let mut t1 = db.new_txn();

    let v = t0.get(&db, &key("key1")).unwrap();
    t0.set(key("key0"), v);
    let v = t1.get(&db, &key("key0")).unwrap();
    t1.set(key("key1"), v);

    t0.commit(&mut db).unwrap();
    t1.commit(&mut db).unwrap();

    let txn = db.new_txn();

    assert_eq!(txn.get(&db, &key("key0")), Some(num(1)));
    assert_eq!(txn.get(&db, &key("key1")), Some(num(0)));
}

#[test]
fn range() {
    let mut db = open(64 * 1024 * 1024, 4);

    let mut txn = db.new_txn();
    txn.set(key("key0"), num(0));
    txn.set(key("key1"), num(1));
    txn.set(key("key2"), num(2));
    txn.set(key("key3"), num(3));
    txn.commit(&mut db).unwrap();

    let mut iter = db.range(Some(&key("key1")), Some(&key("key2")), 1);

    assert_eq!(iter.try_next(), Some((key("key1"), Some(num(1)))));
    assert_eq!(iter.try_next(), Some((key("key2"), Some(num(2)))));

    let mut txn_1 = db.new_txn();
    txn_1.set(key("key5"), num(5));
    txn_1.set(key("key4"), num(4));

    let mut txn_2 = db.new_txn();
    txn_2.set(key("key5"), num(4));
    txn_2.set(key("key4"), num(5));
    txn_2.commit(&mut db).unwrap();

    let mut iter = txn_1.range(&db, Some(&key("key1")), Some(&key("key4")));

    assert_eq!(iter.try_next(), Some((key("key1"), Some(num(1)))));
    assert_eq!(iter.try_next(), Some((key("key2"), Some(num(2)))));
    assert_eq!(iter.try_next(), Some((key("key3"), Some(num(3)))));
    assert_eq!(iter.try_next(), Some((key("key4"), Some(num(4)))));
}

#[test]
fn write_conflicts() {
    let mut db = open(64 * 1024 * 1024, 4);

    let mut txn = db.new_txn();
    txn.set(key("key0"), num(0));
    txn.set(key("key1"), num(1));
    txn.commit(&mut db).unwrap();

    let mut t0 = db.new_txn();
    let mut t1 = db.new_txn();
    let mut t2 = db.new_txn();

    let v = t0.get(&db, &key("key1")).unwrap();
    t0.set(key("key0"), v);
    let v = t1.get(&db, &key("key0")).unwrap();
    t1.set(key("key0"), v);
    t1.set(key("key2"), num(2));
    t2.set(key("key2"), num(3));

    t0.commit(&mut db).unwrap();

    let commit = t1.commit(&mut db);
    assert!(commit.is_err());
    assert!(t2.commit(&mut db).is_ok());
    if let Err(CommitError::WriteConflict(keys)) = commit {
        assert_eq!(keys, vec![key("key0")]);
        let txn = db.new_txn();
        assert_eq!(txn.get(&db, &keys[0]), Some(num(1)));
        return;
    }
    panic!("unreachable");
}

fn tombstone_visibility(max_wal_size: usize) -> Db {
    let key_1 = key("key_1");
    let key_2 = key("key_2");
    let value_1 = key("value_1");
    let value_2 = key("value_2");

    let mut db = open(max_wal_size, 1);

    db.write(RecordType::Full, key_1.clone(), 0, Some(value_1.clone()))
        .unwrap();
    db.write(RecordType::Full, key_1.clone(), 1, None).unwrap();
    db.write(RecordType::Full, key_2.clone(), 0, None).unwrap();
    db.write(RecordType::Full, key_2.clone(), 1, Some(value_2.clone()))
        .unwrap();

    assert_eq!(db.get(&key_1, 0), Some(value_1));
    assert_eq!(db.get(&key_1, 1), None);
    assert_eq!(db.get(&key_2, 0), None);
    assert_eq!(db.get(&key_2, 1), Some(value_2));
    db
}

#[test]
fn read_from_immut_table() {
    // a record with a value takes 34 bytes, a tombstone 23: no two fit
    let with_value = frame_len(&key("key_1"), 0, Some(&key("value_1")));
    let tombstone = frame_len(&key("key_1"), 1, None);
    assert_eq!(with_value, 34);
    assert_eq!(tombstone, 23);
    let db = tombstone_visibility(2 * tombstone - 1);
    assert_eq!(db.immutable_len(), 3);
}

#[test]
fn read_from_mutable_table() {
    let db = tombstone_visibility(64 * 1024 * 1024);
    assert_eq!(db.immutable_len(), 0);
}

#[test]
fn lib_recover_from_wal() {
    let mut db = open(64 * 1024 * 1024, 4);

    let mut txn = db.new_txn();
    txn.set(key("key0"), key("value0"));
    txn.set(key("key1"), key("value1"));
    txn.commit(&mut db).unwrap();

    let files = db.wal_files();
    drop(db);

    let db = Db::new(
        LocalOracle::new(),
        files,
        DbOption {
            max_wal_size: 64 * 1024 * 1024,
            immutable_chunk_num: 1,
        },
        4,
    )
    .unwrap();

    assert_eq!(db.get(&key("key0"), 1), Some(key("value0")));
    assert_eq!(db.get(&key("key1"), 1), Some(key("value1")));
    assert_eq!(db.get(&key("key0"), 0), None);
}

#[test]
fn recover_across_rotated_files() {
    let one = frame_len(&key("k0"), 1, Some(&key("v0")));
    let mut db = open(one, 2);
    for i in 0..5u64 {
        db.write(
            RecordType::Full,
            format!("k{i}").into_bytes(),
            i + 1,
            Some(format!("v{i}").into_bytes()),
        )
        .unwrap();
    }
    let files = db.wal_files();
    assert_eq!(files.len(), 5);
    assert_eq!(db.immutable_len(), 4);

    let db = Db::new(
        LocalOracle::new(),
        files,
        DbOption {
            max_wal_size: 1024,
            immutable_chunk_num: 1,
        },
        2,
    )
    .unwrap();
    for i in 0..5u64 {
        assert_eq!(
            db.get(&format!("k{i}").into_bytes(), 10),
            Some(format!("v{i}").into_bytes())
        );
        assert_eq!(db.get(&format!("k{i}").into_bytes(), i), None);
    }
}

#[test]
fn test_user() {
    let mut db = open(64 * 1024 * 1024, 4);
    let user_0 = User::new(0, "lizeren".to_string());
    let user_1 = User::new(1, "2333".to_string());
    let user_2 = User::new(2, "ghost".to_string());

    let mut t0 = db.new_txn();
    for user in [&user_0, &user_1, &user_2] {
        let mut value = Vec::new();
        user.encode(&mut value).unwrap();
        t0.set(user.primary_key().to_le_bytes().to_vec(), value);
    }
    t0.commit(&mut db).unwrap();

    let txn = db.new_txn();
    for user in [&user_0, &user_1, &user_2] {
        let value = txn
            .get(&db, &user.primary_key().to_le_bytes().to_vec())
            .unwrap();
        let (found, next) = User::decode(&value, 0).unwrap();
        assert_eq!(next, value.len());
        assert_eq!(&found, user);
    }
}

#[test]
fn write_too_large_for_any_log_is_refused() {
    let one = frame_len(&key("key"), 1, Some(&key("value")));
    let mut db = open(one - 1, 1);
    let r = db.write(RecordType::Full, key("key"), 1, Some(key("value")));
    assert_eq!(r, Err(WriteError::MaxSizeExceeded));
    assert_eq!(db.get(&key("key"), 1), None);
    assert_eq!(db.immutable_len(), 0);
    assert_eq!(db.wal_files(), vec![Vec::<u8>::new()]);
}

#[test]
fn commit_surfaces_write_error() {
    let mut db = open(8, 1);
    let mut txn = db.new_txn();
    txn.set(key("key"), key("value"));
    match txn.commit(&mut db) {
        Err(CommitError::WriteError(e)) => assert_eq!(e, WriteError::MaxSizeExceeded),
        other => panic!("{other:?}"),
    }
}

#[test]
fn rotation_keeps_edit_in_new_table_only() {
    let one = frame_len(&key("a"), 1, Some(&key("x")));
    let mut db = open(one, 1);
    db.write_to(0, RecordType::Full, key("a"), 1, Some(key("x"))).unwrap();
    assert_eq!(db.immutable_len(), 0);
    db.write_to(0, RecordType::Full, key("b"), 2, Some(key("y"))).unwrap();
    assert_eq!(db.immutable_len(), 1);
    let tiers = db.inner_range(None, None, 5);
    assert_eq!(tiers.len(), 2);
    assert_eq!(tiers[0], vec![(key("b"), Some(key("y")))]);
    assert_eq!(tiers[1], vec![(key("a"), Some(key("x")))]);
    let files = db.wal_files();
    assert_eq!(files.len(), 2);
    assert_eq!(files[0].len(), one);
    assert_eq!(files[1].len(), one);
}

#[test]
fn local_tombstone_hides_stored_value() {
    let mut db = open(1024, 2);
    let mut txn = db.new_txn();
    txn.set(key("k"), key("v"));
    txn.commit(&mut db).unwrap();

    let mut txn = db.new_txn();
    assert_eq!(txn.get(&db, &key("k")), Some(key("v")));
    txn.remove(key("k"));
    assert_eq!(txn.get(&db, &key("k")), None);
    let mut iter = txn.range(&db, None, None);
    assert_eq!(iter.try_next(), Some((key("k"), None)));
    assert_eq!(iter.try_next(), None);
    txn.commit(&mut db).unwrap();

    let txn = db.new_txn();
    assert_eq!(txn.get(&db, &key("k")), None);
    assert_eq!(db.get(&key("k"), 1), Some(key("v")));
    assert_eq!(db.get(&key("k"), 2), None);
}

#[test]
fn empty_commit_releases_read_only() {
    let mut db = open(1024, 1);
    let txn = db.new_txn();
    assert_eq!(txn.read_ts(), 0);
    txn.commit(&mut db).unwrap();
    assert_eq!(db.start_write(), 0);
    assert_eq!(db.wal_files(), vec![Vec::<u8>::new()]);
}

#[test]
fn batch_is_framed_first_middle_last() {
    let mut db = open(1024, 1);
    db.write_batch(vec![
        (key("a"), 1, Some(key("1"))),
        (key("b"), 1, None),
        (key("c"), 1, Some(key("3"))),
    ])
    .unwrap();
    db.write_batch(vec![(key("d"), 2, Some(key("4")))]).unwrap();
    db.write_batch(Vec::new()).unwrap();
    let files = db.wal_files();
    let records = elsm::wal::recover(&files[0]);
    let types: Vec<RecordType> = records.iter().map(|r| r.record_type).collect();
    assert_eq!(
        types,
        vec![
            RecordType::First,
            RecordType::Middle,
            RecordType::Last,
            RecordType::Full
        ]
    );
    assert_eq!(records[1].key, key("b"));
    assert_eq!(records[1].ts, 1);
    assert_eq!(records[1].value, None);
}
