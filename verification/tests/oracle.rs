use elsm::oracle::{contains_key, LocalOracle};

fn key(s: &str) -> Vec<u8> {
    s.as_bytes().to_vec()
}

#[test]
fn timestamps_advance_by_one() {
    let mut oracle = LocalOracle::new();
    assert_eq!(oracle.start_read(), 0);
    assert_eq!(oracle.start_write(), 0);
    assert_eq!(oracle.tick(), 1);
    assert_eq!(oracle.tick(), 2);
    assert_eq!(oracle.start_read(), 2);
    assert_eq!(oracle.start_write(), 2);
    oracle.read_commit(0);
    oracle.read_commit(2);
    oracle.read_commit(2);
    assert_eq!(oracle.start_read(), 2);
}

#[test]
fn disjoint_write_sets_both_commit() {
    let mut oracle = LocalOracle::new();
    let r0 = oracle.start_read();
    let r1 = oracle.start_read();
    assert_eq!(r0, r1);
    let w0 = oracle.tick();
    assert!(oracle.write_commit(r0, w0, vec![key("a"), key("b")]).is_ok());
    let w1 = oracle.tick();
    assert!(oracle.write_commit(r1, w1, vec![key("c")]).is_ok());
}

#[test]
fn overlapping_write_sets_conflict_on_common_keys() {
    let mut oracle = LocalOracle::new();
    let r0 = oracle.start_read();
    let r1 = oracle.start_read();
    let w0 = oracle.tick();
    assert!(oracle
        .write_commit(r0, w0, vec![key("a"), key("b"), key("c")])
        .is_ok());
    let w1 = oracle.tick();
    let conflict = oracle
        .write_commit(r1, w1, vec![key("c"), key("x"), key("a")])
        .unwrap_err();
    assert_eq!(conflict.to_keys(), vec![key("c"), key("a")]);
    // the refused commit left no trace
    let r2 = oracle.start_read();
    let w2 = oracle.tick();
    assert!(oracle.write_commit(r2, w2, vec![key("x")]).is_ok());
}

#[test]
fn conflict_window_is_open_below_and_closed_above() {
    let mut oracle = LocalOracle::new();
    assert!(oracle.write_commit(0, 5, vec![key("k")]).is_ok());
    assert!(oracle.is_conflicting(4, 5, &key("k")));
    assert!(oracle.is_conflicting(0, 9, &key("k")));
    assert!(!oracle.is_conflicting(5, 9, &key("k")));
    assert!(!oracle.is_conflicting(0, 4, &key("k")));
    assert!(!oracle.is_conflicting(0, 9, &key("j")));
    assert!(oracle.write_commit(5, 6, vec![key("k")]).is_ok());
    assert!(oracle.write_commit(4, 7, vec![key("k")]).is_err());
}

#[test]
fn key_membership() {
    let keys = vec![key("a"), key("bb")];
    assert!(contains_key(&keys, &key("bb")));
    assert!(!contains_key(&keys, &key("b")));
    assert!(!contains_key(&Vec::new(), &key("a")));
}

#[test]
fn gc_drops_commits_older_than_every_live_read() {
    let mut oracle = LocalOracle::new();
    for ts in 1..=4u64 {
        assert_eq!(oracle.tick(), ts);
        assert!(oracle.write_commit(ts - 1, ts, vec![key("k")]).is_ok());
    }
    // without a live read nothing is dropped
    oracle.gc();
    assert!(oracle.is_conflicting(0, 1, &key("k")));

    oracle.tick();
    let late = oracle.start_read();
    assert_eq!(late, 5);
    oracle.read_commit(late);
    oracle.tick();
    oracle.write_commit(3, 6, vec![key("k")]).unwrap_err();
    oracle.write_commit(4, 6, vec![key("k")]).unwrap();

    let mut oracle = LocalOracle::new();
    for ts in 1..=4u64 {
        oracle.tick();
        oracle.write_commit(ts - 1, ts, vec![key("k")]).unwrap();
    }
    // reads at 4, then one more commit at 5
    let a = oracle.start_read();
    let b = oracle.start_read();
    assert_eq!((a, b), (4, 4));
    oracle.tick();
    oracle.write_commit(4, 5, vec![key("z")]).unwrap();
    oracle.gc();
    // commits at 1, 2, 3 are gone, those at 4 and 5 stay
    assert!(!oracle.is_conflicting(0, 3, &key("k")));
    assert!(oracle.is_conflicting(3, 4, &key("k")));
    assert!(oracle.is_conflicting(4, 5, &key("z")));
    // a commit that read at the floor is validated as before
    assert!(oracle.write_commit(a, 6, vec![key("k")]).is_ok());
    assert!(oracle.write_commit(b, 7, vec![key("z")]).is_err());
}
