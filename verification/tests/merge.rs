use elsm::consistent_hash::{jump_consistent_hash, shard_of};
use elsm::index::{find_visible, lower_bound, scan_positions, version_before, InternalKey};
use elsm::index_batch::IndexBatch;
use elsm::iterator::{merge, merge2, BufIterator, EIterator, MergeIterator};
use elsm::key::{key_order, within_bounds, KeyOrder};
use elsm::mem_table::MemTable;
use elsm::stream::level_stream::{LevelAction, LevelEvent, LevelStream};
use elsm::utils::either::Either;

fn key(s: &str) -> Vec<u8> {
    s.as_bytes().to_vec()
}

fn row(k: &str, v: Option<&str>) -> (Vec<u8>, Option<Vec<u8>>) {
    (key(k), v.map(key))
}

#[test]
fn keys_order_lexicographically() {
    assert_eq!(key_order(&key("a"), &key("b")), KeyOrder::Less);
    assert_eq!(key_order(&key("b"), &key("a")), KeyOrder::Greater);
    assert_eq!(key_order(&key("ab"), &key("ab")), KeyOrder::Equal);
    assert_eq!(key_order(&key("a"), &key("ab")), KeyOrder::Less);
    assert_eq!(key_order(&key("ab"), &key("a")), KeyOrder::Greater);
    assert_eq!(key_order(&key(""), &key("")), KeyOrder::Equal);
    assert_eq!(key_order(&key(""), &key("a")), KeyOrder::Less);
    assert_eq!(key_order(&vec![0xff], &vec![0x7f, 0xff]), KeyOrder::Greater);
    assert!(within_bounds(&key("b"), Some(&key("b")), Some(&key("b"))));
    assert!(within_bounds(&key("b"), None, None));
    assert!(!within_bounds(&key("a"), Some(&key("b")), None));
    assert!(!within_bounds(&key("c"), None, Some(&key("b"))));
}

#[test]
fn newer_versions_sort_before_older() {
    assert!(version_before(&key("a"), 2, &key("a"), 1));
    assert!(!version_before(&key("a"), 1, &key("a"), 2));
    assert!(!version_before(&key("a"), 1, &key("a"), 1));
    assert!(version_before(&key("a"), 0, &key("b"), 9));
    assert!(!version_before(&key("b"), 9, &key("a"), 0));

    let ik = |k: &str, ts: u64| InternalKey { key: key(k), ts };
    let keys = vec![ik("a", 5), ik("a", 3), ik("a", 1), ik("c", 2)];
    assert_eq!(lower_bound(&keys, &key("a"), 9), 0);
    assert_eq!(lower_bound(&keys, &key("a"), 4), 1);
    assert_eq!(lower_bound(&keys, &key("a"), 3), 1);
    assert_eq!(lower_bound(&keys, &key("a"), 0), 3);
    assert_eq!(lower_bound(&keys, &key("b"), 0), 3);
    assert_eq!(lower_bound(&keys, &key("d"), 0), 4);
    assert_eq!(find_visible(&keys, &key("a"), 4), Some(1));
    assert_eq!(find_visible(&keys, &key("a"), 0), None);
    assert_eq!(find_visible(&keys, &key("b"), 9), None);
    assert_eq!(find_visible(&keys, &key("c"), 2), Some(3));
    assert_eq!(scan_positions(&keys, None, None, 4), vec![1, 3]);
    assert_eq!(scan_positions(&keys, None, Some(&key("b")), 9), vec![0]);
    assert_eq!(scan_positions(&keys, Some(&key("b")), None, 1), vec![]);
    assert_eq!(ik("a", 5).clone().ts, 5);
}

#[test]
fn merge_takes_row_of_first_tier() {
    let high = vec![row("a", Some("h")), row("c", None)];
    let low = vec![row("a", Some("l")), row("b", Some("l")), row("c", Some("l"))];
    assert_eq!(
        merge2(&high, &low),
        vec![row("a", Some("h")), row("b", Some("l")), row("c", None)]
    );
    assert_eq!(merge2(&Vec::new(), &low), low);
    assert_eq!(merge2(&high, &Vec::new()), high);

    let lowest = vec![row("0", Some("x")), row("b", Some("x")), row("z", Some("x"))];
    let merged = merge(&vec![high.clone(), low.clone(), lowest.clone()]);
    assert_eq!(
        merged,
        vec![
            row("0", Some("x")),
            row("a", Some("h")),
            row("b", Some("l")),
            row("c", None),
            row("z", Some("x")),
        ]
    );
    assert_eq!(merge(&Vec::new()), vec![]);

    let mut iter = MergeIterator::new(vec![low, high]);
    assert_eq!(iter.try_next(), Some(row("a", Some("l"))));
    assert_eq!(iter.try_next(), Some(row("b", Some("l"))));
    assert_eq!(iter.try_next(), Some(row("c", Some("l"))));
    assert_eq!(iter.try_next(), None);
    assert_eq!(iter.try_next(), None);

    let mut buf = BufIterator::new(vec![row("q", None)]);
    assert_eq!(buf.try_next(), Some(row("q", None)));
    assert_eq!(buf.try_next(), None);
}

#[test]
fn frozen_batch_reads_like_its_table() {
    let mut table = MemTable::new();
    table.insert(key("key_1"), 0, Some(key("value_1")));
    table.insert(key("key_1"), 1, None);
    table.insert(key("key_2"), 0, None);
    table.insert(key("key_2"), 1, Some(key("value_2")));
    table.insert(key("key_3"), 4, Some(Vec::new()));
    let scan = table.range(None, None, 1);
    let batch = IndexBatch::freeze(table).unwrap();
    assert_eq!(batch.find(&key("key_1"), 0), Some(Some(key("value_1"))));
    assert_eq!(batch.find(&key("key_1"), 1), Some(None));
    assert_eq!(batch.find(&key("key_1"), 9), Some(None));
    assert_eq!(batch.find(&key("key_2"), 0), Some(None));
    assert_eq!(batch.find(&key("key_2"), 1), Some(Some(key("value_2"))));
    assert_eq!(batch.find(&key("key_3"), 3), None);
    assert_eq!(batch.find(&key("key_3"), 4), Some(Some(Vec::new())));
    assert_eq!(batch.find(&key("key_0"), 9), None);
    assert_eq!(batch.range(None, None, 1), scan);
    assert_eq!(
        batch.range(Some(&key("key_2")), Some(&key("key_3")), 4),
        vec![row("key_2", Some("value_2")), (key("key_3"), Some(Vec::new()))]
    );
    let empty = IndexBatch::freeze(MemTable::new()).unwrap();
    assert_eq!(empty.find(&key("a"), 0), None);
    assert_eq!(empty.range(None, None, 9), vec![]);
}

#[test]
fn jump_hash_known_values() {
    assert_eq!(jump_consistent_hash(1, 1), 0);
    assert_eq!(jump_consistent_hash(42, 57), 43);
    assert_eq!(jump_consistent_hash(0xDEAD10CC, 1), 0);
    assert_eq!(jump_consistent_hash(0xDEAD10CC, 666), 361);
    assert_eq!(jump_consistent_hash(256, 1024), 520);
    assert_eq!(jump_consistent_hash(0, 10), 0);
    assert_eq!(jump_consistent_hash(1, 10), 6);
    assert_eq!(jump_consistent_hash(12345678901234567890, 1024), 294);
    for buckets in 1..200u32 {
        for k in 0..50u64 {
            let now = jump_consistent_hash(k * 7919, buckets);
            let next = jump_consistent_hash(k * 7919, buckets + 1);
            assert!(now < buckets);
            assert!(next == now || next == buckets);
        }
    }
}

#[test]
fn shard_of_key_is_stable_and_in_range() {
    let mut seen = [false; 4];
    for i in 0..64 {
        let k = format!("key{i}").into_bytes();
        let s = shard_of(&k, 4);
        assert!(s < 4);
        assert_eq!(s, shard_of(&k, 4));
        assert_eq!(
            s,
            jump_consistent_hash(fxhash::hash64(&k), 4) as usize
        );
        assert_eq!(shard_of(&k, 1), 0);
        seen[s] = true;
    }
    assert_eq!(seen, [true; 4]);
}

#[test]
fn level_stream_opens_generations_in_order() {
    let (mut stream, first) = LevelStream::new::<u32>(vec![3, 5], Some(key("a")), None);
    assert!(matches!(first, LevelAction::Open(3)));
    assert_eq!(stream.bounds(), (Some(&key("a")), None));
    assert!(matches!(
        stream.poll_next(LevelEvent::Item(1)),
        LevelAction::Open(3)
    ));
    assert!(matches!(
        stream.poll_next(LevelEvent::<u32>::Opened),
        LevelAction::Read
    ));
    assert!(matches!(
        stream.poll_next(LevelEvent::Item(10)),
        LevelAction::Emit(10)
    ));
    assert!(matches!(
        stream.poll_next(LevelEvent::<u32>::Opened),
        LevelAction::Read
    ));
    assert!(matches!(
        stream.poll_next(LevelEvent::<u32>::End),
        LevelAction::Open(5)
    ));
    assert!(matches!(
        stream.poll_next(LevelEvent::<u32>::Opened),
        LevelAction::Read
    ));
    assert!(matches!(
        stream.poll_next(LevelEvent::<u32>::End),
        LevelAction::Finish
    ));
    assert!(matches!(
        stream.poll_next(LevelEvent::Item(2)),
        LevelAction::Finish
    ));

    let (mut failing, _) = LevelStream::new::<u32>(vec![1, 2], None, None);
    assert!(matches!(
        failing.poll_next(LevelEvent::<u32>::Failed),
        LevelAction::Fail
    ));
    assert!(matches!(
        failing.poll_next(LevelEvent::<u32>::Opened),
        LevelAction::Finish
    ));
    let (mut reading, _) = LevelStream::new::<u32>(vec![1, 2], None, None);
    reading.poll_next(LevelEvent::<u32>::Opened);
    assert!(matches!(
        reading.poll_next(LevelEvent::<u32>::Failed),
        LevelAction::Fail
    ));
    let (_, none) = LevelStream::new::<u32>(Vec::new(), None, None);
    assert!(matches!(none, LevelAction::Finish));
}

#[test]
fn either_holds_one_side() {
    let left: Either<u8, &str> = Either::Left(1);
    let right: Either<u8, &str> = Either::Right("r");
    assert!(matches!(left, Either::Left(1)));
    assert!(matches!(right, Either::Right("r")));
}
