use fast_set::flat_set_index::{
    FlatSetIndex, FlatSetIndexBuilder, FlatSetIndexLog, FlatSetIndexTrx,
};
use fast_set::int_set::IntSet;
use rand::rngs::StdRng;
use rand::{Rng, SeedableRng};

/* ---------- helpers ---------- */

fn bitmap(vals: &[u32]) -> IntSet {
    IntSet::from_slice(vals)
}

/* ---------- basic consistency ---------- */

#[test]
fn empty_index_is_consistent() {
    let idx = FlatSetIndex::new();
    assert!(idx.none().is_empty());
    assert!(idx.keys().is_empty());
}

#[test]
fn insert_and_contains() {
    let mut builder = FlatSetIndexBuilder::new();
    assert!(builder.insert(1, 10));
    assert!(builder.insert(1, 20));
    assert!(!builder.insert(1, 10)); // duplicate
    assert!(builder.insert_none(30));

    let idx = builder.build();
    assert!(idx.contains(&1, 10));
    assert!(idx.contains(&1, 20));
    assert!(!idx.contains(&1, 30));
    assert!(idx.contains_none(30));
}

#[test]
fn union_difference_sequence() {
    let mut builder = FlatSetIndexBuilder::new();
    builder.union(1, &bitmap(&[1, 2, 3]));
    builder.difference(1, &bitmap(&[2]));
    builder.union_none(&bitmap(&[4, 5]));

    let idx = builder.build();
    assert!(idx.contains(&1, 1));
    assert!(idx.contains(&1, 3));
    assert!(!idx.contains(&1, 2));
    assert!(idx.contains_none(4));
    assert!(idx.contains_none(5));
}

#[test]
fn intersection_makes_empty() {
    let mut builder = FlatSetIndexBuilder::new();
    builder.union(1, &bitmap(&[1, 2, 3]));
    builder.intersection(1, &bitmap(&[2, 3, 4]));
    let idx = builder.build();
    assert!(!idx.contains(&1, 1));
    assert!(idx.contains(&1, 2));
    assert!(idx.contains(&1, 3));
}

#[test]
fn remove_and_reapply() {
    let mut builder = FlatSetIndexBuilder::new();
    builder.union(1, &bitmap(&[1, 2, 3]));
    builder.remove(1, 2);
    builder.remove(1, 99); // non-existent
    let idx = builder.build();
    assert!(idx.contains(&1, 1));
    assert!(!idx.contains(&1, 2));
    assert!(idx.contains(&1, 3));
    assert_eq!(idx.get(&1).len(), 2);
}

#[test]
fn large_random_sequence() {
    let mut rng = StdRng::seed_from_u64(0xC0FFEE);
    let mut builder = FlatSetIndexBuilder::with_capacity(100);

    // 100 random mutations
    for _ in 0..100 {
        let key = rng.random_range(0..50);
        let val = rng.random_range(0..1_000);
        match rng.random_range(0..4) {
            0 => {
                builder.insert(key, val);
            }
            1 => {
                builder.remove(key, val);
            }
            2 => {
                builder.union(key, &bitmap(&[val, val + 1, val + 2]));
            }
            3 => {
                builder.difference(key, &bitmap(&[val]));
            }
            _ => unreachable!(),
        };
    }

    // ensure the log applies cleanly
    let idx = builder.build();
    for k in 0..50 {
        let rb: IntSet = idx.get(&k).clone();
        for v in rb.iter() {
            assert!(idx.contains(&k, v));
        }
    }
}

/* ---------- log-only consistency ---------- */

#[test]
fn log_operations_are_consistent() {
    let base = FlatSetIndex::new();
    let mut log = FlatSetIndexLog::new();

    assert!(log.insert(&base, 1, 10));
    assert!(!log.insert(&base, 1, 10)); // duplicate
    assert!(log.insert_none(&base, 20));

    // log queries mirror the final index
    assert!(log.contains(&base, &1, 10));
    assert!(!log.contains(&base, &1, 15));
    assert!(log.contains_none(&base, 20));
}

/* ---------- the none bucket ---------- */

#[test]
fn none_bucket_union_then_difference() {
    let mut builder = FlatSetIndexBuilder::new();
    builder.union_none(&bitmap(&[4, 5]));
    builder.difference_none(&bitmap(&[5]));
    let idx = builder.build();
    assert!(idx.contains_none(4));
    assert!(!idx.contains_none(5));
    assert_eq!(idx.none().to_vec(), vec![4]);
}

#[test]
fn none_bucket_operations() {
    let mut base = FlatSetIndex::new();
    let mut log = FlatSetIndexLog::new();
    assert!(log.insert_none(&base, 1));
    assert!(!log.insert_none(&base, 1));
    log.union_none(&base, &bitmap(&[2, 3]));
    log.intersection_none(&base, &bitmap(&[1, 3, 9]));
    assert_eq!(log.none(&base).to_vec(), vec![1, 3]);
    assert!(log.remove_none(&base, 3));
    assert!(!log.remove_none(&base, 3));
    assert!(base.apply(log));
    assert_eq!(base.none().to_vec(), vec![1]);

    // emptied, the bucket is still there
    let mut log = FlatSetIndexLog::new();
    assert!(log.remove_none(&base, 1));
    assert!(base.apply(log));
    assert!(base.none().is_empty());
    assert!(!base.contains_none(1));
}

/* ---------- apply ---------- */

#[test]
fn flat_apply_reports_changes_only() {
    let mut base = FlatSetIndex::new();
    let mut log = FlatSetIndexLog::new();
    log.union(&base, 1, &bitmap(&[1, 2]));
    log.insert_none(&base, 7);
    assert!(base.apply(log));

    // the same values again
    let mut log = FlatSetIndexLog::new();
    log.union(&base, 1, &bitmap(&[1, 2]));
    log.insert_none(&base, 7);
    log.insert(&base, 1, 2);
    log.remove(&base, 5, 1);
    assert!(!base.apply(log));

    // added and taken away again
    let mut log = FlatSetIndexLog::new();
    log.insert(&base, 1, 3);
    log.remove(&base, 1, 3);
    log.insert(&base, 8, 3);
    log.remove(&base, 8, 3);
    assert!(!base.apply(log));
    assert_eq!(base.keys(), vec![1]);

    // an empty log
    assert!(!base.apply(FlatSetIndexLog::new()));
    assert!(!base.apply(FlatSetIndexLog::default()));
    assert_eq!(base.get(&1).to_vec(), vec![1, 2]);
}

#[test]
fn flat_apply_removes_keys_that_became_empty() {
    let mut base = FlatSetIndex::with_capacity(8);
    let mut log = FlatSetIndexLog::with_capacity(8);
    log.union(&base, 1, &bitmap(&[1, 2]));
    log.union(&base, 2, &bitmap(&[3]));
    assert!(base.apply(log));
    let mut keys = base.keys();
    keys.sort();
    assert_eq!(keys, vec![1, 2]);

    let mut log = FlatSetIndexLog::new();
    log.difference(&base, 1, &bitmap(&[1, 2, 3]));
    assert!(base.apply(log));
    assert_eq!(base.keys(), vec![2]);
    assert!(base.get(&1).is_empty());
    assert!(!base.contains(&1, 1));
    let entries = base.iter();
    assert_eq!(entries.len(), 1);
    assert_eq!(entries[0].0, 2);
    assert_eq!(entries[0].1.to_vec(), vec![3]);
}

#[test]
fn flat_view_reads_like_the_applied_base() {
    let mut base = FlatSetIndex::new();
    let mut log = FlatSetIndexLog::new();
    log.union(&base, 1, &bitmap(&[1, 2, 3]));
    log.union(&base, 2, &bitmap(&[9]));
    log.union_none(&base, &bitmap(&[5]));
    assert!(base.apply(log));

    let mut log = FlatSetIndexLog::new();
    log.intersection(&base, 1, &bitmap(&[2, 3, 4]));
    log.remove(&base, 2, 9);
    log.insert(&base, 3, 30);
    log.insert_none(&base, 6);
    let mut seen: Vec<Vec<u32>> = Vec::new();
    let none_seen;
    {
        let trx = FlatSetIndexTrx::new(&base, &log);
        for k in 0..5 {
            seen.push(trx.get(k).to_vec());
            for v in 0..40 {
                assert_eq!(trx.contains(k, v), trx.get(k).contains(v));
            }
        }
        none_seen = trx.none().to_vec();
        assert!(trx.contains_none(6));
        assert!(!trx.contains_none(7));
    }
    assert_eq!(seen, vec![vec![], vec![2, 3], vec![], vec![30], vec![]]);
    assert_eq!(none_seen, vec![5, 6]);

    assert!(base.apply(log));
    for k in 0..5u32 {
        assert_eq!(base.get(&k).to_vec(), seen[k as usize]);
    }
    assert_eq!(base.none().to_vec(), none_seen);
    assert_eq!(base.values().to_vec(), vec![2, 3, 5, 6, 30]);
    assert!(base.clone().values() == base.values());
}
