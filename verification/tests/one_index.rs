use fast_set::one_index::{OneIndex, OneIndexBuilder, OneIndexLog, OneIndexTrx};

#[test]
fn one_index_basic() {
    let mut base: OneIndex<&str> = OneIndex::new();
    let mut log = OneIndexLog::new();
    log.insert(&base, 7, "a");
    log.insert(&base, 3, "b");
    assert!(base.apply(log));
    assert_eq!(base.get(7), Some(&"a"));
    assert_eq!(base.get(3), Some(&"b"));
    assert_eq!(base.get(4), None);
    assert_eq!(base.get(100), None);
    assert_eq!(base.len(), 2);
    assert!(!base.is_empty());

    let mut log = OneIndexLog::new();
    log.insert(&base, 7, "a");
    assert!(!base.apply(log));
    assert_eq!(base.len(), 2);
}

#[test]
fn one_index_replace_and_clear() {
    let mut base: OneIndex<String> = OneIndex::with_capacity(4);
    assert!(base.is_empty());
    let mut log = OneIndexLog::new();
    log.insert(&base, 0, "x".to_string());
    log.insert(&base, 2, "y".to_string());
    assert!(base.apply(log));
    assert_eq!(base.keys(), vec![0, 2]);

    let mut log = OneIndexLog::new();
    log.insert(&base, 2, "z".to_string());
    log.remove(&base, 0);
    log.remove(&base, 1);
    log.remove(&base, 50);
    assert_eq!(log.get(&base, 2), Some(&"z".to_string()));
    assert_eq!(log.get(&base, 0), None);
    assert_eq!(log.get(&base, 1), None);
    assert!(base.apply(log));
    assert_eq!(base.get(2), Some(&"z".to_string()));
    assert_eq!(base.get(0), None);
    assert_eq!(base.len(), 1);
    assert_eq!(base.keys(), vec![2]);
    let entries = base.iter();
    assert_eq!(entries.len(), 1);
    assert_eq!(entries[0].0, 2);
    assert_eq!(entries[0].1, "z");
}

#[test]
fn one_index_clearing_an_empty_slot_is_no_change() {
    let mut base: OneIndex<u8> = OneIndex::new();
    let mut log = OneIndexLog::new();
    log.insert(&base, 5, 1);
    assert!(base.apply(log));

    let mut log = OneIndexLog::new();
    log.remove(&base, 2);
    log.remove(&base, 9);
    assert!(!base.apply(log));
    assert_eq!(base.len(), 1);

    // set and then cleared in one log: the base never had it
    let mut log = OneIndexLog::new();
    log.insert(&base, 3, 4);
    log.remove(&base, 3);
    assert_eq!(log.get(&base, 3), None);
    assert!(!base.apply(log));
    assert_eq!(base.get(3), None);
}

#[test]
fn one_index_empty_log() {
    let mut base: OneIndex<u8> = OneIndex::default();
    assert!(!base.apply(OneIndexLog::new()));
    assert!(!base.apply(OneIndexLog::default()));
    assert!(base.is_empty());
    assert_eq!(base.len(), 0);
    assert!(base.iter().is_empty());
}

#[test]
fn one_index_view_reads_like_the_applied_base() {
    let mut base: OneIndex<u32> = OneIndex::new();
    let mut log = OneIndexLog::new();
    log.insert(&base, 1, 10);
    log.insert(&base, 4, 40);
    assert!(base.apply(log));

    let mut log = OneIndexLog::new();
    log.insert(&base, 4, 41);
    log.insert(&base, 6, 60);
    log.remove(&base, 1);
    let expected: Vec<Option<u32>> = {
        let trx = OneIndexTrx::new(&base, &log);
        (0..8).map(|k| trx.get(k).copied()).collect()
    };
    assert_eq!(expected, vec![None, None, None, None, Some(41), None, Some(60), None]);
    assert!(base.apply(log));
    let got: Vec<Option<u32>> = (0..8).map(|k| base.get(k).copied()).collect();
    assert_eq!(got, expected);
    assert_eq!(base.len(), 2);
}

#[test]
fn one_index_builder() {
    let mut b = OneIndexBuilder::new();
    b.insert(2, 'x');
    b.insert(0, 'y');
    b.insert(2, 'z');
    let idx = b.build();
    assert_eq!(idx.get(2), Some(&'z'));
    assert_eq!(idx.get(0), Some(&'y'));
    assert_eq!(idx.len(), 2);
    assert_eq!(idx.keys(), vec![0, 2]);
}
