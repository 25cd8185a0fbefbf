use fast_set::int_set::IntSet;
use fast_set::tree::{CycleError, Tree, TreeLog, TreeTrx};

/* ---------- helpers ---------- */
fn collect_children(log: &TreeLog, base: &Tree, node: u32) -> Vec<u32> {
    log.children_with_self(base, node).iter()
}

fn collect_descendants(log: &TreeLog, base: &Tree, node: u32) -> Vec<u32> {
    log.descendants_with_self(base, node).iter()
}

fn set(values: &[u32]) -> IntSet {
    IntSet::from_slice(values)
}

/* ---------- basic insert & remove ---------- */
#[test]
fn tree_simple_insert_remove() {
    let mut log = TreeLog::new();
    let base = Tree::new();

    log.insert(&base, None, 1);
    log.insert(&base, Some(1), 2);

    assert_eq!(collect_children(&log, &base, 1), vec![1, 2]);
    assert_eq!(collect_descendants(&log, &base, 1), vec![1, 2]);
    assert_eq!(log.parent(&base, 2), Some(1));

    log.remove(&base, 2);
    assert_eq!(collect_children(&log, &base, 1), vec![1]);
    assert_eq!(collect_descendants(&log, &base, 1), vec![1]);
    assert_eq!(log.parent(&base, 2), None);
}

/* ---------- deep subtree ---------- */
#[test]
fn deep_tree() {
    let mut log = TreeLog::new();
    let base = Tree::new();

    // 0 → 1 → 2 → 3 → 4
    log.insert(&base, None, 0);
    log.insert(&base, Some(0), 1);
    log.insert(&base, Some(1), 2);
    log.insert(&base, Some(2), 3);
    log.insert(&base, Some(3), 4);

    assert_eq!(log.depth(&base, 4).unwrap(), 5);
    assert_eq!(collect_descendants(&log, &base, 0), vec![0, 1, 2, 3, 4]);

    log.remove(&base, 2); // removes 2,3,4
    assert_eq!(collect_descendants(&log, &base, 0), vec![0, 1]);
    assert_eq!(log.depth(&base, 1).unwrap(), 2);
}

/* ---------- cycle detection ---------- */
#[test]
fn detect_cycle() {
    let mut log = TreeLog::new();
    let base = Tree::new();

    log.insert(&base, None, 1);
    log.insert(&base, Some(1), 2);
    log.insert(&base, Some(2), 3);

    // create 3 → 1 cycle
    log.insert(&base, Some(3), 1);

    assert!(log.has_cycle(&base, 1));
    assert!(log.has_cycle(&base, 2));
    assert!(log.has_cycle(&base, 3));

    // depth must error on any node in the cycle
    assert!(log.depth(&base, 1).is_err());
    assert!(log.depth(&base, 2).is_err());
    assert!(log.depth(&base, 3).is_err());

    // break the cycle
    log.remove(&base, 3);
    assert!(!log.has_cycle(&base, 1));
    assert!(log.depth(&base, 3).is_ok());
}

/* ---------- apply round-trip ---------- */
#[test]
fn apply_round_trip() {
    let base = Tree::new();
    let mut log = TreeLog::new();

    log.insert(&base, None, 5);
    log.insert(&base, Some(5), 6);
    log.insert(&base, Some(5), 7);

    let mut other = Tree::new();
    assert!(other.apply(log.clone()));

    assert_eq!(collect_children(&log, &other, 5), vec![5, 6, 7]);
    assert_eq!(collect_descendants(&log, &other, 5), vec![5, 6, 7]);
}

/* ---------- reparenting ---------- */
#[test]
fn reparent_moves_the_subtree() {
    let base = Tree::new();
    let mut log = TreeLog::new();
    log.insert(&base, None, 1);
    log.insert(&base, Some(1), 2);
    log.insert(&base, Some(2), 3);
    assert_eq!(log.depth(&base, 3), Ok(3));

    log.insert(&base, Some(1), 3);
    assert_eq!(log.parent(&base, 3), Some(1));
    assert!(*log.children(&base, 1) == set(&[2, 3]));
    assert!(*log.descendants(&base, 1) == set(&[2, 3]));
    assert!(log.descendants(&base, 2).is_empty());
    assert!(log.children(&base, 2).is_empty());
    assert_eq!(log.depth(&base, 3), Ok(2));
    assert!(log.is_descendant_of(&base, 3, 1));
    assert!(!log.is_descendant_of(&base, 3, 2));
}

#[test]
fn reparent_carries_descendants_along() {
    // 1 → 2 → 3 → 4 and 5 apart; move 2 under 5
    let base = Tree::new();
    let mut log = TreeLog::new();
    log.insert(&base, None, 1);
    log.insert(&base, Some(1), 2);
    log.insert(&base, Some(2), 3);
    log.insert(&base, Some(3), 4);
    log.insert(&base, None, 5);
    log.insert(&base, Some(5), 2);

    assert!(log.descendants(&base, 1).is_empty());
    assert!(log.children(&base, 1).is_empty());
    assert!(*log.descendants(&base, 5) == set(&[2, 3, 4]));
    assert!(*log.children(&base, 5) == set(&[2]));
    assert!(*log.descendants(&base, 2) == set(&[3, 4]));
    assert!(*log.descendants(&base, 3) == set(&[4]));
    assert_eq!(log.parent(&base, 3), Some(2));
    assert_eq!(log.depth(&base, 4), Ok(4));
    assert_eq!(log.cycles(&base).len(), 0);
}

#[test]
fn insert_with_the_same_parent_changes_nothing() {
    let mut base = Tree::new();
    let mut log = TreeLog::new();
    log.insert(&base, None, 1);
    log.insert(&base, Some(1), 2);
    assert!(base.apply(log));

    let mut again = TreeLog::new();
    again.insert(&base, Some(1), 2);
    assert!(!base.apply(again));
}

/* ---------- cycles ---------- */
#[test]
fn cycle_is_marked_and_depth_fails() {
    let base = Tree::new();
    let mut log = TreeLog::new();
    log.insert(&base, None, 1);
    log.insert(&base, Some(1), 2);
    log.insert(&base, Some(2), 3);
    log.insert(&base, Some(3), 1);

    assert!(log.has_cycle(&base, 1));
    assert!(log.has_cycle(&base, 2));
    assert!(log.has_cycle(&base, 3));
    assert_eq!(log.depth(&base, 1), Err(CycleError(1)));
    assert_eq!(log.depth(&base, 2), Err(CycleError(2)));

    log.remove(&base, 3);
    assert!(!log.has_cycle(&base, 1));
    assert!(!log.has_cycle(&base, 2));
    assert!(!log.has_cycle(&base, 3));
    // 1 still hangs below 3, which has become a root
    assert_eq!(log.parent(&base, 1), Some(3));
    assert_eq!(log.parent(&base, 3), None);
    assert_eq!(log.depth(&base, 1), Ok(2));
    assert_eq!(log.depth(&base, 3), Ok(1));
}

#[test]
fn tail_of_a_cycle_is_not_marked_but_its_depth_fails() {
    // 4 hangs below the cycle 1 → 2 → 3 → 1
    let base = Tree::new();
    let mut log = TreeLog::new();
    log.insert(&base, Some(1), 2);
    log.insert(&base, Some(2), 3);
    log.insert(&base, Some(3), 4);
    log.insert(&base, Some(3), 1);
    assert!(log.has_cycle(&base, 1));
    assert!(!log.has_cycle(&base, 4));
    assert_eq!(log.depth(&base, 4), Err(CycleError(3)));
}

#[test]
fn self_parent_is_a_cycle() {
    let base = Tree::new();
    let mut log = TreeLog::new();
    log.insert(&base, Some(7), 7);
    assert!(log.has_cycle(&base, 7));
    assert_eq!(log.parent(&base, 7), Some(7));
    assert_eq!(log.depth(&base, 7), Err(CycleError(7)));
    assert_eq!(log.cycles(&base).to_vec(), vec![7]);
}

#[test]
fn remove_recomputes_marks_over_the_committed_tree() {
    let mut base = Tree::new();
    let mut log = TreeLog::new();
    log.insert(&base, Some(1), 2);
    log.insert(&base, Some(2), 1);
    log.insert(&base, None, 9);
    assert!(base.apply(log));
    assert_eq!(base.cycles(), vec![1, 2]);

    // removing an unrelated node keeps the marks of the committed cycle
    let mut next = TreeLog::new();
    next.remove(&base, 9);
    assert!(next.has_cycle(&base, 1));
    assert!(next.has_cycle(&base, 2));
    assert!(!next.has_cycle(&base, 9));
}

/* ---------- walks ---------- */
#[test]
fn ancestors_walk_up_to_the_root() {
    let base = Tree::new();
    let mut log = TreeLog::new();
    log.insert(&base, None, 1);
    log.insert(&base, Some(1), 2);
    log.insert(&base, Some(2), 3);

    let mut it = log.ancestors_with_self(&base, 3);
    assert_eq!(it.next(), Some(3));
    assert_eq!(it.next(), Some(2));
    assert_eq!(it.next(), Some(1));
    assert_eq!(it.next(), None);
    assert_eq!(it.next(), None);

    let mut it = log.ancestors(&base, 3);
    assert_eq!(it.next(), Some(2));
    assert_eq!(it.next(), Some(1));
    assert_eq!(it.next(), None);
}

#[test]
fn ancestors_stop_after_a_marked_node() {
    let mut base = Tree::new();
    let mut log = TreeLog::new();
    log.insert(&base, Some(1), 2);
    log.insert(&base, Some(2), 3);
    log.insert(&base, Some(3), 1);
    log.insert(&base, Some(3), 4);
    let mut it = log.ancestors_with_self(&base, 4);
    assert_eq!(it.next(), Some(4));
    assert_eq!(it.next(), Some(3));
    assert_eq!(it.next(), None);

    assert!(base.apply(log));
    let mut it = base.ancestors_with_self(4);
    assert_eq!(it.next(), Some(4));
    assert_eq!(it.next(), Some(3));
    assert_eq!(it.next(), None);
    let mut it = base.ancestors(4);
    assert_eq!(it.next(), Some(3));
    assert_eq!(it.next(), None);
}

#[test]
fn items_view_counts_the_node_itself() {
    let base = Tree::new();
    let mut log = TreeLog::new();
    log.insert(&base, Some(1), 2);
    log.insert(&base, Some(1), 3);
    let view = log.children_with_self(&base, 1);
    assert!(view.contains(1));
    assert!(view.contains(3));
    assert!(!view.contains(4));
    assert!(!view.is_empty());
    assert_eq!(view.len(), 3);
    assert_eq!(view.iter(), vec![1, 2, 3]);
    assert!(view.to_bitmap() == set(&[1, 2, 3]));
    let lone = log.descendants_with_self(&base, 8);
    assert_eq!(lone.len(), 1);
    assert_eq!(lone.iter(), vec![8]);
}

/* ---------- the committed tree ---------- */
#[test]
fn committed_tree_answers_like_the_log() {
    let mut base = Tree::new();
    let mut log = TreeLog::new();
    log.insert(&base, None, 1);
    log.insert(&base, Some(1), 2);
    log.insert(&base, Some(2), 3);
    log.insert(&base, Some(1), 4);
    log.remove(&base, 4);
    let staged = log.clone();
    let before = base.clone();
    assert!(base.apply(log));

    for n in 0..6u32 {
        assert_eq!(base.parent(n), staged.parent(&before, n));
        assert!(*base.children(n) == *staged.children(&before, n));
        assert!(*base.descendants(n) == *staged.descendants(&before, n));
        assert_eq!(base.has_cycle(n), staged.has_cycle(&before, n));
        assert_eq!(base.depth(n), staged.depth(&before, n));
        assert_eq!(base.is_descendant_of(n, 1), staged.is_descendant_of(&before, n, 1));
    }
    assert_eq!(base.depth(3), Ok(3));
    assert_eq!(base.children_with_self(1).iter(), vec![1, 2]);
    assert_eq!(base.descendants_with_self(1).iter(), vec![1, 2, 3]);
}

#[test]
fn applying_an_empty_log_changes_nothing() {
    let mut base = Tree::new();
    let mut log = TreeLog::new();
    log.insert(&base, Some(1), 2);
    assert!(base.apply(log));
    assert!(!base.apply(TreeLog::new()));
    assert!(!base.apply(TreeLog::default()));
    assert_eq!(base.parent(2), Some(1));
    assert!(*base.children(1) == set(&[2]));
}

#[test]
fn apply_reports_a_replaced_parent() {
    let mut base = Tree::new();
    let mut log = TreeLog::new();
    log.insert(&base, Some(1), 3);
    log.insert(&base, None, 2);
    assert!(base.apply(log));

    let mut log = TreeLog::new();
    log.insert(&base, Some(2), 3);
    assert!(base.apply(log));
    assert_eq!(base.parent(3), Some(2));
    assert!(base.children(1).is_empty());
    assert!(*base.children(2) == set(&[3]));
}

#[test]
fn apply_drops_children_that_became_empty() {
    let mut base = Tree::new();
    let mut log = TreeLog::new();
    log.insert(&base, Some(1), 2);
    assert!(base.apply(log));

    let mut log = TreeLog::new();
    log.remove(&base, 2);
    assert!(base.apply(log));
    assert_eq!(base.parent(2), None);
    assert!(base.children(1).is_empty());
    assert!(base.descendants(1).is_empty());

    // restoring what the base holds is no change
    let mut log = TreeLog::new();
    log.remove(&base, 2);
    assert!(!base.apply(log));
}

#[test]
fn closure_and_parent_links_hold_after_edits() {
    let base = Tree::new();
    let mut log = TreeLog::new();
    log.insert(&base, None, 1);
    log.insert(&base, Some(1), 2);
    log.insert(&base, Some(1), 3);
    log.insert(&base, Some(2), 4);
    log.insert(&base, Some(4), 5);
    log.insert(&base, Some(3), 4);
    log.insert(&base, Some(5), 6);
    log.remove(&base, 6);

    for p in 0..8u32 {
        // descendants(p) is the union of {c} ∪ descendants(c) over the children
        let mut expected = IntSet::new();
        for c in log.children(&base, p).to_vec() {
            expected.insert(c);
            expected.union_with(log.descendants(&base, c));
        }
        assert!(expected == *log.descendants(&base, p));
        // q is a child of p exactly when p is the parent of q
        for q in 0..8u32 {
            assert_eq!(log.children(&base, p).contains(q), log.parent(&base, q) == Some(p));
        }
    }
    assert!(*log.descendants(&base, 3) == set(&[4, 5]));
    assert!(*log.descendants(&base, 1) == set(&[2, 3, 4, 5]));
}

#[test]
fn new_trees_are_empty() {
    let t = Tree::default();
    assert_eq!(t.parent(1), None);
    assert!(t.children(1).is_empty());
    assert!(t.cycles().is_empty());
    assert_eq!(t.depth(1), Ok(1));
}

#[test]
fn all_nodes_lists_every_node_mentioned() {
    let mut base = Tree::new();
    assert!(base.all_nodes().is_empty());
    let mut log = TreeLog::new();
    log.insert(&base, None, 1);
    log.insert(&base, Some(1), 2);
    log.insert(&base, Some(2), 3);
    log.insert(&base, Some(9), 8);
    assert!(base.apply(log));
    assert_eq!(base.all_nodes().to_vec(), vec![1, 2, 3, 8, 9]);
}

#[test]
fn transaction_view_reads_through() {
    let mut base = Tree::new();
    let mut log = TreeLog::new();
    log.insert(&base, None, 1);
    log.insert(&base, Some(1), 2);
    assert!(base.apply(log));

    let mut log = TreeLog::new();
    log.insert(&base, Some(2), 3);
    log.insert(&base, Some(3), 3 + 1);
    let trx = TreeTrx::new(&base, &log);
    assert_eq!(trx.parent(3), Some(2));
    assert_eq!(trx.parent(2), Some(1));
    assert_eq!(trx.parent(1), None);
    assert_eq!(trx.children(2).to_vec(), vec![3]);
    assert_eq!(trx.children_with_self(1).iter(), vec![1, 2]);
    assert_eq!(trx.descendants(1).to_vec(), vec![2, 3, 4]);
    assert_eq!(trx.descendants_with_self(2).iter(), vec![2, 3, 4]);
    assert!(trx.is_descendant_of(4, 1));
    assert!(!trx.is_descendant_of(1, 4));
    assert!(!trx.has_cycle(1));
    assert!(trx.cycles().is_empty());
    assert_eq!(trx.depth(4), Ok(4));
    let mut up = trx.ancestors(4);
    assert_eq!(up.next(), Some(3));
    assert_eq!(up.next(), Some(2));
    assert_eq!(up.next(), Some(1));
    assert_eq!(up.next(), None);
    let mut up = trx.ancestors_with_self(1);
    assert_eq!(up.next(), Some(1));
    assert_eq!(up.next(), None);
}
