use fast_set::int_set::IntSet;
use fast_set::node_set_index::{
    DetachedSubtree, NodeSetIndex, NodeSetIndexBuilder, NodeSetIndexLog, NodeSetIndexTrx,
};
use fast_set::tree::{Tree, TreeLog};
use std::collections::HashSet;

/* ---------- helper utilities ---------- */
fn collect_log(log: &NodeSetIndexLog, base: &NodeSetIndex, n: u32) -> HashSet<u32> {
    log.subtree_items(base, n).iter().into_iter().collect()
}

/// Panics if any invariant is broken.
fn check_invariants(base: &NodeSetIndex, log: &NodeSetIndexLog, tree: &Tree, log_tree: &TreeLog) {
    // collect every node that exists in the tree (root = 0 is *not* guaranteed)
    let all_nodes: IntSet = {
        let mut b = IntSet::new();
        // walk the tree and collect every reachable id
        let mut stack = vec![];
        for r in tree.children(0).iter() {
            stack.push(r);
        }
        while let Some(n) = stack.pop() {
            b.insert(n);
            stack.extend(tree.children(n).iter());
        }
        b
    };

    for node in all_nodes.iter() {
        let mut expected = HashSet::new();
        // union of direct_items(d) for every descendant d of node
        for d in log_tree.descendants_with_self(tree, node).iter() {
            expected.extend(log.direct_items(base, d).iter());
        }

        let actual = collect_log(log, base, node);
        assert_eq!(expected, actual, "subtree invariant violated for node {node}");
    }
}

/// The subtree set of every node is the union of what is attached in its subtree.
fn check_coverage(
    base: &NodeSetIndex,
    log: &NodeSetIndexLog,
    tree: &Tree,
    log_tree: &TreeLog,
    nodes: &[u32],
) {
    for &node in nodes {
        let mut expected = IntSet::new();
        for d in log_tree.descendants_with_self(tree, node).iter() {
            expected.union_with(log.direct_items(base, d));
        }
        assert!(expected == *log.subtree_items(base, node), "coverage broken at {node}");
    }
}

/* ---------- tests ---------- */

#[test]
fn node_set_index_simple_insert_remove() {
    let base_tree = Tree::new();
    let mut log_tree = TreeLog::new();
    let mut log = NodeSetIndexLog::new();
    let base = NodeSetIndex::new();

    log_tree.insert(&base_tree, None, 1);
    log_tree.insert(&base_tree, Some(1), 2);
    log_tree.insert(&base_tree, Some(2), 3);

    log.insert(&base, &base_tree, &log_tree, 3, 42);
    check_invariants(&base, &log, &base_tree, &log_tree);

    log.insert(&base, &base_tree, &log_tree, 2, 43);
    check_invariants(&base, &log, &base_tree, &log_tree);

    log.remove(&base, &base_tree, &log_tree, 2, 43);
    check_invariants(&base, &log, &base_tree, &log_tree);
}

#[test]
fn remove_insert_subtree() {
    let base_tree = Tree::new();
    let mut log_tree = TreeLog::new();
    let mut log = NodeSetIndexLog::new();
    let base = NodeSetIndex::new();

    // 1 → 2 → 3
    log_tree.insert(&base_tree, None, 1);
    log_tree.insert(&base_tree, Some(1), 2);
    log_tree.insert(&base_tree, Some(2), 3);

    log.insert(&base, &base_tree, &log_tree, 3, 100);
    log.insert(&base, &base_tree, &log_tree, 2, 101);
    check_invariants(&base, &log, &base_tree, &log_tree);

    // detach 2..=3
    let snap = log.remove_subtree(&base, &base_tree, &log_tree, 2);
    check_invariants(&base, &log, &base_tree, &log_tree);

    // move tree: 1 → 4 → 2 → 3
    log_tree.insert(&base_tree, Some(1), 4);
    log_tree.insert(&base_tree, Some(4), 2); // re-attach 2 under 4

    log.insert_subtree(&base, &base_tree, &log_tree, snap);
    check_invariants(&base, &log, &base_tree, &log_tree);

    // 100 and 101 must now appear for 1,4,2,3
    assert!(collect_log(&log, &base, 1).contains(&100));
    assert!(collect_log(&log, &base, 1).contains(&101));
}

#[test]
fn apply_preserves_invariants() {
    let base_tree = Tree::new();
    let mut log_tree = TreeLog::new();
    let mut log = NodeSetIndexLog::new();
    let mut base = NodeSetIndex::new();

    // build 1 → 2 → 3
    log_tree.insert(&base_tree, None, 1);
    log_tree.insert(&base_tree, Some(1), 2);
    log_tree.insert(&base_tree, Some(2), 3);

    log.insert(&base, &base_tree, &log_tree, 2, 7);
    log.insert(&base, &base_tree, &log_tree, 3, 8);

    check_invariants(&base, &log, &base_tree, &log_tree);

    // apply snapshot into base
    base.apply(log.clone());
    check_invariants(&base, &log, &base_tree, &log_tree);
}

#[test]
fn empty_cases() {
    let base_tree = Tree::new();
    let log_tree = TreeLog::new();
    let log = NodeSetIndexLog::new();
    let base = NodeSetIndex::new();

    // no crash on empty nodes
    check_invariants(&base, &log, &base_tree, &log_tree);
}

#[test]
fn items_reach_every_ancestor() {
    let base_tree = Tree::new();
    let mut log_tree = TreeLog::new();
    let mut log = NodeSetIndexLog::new();
    let base = NodeSetIndex::new();
    log_tree.insert(&base_tree, None, 1);
    log_tree.insert(&base_tree, Some(1), 2);
    log_tree.insert(&base_tree, Some(2), 3);
    log_tree.insert(&base_tree, Some(1), 4);

    log.insert(&base, &base_tree, &log_tree, 3, 42);
    log.insert(&base, &base_tree, &log_tree, 2, 43);
    log.insert(&base, &base_tree, &log_tree, 4, 44);
    log.insert(&base, &base_tree, &log_tree, 3, 42);
    assert_eq!(log.direct_items(&base, 3).to_vec(), vec![42]);
    assert_eq!(log.subtree_items(&base, 3).to_vec(), vec![42]);
    assert_eq!(log.subtree_items(&base, 2).to_vec(), vec![42, 43]);
    assert_eq!(log.subtree_items(&base, 1).to_vec(), vec![42, 43, 44]);
    assert_eq!(log.subtree_items(&base, 4).to_vec(), vec![44]);
    assert!(log.direct_items(&base, 1).is_empty());
    check_coverage(&base, &log, &base_tree, &log_tree, &[1, 2, 3, 4, 5]);

    log.remove(&base, &base_tree, &log_tree, 2, 43);
    log.remove(&base, &base_tree, &log_tree, 2, 42); // attached to 3, not to 2
    assert_eq!(log.subtree_items(&base, 2).to_vec(), vec![42]);
    assert_eq!(log.subtree_items(&base, 1).to_vec(), vec![42, 44]);
    check_coverage(&base, &log, &base_tree, &log_tree, &[1, 2, 3, 4, 5]);
}

#[test]
fn insert_ends_on_a_cycle() {
    let base_tree = Tree::new();
    let mut log_tree = TreeLog::new();
    let mut log = NodeSetIndexLog::new();
    let base = NodeSetIndex::new();
    log_tree.insert(&base_tree, Some(1), 2);
    log_tree.insert(&base_tree, Some(2), 3);
    log_tree.insert(&base_tree, Some(3), 1);

    log.insert(&base, &base_tree, &log_tree, 2, 5);
    for n in [1, 2, 3] {
        assert_eq!(log.subtree_items(&base, n).to_vec(), vec![5]);
    }
    log.remove(&base, &base_tree, &log_tree, 2, 5);
    for n in [1, 2, 3] {
        assert!(log.subtree_items(&base, n).is_empty());
    }
}

#[test]
fn subtree_moves_with_its_items() {
    let base_tree = Tree::new();
    let mut log_tree = TreeLog::new();
    let mut log = NodeSetIndexLog::new();
    let base = NodeSetIndex::new();
    log_tree.insert(&base_tree, None, 1);
    log_tree.insert(&base_tree, Some(1), 2);
    log_tree.insert(&base_tree, Some(2), 3);
    log.insert(&base, &base_tree, &log_tree, 3, 100);
    assert!(log.subtree_items(&base, 1).contains(100));

    let detached = log.remove_subtree(&base, &base_tree, &log_tree, 2);
    // the lifted nodes show nothing, the others are as they were
    assert!(log.direct_items(&base, 3).is_empty());
    assert!(log.subtree_items(&base, 3).is_empty());
    assert!(log.subtree_items(&base, 2).is_empty());
    assert_eq!(log.subtree_items(&base, 1).to_vec(), vec![100]);

    log_tree.insert(&base_tree, Some(1), 4);
    log_tree.insert(&base_tree, Some(4), 2);
    log.insert_subtree(&base, &base_tree, &log_tree, detached);

    assert!(log.subtree_items(&base, 1).contains(100));
    assert!(log.subtree_items(&base, 4).contains(100));
    assert!(log.subtree_items(&base, 2).contains(100));
    assert_eq!(log.direct_items(&base, 3).to_vec(), vec![100]);
    assert_eq!(log.subtree_items(&base, 3).to_vec(), vec![100]);
    assert!(log.direct_items(&base, 4).is_empty());
}

#[test]
fn putting_back_an_empty_record_changes_nothing() {
    let base_tree = Tree::new();
    let mut log_tree = TreeLog::new();
    let mut log = NodeSetIndexLog::new();
    let base = NodeSetIndex::new();
    log_tree.insert(&base_tree, Some(1), 2);
    log.insert(&base, &base_tree, &log_tree, 2, 9);
    log.insert_subtree(&base, &base_tree, &log_tree, DetachedSubtree::default());
    log.insert_subtree(&base, &base_tree, &log_tree, DetachedSubtree::default().clone());
    assert_eq!(log.subtree_items(&base, 1).to_vec(), vec![9]);
    assert_eq!(log.subtree_items(&base, 2).to_vec(), vec![9]);
    assert!(log.subtree_items(&base, 0).is_empty());
}

#[test]
fn node_set_apply_and_views() {
    let base_tree = Tree::new();
    let mut log_tree = TreeLog::new();
    log_tree.insert(&base_tree, Some(1), 2);
    let mut base = NodeSetIndex::new();
    let mut log = NodeSetIndexLog::new();
    log.insert(&base, &base_tree, &log_tree, 2, 7);
    log.insert(&base, &base_tree, &log_tree, 1, 8);
    let staged = log.clone();
    let before = base.clone();
    assert!(base.apply(log));
    {
        let trx = NodeSetIndexTrx::new(&before, &staged);
        for n in 0..4 {
            assert!(*trx.direct_items(n) == *base.direct_items(n));
            assert!(*trx.subtree_items(n) == *base.subtree_items(n));
        }
    }
    assert_eq!(base.subtree_items(1).to_vec(), vec![7, 8]);
    assert_eq!(base.direct_items(1).to_vec(), vec![8]);
    assert_eq!(base.values().to_vec(), vec![7, 8]);

    // nothing staged, nothing changed
    assert!(!base.apply(NodeSetIndexLog::new()));
    assert!(!base.apply(NodeSetIndexLog::default()));
    // staged and taken back
    let mut log = NodeSetIndexLog::new();
    log.insert(&base, &base_tree, &log_tree, 2, 50);
    log.remove(&base, &base_tree, &log_tree, 2, 50);
    assert!(!base.apply(log));
    // an item removed for good
    let mut log = NodeSetIndexLog::new();
    log.remove(&base, &base_tree, &log_tree, 2, 7);
    assert!(base.apply(log));
    assert!(base.direct_items(2).is_empty());
    assert!(base.subtree_items(2).is_empty());
    assert_eq!(base.subtree_items(1).to_vec(), vec![8]);
}

#[test]
fn node_set_builder() {
    let mut tree = Tree::new();
    let mut log_tree = TreeLog::new();
    log_tree.insert(&tree, None, 1);
    log_tree.insert(&tree, Some(1), 2);
    assert!(tree.apply(log_tree));

    let mut b = NodeSetIndexBuilder::new();
    b.insert(2, 5, &tree);
    b.insert(2, 6, &tree);
    b.remove(2, 6, &tree);
    let idx = b.build();
    assert_eq!(idx.direct_items(2).to_vec(), vec![5]);
    assert_eq!(idx.subtree_items(1).to_vec(), vec![5]);
    assert!(NodeSetIndexBuilder::default().build().values().is_empty());
}

#[test]
fn moved_subtree_is_covered_at_its_new_place() {
    let base_tree = Tree::new();
    let mut log_tree = TreeLog::new();
    let mut log = NodeSetIndexLog::new();
    let base = NodeSetIndex::new();
    // 1 → 2 → 3 and 1 → 5
    log_tree.insert(&base_tree, None, 1);
    log_tree.insert(&base_tree, Some(1), 2);
    log_tree.insert(&base_tree, Some(2), 3);
    log_tree.insert(&base_tree, Some(1), 5);
    log.insert(&base, &base_tree, &log_tree, 3, 100);
    log.insert(&base, &base_tree, &log_tree, 2, 101);
    log.insert(&base, &base_tree, &log_tree, 5, 102);
    check_coverage(&base, &log, &base_tree, &log_tree, &[1, 2, 3, 5]);

    // 2 moves under 5: 1 stays an ancestor, 5 becomes one
    let detached = log.remove_subtree(&base, &base_tree, &log_tree, 2);
    log_tree.insert(&base_tree, Some(5), 2);
    log.insert_subtree(&base, &base_tree, &log_tree, detached);
    check_coverage(&base, &log, &base_tree, &log_tree, &[1, 2, 3, 5]);
    assert_eq!(log.subtree_items(&base, 5).to_vec(), vec![100, 101, 102]);
    assert_eq!(log.subtree_items(&base, 1).to_vec(), vec![100, 101, 102]);
    assert_eq!(log.direct_items(&base, 2).to_vec(), vec![101]);
}

#[test]
fn former_ancestors_keep_their_subtree_sets() {
    let base_tree = Tree::new();
    let mut log_tree = TreeLog::new();
    let mut log = NodeSetIndexLog::new();
    let base = NodeSetIndex::new();
    // 1 → 2 and 7 apart
    log_tree.insert(&base_tree, None, 1);
    log_tree.insert(&base_tree, Some(1), 2);
    log_tree.insert(&base_tree, None, 7);
    log.insert(&base, &base_tree, &log_tree, 2, 100);

    let detached = log.remove_subtree(&base, &base_tree, &log_tree, 2);
    log_tree.insert(&base_tree, Some(7), 2);
    log.insert_subtree(&base, &base_tree, &log_tree, detached);
    check_coverage(&base, &log, &base_tree, &log_tree, &[2, 7]);
    // 1 is an ancestor no more, and its set is as it was
    assert_eq!(log.subtree_items(&base, 1).to_vec(), vec![100]);
}

#[test]
fn removing_an_item_attached_twice_below_one_node() {
    let base_tree = Tree::new();
    let mut log_tree = TreeLog::new();
    let mut log = NodeSetIndexLog::new();
    let base = NodeSetIndex::new();
    log_tree.insert(&base_tree, Some(1), 2);
    log_tree.insert(&base_tree, Some(1), 3);
    log.insert(&base, &base_tree, &log_tree, 2, 9);
    log.insert(&base, &base_tree, &log_tree, 3, 9);
    log.remove(&base, &base_tree, &log_tree, 2, 9);
    // the item leaves every ancestor of 2, though 3 still has it
    assert!(log.subtree_items(&base, 1).is_empty());
    assert_eq!(log.direct_items(&base, 3).to_vec(), vec![9]);
    assert_eq!(log.subtree_items(&base, 3).to_vec(), vec![9]);
}
