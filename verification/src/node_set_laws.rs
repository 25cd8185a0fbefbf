//! What holds of a node-set index over a forest in order: the subtree set of
//! a node is the union of what is attached to the nodes of its subtree.
use crate::node_set_index::NodeSetView;
use crate::tree_laws::{
    is_forest, lemma_anchor_outside, lemma_below_subtree, lemma_chain_outside,
    lemma_insert_keeps_forest, lemma_moved_ancestors, lemma_through_root,
};
use crate::tree_model::{
    lemma_nth_parent_add, lemma_nth_parent_none_stays, lemma_same_walks, nth_parent, on_loop,
    reach_from, reaches, strictly_reaches, TreeView,
};
use vstd::prelude::*;

verus! {

/// The subtree set of every node holds exactly the items attached to the
/// node or to one of its descendants.
pub open spec fn covers(idx: NodeSetView, tree: TreeView) -> bool {
    forall|n: u32, x: u32| #[trigger]
        idx.subtree[n].contains(x) <==> exists|d: u32|
            tree.subtree(n).contains(d) && #[trigger] idx.direct[d].contains(x)
}

/// The index without any item covers every tree.
pub proof fn lemma_empty_covers(tree: TreeView)
    ensures
        covers(NodeSetView::empty(), tree),
{
}

/// In a forest in order, the nodes whose subtree holds `node` are `node` and
/// its ancestors.
proof fn lemma_subtree_is_reach(tree: TreeView, node: u32, n: u32)
    requires
        is_forest(tree),
    ensures
        tree.subtree(n).contains(node) <==> reaches(tree.parents, node, n),
{
    let par = tree.parents;
    if tree.subtree(n).contains(node) {
        if node == n {
            assert(nth_parent(par, node, 0) == Some(n));
        } else {
            assert(tree.descendants[n].contains(node));
            let k = choose|k: nat| k >= 1 && nth_parent(par, node, k) == Some(n);
            assert(nth_parent(par, node, k) == Some(n));
        }
    }
    if reaches(par, node, n) {
        let k = choose|k: nat| nth_parent(par, node, k) == Some(n);
        if k >= 1 {
            assert(strictly_reaches(par, node, n));
            assert(tree.descendants[n].contains(node));
        }
    }
}

/// Over a forest in order, attaching an item to a node keeps the subtree
/// sets equal to the unions of what is attached below.
pub proof fn lemma_insert_keeps_coverage(idx: NodeSetView, tree: TreeView, node: u32, item: u32)
    requires
        is_forest(tree),
        covers(idx, tree),
    ensures
        covers(idx.inserted(tree, node, item), tree),
{
    let after = idx.inserted(tree, node, item);
    if !idx.direct[node].contains(item) {
        assert forall|n: u32, x: u32| #[trigger]
            after.subtree[n].contains(x) <==> exists|d: u32|
                tree.subtree(n).contains(d) && #[trigger] after.direct[d].contains(x) by {
            lemma_subtree_is_reach(tree, node, n);
            if after.subtree[n].contains(x) {
                if idx.subtree[n].contains(x) {
                    let d = choose|d: u32|
                        tree.subtree(n).contains(d) && #[trigger] idx.direct[d].contains(x);
                    assert(tree.subtree(n).contains(d) && after.direct[d].contains(x));
                } else {
                    assert(tree.subtree(n).contains(node) && after.direct[node].contains(x));
                }
            }
            if exists|d: u32| tree.subtree(n).contains(d) && #[trigger] after.direct[d].contains(x) {
                let d = choose|d: u32|
                    tree.subtree(n).contains(d) && #[trigger] after.direct[d].contains(x);
                if idx.direct[d].contains(x) {
                    assert(idx.subtree[n].contains(x));
                }
            }
        }
    }
}

/// If `item` is attached to `node`, it is attached to no other node that
/// shares an ancestor with `node`.
pub open spec fn attached_once(idx: NodeSetView, tree: TreeView, node: u32, item: u32) -> bool {
    idx.direct[node].contains(item) ==> forall|d: u32, a: u32|
        d != node && #[trigger] idx.direct[d].contains(item) && #[trigger] reaches(
            tree.parents,
            d,
            a,
        ) ==> !reaches(tree.parents, node, a)
}

/// Over a forest in order, taking an item from a node keeps the subtree sets
/// equal to the unions of what is attached below, as long as no node that
/// shares an ancestor with that node has the same item attached.
pub proof fn lemma_remove_keeps_coverage(idx: NodeSetView, tree: TreeView, node: u32, item: u32)
    requires
        is_forest(tree),
        covers(idx, tree),
        attached_once(idx, tree, node, item),
    ensures
        covers(idx.removed(tree, node, item), tree),
{
    let after = idx.removed(tree, node, item);
    if idx.direct[node].contains(item) {
        assert forall|n: u32, x: u32| #[trigger]
            after.subtree[n].contains(x) <==> exists|d: u32|
                tree.subtree(n).contains(d) && #[trigger] after.direct[d].contains(x) by {
            lemma_subtree_is_reach(tree, node, n);
            if after.subtree[n].contains(x) {
                assert(idx.subtree[n].contains(x));
                let d = choose|d: u32|
                    tree.subtree(n).contains(d) && #[trigger] idx.direct[d].contains(x);
                assert(tree.subtree(n).contains(d) && after.direct[d].contains(x));
            }
            if exists|d: u32| tree.subtree(n).contains(d) && #[trigger] after.direct[d].contains(x) {
                let d = choose|d: u32|
                    tree.subtree(n).contains(d) && #[trigger] after.direct[d].contains(x);
                assert(idx.direct[d].contains(x));
                assert(idx.subtree[n].contains(x));
                if x == item {
                    lemma_subtree_is_reach(tree, d, n);
                    assert(reaches(tree.parents, d, n));
                }
            }
        }
    }
}

/// The index after the data of the subtree of `root` is lifted out, the
/// subtree is moved under `new_parent`, and the data is put back.
pub open spec fn carried(idx: NodeSetView, tree: TreeView, new_parent: Option<u32>, root: u32) -> NodeSetView {
    let nodes = tree.subtree(root);
    idx.without(nodes).attached(tree.inserted(new_parent, root), idx.lifted(root, nodes))
}

/// Over a forest in order, lifting the data of a subtree out, moving the
/// subtree under a parent outside it and putting the data back leaves what is
/// attached to every node as it was, and keeps the subtree set of a node
/// equal to the union of what is attached below it, for every node but the
/// former ancestors of the subtree that are its ancestors no more: their
/// subtree sets are left as they were.
pub proof fn lemma_move_keeps_coverage(
    idx: NodeSetView,
    tree: TreeView,
    new_parent: Option<u32>,
    root: u32,
    n: u32,
)
    requires
        is_forest(tree),
        covers(idx, tree),
        forall|x: u32| #[trigger] idx.direct.contains_key(x),
        new_parent matches Some(p) ==> !tree.subtree(root).contains(p),
    ensures
        carried(idx, tree, new_parent, root).direct == idx.direct,
        strictly_reaches(tree.parents, root, n) && !strictly_reaches(
            tree.inserted(new_parent, root).parents,
            root,
            n,
        ) ==> carried(idx, tree, new_parent, root).subtree[n] == idx.subtree[n],
        !strictly_reaches(tree.parents, root, n) || strictly_reaches(
            tree.inserted(new_parent, root).parents,
            root,
            n,
        ) ==> forall|x: u32| #[trigger]
            carried(idx, tree, new_parent, root).subtree[n].contains(x) <==> exists|d: u32|
                tree.inserted(new_parent, root).subtree(n).contains(d) && #[trigger] idx.direct[d].contains(
                    x,
                ),
{
    let par = tree.parents;
    let s = tree.subtree(root);
    let after = tree.inserted(new_parent, root);
    let moved = tree.reparented(new_parent, root);
    let out = carried(idx, tree, new_parent, root);
    lemma_insert_keeps_forest(tree, new_parent, root);
    lemma_anchor_outside(tree, root);
    let ap = after.parents;
    assert forall|m: u32| ap[m] == moved[m] by {}
    assert forall|a: u32, b: u32| #[trigger]
        strictly_reaches(ap, a, b) <==> strictly_reaches(moved, a, b) by {
        if strictly_reaches(ap, a, b) {
            let k = choose|k: nat| k >= 1 && nth_parent(ap, a, k) == Some(b);
            lemma_same_walks(ap, moved, a, k);
            assert(nth_parent(moved, a, k) == Some(b));
        }
        if strictly_reaches(moved, a, b) {
            let k = choose|k: nat| k >= 1 && nth_parent(moved, a, k) == Some(b);
            lemma_same_walks(ap, moved, a, k);
            assert(nth_parent(ap, a, k) == Some(b));
        }
    }
    assert forall|a: u32, b: u32| #[trigger] reaches(ap, a, b) <==> reaches(moved, a, b) by {
        if reaches(ap, a, b) {
            let k = choose|k: nat| nth_parent(ap, a, k) == Some(b);
            lemma_same_walks(ap, moved, a, k);
            assert(nth_parent(moved, a, k) == Some(b));
        }
        if reaches(moved, a, b) {
            let k = choose|k: nat| nth_parent(moved, a, k) == Some(b);
            lemma_same_walks(ap, moved, a, k);
            assert(nth_parent(ap, a, k) == Some(b));
        }
    }
    assert(out.direct =~= idx.direct);
    let start = after.parents[root];
    assert(start == new_parent);
    assert(nth_parent(moved, root, 0) == Some(root));
    assert(nth_parent(moved, root, 1) == new_parent);
    // the walk that spreads the items passes exactly the new ancestors
    assert(reach_from(after.parents, start).contains(n) <==> strictly_reaches(moved, root, n)) by {
        match new_parent {
            Some(p) => {
                assert(reach_from(ap, start).contains(n) <==> reaches(ap, p, n));
                assert(reaches(ap, p, n) <==> reaches(moved, p, n));
                if reaches(moved, p, n) {
                    let k = choose|k: nat| nth_parent(moved, p, k) == Some(n);
                    lemma_nth_parent_add(moved, root, 1, k);
                    assert(strictly_reaches(moved, root, n));
                }
                if strictly_reaches(moved, root, n) {
                    let k = choose|k: nat| k >= 1 && nth_parent(moved, root, k) == Some(n);
                    lemma_nth_parent_add(moved, root, 1, (k - 1) as nat);
                    assert(1 + (k - 1) as nat == k);
                    assert(reaches(moved, p, n));
                }
            },
            None => {
                if strictly_reaches(moved, root, n) {
                    let k = choose|k: nat| k >= 1 && nth_parent(moved, root, k) == Some(n);
                    lemma_nth_parent_none_stays(moved, root, 1, k);
                }
            },
        }
    }
    lemma_moved_ancestors(tree, new_parent, root, root, n);
    // a new ancestor lies outside the subtree
    if strictly_reaches(moved, root, n) && s.contains(n) {
        if strictly_reaches(par, root, n) {
            if n == root {
                assert(on_loop(par, root));
            } else {
                let t = choose|t: nat| t >= 1 && nth_parent(par, n, t) == Some(root);
                let k = choose|k: nat| k >= 1 && nth_parent(par, root, k) == Some(n);
                lemma_nth_parent_add(par, root, k, t);
                assert(strictly_reaches(par, root, root));
                assert(on_loop(par, root));
            }
        } else {
            let p = new_parent->0;
            let t = choose|t: nat| nth_parent(par, p, t) == Some(n);
            lemma_chain_outside(tree, root, p, t);
        }
    }
    if strictly_reaches(par, root, n) && s.contains(n) {
        if n == root {
            assert(on_loop(par, root));
        } else {
            let t = choose|t: nat| t >= 1 && nth_parent(par, n, t) == Some(root);
            let k = choose|k: nat| k >= 1 && nth_parent(par, root, k) == Some(n);
            lemma_nth_parent_add(par, root, k, t);
            assert(strictly_reaches(par, root, root));
            assert(on_loop(par, root));
        }
    }
    if !strictly_reaches(par, root, n) || strictly_reaches(moved, root, n) {
        assert forall|x: u32| #[trigger]
            out.subtree[n].contains(x) <==> exists|d: u32|
                after.subtree(n).contains(d) && #[trigger] idx.direct[d].contains(x) by {
            assert forall|d: u32| after.subtree(n).contains(d) <==> (if s.contains(d)
                && strictly_reaches(moved, root, n) {
                true
            } else {
                tree.subtree(n).contains(d)
            }) by {
                lemma_moved_ancestors(tree, new_parent, root, d, n);
                lemma_subtree_is_reach(tree, d, n);
                lemma_subtree_is_reach(tree, d, root);
                lemma_subtree_is_reach(after, d, n);
                if d != n {
                    assert(after.subtree(n).contains(d) <==> strictly_reaches(ap, d, n));
                    assert(strictly_reaches(ap, d, n) <==> strictly_reaches(moved, d, n));
                    assert(tree.subtree(n).contains(d) <==> strictly_reaches(par, d, n));
                    if s.contains(d) && !s.contains(n) && strictly_reaches(par, d, n) {
                        lemma_through_root(tree, root, d, n);
                    }
                    if !s.contains(d) && s.contains(n) && strictly_reaches(par, d, n) {
                        lemma_below_subtree(tree, root, d, n);
                    }
                    match new_parent {
                        Some(p) => {
                            if s.contains(d) && reaches(par, p, n) {
                                assert(nth_parent(moved, root, 1) == Some(p));
                                let t = choose|t: nat| nth_parent(par, p, t) == Some(n);
                                lemma_chain_outside(tree, root, p, t);
                                lemma_moved_ancestors(tree, new_parent, root, root, n);
                            }
                        },
                        None => {},
                    }
                }
            }
            if out.subtree[n].contains(x) {
                if idx.subtree[n].contains(x) {
                    let d = choose|d: u32|
                        tree.subtree(n).contains(d) && #[trigger] idx.direct[d].contains(x);
                    if s.contains(d) && !s.contains(n) && d != n {
                        lemma_subtree_is_reach(tree, d, n);
                        lemma_through_root(tree, root, d, n);
                    }
                    assert(after.subtree(n).contains(d) && idx.direct[d].contains(x));
                } else {
                    assert(idx.subtree[root].contains(x));
                    let d = choose|d: u32|
                        tree.subtree(root).contains(d) && #[trigger] idx.direct[d].contains(x);
                    assert(after.subtree(n).contains(d) && idx.direct[d].contains(x));
                }
            }
            if exists|d: u32| after.subtree(n).contains(d) && #[trigger] idx.direct[d].contains(x) {
                let d = choose|d: u32|
                    after.subtree(n).contains(d) && #[trigger] idx.direct[d].contains(x);
                if tree.subtree(n).contains(d) {
                    assert(idx.subtree[n].contains(x));
                } else {
                    assert(s.contains(d) && strictly_reaches(moved, root, n));
                    assert(idx.subtree[root].contains(x));
                }
            }
        }
    }
}

} // verus!
