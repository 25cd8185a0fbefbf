//! What holds of a tree as long as no cycle is made in it: the recorded
//! children and descendants say exactly what the parent function says, and
//! every mutation keeps it so.
use crate::tree_model::{
    lemma_nth_parent_add, lemma_nth_parent_none_stays, lemma_walks_agree, loop_nodes, loops_met,
    nth_parent, on_loop, reaches, strictly_reaches, TreeView,
};
use vstd::prelude::*;

verus! {

/// The tree is a forest in order: no node is its own ancestor, no node is
/// marked, the children of a node are the nodes whose parent it is, and the
/// descendants of a node are the nodes that have it as an ancestor.
pub open spec fn is_forest(v: TreeView) -> bool {
    &&& forall|p: u32, q: u32| #[trigger] v.children[p].contains(q) <==> v.parents[q] == Some(p)
    &&& forall|p: u32, q: u32| #[trigger]
        v.descendants[p].contains(q) <==> strictly_reaches(v.parents, q, p)
    &&& forall|n: u32| !on_loop(v.parents, n)
    &&& v.cycles == Set::<u32>::empty()
}

/// The tree without any node is a forest in order.
pub proof fn lemma_empty_is_forest()
    ensures
        is_forest(TreeView::empty()),
{
    let v = TreeView::empty();
    assert forall|q: u32, k: nat| k >= 1 implies nth_parent(v.parents, q, k) is None by {
        lemma_ends_at_once(v.parents, q, k);
    }
}

/// A node without a parent has no ancestor.
proof fn lemma_ends_at_once(parents: Map<u32, Option<u32>>, q: u32, k: nat)
    requires
        parents[q] is None,
        k >= 1,
    ensures
        nth_parent(parents, q, k) is None,
{
    assert(nth_parent(parents, q, 0) == Some(q));
    assert(nth_parent(parents, q, 1) == parents[q]);
    lemma_nth_parent_none_stays(parents, q, 1, k);
}

/// In a forest in order, the children of a node are exactly the nodes whose
/// parent it is.
pub proof fn lemma_forest_parent_links(v: TreeView, p: u32, q: u32)
    requires
        is_forest(v),
    ensures
        v.children[p].contains(q) <==> v.parents[q] == Some(p),
{
}

/// In a forest in order, the descendants of a node are its children together
/// with the descendants of its children.
pub proof fn lemma_forest_closure(v: TreeView, n: u32)
    requires
        is_forest(v),
    ensures
        v.descendants[n] == Set::new(
            |q: u32|
                exists|c: u32|
                    #[trigger] v.children[n].contains(c) && (q == c || v.descendants[c].contains(q)),
        ),
        v.children[n].subset_of(v.descendants[n]),
{
    let par = v.parents;
    let goal = Set::new(
        |q: u32|
            exists|c: u32|
                #[trigger] v.children[n].contains(c) && (q == c || v.descendants[c].contains(q)),
    );
    assert forall|q: u32| v.descendants[n].contains(q) <==> goal.contains(q) by {
        if v.descendants[n].contains(q) {
            let k = choose|k: nat| k >= 1 && nth_parent(par, q, k) == Some(n);
            // the node one step before n on the way up from q is a child of n
            let c = nth_parent(par, q, (k - 1) as nat)->0;
            assert(nth_parent(par, q, (k - 1) as nat) == Some(c));
            assert(par[c] == Some(n));
            assert(v.children[n].contains(c));
            if k - 1 >= 1 {
                assert(strictly_reaches(par, q, c));
                assert(v.descendants[c].contains(q));
            } else {
                assert(q == c);
            }
        }
        if goal.contains(q) {
            let c = choose|c: u32|
                #[trigger] v.children[n].contains(c) && (q == c || v.descendants[c].contains(q));
            assert(par[c] == Some(n));
            if q == c {
                assert(nth_parent(par, q, 0) == Some(q));
                assert(nth_parent(par, q, 1) == Some(n));
                assert(strictly_reaches(par, q, n));
            } else {
                let k = choose|k: nat| k >= 1 && nth_parent(par, q, k) == Some(c);
                assert(nth_parent(par, q, k + 1) == Some(n));
                assert(strictly_reaches(par, q, n));
            }
        }
    }
    assert(v.descendants[n] =~= goal);
    assert forall|c: u32| v.children[n].contains(c) implies v.descendants[n].contains(c) by {
        assert(goal.contains(c));
    }
}

/// In a forest in order, a walk up from a node outside the subtree of
/// `child` stays outside it.
pub proof fn lemma_chain_outside(v: TreeView, child: u32, q: u32, k: nat)
    requires
        is_forest(v),
        !v.subtree(child).contains(q),
    ensures
        match nth_parent(v.parents, q, k) {
            Some(m) => !v.subtree(child).contains(m),
            None => true,
        },
{
    let par = v.parents;
    match nth_parent(par, q, k) {
        Some(m) => {
            if v.subtree(child).contains(m) {
                if m == child {
                    if k >= 1 {
                        assert(strictly_reaches(par, q, child));
                        assert(v.descendants[child].contains(q));
                    }
                } else {
                    assert(v.descendants[child].contains(m));
                    let t = choose|t: nat| t >= 1 && nth_parent(par, m, t) == Some(child);
                    lemma_nth_parent_add(par, q, k, t);
                    assert(strictly_reaches(par, q, child));
                    assert(v.descendants[child].contains(q));
                }
            }
        },
        None => {},
    }
}

/// A parent function that differs from that of a forest only inside the
/// subtree of `child` gives the same walks from every node outside it.
proof fn lemma_agree_outside(
    v: TreeView,
    child: u32,
    other: Map<u32, Option<u32>>,
    q: u32,
    k: nat,
)
    requires
        is_forest(v),
        !v.subtree(child).contains(q),
        forall|m: u32| !v.subtree(child).contains(m) ==> #[trigger] other[m] == v.parents[m],
    ensures
        nth_parent(other, q, k) == nth_parent(v.parents, q, k),
{
    let par = v.parents;
    assert forall|i: nat| i < k implies match #[trigger] nth_parent(par, q, i) {
        Some(m) => par[m] == other[m],
        None => true,
    } by {
        lemma_chain_outside(v, child, q, i);
    }
    lemma_walks_agree(par, other, q, k);
}

/// In a forest in order, a node does not lie in its own descendants, and
/// neither does its parent.
pub proof fn lemma_anchor_outside(v: TreeView, child: u32)
    requires
        is_forest(v),
    ensures
        !v.descendants[child].contains(child),
        v.anchor(child) == v.parents[child],
        match v.parents[child] {
            Some(p) => !v.subtree(child).contains(p),
            None => true,
        },
{
    let par = v.parents;
    if v.descendants[child].contains(child) {
        assert(strictly_reaches(par, child, child));
        assert(on_loop(par, child));
    }
    match par[child] {
        Some(p) => {
            assert(nth_parent(par, child, 0) == Some(child));
            assert(nth_parent(par, child, 1) == Some(p));
            if p == child {
                assert(strictly_reaches(par, child, child));
                assert(on_loop(par, child));
            }
            if v.descendants[child].contains(p) {
                let t = choose|t: nat| t >= 1 && nth_parent(par, p, t) == Some(child);
                lemma_nth_parent_add(par, child, 1, t);
                assert(strictly_reaches(par, child, child));
                assert(on_loop(par, child));
            }
        },
        None => {},
    }
}

/// In a forest in order, the ancestors that lose a subtree when it is cut
/// out are exactly the ancestors of its root.
proof fn lemma_old_ancestors(v: TreeView, child: u32, x: u32)
    requires
        is_forest(v),
    ensures
        v.old_ancestors(child).contains(x) <==> strictly_reaches(v.parents, child, x),
{
    let par = v.parents;
    let lifted = v.lifted_parents(child);
    lemma_anchor_outside(v, child);
    assert(nth_parent(par, child, 0) == Some(child));
    match par[child] {
        Some(p) => {
            assert(nth_parent(par, child, 1) == Some(p));
            if v.old_ancestors(child).contains(x) {
                let k = choose|k: nat| nth_parent(lifted, p, k) == Some(x);
                lemma_agree_outside(v, child, lifted, p, k);
                lemma_nth_parent_add(par, child, 1, k);
                assert(strictly_reaches(par, child, x));
            }
            if strictly_reaches(par, child, x) {
                let k = choose|k: nat| k >= 1 && nth_parent(par, child, k) == Some(x);
                lemma_nth_parent_add(par, child, 1, (k - 1) as nat);
                assert(1 + (k - 1) as nat == k);
                lemma_agree_outside(v, child, lifted, p, (k - 1) as nat);
                assert(reaches(lifted, p, x));
            }
        },
        None => {
            if strictly_reaches(par, child, x) {
                let k = choose|k: nat| k >= 1 && nth_parent(par, child, k) == Some(x);
                lemma_ends_at_once(par, child, k);
            }
        },
    }
}

/// In a forest in order, the ancestors that gain a subtree hung under a node
/// outside it are exactly that node and its ancestors.
proof fn lemma_new_ancestors(v: TreeView, new_parent: Option<u32>, child: u32, x: u32)
    requires
        is_forest(v),
        new_parent matches Some(p) ==> !v.subtree(child).contains(p),
    ensures
        v.new_ancestors(new_parent, child).contains(x) <==> (new_parent matches Some(p) && reaches(
            v.parents,
            p,
            x,
        )),
{
    let par = v.parents;
    let hooked = v.hooked_parents(new_parent, child);
    match new_parent {
        Some(p) => {
            if v.new_ancestors(new_parent, child).contains(x) {
                let k = choose|k: nat| nth_parent(hooked, p, k) == Some(x);
                lemma_agree_outside(v, child, hooked, p, k);
            }
            if reaches(par, p, x) {
                let k = choose|k: nat| nth_parent(par, p, k) == Some(x);
                lemma_agree_outside(v, child, hooked, p, k);
                assert(reaches(hooked, p, x));
            }
        },
        None => {},
    }
}

/// A forest in order has no cycle, so every node on a cycle is marked.
pub proof fn lemma_forest_is_marked(v: TreeView)
    requires
        is_forest(v),
    ensures
        v.loops_marked(),
{
}

/// Where every node on a cycle is marked, placing a node under a new parent
/// leaves every node on a cycle marked: a new cycle runs through the node
/// that was placed, and the walk up from it finds the cycle.
pub proof fn lemma_insert_keeps_marks(v: TreeView, new_parent: Option<u32>, child: u32)
    requires
        v.loops_marked(),
    ensures
        v.inserted(new_parent, child).loops_marked(),
{
    if v.parents[child] != new_parent {
        let par = v.parents;
        let moved = v.reparented(new_parent, child);
        let w = v.inserted(new_parent, child);
        assert(w.parents == moved);
        assert forall|n: u32| on_loop(moved, n) implies w.cycles.contains(n) by {
            let k = choose|k: nat| k >= 1 && nth_parent(moved, n, k) == Some(n);
            if exists|i: nat| i < k && nth_parent(moved, n, i) == Some(child) {
                let i = choose|i: nat| i < k && nth_parent(moved, n, i) == Some(child);
                lemma_nth_parent_add(moved, n, i, (k - i) as nat);
                assert(i + (k - i) as nat == k);
                assert(reaches(moved, child, n));
                assert(loops_met(moved, child).contains(n));
            } else {
                assert forall|i: nat| i < k implies match #[trigger] nth_parent(moved, n, i) {
                    Some(m) => moved[m] == par[m],
                    None => true,
                } by {}
                lemma_walks_agree(moved, par, n, k);
                assert(strictly_reaches(par, n, n));
                assert(on_loop(par, n));
            }
        }
    }
}

/// After a removal every node on a cycle is marked, and no other.
pub proof fn lemma_remove_marks_loops(v: TreeView, node: u32)
    ensures
        v.removed(node).loops_marked(),
        v.removed(node).cycles == loop_nodes(v.removed(node).parents),
{
}

/// In a forest in order, whatever has an ancestor in the subtree of `child`
/// lies in the subtree itself, below its root.
pub proof fn lemma_below_subtree(v: TreeView, child: u32, q: u32, p: u32)
    requires
        is_forest(v),
        v.subtree(child).contains(p),
        strictly_reaches(v.parents, q, p),
    ensures
        v.descendants[child].contains(q),
{
    let par = v.parents;
    let k = choose|k: nat| k >= 1 && nth_parent(par, q, k) == Some(p);
    if p == child {
        assert(strictly_reaches(par, q, child));
    } else {
        assert(v.descendants[child].contains(p));
        let t = choose|t: nat| t >= 1 && nth_parent(par, p, t) == Some(child);
        lemma_nth_parent_add(par, q, k, t);
        assert(strictly_reaches(par, q, child));
    }
}

/// In a forest in order, the number of steps from a node of the subtree of
/// `child` up to `child`.
spec fn steps_to_root(v: TreeView, child: u32, q: u32) -> nat {
    choose|j: nat| nth_parent(v.parents, q, j) == Some(child)
}

/// In a forest in order, every node of the subtree of `child` reaches
/// `child`, and passes no node twice on the way.
proof fn lemma_steps_to_root(v: TreeView, child: u32, q: u32)
    requires
        is_forest(v),
        v.subtree(child).contains(q),
    ensures
        nth_parent(v.parents, q, steps_to_root(v, child, q)) == Some(child),
        forall|i: nat|
            i < steps_to_root(v, child, q) ==> #[trigger] nth_parent(v.parents, q, i) != Some(child),
        forall|i: nat|
            i <= steps_to_root(v, child, q) ==> match #[trigger] nth_parent(v.parents, q, i) {
                Some(m) => v.subtree(child).contains(m),
                None => false,
            },
{
    let par = v.parents;
    if q == child {
        assert(nth_parent(par, q, 0) == Some(child));
    } else {
        assert(v.descendants[child].contains(q));
        let k = choose|k: nat| k >= 1 && nth_parent(par, q, k) == Some(child);
        assert(nth_parent(par, q, k) == Some(child));
    }
    let j = steps_to_root(v, child, q);
    assert forall|i: nat| i < j implies #[trigger] nth_parent(par, q, i) != Some(child) by {
        if nth_parent(par, q, i) == Some(child) {
            lemma_nth_parent_add(par, q, i, (j - i) as nat);
            assert(i + (j - i) as nat == j);
            assert(strictly_reaches(par, child, child));
            assert(on_loop(par, child));
        }
    }
    assert forall|i: nat| i <= j implies match #[trigger] nth_parent(par, q, i) {
        Some(m) => v.subtree(child).contains(m),
        None => false,
    } by {
        lemma_nth_parent_add(par, q, i, (j - i) as nat);
        assert(i + (j - i) as nat == j);
        match nth_parent(par, q, i) {
            Some(m) => {
                if i < j {
                    assert(strictly_reaches(par, m, child));
                    assert(v.descendants[child].contains(m));
                }
            },
            None => {},
        }
    }
}

/// In a forest in order, an ancestor outside the subtree of `child` of a
/// node inside it is an ancestor of `child`.
pub proof fn lemma_through_root(v: TreeView, child: u32, q: u32, p: u32)
    requires
        is_forest(v),
        v.subtree(child).contains(q),
        !v.subtree(child).contains(p),
        strictly_reaches(v.parents, q, p),
    ensures
        strictly_reaches(v.parents, child, p),
{
    let par = v.parents;
    lemma_steps_to_root(v, child, q);
    let j = steps_to_root(v, child, q);
    let k = choose|k: nat| k >= 1 && nth_parent(par, q, k) == Some(p);
    if k <= j {
        assert(match nth_parent(par, q, k) {
            Some(m) => v.subtree(child).contains(m),
            None => false,
        });
    } else {
        lemma_nth_parent_add(par, q, j, (k - j) as nat);
        assert(j + (k - j) as nat == k);
    }
}

/// Removing a node with its subtree from a forest in order leaves a forest
/// in order.
pub proof fn lemma_remove_keeps_forest(v: TreeView, node: u32)
    requires
        is_forest(v),
    ensures
        is_forest(v.removed(node)),
{
    let par = v.parents;
    let w = v.removed(node);
    let s = v.subtree(node);
    lemma_anchor_outside(v, node);
    // walks in what is left
    assert forall|q: u32, k: nat| !s.contains(q) implies nth_parent(w.parents, q, k) == nth_parent(
        par,
        q,
        k,
    ) by {
        lemma_agree_outside(v, node, w.parents, q, k);
    }
    assert forall|q: u32, k: nat| s.contains(q) && k >= 1 implies nth_parent(w.parents, q, k)
        is None by {
        lemma_ends_at_once(w.parents, q, k);
    }
    assert forall|q: u32, p: u32| strictly_reaches(w.parents, q, p) <==> (!s.contains(q)
        && strictly_reaches(par, q, p)) by {
        if strictly_reaches(w.parents, q, p) {
            let k = choose|k: nat| k >= 1 && nth_parent(w.parents, q, k) == Some(p);
            assert(!s.contains(q));
            assert(nth_parent(par, q, k) == Some(p));
        }
        if !s.contains(q) && strictly_reaches(par, q, p) {
            let k = choose|k: nat| k >= 1 && nth_parent(par, q, k) == Some(p);
            assert(nth_parent(w.parents, q, k) == Some(p));
        }
    }
    assert forall|n: u32| !on_loop(w.parents, n) by {
        if on_loop(w.parents, n) {
            assert(strictly_reaches(par, n, n));
            assert(on_loop(par, n));
        }
    }
    assert(w.cycles =~= Set::<u32>::empty());
    assert forall|p: u32, q: u32| #[trigger] w.children[p].contains(q) <==> w.parents[q] == Some(
        p,
    ) by {
        assert(nth_parent(par, q, 0) == Some(q));
        assert(nth_parent(par, q, 1) == par[q]);
        if par[q] == Some(p) {
            assert(strictly_reaches(par, q, p));
            assert(v.children[p].contains(q));
            if s.contains(p) && !s.contains(q) {
                lemma_below_subtree(v, node, q, p);
            }
            if !s.contains(p) && s.contains(q) && q != node {
                lemma_steps_to_root(v, node, q);
                let j = steps_to_root(v, node, q);
                assert(j >= 1);
                assert(match nth_parent(par, q, 1) {
                    Some(m) => s.contains(m),
                    None => false,
                });
            }
        }
    }
    assert forall|p: u32, q: u32| #[trigger]
        w.descendants[p].contains(q) <==> strictly_reaches(w.parents, q, p) by {
        lemma_old_ancestors(v, node, p);
        if strictly_reaches(par, q, p) {
            assert(v.descendants[p].contains(q));
            if s.contains(p) && !s.contains(q) {
                lemma_below_subtree(v, node, q, p);
            }
            if !s.contains(p) && s.contains(q) {
                lemma_through_root(v, node, q, p);
            }
        }
    }
}

/// In a forest in order, after `child` is given a new parent outside its
/// subtree, a walk up from a node of the subtree runs as before up to
/// `child`, then to the new parent, and from there as it ran before.
proof fn lemma_inside_chain(v: TreeView, new_parent: Option<u32>, child: u32, q: u32, k: nat)
    requires
        is_forest(v),
        new_parent matches Some(p) ==> !v.subtree(child).contains(p),
        v.subtree(child).contains(q),
    ensures
        nth_parent(v.reparented(new_parent, child), q, k) == if k <= steps_to_root(v, child, q) {
            nth_parent(v.parents, q, k)
        } else {
            match new_parent {
                Some(p) => nth_parent(v.parents, p, (k - steps_to_root(v, child, q) - 1) as nat),
                None => None,
            }
        },
{
    let par = v.parents;
    let moved = v.reparented(new_parent, child);
    lemma_steps_to_root(v, child, q);
    let j = steps_to_root(v, child, q);
    if k <= j {
        assert forall|i: nat| i < k implies match #[trigger] nth_parent(par, q, i) {
            Some(m) => par[m] == moved[m],
            None => true,
        } by {
            assert(nth_parent(par, q, i) != Some(child));
        }
        lemma_walks_agree(par, moved, q, k);
    } else {
        assert forall|i: nat| i < j implies match #[trigger] nth_parent(par, q, i) {
            Some(m) => par[m] == moved[m],
            None => true,
        } by {
            assert(nth_parent(par, q, i) != Some(child));
        }
        lemma_walks_agree(par, moved, q, j);
        assert(nth_parent(moved, q, j) == Some(child));
        lemma_nth_parent_add(moved, q, j, (k - j) as nat);
        assert(j + (k - j) as nat == k);
        assert(nth_parent(moved, child, 0) == Some(child));
        assert(nth_parent(moved, child, 1) == new_parent);
        lemma_nth_parent_add(moved, child, 1, (k - j - 1) as nat);
        assert(1 + (k - j - 1) as nat == (k - j) as nat);
        match new_parent {
            Some(p) => {
                lemma_agree_outside(v, child, moved, p, (k - j - 1) as nat);
            },
            None => {},
        }
    }
}

/// In a forest in order, after `child` is given a new parent outside its
/// subtree, the ancestors of a node outside the subtree are those it had,
/// and the ancestors of a node inside are those it had inside, the new
/// parent, and the ancestors of the new parent.
pub proof fn lemma_moved_ancestors(v: TreeView, new_parent: Option<u32>, child: u32, q: u32, p: u32)
    requires
        is_forest(v),
        new_parent matches Some(n) ==> !v.subtree(child).contains(n),
    ensures
        strictly_reaches(v.reparented(new_parent, child), q, p) <==> if v.subtree(child).contains(q) {
            (v.subtree(child).contains(p) && strictly_reaches(v.parents, q, p)) || (new_parent matches Some(
                n,
            ) && reaches(v.parents, n, p))
        } else {
            strictly_reaches(v.parents, q, p)
        },
{
    let par = v.parents;
    let moved = v.reparented(new_parent, child);
    let s = v.subtree(child);
    if !s.contains(q) {
        if strictly_reaches(moved, q, p) {
            let k = choose|k: nat| k >= 1 && nth_parent(moved, q, k) == Some(p);
            lemma_agree_outside(v, child, moved, q, k);
        }
        if strictly_reaches(par, q, p) {
            let k = choose|k: nat| k >= 1 && nth_parent(par, q, k) == Some(p);
            lemma_agree_outside(v, child, moved, q, k);
        }
    } else {
        lemma_steps_to_root(v, child, q);
        let j = steps_to_root(v, child, q);
        if strictly_reaches(moved, q, p) {
            let k = choose|k: nat| k >= 1 && nth_parent(moved, q, k) == Some(p);
            lemma_inside_chain(v, new_parent, child, q, k);
            if k <= j {
                assert(match nth_parent(par, q, k) {
                    Some(m) => s.contains(m),
                    None => false,
                });
                assert(strictly_reaches(par, q, p));
            } else {
                assert(new_parent matches Some(n) && reaches(par, n, p));
            }
        }
        if s.contains(p) && strictly_reaches(par, q, p) {
            let k = choose|k: nat| k >= 1 && nth_parent(par, q, k) == Some(p);
            if k > j {
                // p would lie above the root and inside the subtree at once
                lemma_nth_parent_add(par, q, j, (k - j) as nat);
                assert(j + (k - j) as nat == k);
                assert(strictly_reaches(par, child, p));
                if p == child {
                    assert(on_loop(par, child));
                } else {
                    let t = choose|t: nat| t >= 1 && nth_parent(par, p, t) == Some(child);
                    lemma_nth_parent_add(par, child, (k - j) as nat, t);
                    assert(strictly_reaches(par, child, child));
                    assert(on_loop(par, child));
                }
            }
            lemma_inside_chain(v, new_parent, child, q, k);
            assert(strictly_reaches(moved, q, p));
        }
        match new_parent {
            Some(n) => {
                if reaches(par, n, p) {
                    let t = choose|t: nat| nth_parent(par, n, t) == Some(p);
                    lemma_inside_chain(v, new_parent, child, q, j + 1 + t);
                    assert((j + 1 + t - j - 1) as nat == t);
                    assert(strictly_reaches(moved, q, p));
                }
            },
            None => {},
        }
    }
}

/// Placing a node of a forest in order under a new parent that does not lie
/// in the subtree of the node leaves a forest in order.
pub proof fn lemma_insert_keeps_forest(v: TreeView, new_parent: Option<u32>, child: u32)
    requires
        is_forest(v),
        new_parent matches Some(p) ==> !v.subtree(child).contains(p),
    ensures
        is_forest(v.inserted(new_parent, child)),
{
    if v.parents[child] != new_parent {
        let par = v.parents;
        let s = v.subtree(child);
        let m = v.moved(new_parent, child);
        let w = v.inserted(new_parent, child);
        lemma_anchor_outside(v, child);
        assert forall|n: u32| !on_loop(w.parents, n) by {
            lemma_moved_ancestors(v, new_parent, child, n, n);
            if on_loop(w.parents, n) {
                if s.contains(n) && !strictly_reaches(par, n, n) {
                    let p = new_parent->0;
                    let t = choose|t: nat| nth_parent(par, p, t) == Some(n);
                    lemma_chain_outside(v, child, p, t);
                } else {
                    assert(on_loop(par, n));
                }
            }
        }
        assert(loops_met(m.parents, child) =~= Set::<u32>::empty());
        assert(w.cycles =~= Set::<u32>::empty());
        assert forall|p: u32, q: u32| #[trigger] w.children[p].contains(q) <==> w.parents[q] == Some(
            p,
        ) by {
            assert(nth_parent(par, q, 0) == Some(q));
            assert(nth_parent(par, q, 1) == par[q]);
            if par[q] == Some(p) {
                assert(strictly_reaches(par, q, p));
            }
        }
        assert forall|p: u32, q: u32| #[trigger]
            w.descendants[p].contains(q) <==> strictly_reaches(w.parents, q, p) by {
            lemma_moved_ancestors(v, new_parent, child, q, p);
            lemma_old_ancestors(v, child, p);
            lemma_new_ancestors(v, new_parent, child, p);
            if strictly_reaches(par, q, p) {
                if s.contains(p) && !s.contains(q) {
                    lemma_below_subtree(v, child, q, p);
                }
                if !s.contains(p) && s.contains(q) {
                    lemma_through_root(v, child, q, p);
                }
            }
            match new_parent {
                Some(n) => {
                    if reaches(par, n, p) && s.contains(p) {
                        let t = choose|t: nat| nth_parent(par, n, t) == Some(p);
                        lemma_chain_outside(v, child, n, t);
                    }
                },
                None => {},
            }
        }
    }
}

} // verus!
