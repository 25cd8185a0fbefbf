//! The mathematical model of a tree index: what a tree is, whatever stores it,
//! and what each mutation makes of it.
//!
//! A tree is four total functions over node identifiers. Walks along the parent
//! function are described by the number of steps taken, so that nothing here
//! depends on the tree being free of cycles.
use vstd::prelude::*;

verus! {

/// The state of a tree, committed or staged.
pub struct TreeView {
    /// The parent of each node, `None` for a node without one.
    pub parents: Map<u32, Option<u32>>,
    /// The direct children recorded for each node.
    pub children: Map<u32, Set<u32>>,
    /// The descendants recorded for each node.
    pub descendants: Map<u32, Set<u32>>,
    /// The nodes marked as lying on a cycle.
    pub cycles: Set<u32>,
}

/// The node reached from `n` after `k` steps to the parent, if the chain is that long.
pub open spec fn nth_parent(parents: Map<u32, Option<u32>>, n: u32, k: nat) -> Option<u32>
    decreases k,
{
    if k == 0 {
        Some(n)
    } else {
        match nth_parent(parents, n, (k - 1) as nat) {
            Some(m) => parents[m],
            None => None,
        }
    }
}

/// `to` is `from` itself or one of its ancestors.
pub open spec fn reaches(parents: Map<u32, Option<u32>>, from: u32, to: u32) -> bool {
    exists|k: nat| nth_parent(parents, from, k) == Some(to)
}

/// `to` is an ancestor of `from`, at least one step away.
pub open spec fn strictly_reaches(parents: Map<u32, Option<u32>>, from: u32, to: u32) -> bool {
    exists|k: nat| k >= 1 && nth_parent(parents, from, k) == Some(to)
}

/// The nodes met by walking up from `start`, `start` included.
pub open spec fn reach_from(parents: Map<u32, Option<u32>>, start: Option<u32>) -> Set<u32> {
    match start {
        Some(s) => Set::new(|x: u32| reaches(parents, s, x)),
        None => Set::empty(),
    }
}

/// Walking up from `n` comes back to `n`.
pub open spec fn on_loop(parents: Map<u32, Option<u32>>, n: u32) -> bool {
    strictly_reaches(parents, n, n)
}

/// All the nodes that lie on a cycle of the parent function.
pub open spec fn loop_nodes(parents: Map<u32, Option<u32>>) -> Set<u32> {
    Set::new(|n: u32| on_loop(parents, n))
}

/// The nodes on a cycle that a walk up from `start` runs into.
pub open spec fn loops_met(parents: Map<u32, Option<u32>>, start: u32) -> Set<u32> {
    Set::new(|x: u32| reaches(parents, start, x) && on_loop(parents, x))
}

/// The first `k` nodes of the walk up from `n` exist and none of them is marked.
pub open spec fn clean_walk(v: TreeView, n: u32, k: nat) -> bool {
    forall|i: nat|
        i < k ==> match #[trigger] nth_parent(v.parents, n, i) {
            Some(m) => !v.cycles.contains(m),
            None => false,
        }
}

impl TreeView {
    /// The tree without any node.
    pub open spec fn empty() -> TreeView {
        TreeView {
            parents: Map::new(|x: u32| true, |x: u32| None::<u32>),
            children: Map::new(|x: u32| true, |x: u32| Set::<u32>::empty()),
            descendants: Map::new(|x: u32| true, |x: u32| Set::<u32>::empty()),
            cycles: Set::empty(),
        }
    }

    /// The node with the descendants recorded for it: the subtree that moves with it.
    pub open spec fn subtree(self, node: u32) -> Set<u32> {
        self.descendants[node].insert(node)
    }

    /// Every node on a cycle of the parent function is marked. Walks that stop
    /// at marked nodes then always end.
    pub open spec fn loops_marked(self) -> bool {
        forall|n: u32| on_loop(self.parents, n) ==> self.cycles.contains(n)
    }

    /// The parent function while the descendants of `node` are lifted out of
    /// the tree: they have no parent, `node` still has its own.
    pub open spec fn lifted_parents(self, node: u32) -> Map<u32, Option<u32>> {
        Map::new(
            |x: u32| true,
            |x: u32|
                if self.descendants[node].contains(x) {
                    None
                } else {
                    self.parents[x]
                },
        )
    }

    /// The parent that `node` is cut from.
    pub open spec fn anchor(self, node: u32) -> Option<u32> {
        self.lifted_parents(node)[node]
    }

    /// The ancestors that lose the subtree of `node` when it is cut out.
    pub open spec fn old_ancestors(self, node: u32) -> Set<u32> {
        reach_from(self.lifted_parents(node), self.anchor(node))
    }

    /// The tree after the subtree of `node` is cut out: its nodes stand alone
    /// with nothing recorded, the former parent has lost the child, and the
    /// former ancestors have lost the subtree. Marks are left as they are.
    pub open spec fn detached(self, node: u32) -> TreeView {
        let s = self.subtree(node);
        let anchor = self.anchor(node);
        let above = self.old_ancestors(node);
        TreeView {
            parents: Map::new(
                |x: u32| true,
                |x: u32|
                    if s.contains(x) {
                        None
                    } else {
                        self.parents[x]
                    },
            ),
            children: Map::new(
                |x: u32| true,
                |x: u32|
                    if s.contains(x) {
                        Set::empty()
                    } else if anchor == Some(x) {
                        self.children[x].remove(node)
                    } else {
                        self.children[x]
                    },
            ),
            descendants: Map::new(
                |x: u32| true,
                |x: u32|
                    if s.contains(x) {
                        Set::empty()
                    } else if above.contains(x) {
                        self.descendants[x].difference(s)
                    } else {
                        self.descendants[x]
                    },
            ),
            cycles: self.cycles,
        }
    }

    /// The tree after `node` and its subtree are removed: cut out, and the
    /// marks computed afresh from the parent function that is left.
    pub open spec fn removed(self, node: u32) -> TreeView {
        let cut = self.detached(node);
        TreeView { cycles: loop_nodes(cut.parents), ..cut }
    }

    /// The parent function at the moment the cut subtree is hung under
    /// `new_parent`: `child` has its new parent, its descendants have none yet.
    pub open spec fn hooked_parents(self, new_parent: Option<u32>, child: u32) -> Map<
        u32,
        Option<u32>,
    > {
        Map::new(
            |x: u32| true,
            |x: u32|
                if x == child {
                    new_parent
                } else if self.descendants[child].contains(x) {
                    None
                } else {
                    self.parents[x]
                },
        )
    }

    /// The ancestors that gain the subtree of `child` when it is hung under `new_parent`.
    pub open spec fn new_ancestors(self, new_parent: Option<u32>, child: u32) -> Set<u32> {
        reach_from(self.hooked_parents(new_parent, child), new_parent)
    }

    /// The parent function after `child` is given `new_parent`.
    pub open spec fn reparented(self, new_parent: Option<u32>, child: u32) -> Map<
        u32,
        Option<u32>,
    > {
        Map::new(
            |x: u32| true,
            |x: u32|
                if x == child {
                    new_parent
                } else {
                    self.parents[x]
                },
        )
    }

    /// The tree after the subtree of `child` has moved under `new_parent`: the
    /// nodes inside keep what was recorded for them, the former parent and
    /// ancestors lose the subtree, the new parent and ancestors gain it.
    pub open spec fn moved(self, new_parent: Option<u32>, child: u32) -> TreeView {
        let s = self.subtree(child);
        let anchor = self.anchor(child);
        let above = self.old_ancestors(child);
        let over = self.new_ancestors(new_parent, child);
        TreeView {
            parents: self.reparented(new_parent, child),
            children: Map::new(
                |x: u32| true,
                |x: u32|
                    if s.contains(x) {
                        self.children[x]
                    } else {
                        let kept = if anchor == Some(x) {
                            self.children[x].remove(child)
                        } else {
                            self.children[x]
                        };
                        if new_parent == Some(x) {
                            kept.insert(child)
                        } else {
                            kept
                        }
                    },
            ),
            descendants: Map::new(
                |x: u32| true,
                |x: u32|
                    if s.contains(x) {
                        self.descendants[x]
                    } else {
                        let kept = if above.contains(x) {
                            self.descendants[x].difference(s)
                        } else {
                            self.descendants[x]
                        };
                        if over.contains(x) {
                            kept.union(s)
                        } else {
                            kept
                        }
                    },
            ),
            cycles: self.cycles,
        }
    }

    /// The tree with every cycle marked that a walk up from `start` meets.
    pub open spec fn marked(self, start: u32) -> TreeView {
        TreeView { cycles: self.cycles.union(loops_met(self.parents, start)), ..self }
    }

    /// The tree after `child` is placed under `new_parent`. Nothing changes
    /// when that is its parent already. Otherwise the subtree of `child` moves
    /// as a whole, and every cycle that a walk up from `child` then meets is
    /// marked.
    pub open spec fn inserted(self, new_parent: Option<u32>, child: u32) -> TreeView {
        if self.parents[child] == new_parent {
            self
        } else {
            self.moved(new_parent, child).marked(child)
        }
    }
}

/// Walking `a` steps and then `b` more is walking `a + b` steps.
pub proof fn lemma_nth_parent_add(parents: Map<u32, Option<u32>>, n: u32, a: nat, b: nat)
    ensures
        nth_parent(parents, n, a + b) == match nth_parent(parents, n, a) {
            Some(m) => nth_parent(parents, m, b),
            None => None,
        },
    decreases b,
{
    if b > 0 {
        lemma_nth_parent_add(parents, n, a, (b - 1) as nat);
        assert((a + b - 1) as nat == a + (b - 1) as nat);
    }
}

/// Once a walk has run out of parents it stays at nothing.
pub proof fn lemma_nth_parent_none_stays(parents: Map<u32, Option<u32>>, n: u32, a: nat, b: nat)
    requires
        nth_parent(parents, n, a) is None,
        a <= b,
    ensures
        nth_parent(parents, n, b) is None,
    decreases b,
{
    if a < b {
        lemma_nth_parent_none_stays(parents, n, a, (b - 1) as nat);
    }
}

/// A walk that is at the same place after `a` and after `b` steps never
/// leaves the stretch between them again.
pub proof fn lemma_walk_closed(parents: Map<u32, Option<u32>>, n: u32, a: nat, b: nat, k: nat)
    requires
        a < b,
        nth_parent(parents, n, a) == nth_parent(parents, n, b),
        a <= k,
    ensures
        exists|i: nat| a <= i < b && nth_parent(parents, n, k) == #[trigger] nth_parent(parents, n, i),
    decreases k,
{
    if k < b {
        assert(a <= k < b && nth_parent(parents, n, k) == nth_parent(parents, n, k));
    } else {
        lemma_walk_closed(parents, n, a, b, (k - 1) as nat);
        let i = choose|i: nat|
            a <= i < b && nth_parent(parents, n, (k - 1) as nat) == #[trigger] nth_parent(parents, n, i);
        assert(nth_parent(parents, n, k) == nth_parent(parents, n, i + 1));
        if i + 1 < b {
            assert(a <= i + 1 < b && nth_parent(parents, n, k) == nth_parent(parents, n, i + 1));
        } else {
            assert(a <= a < b && nth_parent(parents, n, k) == nth_parent(parents, n, a));
        }
    }
}

/// A node that comes back to itself after `m` steps does so after every
/// multiple of `m` steps.
pub proof fn lemma_loop_multiple(parents: Map<u32, Option<u32>>, x: u32, m: nat, t: nat)
    requires
        nth_parent(parents, x, m) == Some(x),
    ensures
        nth_parent(parents, x, t * m) == Some(x),
    decreases t,
{
    if t > 0 {
        lemma_loop_multiple(parents, x, m, (t - 1) as nat);
        assert(t * m == (t - 1) as nat * m + m) by (nonlinear_arith)
            requires
                t > 0,
        ;
        lemma_nth_parent_add(parents, x, (t - 1) as nat * m, m);
    } else {
        assert(t * m == 0) by (nonlinear_arith)
            requires
                t == 0,
        ;
    }
}

/// A walk that starts on a cycle never runs out of parents.
pub proof fn lemma_loop_never_ends(parents: Map<u32, Option<u32>>, x: u32, k: nat)
    requires
        on_loop(parents, x),
    ensures
        nth_parent(parents, x, k) is Some,
{
    let m = choose|m: nat| m >= 1 && nth_parent(parents, x, m) == Some(x);
    lemma_loop_multiple(parents, x, m, k + 1);
    assert((k + 1) * m >= k) by (nonlinear_arith)
        requires
            m >= 1,
    ;
    if nth_parent(parents, x, k) is None {
        lemma_nth_parent_none_stays(parents, x, k, (k + 1) * m);
    }
}

/// A walk that runs out of parents has met no cycle.
pub proof fn lemma_ended_walk_meets_no_loop(parents: Map<u32, Option<u32>>, start: u32, end: nat)
    requires
        nth_parent(parents, start, end) is None,
    ensures
        loops_met(parents, start) == Set::<u32>::empty(),
{
    assert forall|x: u32| !(reaches(parents, start, x) && on_loop(parents, x)) by {
        if reaches(parents, start, x) && on_loop(parents, x) {
            let k = choose|k: nat| nth_parent(parents, start, k) == Some(x);
            lemma_loop_never_ends(parents, x, end);
            lemma_nth_parent_add(parents, start, k, end);
            lemma_nth_parent_none_stays(parents, start, end, k + end);
        }
    }
    assert(loops_met(parents, start) =~= Set::<u32>::empty());
}

/// A walk from `start` whose first `b` nodes are all different and which is
/// back at its `a`-th node after `b` steps meets exactly the cycle made of the
/// nodes from the `a`-th on.
pub proof fn lemma_closed_walk_meets_its_loop(
    parents: Map<u32, Option<u32>>,
    start: u32,
    path: Seq<u32>,
    a: nat,
)
    requires
        a < path.len(),
        path.no_duplicates(),
        forall|i: nat| i < path.len() ==> #[trigger] nth_parent(parents, start, i) == Some(path[i as int]),
        nth_parent(parents, start, path.len()) == Some(path[a as int]),
    ensures
        loops_met(parents, start) == path.skip(a as int).to_set(),
{
    let b = path.len();
    assert forall|x: u32| loops_met(parents, start).contains(x) <==> path.skip(a as int).to_set().contains(
        x,
    ) by {
        if path.skip(a as int).to_set().contains(x) {
            let j = path.skip(a as int).index_of(x);
            let i = (a + j) as nat;
            assert(path[i as int] == x);
            assert(nth_parent(parents, start, i) == Some(x));
            // from x, b - i steps lead to path[a], and i - a more lead back to x
            lemma_nth_parent_add(parents, start, i, (b - i) as nat);
            assert(i + (b - i) as nat == b);
            assert(nth_parent(parents, x, (b - i) as nat) == Some(path[a as int]));
            lemma_nth_parent_add(parents, start, a, (i - a) as nat);
            assert(a + (i - a) as nat == i);
            assert(nth_parent(parents, start, a) == Some(path[a as int]));
            assert(nth_parent(parents, path[a as int], (i - a) as nat) == Some(x));
            lemma_nth_parent_add(parents, x, (b - i) as nat, (i - a) as nat);
            assert((b - i) as nat + (i - a) as nat >= 1);
            assert(strictly_reaches(parents, x, x));
        }
        if reaches(parents, start, x) && on_loop(parents, x) {
            let k = choose|k: nat| nth_parent(parents, start, k) == Some(x);
            let m = choose|m: nat| m >= 1 && nth_parent(parents, x, m) == Some(x);
            // far enough along, the walk is still at x
            lemma_loop_multiple(parents, x, m, a);
            lemma_nth_parent_add(parents, start, k, a * m);
            let far = k + a * m;
            assert(a * m >= a) by (nonlinear_arith)
                requires
                    m >= 1,
            ;
            assert(nth_parent(parents, start, a) == Some(path[a as int]));
            lemma_walk_closed(parents, start, a, b, far);
            let i = choose|i: nat|
                a <= i < b && nth_parent(parents, start, far) == #[trigger] nth_parent(parents, start, i);
            assert(nth_parent(parents, start, i) == Some(path[i as int]));
            assert(path[i as int] == x);
            assert(path.skip(a as int)[i - a] == x);
        }
    }
    assert(loops_met(parents, start) =~= path.skip(a as int).to_set());
}

/// Two parent functions that give every node the same parent give the same walks.
pub proof fn lemma_same_walks(
    p: Map<u32, Option<u32>>,
    q: Map<u32, Option<u32>>,
    n: u32,
    k: nat,
)
    requires
        forall|m: u32| p[m] == q[m],
    ensures
        nth_parent(p, n, k) == nth_parent(q, n, k),
{
    lemma_walks_agree(p, q, n, k);
}

/// Two parent functions that agree on the first `k` nodes of a walk give the
/// same walk for `k` steps.
pub proof fn lemma_walks_agree(
    p: Map<u32, Option<u32>>,
    q: Map<u32, Option<u32>>,
    n: u32,
    k: nat,
)
    requires
        forall|i: nat|
            i < k ==> match #[trigger] nth_parent(p, n, i) {
                Some(m) => p[m] == q[m],
                None => true,
            },
    ensures
        nth_parent(p, n, k) == nth_parent(q, n, k),
    decreases k,
{
    if k > 0 {
        lemma_walks_agree(p, q, n, (k - 1) as nat);
        assert(((k - 1) as nat) < k);
    }
}

} // verus!
