//! The tree index: a parent relation over `u32` nodes that keeps, for every
//! node, its children, its descendants and whether it lies on a cycle.
use crate::int_set::{lemma_u32_set_bounded, u32_count, IntSet};
use crate::set_map::{
    apply_sets, map_keys, no_empty_sets, overlay_at, overlay_of, overlay_ref, replace_set, set_at,
    set_ref, sets_of, shrink_map, take_set,
};
use crate::tree_laws::{
    is_forest, lemma_empty_is_forest, lemma_insert_keeps_forest, lemma_insert_keeps_marks,
    lemma_remove_keeps_forest,
};
use crate::tree_model::{
    clean_walk, lemma_nth_parent_add, lemma_nth_parent_none_stays, loop_nodes, loops_met,
    nth_parent, on_loop, reach_from, reaches, strictly_reaches, TreeView,
};
use std::collections::HashMap;
use vstd::prelude::*;

verus! {

/// A walk towards the root ran into a node that is marked as part of a cycle.
#[derive(Debug, PartialEq, Eq, Structural)]
pub struct CycleError(pub u32);

/// The committed state of a tree.
pub struct Tree {
    children: HashMap<u32, IntSet>,
    cycles: IntSet,
    descendants: HashMap<u32, IntSet>,
    parents: HashMap<u32, u32>,
    empty: IntSet,
}

/// The parent function that a map of parents stands for.
pub open spec fn parents_of(m: Map<u32, u32>) -> Map<u32, Option<u32>> {
    Map::new(
        |x: u32| true,
        |x: u32|
            if m.contains_key(x) {
                Some(m[x])
            } else {
                None
            },
    )
}

/// The parent function that a log of overrides shows over a base.
pub open spec fn parents_over(base: Map<u32, u32>, log: Map<u32, Option<u32>>) -> Map<
    u32,
    Option<u32>,
> {
    Map::new(
        |x: u32| true,
        |x: u32|
            if log.contains_key(x) {
                log[x]
            } else {
                parents_of(base)[x]
            },
    )
}

impl View for Tree {
    type V = TreeView;

    closed spec fn view(&self) -> TreeView {
        TreeView {
            parents: parents_of(self.parents@),
            children: sets_of(self.children@),
            descendants: sets_of(self.descendants@),
            cycles: self.cycles@,
        }
    }
}

impl Tree {
    /// The stored maps hold no empty set, so that two trees that answer alike
    /// are stored alike.
    pub closed spec fn wf(&self) -> bool {
        &&& no_empty_sets(self.children@)
        &&& no_empty_sets(self.descendants@)
        &&& self.empty@ == Set::<u32>::empty()
    }

    /// The tree without any node.
    pub fn new() -> (t: Self)
        ensures
            t.wf(),
            t@ == TreeView::empty(),
            is_forest(t@),
            t@.loops_marked(),
    {
        let t = Tree {
            children: HashMap::new(),
            cycles: IntSet::new(),
            descendants: HashMap::new(),
            parents: HashMap::new(),
            empty: IntSet::new(),
        };
        proof {
            assert(t@.parents =~= TreeView::empty().parents);
            assert(t@.children =~= TreeView::empty().children);
            assert(t@.descendants =~= TreeView::empty().descendants);
            lemma_empty_is_forest();
        }
        t
    }

    /// The parent of `child`.
    pub fn parent(&self, child: u32) -> (p: Option<u32>)
        ensures
            p == self@.parents[child],
    {
        match self.parents.get(&child) {
            Some(p) => Some(*p),
            None => None,
        }
    }

    /// The direct children of `node`.
    pub fn children(&self, node: u32) -> (s: &IntSet)
        requires
            self.wf(),
        ensures
            s@ == self@.children[node],
    {
        set_ref(&self.children, &self.empty, node)
    }

    /// The descendants of `node`.
    pub fn descendants(&self, node: u32) -> (s: &IntSet)
        requires
            self.wf(),
        ensures
            s@ == self@.descendants[node],
    {
        set_ref(&self.descendants, &self.empty, node)
    }

    /// Whether `node` is marked as part of a cycle.
    pub fn has_cycle(&self, node: u32) -> (marked: bool)
        ensures
            marked == self@.cycles.contains(node),
    {
        self.cycles.contains(node)
    }

    /// Whether `child` is recorded as a descendant of `parent`.
    pub fn is_descendant_of(&self, child: u32, parent: u32) -> (found: bool)
        requires
            self.wf(),
        ensures
            found == self@.descendants[parent].contains(child),
    {
        self.descendants(parent).contains(child)
    }

    /// The marked nodes in ascending order.
    pub fn cycles(&self) -> (v: Vec<u32>)
        ensures
            crate::int_set::strictly_increasing(v@),
            v@.no_duplicates(),
            v@.to_set() == self@.cycles,
    {
        self.cycles.to_vec()
    }
}

/// The staged changes to a tree: overrides of what the base holds.
pub struct TreeLog {
    children: HashMap<u32, IntSet>,
    cycles: Option<IntSet>,
    descendants: HashMap<u32, IntSet>,
    parents: HashMap<u32, Option<u32>>,
}

impl TreeLog {
    /// What the tree looks like with this log laid over `base`.
    pub closed spec fn view(&self, base: &Tree) -> TreeView {
        TreeView {
            parents: parents_over(base.parents@, self.parents@),
            children: overlay_of(base.children@, self.children@),
            descendants: overlay_of(base.descendants@, self.descendants@),
            cycles: match self.cycles {
                Some(c) => c@,
                None => base.cycles@,
            },
        }
    }

    /// The log without any change: over every base it shows the base.
    pub fn new() -> (log: Self)
        ensures
            forall|base: &Tree| #[trigger] log.view(base) == base@,
    {
        let log = TreeLog {
            children: HashMap::new(),
            cycles: None,
            descendants: HashMap::new(),
            parents: HashMap::new(),
        };
        proof {
            assert forall|base: &Tree| #[trigger] log.view(base) == base@ by {
                assert(log.view(base).parents =~= base@.parents);
                assert(log.view(base).children =~= base@.children);
                assert(log.view(base).descendants =~= base@.descendants);
            }
        }
        log
    }

    /// The parent of `child`.
    pub fn parent(&self, base: &Tree, child: u32) -> (p: Option<u32>)
        ensures
            p == self.view(base).parents[child],
    {
        match self.parents.get(&child) {
            Some(p) => *p,
            None => base.parent(child),
        }
    }

    /// The direct children of `node`.
    pub fn children<'a>(&'a self, base: &'a Tree, node: u32) -> (s: &'a IntSet)
        requires
            base.wf(),
        ensures
            s@ == self.view(base).children[node],
    {
        overlay_ref(&base.children, &self.children, &base.empty, node)
    }

    /// The descendants of `node`.
    pub fn descendants<'a>(&'a self, base: &'a Tree, node: u32) -> (s: &'a IntSet)
        requires
            base.wf(),
        ensures
            s@ == self.view(base).descendants[node],
    {
        overlay_ref(&base.descendants, &self.descendants, &base.empty, node)
    }

    /// The set of marked nodes.
    pub fn cycles<'a>(&'a self, base: &'a Tree) -> (s: &'a IntSet)
        ensures
            s@ == self.view(base).cycles,
    {
        match &self.cycles {
            Some(c) => c,
            None => &base.cycles,
        }
    }

    /// Whether `node` is marked as part of a cycle.
    pub fn has_cycle(&self, base: &Tree, node: u32) -> (marked: bool)
        ensures
            marked == self.view(base).cycles.contains(node),
    {
        self.cycles(base).contains(node)
    }

    /// Whether `child` is recorded as a descendant of `parent`.
    pub fn is_descendant_of(&self, base: &Tree, child: u32, parent: u32) -> (found: bool)
        requires
            base.wf(),
        ensures
            found == self.view(base).descendants[parent].contains(child),
    {
        self.descendants(base, parent).contains(child)
    }
}


/// What was recorded for a node at the moment its subtree was cut out.
struct RemoveItem {
    children: IntSet,
    descendants: IntSet,
    parent: Option<u32>,
}

impl TreeLog {
    /// Overrides the parent of `node` and hands back the parent it had.
    fn replace_parent(&mut self, base: &Tree, node: u32, new: Option<u32>) -> (p: Option<u32>)
        ensures
            p == parents_over(base.parents@, old(self).parents@)[node],
            final(self).parents@ == old(self).parents@.insert(node, new),
            final(self).children == old(self).children,
            final(self).descendants == old(self).descendants,
            final(self).cycles == old(self).cycles,
    {
        match self.parents.insert(node, new) {
            Some(p) => p,
            None => base.parent(node),
        }
    }

    /// Walks up from `start` and, on every node met, adds `s` and `extra` to
    /// the recorded descendants, or takes them out.
    fn shift_ancestors(&mut self, base: &Tree, start: Option<u32>, s: &IntSet, extra: u32, add: bool)
        ensures
            final(self).parents == old(self).parents,
            final(self).children == old(self).children,
            final(self).cycles == old(self).cycles,
            forall|x: u32| #[trigger]
                overlay_at(base.descendants@, final(self).descendants@, x) == shifted(
                    overlay_at(base.descendants@, old(self).descendants@, x),
                    reach_from(parents_over(base.parents@, old(self).parents@), start).contains(x),
                    s@.insert(extra),
                    add,
                ),
    {
        assert(s@.union(set![extra]) =~= s@.insert(extra));
        shift_along(
            &base.parents,
            &self.parents,
            &base.descendants,
            &mut self.descendants,
            start,
            s,
            Some(extra),
            add,
        );
    }
}

/// A set after the walk has passed: changed by `s` on the way, untouched elsewhere.
pub open spec fn shifted(was: Set<u32>, on_the_way: bool, s: Set<u32>, add: bool) -> Set<u32> {
    if on_the_way {
        if add {
            was.union(s)
        } else {
            was.difference(s)
        }
    } else {
        was
    }
}

/// The set that `s` and `extra` make together.
pub open spec fn with_extra(s: Set<u32>, extra: Option<u32>) -> Set<u32> {
    match extra {
        Some(e) => s.union(set![e]),
        None => s,
    }
}

/// Walks up the overlay of parents from `start` and, in the overlay of sets,
/// adds `s` and `extra` to the set of every node met, or takes them out.
fn shift_along(
    base_parents: &HashMap<u32, u32>,
    log_parents: &HashMap<u32, Option<u32>>,
    base_sets: &HashMap<u32, IntSet>,
    log_sets: &mut HashMap<u32, IntSet>,
    start: Option<u32>,
    s: &IntSet,
    extra: Option<u32>,
    add: bool,
)
    ensures
        forall|x: u32| #[trigger]
            overlay_at(base_sets@, final(log_sets)@, x) == shifted(
                overlay_at(base_sets@, old(log_sets)@, x),
                reach_from(parents_over(base_parents@, log_parents@), start).contains(x),
                with_extra(s@, extra),
                add,
            ),
{
        let ghost par = parents_over(base_parents@, log_parents@);
        let ghost before = log_sets@;
        let ghost all = with_extra(s@, extra);
        let first = match start {
            Some(f) => f,
            None => {
                return ;
            },
        };
        let mut visited = IntSet::new();
        let mut cur = start;
        let mut go = true;
        let ghost mut steps: nat = 0;
        proof {
            lemma_u32_set_bounded(visited@);
        }
        while go
            invariant
                par == parents_over(base_parents@, log_parents@),
                all == with_extra(s@, extra),
                cur == nth_parent(par, first, steps),
                visited@.finite(),
                visited@.len() == steps,
                steps <= u32_count(),
                forall|i: nat|
                    i < steps ==> match #[trigger] nth_parent(par, first, i) {
                        Some(m) => visited@.contains(m),
                        None => false,
                    },
                forall|x: u32|
                    visited@.contains(x) ==> exists|i: nat|
                        i < steps && #[trigger] nth_parent(par, first, i) == Some(x),
                !go ==> match cur {
                    Some(p) => visited@.contains(p),
                    None => true,
                },
                forall|x: u32| #[trigger]
                    overlay_at(base_sets@, log_sets@, x) == {
                        let was = overlay_at(base_sets@, before, x);
                        if visited@.contains(x) {
                            if add {
                                was.union(all)
                            } else {
                                was.difference(all)
                            }
                        } else {
                            was
                        }
                    },
            decreases u32_count() - steps + (if go { 1nat } else { 0nat }),
        {
            match cur {
                None => {
                    go = false;
                },
                Some(p) => {
                    let ghost seen = visited@;
                    let fresh = visited.insert(p);
                    if !fresh {
                        assert(visited@ =~= seen);
                        go = false;
                    } else {
                        let ghost prev = log_sets@;
                        let mut d = take_set(base_sets, log_sets, p);
                        if add {
                            d.union_with(s);
                            match extra {
                                Some(e) => {
                                    d.insert(e);
                                },
                                None => {},
                            }
                        } else {
                            match extra {
                                Some(e) => {
                                    d.remove(e);
                                },
                                None => {},
                            }
                            d.difference_with(s);
                        }
                        log_sets.insert(p, d);
                        cur = match log_parents.get(&p) {
                            Some(staged) => *staged,
                            None => match base_parents.get(&p) {
                                Some(q) => Some(*q),
                                None => None,
                            },
                        };
                        proof {
                            lemma_u32_set_bounded(visited@);
                            let was = overlay_at(base_sets@, before, p);
                            match extra {
                                Some(e) => {
                                    assert(was.union(s@).insert(e) =~= was.union(all));
                                    assert(was.remove(e).difference(s@) =~= was.difference(all));
                                },
                                None => {},
                            }
                            assert(log_sets@[p]@ == if add {
                                was.union(all)
                            } else {
                                was.difference(all)
                            });
                            assert forall|x: u32| #[trigger]
                                overlay_at(base_sets@, log_sets@, x) == {
                                    let was = overlay_at(base_sets@, before, x);
                                    if visited@.contains(x) {
                                        if add {
                                            was.union(all)
                                        } else {
                                            was.difference(all)
                                        }
                                    } else {
                                        was
                                    }
                                } by {
                                if x != p {
                                    assert(overlay_at(base_sets@, log_sets@, x)
                                        == overlay_at(base_sets@, prev, x));
                                }
                            }
                            assert(nth_parent(par, first, steps + 1) == par[p]);
                            assert forall|i: nat| i < steps + 1 implies match #[trigger] nth_parent(
                                par,
                                first,
                                i,
                            ) {
                                Some(m) => visited@.contains(m),
                                None => false,
                            } by {}
                            assert forall|x: u32| visited@.contains(x) implies exists|i: nat|
                                i < steps + 1 && #[trigger] nth_parent(par, first, i) == Some(x) by {
                                if x == p {
                                    assert(nth_parent(par, first, steps) == Some(x));
                                } else {
                                    let i = choose|i: nat|
                                        i < steps && #[trigger] nth_parent(par, first, i) == Some(x);
                                    assert(i < steps + 1);
                                }
                            }
                            steps = steps + 1;
                        }
                    }
                },
            }
        }
        proof {
            assert forall|x: u32| reach_from(par, start).contains(x) <==> visited@.contains(x) by {
                if visited@.contains(x) {
                    let i = choose|i: nat|
                        i < steps && #[trigger] nth_parent(par, first, i) == Some(x);
                    assert(reaches(par, first, x));
                }
                if reaches(par, first, x) {
                    let k = choose|k: nat| nth_parent(par, first, k) == Some(x);
                    if k >= steps {
                        match cur {
                            None => {
                                lemma_nth_parent_none_stays(par, first, steps, k);
                            },
                            Some(p) => {
                                let j = choose|j: nat|
                                    j < steps && #[trigger] nth_parent(par, first, j) == Some(p);
                                crate::tree_model::lemma_walk_closed(par, first, j, steps, k);
                                let i = choose|i: nat|
                                    j <= i < steps && nth_parent(par, first, k) == #[trigger] nth_parent(
                                        par,
                                        first,
                                        i,
                                    );
                                assert(visited@.contains(x));
                            },
                        }
                    }
                }
            }
        }
}

/// The records taken while the subtree of `node` was cut out of `v`: one for
/// every node of the subtree, holding what `v` had recorded for it.
spec fn records_hold(removed: Map<u32, RemoveItem>, v: TreeView, node: u32) -> bool {
    &&& forall|x: u32| removed.contains_key(x) <==> v.subtree(node).contains(x)
    &&& forall|x: u32|
        removed.contains_key(x) ==> {
            &&& (#[trigger] removed[x]).children@ == v.children[x]
            &&& removed[x].descendants@ == v.descendants[x]
            &&& x != node ==> removed[x].parent == v.parents[x]
        }
}

impl TreeLog {
    /// Cuts the subtree of `node` out of the tree and hands back what was
    /// recorded for its nodes, so that a later step can put it back.
    fn remove_impl(&mut self, base: &Tree, node: u32) -> (removed: HashMap<u32, RemoveItem>)
        ensures
            final(self).view(base) == old(self).view(base).detached(node),
            records_hold(removed@, old(self).view(base), node),
    {
        let ghost v = self.view(base);
        // 1. the subtree: the node and the descendants recorded for it
        let desc = replace_set(&base.descendants, &mut self.descendants, node, IntSet::new());
        let chil = replace_set(&base.children, &mut self.children, node, IntSet::new());
        let ids = desc.to_vec();
        // 2. lift every descendant out, keeping what was recorded for it
        let mut removed: HashMap<u32, RemoveItem> = HashMap::new();
        let mut i: usize = 0;
        while i < ids.len()
            invariant
                i <= ids.len(),
                ids@.no_duplicates(),
                ids@.to_set() == v.descendants[node],
                self.cycles == old(self).cycles,
                forall|x: u32| #[trigger]
                    parents_over(base.parents@, self.parents@)[x] == if ids@.take(i as int).contains(x) {
                        None
                    } else {
                        v.parents[x]
                    },
                forall|x: u32| #[trigger]
                    overlay_at(base.children@, self.children@, x) == if x == node || ids@.take(
                        i as int,
                    ).contains(x) {
                        Set::<u32>::empty()
                    } else {
                        v.children[x]
                    },
                forall|x: u32| #[trigger]
                    overlay_at(base.descendants@, self.descendants@, x) == if x == node || ids@.take(
                        i as int,
                    ).contains(x) {
                        Set::<u32>::empty()
                    } else {
                        v.descendants[x]
                    },
                forall|x: u32| removed@.contains_key(x) <==> ids@.take(i as int).contains(x),
                forall|x: u32|
                    removed@.contains_key(x) && x != node ==> {
                        &&& (#[trigger] removed@[x]).children@ == v.children[x]
                        &&& removed@[x].descendants@ == v.descendants[x]
                        &&& removed@[x].parent == v.parents[x]
                    },
            decreases ids.len() - i,
        {
            let id = ids[i];
            proof {
                assert(!ids@.take(i as int).contains(id)) by {
                    if ids@.take(i as int).contains(id) {
                        let j = ids@.take(i as int).index_of(id);
                        assert(ids@[j] == id && ids@[i as int] == id);
                    }
                }
                assert(ids@.take(i + 1) =~= ids@.take(i as int).push(id));
                assert forall|x: u32| ids@.take(i + 1).contains(x) <==> (ids@.take(i as int).contains(
                    x,
                ) || x == id) by {
                    vstd::seq_lib::lemma_seq_contains_after_push(ids@.take(i as int), id, x);
                }
            }
            let ghost pc = self.children@;
            let ghost pd = self.descendants@;
            let ghost pp = self.parents@;
            let c = replace_set(&base.children, &mut self.children, id, IntSet::new());
            let d = replace_set(&base.descendants, &mut self.descendants, id, IntSet::new());
            let p = self.replace_parent(base, id, None);
            removed.insert(id, RemoveItem { children: c, descendants: d, parent: p });
            proof {
                assert forall|x: u32| #[trigger]
                    parents_over(base.parents@, self.parents@)[x] == if ids@.take(i + 1).contains(x) {
                        None
                    } else {
                        v.parents[x]
                    } by {
                    if x != id {
                        assert(parents_over(base.parents@, self.parents@)[x] == parents_over(
                            base.parents@,
                            pp,
                        )[x]);
                    }
                }
                assert forall|x: u32| #[trigger]
                    overlay_at(base.children@, self.children@, x) == if x == node || ids@.take(
                        i + 1,
                    ).contains(x) {
                        Set::<u32>::empty()
                    } else {
                        v.children[x]
                    } by {
                    if x != id {
                        assert(overlay_at(base.children@, self.children@, x) == overlay_at(
                            base.children@,
                            pc,
                            x,
                        ));
                    }
                }
                assert forall|x: u32| #[trigger]
                    overlay_at(base.descendants@, self.descendants@, x) == if x == node || ids@.take(
                        i + 1,
                    ).contains(x) {
                        Set::<u32>::empty()
                    } else {
                        v.descendants[x]
                    } by {
                    if x != id {
                        assert(overlay_at(base.descendants@, self.descendants@, x) == overlay_at(
                            base.descendants@,
                            pd,
                            x,
                        ));
                    }
                }
            }
            i = i + 1;
        }
        proof {
            assert(ids@.take(ids@.len() as int) =~= ids@);
            assert forall|x: u32| ids@.contains(x) <==> v.descendants[node].contains(x) by {
                assert(ids@.to_set().contains(x) <==> ids@.contains(x));
            }
            assert(parents_over(base.parents@, self.parents@) =~= v.lifted_parents(node));
        }
        // 3. take the node away from its former parent
        let anchor = self.parent(base, node);
        let ghost pc = self.children@;
        match anchor {
            Some(p) => {
                let mut c = take_set(&base.children, &mut self.children, p);
                c.remove(node);
                self.children.insert(p, c);
            },
            None => {},
        }
        proof {
            assert forall|x: u32| #[trigger]
                overlay_at(base.children@, self.children@, x) == if v.subtree(node).contains(x) {
                    Set::<u32>::empty()
                } else if anchor == Some(x) {
                    v.children[x].remove(node)
                } else {
                    v.children[x]
                } by {
                if anchor != Some(x) {
                    assert(overlay_at(base.children@, self.children@, x) == overlay_at(
                        base.children@,
                        pc,
                        x,
                    ));
                } else {
                    assert(overlay_at(base.children@, pc, x).remove(node) =~= if v.subtree(
                        node,
                    ).contains(x) {
                        Set::<u32>::empty()
                    } else {
                        v.children[x].remove(node)
                    });
                }
            }
        }
        // 4. take the subtree out of what the former ancestors have recorded
        let ghost pd = self.descendants@;
        self.shift_ancestors(base, anchor, &desc, node, false);
        // 5. the node itself
        let ghost pp = self.parents@;
        let p = self.replace_parent(base, node, None);
        removed.insert(node, RemoveItem { children: chil, descendants: desc, parent: p });
        proof {
            let cut = v.detached(node);
            let now = self.view(base);
            let s = v.subtree(node);
            assert(desc@.insert(node) == s);
            assert forall|x: u32| now.parents[x] == cut.parents[x] by {
                if x != node {
                    assert(parents_over(base.parents@, self.parents@)[x] == parents_over(
                        base.parents@,
                        pp,
                    )[x]);
                }
            }
            assert(now.parents =~= cut.parents);
            assert(now.children =~= cut.children);
            assert forall|x: u32| now.descendants[x] == cut.descendants[x] by {
                let was = overlay_at(base.descendants@, pd, x);
                assert(now.descendants[x] == overlay_at(base.descendants@, self.descendants@, x));
                if s.contains(x) {
                    assert(was == Set::<u32>::empty());
                    assert(was.difference(s) =~= Set::<u32>::empty());
                }
            }
            assert(now.descendants =~= cut.descendants);
            assert(records_hold(removed@, v, node));
        }
        removed
    }
}


impl TreeLog {
    /// Hangs the subtree of `root`, cut out before, under `new_parent`, and
    /// puts back what was recorded for its nodes.
    fn reparent_subtree(
        &mut self,
        base: &Tree,
        new_parent: Option<u32>,
        root: u32,
        removed: HashMap<u32, RemoveItem>,
        Ghost(v): Ghost<TreeView>,
    )
        requires
            old(self).view(base) == v.detached(root),
            records_hold(removed@, v, root),
        ensures
            final(self).view(base) == v.moved(new_parent, root),
    {
        let ghost s = v.subtree(root);
        let ghost cut = v.detached(root);
        let ghost rec0 = removed@;
        let mut removed = removed;
        // 1. the new parent takes the root as a child
        self.parents.insert(root, new_parent);
        let ghost pc = self.children@;
        match new_parent {
            Some(p) => {
                let mut c = take_set(&base.children, &mut self.children, p);
                c.insert(root);
                self.children.insert(p, c);
            },
            None => {},
        }
        proof {
            assert(parents_over(base.parents@, self.parents@) =~= v.hooked_parents(new_parent, root))
                by {
                assert forall|x: u32|
                    parents_over(base.parents@, self.parents@)[x] == v.hooked_parents(
                        new_parent,
                        root,
                    )[x] by {
                    if x != root {
                        assert(parents_over(base.parents@, self.parents@)[x] == cut.parents[x]);
                    }
                }
            }
            assert forall|x: u32| #[trigger]
                overlay_at(base.children@, self.children@, x) == if new_parent == Some(x) {
                    cut.children[x].insert(root)
                } else {
                    cut.children[x]
                } by {
                if new_parent != Some(x) {
                    assert(overlay_at(base.children@, self.children@, x) == overlay_at(
                        base.children@,
                        pc,
                        x,
                    ));
                }
                assert(cut.children[x] == overlay_at(base.children@, pc, x));
            }
        }
        assert(removed@.contains_key(root));
        let taken = removed.remove(&root);
        let item = taken.unwrap();
        let RemoveItem { children: root_children, descendants: root_descendants, parent: _ } = item;
        // 2. the new ancestors take the subtree into what they have recorded
        let ghost pd = self.descendants@;
        self.shift_ancestors(base, new_parent, &root_descendants, root, true);
        proof {
            assert(root_descendants@.insert(root) == s);
            assert forall|x: u32| #[trigger]
                overlay_at(base.descendants@, self.descendants@, x) == if v.new_ancestors(
                    new_parent,
                    root,
                ).contains(x) {
                    cut.descendants[x].union(s)
                } else {
                    cut.descendants[x]
                } by {
                assert(cut.descendants[x] == overlay_at(base.descendants@, pd, x));
            }
        }
        // 3. the nodes of the subtree get back what was recorded for them
        let ghost c1 = self.children@;
        let ghost d2 = self.descendants@;
        let ghost rc = root_children@;
        let ghost rd = root_descendants@;
        self.children.insert(root, root_children);
        self.descendants.insert(root, root_descendants);
        let keys = map_keys(&removed);
        let ghost rest = removed@;
        let ghost ac = self.children@;
        let ghost ad = self.descendants@;
        let ghost ap = self.parents@;
        let mut i: usize = 0;
        while i < keys.len()
            invariant
                i <= keys.len(),
                keys@.no_duplicates(),
                self.cycles == old(self).cycles,
                forall|k: u32| keys@.contains(k) <==> rest.contains_key(k),
                forall|k: u32| #[trigger]
                    removed@.contains_key(k) <==> (rest.contains_key(k) && !keys@.take(
                        i as int,
                    ).contains(k)),
                forall|k: u32| removed@.contains_key(k) ==> #[trigger] removed@[k] == rest[k],
                forall|x: u32| #[trigger]
                    parents_over(base.parents@, self.parents@)[x] == if keys@.take(i as int).contains(x) {
                        rest[x].parent
                    } else {
                        parents_over(base.parents@, ap)[x]
                    },
                forall|x: u32| #[trigger]
                    overlay_at(base.children@, self.children@, x) == if keys@.take(i as int).contains(x) {
                        rest[x].children@
                    } else {
                        overlay_at(base.children@, ac, x)
                    },
                forall|x: u32| #[trigger]
                    overlay_at(base.descendants@, self.descendants@, x) == if keys@.take(
                        i as int,
                    ).contains(x) {
                        rest[x].descendants@
                    } else {
                        overlay_at(base.descendants@, ad, x)
                    },
            decreases keys.len() - i,
        {
            let k = keys[i];
            proof {
                assert(keys@.contains(k));
                assert(!keys@.take(i as int).contains(k)) by {
                    if keys@.take(i as int).contains(k) {
                        let j = keys@.take(i as int).index_of(k);
                        assert(keys@[j] == k && keys@[i as int] == k);
                    }
                }
                assert(keys@.take(i + 1) =~= keys@.take(i as int).push(k));
                assert forall|x: u32| keys@.take(i + 1).contains(x) <==> (keys@.take(i as int).contains(
                    x,
                ) || x == k) by {
                    vstd::seq_lib::lemma_seq_contains_after_push(keys@.take(i as int), k, x);
                }
                assert(removed@.contains_key(k));
            }
            let ghost pc = self.children@;
            let ghost pd = self.descendants@;
            let ghost pp = self.parents@;
            let taken = removed.remove(&k);
            let item = taken.unwrap();
            let RemoveItem { children, descendants, parent } = item;
            self.parents.insert(k, parent);
            self.children.insert(k, children);
            self.descendants.insert(k, descendants);
            proof {
                assert forall|x: u32| #[trigger]
                    parents_over(base.parents@, self.parents@)[x] == if keys@.take(i + 1).contains(x) {
                        rest[x].parent
                    } else {
                        parents_over(base.parents@, ap)[x]
                    } by {
                    if x != k {
                        assert(parents_over(base.parents@, self.parents@)[x] == parents_over(
                            base.parents@,
                            pp,
                        )[x]);
                    }
                }
                assert forall|x: u32| #[trigger]
                    overlay_at(base.children@, self.children@, x) == if keys@.take(i + 1).contains(x) {
                        rest[x].children@
                    } else {
                        overlay_at(base.children@, ac, x)
                    } by {
                    if x != k {
                        assert(overlay_at(base.children@, self.children@, x) == overlay_at(
                            base.children@,
                            pc,
                            x,
                        ));
                    }
                }
                assert forall|x: u32| #[trigger]
                    overlay_at(base.descendants@, self.descendants@, x) == if keys@.take(
                        i + 1,
                    ).contains(x) {
                        rest[x].descendants@
                    } else {
                        overlay_at(base.descendants@, ad, x)
                    } by {
                    if x != k {
                        assert(overlay_at(base.descendants@, self.descendants@, x) == overlay_at(
                            base.descendants@,
                            pd,
                            x,
                        ));
                    }
                }
            }
            i = i + 1;
        }
        proof {
            assert(keys@.take(keys@.len() as int) =~= keys@);
            let now = self.view(base);
            let goal = v.moved(new_parent, root);
            assert forall|x: u32| now.parents[x] == goal.parents[x] by {
                assert(now.parents[x] == parents_over(base.parents@, self.parents@)[x]);
                if keys@.contains(x) {
                    assert(rest.contains_key(x));
                    assert(x != root);
                } else if x != root {
                    assert(parents_over(base.parents@, ap)[x] == v.hooked_parents(new_parent, root)[x]);
                }
            }
            assert(now.parents =~= goal.parents);
            assert(rc == v.children[root] && rd == v.descendants[root]) by {
                assert(rec0.contains_key(root));
                assert(rec0[root].children@ == v.children[root]);
            }
            assert forall|x: u32| now.children[x] == goal.children[x] by {
                assert(now.children[x] == overlay_at(base.children@, self.children@, x));
                if x == root {
                    assert(!keys@.contains(x));
                    assert(overlay_at(base.children@, ac, x) == rc);
                } else if keys@.contains(x) {
                    assert(rest.contains_key(x));
                    assert(rest[x] == rec0[x]);
                    assert(rec0.contains_key(x));
                    assert(s.contains(x));
                } else {
                    assert(!rest.contains_key(x));
                    assert(!rec0.contains_key(x));
                    assert(!s.contains(x));
                    assert(overlay_at(base.children@, ac, x) == overlay_at(base.children@, c1, x));
                }
            }
            assert(now.children =~= goal.children);
            assert forall|x: u32| now.descendants[x] == goal.descendants[x] by {
                assert(now.descendants[x] == overlay_at(base.descendants@, self.descendants@, x));
                if x == root {
                    assert(!keys@.contains(x));
                    assert(overlay_at(base.descendants@, ad, x) == rd);
                } else if keys@.contains(x) {
                    assert(rest.contains_key(x));
                    assert(rest[x] == rec0[x]);
                    assert(rec0.contains_key(x));
                    assert(s.contains(x));
                } else {
                    assert(!rest.contains_key(x));
                    assert(!rec0.contains_key(x));
                    assert(!s.contains(x));
                    assert(overlay_at(base.descendants@, ad, x) == overlay_at(
                        base.descendants@,
                        d2,
                        x,
                    ));
                }
            }
            assert(now.descendants =~= goal.descendants);
        }
    }

    /// Marks `n` as part of a cycle.
    fn mark(&mut self, base: &Tree, n: u32)
        ensures
            final(self).parents == old(self).parents,
            final(self).children == old(self).children,
            final(self).descendants == old(self).descendants,
            final(self).view(base).cycles == old(self).view(base).cycles.insert(n),
    {
        let mut c = match self.cycles.take() {
            Some(c) => c,
            None => base.cycles.clone(),
        };
        c.insert(n);
        self.cycles = Some(c);
    }

    /// Walks up from `start` and, if the walk comes back to a node it has
    /// passed, marks every node of the cycle it has found.
    fn detect_and_mark_cycles(&mut self, base: &Tree, start: u32)
        ensures
            final(self).view(base) == old(self).view(base).marked(start),
    {
        let ghost v = self.view(base);
        let ghost par = v.parents;
        let mut seen = IntSet::new();
        let mut path: Vec<u32> = Vec::new();
        let mut cur = Some(start);
        let mut found: Option<u32> = None;
        let mut go = true;
        proof {
            lemma_u32_set_bounded(seen@);
        }
        while go
            invariant
                self.view(base) == v,
                par == v.parents,
                cur == nth_parent(par, start, path@.len()),
                seen@ == path@.to_set(),
                path@.no_duplicates(),
                seen@.finite(),
                seen@.len() == path@.len(),
                path@.len() <= u32_count(),
                forall|i: nat|
                    i < path@.len() ==> #[trigger] nth_parent(par, start, i) == Some(path@[i as int]),
                go ==> found is None,
                !go ==> match cur {
                    Some(p) => found == Some(p) && path@.contains(p),
                    None => found is None,
                },
            decreases u32_count() - path@.len() + (if go { 1nat } else { 0nat }),
        {
            match cur {
                None => {
                    go = false;
                },
                Some(node) => {
                    if seen.contains(node) {
                        found = Some(node);
                        go = false;
                    } else {
                        let ghost before = path@;
                        seen.insert(node);
                        path.push(node);
                        cur = self.parent(base, node);
                        proof {
                            lemma_u32_set_bounded(seen@);
                            assert(path@.to_set() =~= before.to_set().insert(node)) by {
                                assert forall|x: u32|
                                    path@.to_set().contains(x) <==> before.to_set().insert(node).contains(
                                        x,
                                    ) by {
                                    vstd::seq_lib::lemma_seq_contains_after_push(before, node, x);
                                }
                            }
                            assert(path@.no_duplicates()) by {
                                assert forall|a: int, b: int|
                                    0 <= a < path@.len() && 0 <= b < path@.len() && a != b implies path@[a]
                                    != path@[b] by {
                                    if a < before.len() && b < before.len() {
                                        assert(before[a] != before[b]);
                                    } else if a < before.len() {
                                        assert(before.contains(before[a]));
                                    } else if b < before.len() {
                                        assert(before.contains(before[b]));
                                    }
                                }
                            }
                            assert forall|i: nat| i < path@.len() implies #[trigger] nth_parent(
                                par,
                                start,
                                i,
                            ) == Some(path@[i as int]) by {
                                if i < before.len() {
                                    assert(path@[i as int] == before[i as int]);
                                }
                            }
                        }
                    }
                },
            }
        }
        match found {
            None => {
                proof {
                    crate::tree_model::lemma_ended_walk_meets_no_loop(par, start, path@.len() as nat);
                    assert(v.marked(start).cycles =~= v.cycles);
                }
            },
            Some(node) => {
                // the cycle is the stretch of the path from the first visit of `node` on
                let mut idx: usize = 0;
                while path[idx] != node
                    invariant
                        idx < path.len(),
                        path@.contains(node),
                        forall|j: int| 0 <= j < idx ==> path@[j] != node,
                    decreases path@.len() - idx,
                {
                    proof {
                        let w = path@.index_of(node);
                        assert(w > idx);
                    }
                    idx = idx + 1;
                }
                let first = idx;
                proof {
                    crate::tree_model::lemma_closed_walk_meets_its_loop(
                        par,
                        start,
                        path@,
                        first as nat,
                    );
                }
                while idx < path.len()
                    invariant
                        first <= idx <= path@.len(),
                        self.view(base).parents == v.parents,
                        self.view(base).children == v.children,
                        self.view(base).descendants == v.descendants,
                        self.view(base).cycles == v.cycles.union(
                            path@.subrange(first as int, idx as int).to_set(),
                        ),
                    decreases path@.len() - idx,
                {
                    let n = path[idx];
                    self.mark(base, n);
                    proof {
                        let a = path@.subrange(first as int, idx as int);
                        let b = path@.subrange(first as int, idx + 1);
                        assert(b =~= a.push(n));
                        assert(b.to_set() =~= a.to_set().insert(n)) by {
                            assert forall|x: u32| b.to_set().contains(x) <==> a.to_set().insert(
                                n,
                            ).contains(x) by {
                                vstd::seq_lib::lemma_seq_contains_after_push(a, n, x);
                            }
                        }
                        assert(v.cycles.union(a.to_set()).insert(n) =~= v.cycles.union(b.to_set()));
                    }
                    idx = idx + 1;
                }
                proof {
                    assert(path@.subrange(first as int, path@.len() as int) =~= path@.skip(
                        first as int,
                    ));
                }
            },
        }
    }

    /// Places `child` under `parent`, moving its whole subtree with it.
    /// `None` makes `child` a root.
    pub fn insert(&mut self, base: &Tree, parent: Option<u32>, child: u32)
        ensures
            final(self).view(base) == old(self).view(base).inserted(parent, child),
            old(self).view(base).loops_marked() ==> final(self).view(base).loops_marked(),
            is_forest(old(self).view(base)) && (parent matches Some(p) ==> !old(self).view(
                base,
            ).subtree(child).contains(p)) ==> is_forest(final(self).view(base)),
    {
        let ghost v = self.view(base);
        proof {
            if v.loops_marked() {
                lemma_insert_keeps_marks(v, parent, child);
            }
            if is_forest(v) && (parent matches Some(p) ==> !v.subtree(child).contains(p)) {
                lemma_insert_keeps_forest(v, parent, child);
            }
        }
        if self.parent(base, child) == parent {
            return ;
        }
        let removed = self.remove_impl(base, child);
        self.reparent_subtree(base, parent, child, removed, Ghost(v));
        self.detect_and_mark_cycles(base, child);
    }
}


/// What a walk from `node` towards the root comes to: the number of nodes
/// passed when it ends at a node without a parent, or the first marked node
/// that it runs into.
pub open spec fn walk_ends(v: TreeView, node: u32, r: Result<u64, CycleError>) -> bool {
    match r {
        Ok(d) => clean_walk(v, node, d as nat) && nth_parent(v.parents, node, d as nat) is None,
        Err(e) => exists|k: nat|
            clean_walk(v, node, k) && #[trigger] nth_parent(v.parents, node, k) == Some(e.0)
                && v.cycles.contains(e.0),
    }
}

impl TreeLog {
    /// Marks every cycle that a walk up from one of `starts` meets.
    fn mark_from_all(&mut self, base: &Tree, starts: &Vec<u32>)
        ensures
            final(self).view(base).parents == old(self).view(base).parents,
            final(self).view(base).children == old(self).view(base).children,
            final(self).view(base).descendants == old(self).view(base).descendants,
            final(self).view(base).cycles == old(self).view(base).cycles.union(
                Set::new(
                    |y: u32|
                        exists|j: int|
                            0 <= j < starts@.len() && #[trigger] loops_met(
                                old(self).view(base).parents,
                                starts@[j],
                            ).contains(y),
                ),
            ),
    {
        let ghost v = self.view(base);
        let mut i: usize = 0;
        while i < starts.len()
            invariant
                i <= starts.len(),
                self.view(base).parents == v.parents,
                self.view(base).children == v.children,
                self.view(base).descendants == v.descendants,
                self.view(base).cycles == v.cycles.union(
                    Set::new(
                        |y: u32|
                            exists|j: int|
                                0 <= j < i && #[trigger] loops_met(v.parents, starts@[j]).contains(y),
                    ),
                ),
            decreases starts.len() - i,
        {
            let ghost before = self.view(base).cycles;
            self.detect_and_mark_cycles(base, starts[i]);
            proof {
                let upto = Set::new(
                    |y: u32|
                        exists|j: int|
                            0 <= j < i && #[trigger] loops_met(v.parents, starts@[j]).contains(y),
                );
                let next = Set::new(
                    |y: u32|
                        exists|j: int|
                            0 <= j < i + 1 && #[trigger] loops_met(v.parents, starts@[j]).contains(y),
                );
                assert forall|y: u32| next.contains(y) <==> (upto.contains(y) || loops_met(
                    v.parents,
                    starts@[i as int],
                ).contains(y)) by {
                    if upto.contains(y) {
                        let j = choose|j: int|
                            0 <= j < i && #[trigger] loops_met(v.parents, starts@[j]).contains(y);
                        assert(0 <= j < i + 1);
                    }
                }
                assert(self.view(base).cycles =~= v.cycles.union(next));
            }
            i = i + 1;
        }
    }

    /// Removes `node` and its whole subtree from the tree, and computes the
    /// marks afresh.
    pub fn remove(&mut self, base: &Tree, node: u32)
        ensures
            final(self).view(base) == old(self).view(base).removed(node),
            final(self).view(base).loops_marked(),
            is_forest(old(self).view(base)) ==> is_forest(final(self).view(base)),
    {
        let ghost v = self.view(base);
        proof {
            if is_forest(v) {
                lemma_remove_keeps_forest(v, node);
            }
        }
        let _ = self.remove_impl(base, node);
        self.cycles = Some(IntSet::new());
        let ghost cut = self.view(base);
        let ghost par = cut.parents;
        let ghost staged_parents = self.parents@;
        let committed = map_keys(&base.parents);
        let staged = map_keys(&self.parents);
        self.mark_from_all(base, &committed);
        self.mark_from_all(base, &staged);
        proof {
            let now = self.view(base);
            assert forall|y: u32| now.cycles.contains(y) <==> on_loop(par, y) by {
                if on_loop(par, y) {
                    crate::tree_model::lemma_loop_never_ends(par, y, 1);
                    assert(nth_parent(par, y, 0) == Some(y));
                    assert(par[y] is Some);
                    assert(reaches(par, y, y));
                    assert(loops_met(par, y).contains(y));
                    assert(par[y] == parents_over(base.parents@, staged_parents)[y]);
                    if staged_parents.contains_key(y) {
                        assert(staged@.contains(y));
                        let j = staged@.index_of(y);
                        assert(loops_met(par, staged@[j]).contains(y));
                    } else {
                        assert(base.parents@.contains_key(y));
                        assert(committed@.contains(y));
                        let j = committed@.index_of(y);
                        assert(loops_met(par, committed@[j]).contains(y));
                    }
                }
            }
            assert(now.cycles =~= loop_nodes(par));
        }
    }

    /// The number of nodes on the way from `node` to its root, `node` and the
    /// root included; an error with the first marked node on that way, if
    /// there is one.
    pub fn depth(&self, base: &Tree, node: u32) -> (r: Result<u64, CycleError>)
        requires
            self.view(base).loops_marked(),
        ensures
            walk_ends(self.view(base), node, r),
    {
        let ghost v = self.view(base);
        let mut cur = Some(node);
        let mut d: u64 = 0;
        let ghost mut seen: Set<u32> = Set::empty();
        while cur.is_some()
            invariant
                v == self.view(base),
                v.loops_marked(),
                cur == nth_parent(v.parents, node, d as nat),
                clean_walk(v, node, d as nat),
                seen.finite(),
                seen.len() == d,
                d <= u32_count(),
                forall|x: u32|
                    seen.contains(x) ==> exists|i: nat|
                        i < d && #[trigger] nth_parent(v.parents, node, i) == Some(x),
            decreases u32_count() - d,
        {
            let n = cur.unwrap();
            if self.has_cycle(base, n) {
                return Err(CycleError(n));
            }
            proof {
                if seen.contains(n) {
                    let i = choose|i: nat|
                        i < d && #[trigger] nth_parent(v.parents, node, i) == Some(n);
                    lemma_nth_parent_add(v.parents, node, i, (d - i) as nat);
                    assert(i + (d - i) as nat == d as nat);
                    assert(strictly_reaches(v.parents, n, n));
                }
                seen = seen.insert(n);
                lemma_u32_set_bounded(seen);
                assert forall|x: u32| seen.contains(x) implies exists|i: nat|
                    i < d + 1 && #[trigger] nth_parent(v.parents, node, i) == Some(x) by {
                    if x == n {
                        assert(nth_parent(v.parents, node, d as nat) == Some(x));
                    } else {
                        let i = choose|i: nat|
                            i < d && #[trigger] nth_parent(v.parents, node, i) == Some(x);
                        assert(i < d + 1);
                    }
                }
            }
            d = d + 1;
            cur = self.parent(base, n);
        }
        Ok(d)
    }
}


/// Folds parent overrides into a map of parents: `Some` sets or replaces the
/// parent, `None` removes it. Returns whether the parent of any node changed.
fn apply_parents(target: &mut HashMap<u32, u32>, source: HashMap<u32, Option<u32>>) -> (changed:
    bool)
    ensures
        parents_of(final(target)@) == parents_over(old(target)@, source@),
        changed == (parents_of(final(target)@) != parents_of(old(target)@)),
{
    let keys = map_keys(&source);
    let ghost before = target@;
    let mut changed = false;
    let mut i: usize = 0;
    while i < keys.len()
        invariant
            i <= keys.len(),
            keys@.no_duplicates(),
            forall|k: u32| keys@.contains(k) <==> source@.contains_key(k),
            forall|k: u32| #[trigger]
                parents_of(target@)[k] == if keys@.take(i as int).contains(k) {
                    source@[k]
                } else {
                    parents_of(before)[k]
                },
            changed == exists|j: int|
                0 <= j < i && #[trigger] source@[keys@[j]] != parents_of(before)[keys@[j]],
        decreases keys.len() - i,
    {
        let k = keys[i];
        proof {
            assert(keys@.contains(k));
            assert(!keys@.take(i as int).contains(k)) by {
                if keys@.take(i as int).contains(k) {
                    let j = keys@.take(i as int).index_of(k);
                    assert(keys@[j] == k && keys@[i as int] == k);
                }
            }
            assert(keys@.take(i + 1) =~= keys@.take(i as int).push(k));
            assert forall|x: u32| keys@.take(i + 1).contains(x) <==> (keys@.take(i as int).contains(x)
                || x == k) by {
                vstd::seq_lib::lemma_seq_contains_after_push(keys@.take(i as int), k, x);
            }
        }
        let ghost prev = target@;
        let ghost was = changed;
        let staged = source.get(&k);
        assert(staged is Some);
        let new_parent: Option<u32> = *staged.unwrap();
        assert(parents_of(prev)[k] == parents_of(before)[k]);
        match new_parent {
            Some(p) => {
                match target.insert(k, p) {
                    Some(q) => {
                        if q != p {
                            changed = true;
                        }
                    },
                    None => {
                        changed = true;
                    },
                }
            },
            None => {
                match target.remove(&k) {
                    Some(_) => {
                        changed = true;
                    },
                    None => {},
                }
            },
        }
        proof {
            assert forall|x: u32| #[trigger]
                parents_of(target@)[x] == if keys@.take(i + 1).contains(x) {
                    source@[x]
                } else {
                    parents_of(before)[x]
                } by {
                if x != k {
                    assert(parents_of(target@)[x] == parents_of(prev)[x]);
                }
            }
            let hit = source@[keys@[i as int]] != parents_of(before)[keys@[i as int]];
            assert(changed == (was || hit));
        }
        i = i + 1;
    }
    proof {
        assert(keys@.take(keys@.len() as int) =~= keys@);
        assert(parents_of(target@) =~= parents_over(before, source@));
        if changed {
            let j = choose|j: int|
                0 <= j < keys@.len() && #[trigger] source@[keys@[j]] != parents_of(before)[keys@[j]];
            let k = keys@[j];
            assert(keys@.contains(k));
            assert(parents_of(target@)[k] != parents_of(before)[k]);
        } else {
            assert forall|k: u32| parents_of(target@)[k] == parents_of(before)[k] by {
                if keys@.contains(k) {
                    let j = keys@.index_of(k);
                    assert(!(source@[keys@[j]] != parents_of(before)[keys@[j]]));
                }
            }
            assert(parents_of(target@) =~= parents_of(before));
        }
    }
    changed
}

impl Tree {
    /// Folds a log into the tree. Afterwards the tree answers every query as
    /// the log laid over the tree did before. Returns whether anything that
    /// the tree answers has changed.
    pub fn apply(&mut self, log: TreeLog) -> (changed: bool)
        requires
            old(self).wf(),
        ensures
            final(self).wf(),
            final(self)@ == log.view(old(self)),
            changed == (final(self)@ != old(self)@),
            log.view(old(self)) == old(self)@ ==> !changed && final(self)@ == old(self)@,
            log.view(old(self)).loops_marked() ==> final(self)@.loops_marked(),
            is_forest(log.view(old(self))) ==> is_forest(final(self)@),
    {
        let ghost before = self@;
        let ghost goal = log.view(self);
        let TreeLog { children, cycles, descendants, parents } = log;
        let mut changed = false;
        // the marks
        match cycles {
            Some(c) => {
                if !(self.cycles == c) {
                    self.cycles = c;
                    changed = true;
                }
            },
            None => {},
        }
        assert(self.cycles@ == goal.cycles);
        assert(changed == (self.cycles@ != before.cycles));
        // the parents
        let parents_changed = apply_parents(&mut self.parents, parents);
        if changed || parents_changed {
            shrink_map(&mut self.parents);
        }
        // the children and the descendants
        let children_changed = apply_sets(&mut self.children, children);
        let descendants_changed = apply_sets(&mut self.descendants, descendants);
        changed || parents_changed || children_changed || descendants_changed
    }

    /// The number of nodes on the way from `node` to its root, `node` and the
    /// root included; an error with the first marked node on that way, if
    /// there is one.
    pub fn depth(&self, node: u32) -> (r: Result<u64, CycleError>)
        requires
            self@.loops_marked(),
        ensures
            walk_ends(self@, node, r),
    {
        let log = TreeLog::new();
        log.depth(self, node)
    }
}


/// A node together with a set recorded for it, read as one collection.
pub struct ItemsView<'a> {
    node: u32,
    inner: &'a IntSet,
}

impl<'a> View for ItemsView<'a> {
    type V = Set<u32>;

    closed spec fn view(&self) -> Set<u32> {
        self.inner@.insert(self.node)
    }
}

impl<'a> ItemsView<'a> {
    /// The node that the view was made for.
    pub closed spec fn node(&self) -> u32 {
        self.node
    }

    /// The set recorded for the node.
    pub closed spec fn inner(&self) -> Set<u32> {
        self.inner@
    }

    /// Whether `value` is the node or in its set.
    pub fn contains(&self, value: u32) -> (found: bool)
        ensures
            found == self@.contains(value),
    {
        value == self.node || self.inner.contains(value)
    }

    /// Never: the node itself is always there.
    pub fn is_empty(&self) -> (empty: bool)
        ensures
            !empty,
    {
        false
    }

    /// The node first, then its set in ascending order.
    pub fn iter(&self) -> (v: Vec<u32>)
        ensures
            v@.len() == self.inner().len() + 1,
            v@[0] == self.node(),
            crate::int_set::strictly_increasing(v@.skip(1)),
            v@.skip(1).to_set() == self.inner(),
    {
        let rest = self.inner.to_vec();
        let mut v: Vec<u32> = Vec::new();
        v.push(self.node);
        let mut i: usize = 0;
        while i < rest.len()
            invariant
                i <= rest.len(),
                v@.len() == i + 1,
                v@[0] == self.node,
                v@.skip(1) == rest@.take(i as int),
            decreases rest.len() - i,
        {
            v.push(rest[i]);
            proof {
                assert(v@.skip(1) =~= rest@.take(i + 1));
            }
            i = i + 1;
        }
        proof {
            assert(rest@.take(rest@.len() as int) =~= rest@);
            rest@.unique_seq_to_set();
        }
        v
    }

    /// One more than the size of the set.
    pub fn len(&self) -> (n: u64)
        ensures
            n == self.inner().len() + 1,
    {
        proof {
            lemma_u32_set_bounded(self.inner@);
        }
        1 + self.inner.len()
    }

    /// The set with the node added to it.
    pub fn to_bitmap(&self) -> (s: IntSet)
        ensures
            s@ == self@,
    {
        let mut b = self.inner.clone();
        b.insert(self.node);
        b
    }
}

/// A walk from a node towards the root of a committed tree. It yields the
/// node it stands on and moves to the parent, and ends after a marked node or
/// a node without a parent.
pub struct TreeAncestorIter<'a> {
    child: Option<u32>,
    tree: &'a Tree,
}

impl<'a> TreeAncestorIter<'a> {
    /// The node that the next step yields.
    pub closed spec fn pending(&self) -> Option<u32> {
        self.child
    }

    /// The tree that is walked.
    pub closed spec fn tree(&self) -> TreeView {
        self.tree@
    }

    /// Yields the pending node and moves on.
    pub fn next(&mut self) -> (n: Option<u32>)
        ensures
            n == old(self).pending(),
            final(self).tree() == old(self).tree(),
            final(self).pending() == next_up(old(self).tree(), old(self).pending()),
    {
        let n = match self.child {
            Some(n) => n,
            None => {
                return None;
            },
        };
        self.child = if self.tree.has_cycle(n) {
            None
        } else {
            self.tree.parent(n)
        };
        Some(n)
    }
}

/// A walk from a node towards the root of a tree with a log laid over it.
pub struct TreeLogAncestorIter<'a> {
    child: Option<u32>,
    log: &'a TreeLog,
    base: &'a Tree,
}

/// The node that a walk goes to after `at`: none after the end, after a
/// marked node, or after a node without a parent.
pub open spec fn next_up(v: TreeView, at: Option<u32>) -> Option<u32> {
    match at {
        Some(n) => if v.cycles.contains(n) {
            None
        } else {
            v.parents[n]
        },
        None => None,
    }
}

impl<'a> TreeLogAncestorIter<'a> {
    /// The node that the next step yields.
    pub closed spec fn pending(&self) -> Option<u32> {
        self.child
    }

    /// The tree that is walked.
    pub closed spec fn tree(&self) -> TreeView {
        self.log.view(self.base)
    }

    /// Yields the pending node and moves on.
    pub fn next(&mut self) -> (n: Option<u32>)
        ensures
            n == old(self).pending(),
            final(self).tree() == old(self).tree(),
            final(self).pending() == next_up(old(self).tree(), old(self).pending()),
    {
        let n = match self.child {
            Some(n) => n,
            None => {
                return None;
            },
        };
        self.child = if self.log.has_cycle(self.base, n) {
            None
        } else {
            self.log.parent(self.base, n)
        };
        Some(n)
    }
}

impl Tree {
    /// The walk from `node` towards the root, `node` first.
    pub fn ancestors_with_self(&self, node: u32) -> (it: TreeAncestorIter<'_>)
        ensures
            it.pending() == Some(node),
            it.tree() == self@,
    {
        TreeAncestorIter { child: Some(node), tree: self }
    }

    /// The walk from the parent of `node` towards the root.
    pub fn ancestors(&self, node: u32) -> (it: TreeAncestorIter<'_>)
        ensures
            it.pending() == next_up(self@, Some(node)),
            it.tree() == self@,
    {
        let mut it = self.ancestors_with_self(node);
        let _ = it.next();
        it
    }

    /// `node` and its direct children.
    pub fn children_with_self(&self, node: u32) -> (items: ItemsView<'_>)
        requires
            self.wf(),
        ensures
            items.node() == node,
            items.inner() == self@.children[node],
            items@ == self@.children[node].insert(node),
    {
        ItemsView { node, inner: self.children(node) }
    }

    /// `node` and its descendants.
    pub fn descendants_with_self(&self, node: u32) -> (items: ItemsView<'_>)
        requires
            self.wf(),
        ensures
            items.node() == node,
            items.inner() == self@.descendants[node],
            items@ == self@.subtree(node),
    {
        ItemsView { node, inner: self.descendants(node) }
    }
}

impl TreeLog {
    /// The walk from `node` towards the root, `node` first.
    pub fn ancestors_with_self<'a>(&'a self, base: &'a Tree, node: u32) -> (it: TreeLogAncestorIter<
        'a,
    >)
        ensures
            it.pending() == Some(node),
            it.tree() == self.view(base),
    {
        TreeLogAncestorIter { child: Some(node), log: self, base }
    }

    /// The walk from the parent of `node` towards the root.
    pub fn ancestors<'a>(&'a self, base: &'a Tree, node: u32) -> (it: TreeLogAncestorIter<'a>)
        ensures
            it.pending() == next_up(self.view(base), Some(node)),
            it.tree() == self.view(base),
    {
        let mut it = self.ancestors_with_self(base, node);
        let _ = it.next();
        it
    }

    /// `node` and its direct children.
    pub fn children_with_self<'a>(&'a self, base: &'a Tree, node: u32) -> (items: ItemsView<'a>)
        requires
            base.wf(),
        ensures
            items.node() == node,
            items.inner() == self.view(base).children[node],
            items@ == self.view(base).children[node].insert(node),
    {
        ItemsView { node, inner: self.children(base, node) }
    }

    /// `node` and its descendants.
    pub fn descendants_with_self<'a>(&'a self, base: &'a Tree, node: u32) -> (items: ItemsView<'a>)
        requires
            base.wf(),
        ensures
            items.node() == node,
            items.inner() == self.view(base).descendants[node],
            items@ == self.view(base).subtree(node),
    {
        ItemsView { node, inner: self.descendants(base, node) }
    }
}

impl Clone for Tree {
    fn clone(&self) -> (t: Self)
        ensures
            t@ == self@,
            self.wf() ==> t.wf(),
    {
        Tree {
            children: self.children.clone(),
            cycles: self.cycles.clone(),
            descendants: self.descendants.clone(),
            parents: self.parents.clone(),
            empty: self.empty.clone(),
        }
    }
}

impl Default for Tree {
    fn default() -> (t: Self)
        ensures
            t.wf(),
            t@ == TreeView::empty(),
    {
        Tree::new()
    }
}

impl Clone for TreeLog {
    fn clone(&self) -> (log: Self)
        ensures
            forall|base: &Tree| #[trigger] log.view(base) == self.view(base),
    {
        let cycles = match &self.cycles {
            Some(c) => Some(c.clone()),
            None => None,
        };
        TreeLog {
            children: self.children.clone(),
            cycles,
            descendants: self.descendants.clone(),
            parents: self.parents.clone(),
        }
    }
}

impl Default for TreeLog {
    fn default() -> (log: Self)
        ensures
            forall|base: &Tree| #[trigger] log.view(base) == base@,
    {
        TreeLog::new()
    }
}


impl TreeLog {
    /// Walks up the tree from `start` and, in an overlay of sets keyed by
    /// node, adds `items` to the set of every node met, or takes them out.
    pub(crate) fn spread_up(
        &self,
        base: &Tree,
        base_sets: &HashMap<u32, IntSet>,
        log_sets: &mut HashMap<u32, IntSet>,
        start: Option<u32>,
        items: &IntSet,
        add: bool,
    )
        ensures
            forall|x: u32| #[trigger]
                overlay_at(base_sets@, final(log_sets)@, x) == shifted(
                    overlay_at(base_sets@, old(log_sets)@, x),
                    reach_from(self.view(base).parents, start).contains(x),
                    items@,
                    add,
                ),
    {
        shift_along(&base.parents, &self.parents, base_sets, log_sets, start, items, None, add);
    }
}


/// The entry of `child` in a map of parents names `x`: as the child or as
/// its parent.
spec fn names(parents: Map<u32, u32>, child: u32, x: u32) -> bool {
    child == x || (parents.contains_key(child) && parents[child] == x)
}

/// Every node that the tree mentions: as a parent, as a child, or as a node
/// with a parent.
pub open spec fn nodes_of(v: TreeView) -> Set<u32> {
    Set::new(
        |x: u32|
            v.parents[x] is Some || v.children[x] != Set::<u32>::empty() || (exists|c: u32| #[trigger]
                v.parents[c] == Some(x)) || (exists|p: u32| #[trigger] v.children[p].contains(x)),
    )
}

impl Tree {
    /// Every node that the tree mentions.
    pub fn all_nodes(&self) -> (all: IntSet)
        requires
            self.wf(),
        ensures
            all@ == nodes_of(self@),
    {
        let mut all = IntSet::new();
        let parents = map_keys(&self.children);
        let mut i: usize = 0;
        while i < parents.len()
            invariant
                i <= parents.len(),
                forall|k: u32| parents@.contains(k) <==> self.children@.contains_key(k),
                forall|x: u32|
                    all@.contains(x) <==> exists|j: int|
                        0 <= j < i && (#[trigger] parents@[j] == x || set_at(
                            self.children@,
                            parents@[j],
                        ).contains(x)),
            decreases parents.len() - i,
        {
            let p = parents[i];
            let ghost before = all@;
            all.insert(p);
            match self.children.get(&p) {
                Some(s) => {
                    all.union_with(s);
                },
                None => {},
            }
            proof {
                assert forall|x: u32|
                    all@.contains(x) <==> exists|j: int|
                        0 <= j < i + 1 && (#[trigger] parents@[j] == x || set_at(
                            self.children@,
                            parents@[j],
                        ).contains(x)) by {
                    if before.contains(x) {
                        let j = choose|j: int|
                            0 <= j < i && (#[trigger] parents@[j] == x || set_at(
                                self.children@,
                                parents@[j],
                            ).contains(x));
                        assert(0 <= j < i + 1);
                    }
                    if parents@[i as int] == x || set_at(self.children@, parents@[i as int]).contains(
                        x,
                    ) {
                        assert(0 <= i < i + 1);
                    }
                }
            }
            i = i + 1;
        }
        let ghost from_children = all@;
        let kids = map_keys(&self.parents);
        let mut i: usize = 0;
        while i < kids.len()
            invariant
                i <= kids.len(),
                forall|k: u32| kids@.contains(k) <==> self.parents@.contains_key(k),
                forall|x: u32| #[trigger]
                    all@.contains(x) <==> (from_children.contains(x) || exists|j: int|
                        0 <= j < i && #[trigger] names(self.parents@, kids@[j], x)),
            decreases kids.len() - i,
        {
            let c = kids[i];
            assert(kids@.contains(c));
            let ghost before = all@;
            all.insert(c);
            match self.parents.get(&c) {
                Some(p) => {
                    all.insert(*p);
                },
                None => {},
            }
            proof {
                assert(self.parents@.contains_key(c));
                assert forall|x: u32| #[trigger]
                    all@.contains(x) <==> (from_children.contains(x) || exists|j: int|
                        0 <= j < i + 1 && #[trigger] names(self.parents@, kids@[j], x)) by {
                    if all@.contains(x) && !from_children.contains(x) {
                        if before.contains(x) {
                            let j = choose|j: int|
                                0 <= j < i && #[trigger] names(self.parents@, kids@[j], x);
                            assert(0 <= j < i + 1 && names(self.parents@, kids@[j], x));
                        } else {
                            assert(0 <= i < i + 1 && names(self.parents@, kids@[i as int], x));
                        }
                    }
                    if exists|j: int| 0 <= j < i + 1 && #[trigger] names(self.parents@, kids@[j], x) {
                        let j = choose|j: int|
                            0 <= j < i + 1 && #[trigger] names(self.parents@, kids@[j], x);
                        if j < i {
                            assert(before.contains(x));
                        }
                        assert(all@.contains(x));
                    }
                }
            }
            i = i + 1;
        }
        proof {
            let v = self@;
            let goal = nodes_of(v);
            assert forall|x: u32| all@.contains(x) <==> goal.contains(x) by {
                if from_children.contains(x) {
                    let j = choose|j: int|
                        0 <= j < parents@.len() && (#[trigger] parents@[j] == x || set_at(
                            self.children@,
                            parents@[j],
                        ).contains(x));
                    let p = parents@[j];
                    assert(parents@.contains(p));
                    assert(self.children@[p]@ != Set::<u32>::empty());
                    if p != x {
                        assert(v.children[p].contains(x));
                    }
                } else if all@.contains(x) {
                    let j = choose|j: int|
                        0 <= j < kids@.len() && #[trigger] names(self.parents@, kids@[j], x);
                    let c = kids@[j];
                    assert(kids@.contains(c));
                    if c != x {
                        assert(v.parents[c] == Some(x));
                    }
                }
                if goal.contains(x) {
                    if v.parents[x] is Some {
                        assert(kids@.contains(x));
                        let j = kids@.index_of(x);
                        assert(names(self.parents@, kids@[j], x));
                    } else if v.children[x] != Set::<u32>::empty() {
                        assert(parents@.contains(x));
                        let j = parents@.index_of(x);
                        assert(parents@[j] == x);
                    } else if exists|c: u32| #[trigger] v.parents[c] == Some(x) {
                        let c = choose|c: u32| #[trigger] v.parents[c] == Some(x);
                        assert(kids@.contains(c));
                        let j = kids@.index_of(c);
                        assert(names(self.parents@, kids@[j], x));
                    } else {
                        let p = choose|p: u32| #[trigger] v.children[p].contains(x);
                        assert(parents@.contains(p));
                        let j = parents@.index_of(p);
                        assert(parents@[j] == p && set_at(self.children@, parents@[j]).contains(x));
                    }
                }
            }
            assert(all@ =~= goal);
        }
        all
    }
}

/// A read-only view of a tree with a log laid over it.
pub struct TreeTrx<'a> {
    base: &'a Tree,
    log: &'a TreeLog,
}

impl<'a> View for TreeTrx<'a> {
    type V = TreeView;

    closed spec fn view(&self) -> TreeView {
        self.log.view(self.base)
    }
}

impl<'a> TreeTrx<'a> {
    /// The base is in order.
    pub closed spec fn wf(&self) -> bool {
        self.base.wf()
    }

    /// The view of `log` laid over `base`.
    pub fn new(base: &'a Tree, log: &'a TreeLog) -> (trx: Self)
        ensures
            trx@ == log.view(base),
            trx.wf() == base.wf(),
    {
        TreeTrx { base, log }
    }

    /// The walk from the parent of `child` towards the root.
    pub fn ancestors(&self, child: u32) -> (it: TreeLogAncestorIter<'a>)
        ensures
            it.pending() == next_up(self@, Some(child)),
            it.tree() == self@,
    {
        self.log.ancestors(self.base, child)
    }

    /// The walk from `child` towards the root, `child` first.
    pub fn ancestors_with_self(&self, child: u32) -> (it: TreeLogAncestorIter<'a>)
        ensures
            it.pending() == Some(child),
            it.tree() == self@,
    {
        self.log.ancestors_with_self(self.base, child)
    }

    /// The direct children of `node`.
    pub fn children(&self, node: u32) -> (s: &'a IntSet)
        requires
            self.wf(),
        ensures
            s@ == self@.children[node],
    {
        self.log.children(self.base, node)
    }

    /// `node` and its direct children.
    pub fn children_with_self(&self, node: u32) -> (items: ItemsView<'a>)
        requires
            self.wf(),
        ensures
            items.node() == node,
            items.inner() == self@.children[node],
            items@ == self@.children[node].insert(node),
    {
        self.log.children_with_self(self.base, node)
    }

    /// The set of marked nodes.
    pub fn cycles(&self) -> (s: &'a IntSet)
        ensures
            s@ == self@.cycles,
    {
        self.log.cycles(self.base)
    }

    /// The number of nodes on the way from `node` to its root, or the first
    /// marked node on that way.
    pub fn depth(&self, node: u32) -> (r: Result<u64, CycleError>)
        requires
            self@.loops_marked(),
        ensures
            walk_ends(self@, node, r),
    {
        self.log.depth(self.base, node)
    }

    /// The descendants of `parent`.
    pub fn descendants(&self, parent: u32) -> (s: &'a IntSet)
        requires
            self.wf(),
        ensures
            s@ == self@.descendants[parent],
    {
        self.log.descendants(self.base, parent)
    }

    /// `parent` and its descendants.
    pub fn descendants_with_self(&self, parent: u32) -> (items: ItemsView<'a>)
        requires
            self.wf(),
        ensures
            items.node() == parent,
            items.inner() == self@.descendants[parent],
            items@ == self@.subtree(parent),
    {
        self.log.descendants_with_self(self.base, parent)
    }

    /// Whether `id` is marked as part of a cycle.
    pub fn has_cycle(&self, id: u32) -> (marked: bool)
        ensures
            marked == self@.cycles.contains(id),
    {
        self.log.has_cycle(self.base, id)
    }

    /// Whether `child` is recorded as a descendant of `parent`.
    pub fn is_descendant_of(&self, child: u32, parent: u32) -> (found: bool)
        requires
            self.wf(),
        ensures
            found == self@.descendants[parent].contains(child),
    {
        self.log.is_descendant_of(self.base, child, parent)
    }

    /// The parent of `child`.
    pub fn parent(&self, child: u32) -> (p: Option<u32>)
        ensures
            p == self@.parents[child],
    {
        self.log.parent(self.base, child)
    }
}

} // verus!
