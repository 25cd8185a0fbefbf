//! The node-set index: for every node of a tree, the items attached to it
//! directly and the items attached anywhere in its subtree.
use crate::int_set::IntSet;
use crate::set_map::{
    apply_sets, map_keys, no_empty_sets, overlay_at, overlay_of, overlay_ref, replace_set, set_at,
    set_ref, sets_of, take_set,
};
use crate::node_set_laws::{
    attached_once, covers, lemma_insert_keeps_coverage, lemma_remove_keeps_coverage,
};
use crate::tree::{shifted, Tree, TreeLog};
use crate::tree_laws::is_forest;
use crate::tree_model::{reach_from, TreeView};
use std::collections::HashMap;
use vstd::prelude::*;

verus! {

/// The state of a node-set index, committed or staged.
pub struct NodeSetView {
    /// The items attached to each node.
    pub direct: Map<u32, Set<u32>>,
    /// The items recorded for the subtree of each node.
    pub subtree: Map<u32, Set<u32>>,
}

/// What was lifted out of a node-set index for the nodes of one subtree.
pub struct DetachedView {
    /// The root of the subtree.
    pub root: u32,
    /// The items that were attached to each lifted node.
    pub direct: Map<u32, Set<u32>>,
    /// The items that were recorded for the subtree of each lifted node.
    pub subtree: Map<u32, Set<u32>>,
}

/// A total function of sets with the entries of `patch` laid over it.
pub open spec fn patched(sets: Map<u32, Set<u32>>, patch: Map<u32, Set<u32>>) -> Map<
    u32,
    Set<u32>,
> {
    Map::new(
        |x: u32| true,
        |x: u32|
            if patch.contains_key(x) {
                patch[x]
            } else {
                sets[x]
            },
    )
}

/// A total function of sets with the sets of `nodes` emptied.
pub open spec fn emptied(sets: Map<u32, Set<u32>>, nodes: Set<u32>) -> Map<u32, Set<u32>> {
    Map::new(
        |x: u32| true,
        |x: u32|
            if nodes.contains(x) {
                Set::empty()
            } else {
                sets[x]
            },
    )
}

/// The sets of `nodes`, and nothing else.
pub open spec fn restricted(sets: Map<u32, Set<u32>>, nodes: Set<u32>) -> Map<u32, Set<u32>> {
    Map::new(|x: u32| nodes.contains(x), |x: u32| sets[x])
}

impl NodeSetView {
    /// The index without any item.
    pub open spec fn empty() -> NodeSetView {
        NodeSetView {
            direct: Map::new(|x: u32| true, |x: u32| Set::<u32>::empty()),
            subtree: Map::new(|x: u32| true, |x: u32| Set::<u32>::empty()),
        }
    }

    /// The subtree sets after a walk up `tree` from `start` has added `items`
    /// to every set on its way, or taken them out.
    pub open spec fn spread(
        self,
        tree: TreeView,
        start: Option<u32>,
        items: Set<u32>,
        add: bool,
    ) -> Map<u32, Set<u32>> {
        Map::new(
            |x: u32| true,
            |x: u32| shifted(self.subtree[x], reach_from(tree.parents, start).contains(x), items, add),
        )
    }

    /// The index after `item` is attached to `node`: nothing changes when it
    /// is attached there already; otherwise `node` and all its ancestors in
    /// `tree` have it in their subtree set.
    pub open spec fn inserted(self, tree: TreeView, node: u32, item: u32) -> NodeSetView {
        if self.direct[node].contains(item) {
            self
        } else {
            NodeSetView {
                direct: patched(self.direct, map![node => self.direct[node].insert(item)]),
                subtree: self.spread(tree, Some(node), set![item], true),
            }
        }
    }

    /// The index after `item` is taken from `node`: nothing changes when it is
    /// not attached there; otherwise `node` and all its ancestors in `tree`
    /// lose it from their subtree set.
    pub open spec fn removed(self, tree: TreeView, node: u32, item: u32) -> NodeSetView {
        if !self.direct[node].contains(item) {
            self
        } else {
            NodeSetView {
                direct: patched(self.direct, map![node => self.direct[node].remove(item)]),
                subtree: self.spread(tree, Some(node), set![item], false),
            }
        }
    }

    /// The index after what it holds for `nodes` is lifted out.
    pub open spec fn without(self, nodes: Set<u32>) -> NodeSetView {
        NodeSetView { direct: emptied(self.direct, nodes), subtree: emptied(self.subtree, nodes) }
    }

    /// What is lifted out of the index for `nodes`, a subtree under `root`.
    pub open spec fn lifted(self, root: u32, nodes: Set<u32>) -> DetachedView {
        DetachedView {
            root,
            direct: restricted(self.direct, nodes),
            subtree: restricted(self.subtree, nodes),
        }
    }

    /// The index after `data` is put back: the lifted nodes hold again what
    /// was lifted, and every ancestor of the root in `tree` has the items of
    /// the root's subtree in its own subtree set.
    pub open spec fn attached(self, tree: TreeView, data: DetachedView) -> NodeSetView {
        let restored = NodeSetView {
            direct: patched(self.direct, data.direct),
            subtree: patched(self.subtree, data.subtree),
        };
        NodeSetView {
            direct: restored.direct,
            subtree: restored.spread(tree, tree.parents[data.root], restored.subtree[data.root], true),
        }
    }
}

/// The committed state of a node-set index.
pub struct NodeSetIndex {
    direct_items: HashMap<u32, IntSet>,
    subtree_items: HashMap<u32, IntSet>,
    empty: IntSet,
}

impl View for NodeSetIndex {
    type V = NodeSetView;

    closed spec fn view(&self) -> NodeSetView {
        NodeSetView { direct: sets_of(self.direct_items@), subtree: sets_of(self.subtree_items@) }
    }
}

impl NodeSetIndex {
    /// The stored maps hold no empty set, so that two indexes that answer
    /// alike are stored alike.
    pub closed spec fn wf(&self) -> bool {
        &&& no_empty_sets(self.direct_items@)
        &&& no_empty_sets(self.subtree_items@)
        &&& self.empty@ == Set::<u32>::empty()
    }

    /// The index without any item.
    pub fn new() -> (idx: Self)
        ensures
            idx.wf(),
            idx@ == NodeSetView::empty(),
    {
        let idx = NodeSetIndex {
            direct_items: HashMap::new(),
            subtree_items: HashMap::new(),
            empty: IntSet::new(),
        };
        proof {
            assert(idx@.direct =~= NodeSetView::empty().direct);
            assert(idx@.subtree =~= NodeSetView::empty().subtree);
        }
        idx
    }

    /// Folds a log into the index. Afterwards the index answers every query
    /// as the log laid over it did before. Returns whether anything that the
    /// index answers has changed.
    pub fn apply(&mut self, log: NodeSetIndexLog) -> (changed: bool)
        requires
            old(self).wf(),
        ensures
            final(self).wf(),
            final(self)@ == log.view(old(self)),
            changed == (final(self)@ != old(self)@),
            log.view(old(self)) == old(self)@ ==> !changed && final(self)@ == old(self)@,
    {
        let NodeSetIndexLog { direct_items, subtree_items } = log;
        let direct_changed = apply_sets(&mut self.direct_items, direct_items);
        let subtree_changed = apply_sets(&mut self.subtree_items, subtree_items);
        direct_changed || subtree_changed
    }

    /// The items attached to `node`.
    pub fn direct_items(&self, node: u32) -> (s: &IntSet)
        requires
            self.wf(),
        ensures
            s@ == self@.direct[node],
    {
        set_ref(&self.direct_items, &self.empty, node)
    }

    /// The items recorded for the subtree of `node`.
    pub fn subtree_items(&self, node: u32) -> (s: &IntSet)
        requires
            self.wf(),
        ensures
            s@ == self@.subtree[node],
    {
        set_ref(&self.subtree_items, &self.empty, node)
    }

    /// All the items attached to any node.
    pub fn values(&self) -> (all: IntSet)
        ensures
            all@ == Set::new(|x: u32| exists|n: u32| #[trigger] self@.direct[n].contains(x)),
    {
        let keys = map_keys(&self.direct_items);
        let mut all = IntSet::new();
        let mut i: usize = 0;
        while i < keys.len()
            invariant
                i <= keys.len(),
                forall|k: u32| keys@.contains(k) <==> self.direct_items@.contains_key(k),
                forall|x: u32|
                    all@.contains(x) <==> exists|j: int|
                        0 <= j < i && #[trigger] set_at(self.direct_items@, keys@[j]).contains(x),
            decreases keys.len() - i,
        {
            let k = keys[i];
            assert(keys@.contains(k));
            let ghost before = all@;
            match self.direct_items.get(&k) {
                Some(s) => {
                    all.union_with(s);
                },
                None => {},
            }
            proof {
                assert forall|x: u32|
                    all@.contains(x) <==> exists|j: int|
                        0 <= j < i + 1 && #[trigger] set_at(self.direct_items@, keys@[j]).contains(
                            x,
                        ) by {
                    if before.contains(x) {
                        let j = choose|j: int|
                            0 <= j < i && #[trigger] set_at(self.direct_items@, keys@[j]).contains(x);
                        assert(0 <= j < i + 1);
                    }
                    if set_at(self.direct_items@, keys@[i as int]).contains(x) {
                        assert(0 <= i < i + 1);
                    }
                }
            }
            i = i + 1;
        }
        proof {
            let goal = Set::new(|x: u32| exists|n: u32| #[trigger] self@.direct[n].contains(x));
            assert forall|x: u32| all@.contains(x) <==> goal.contains(x) by {
                if all@.contains(x) {
                    let j = choose|j: int|
                        0 <= j < keys@.len() && #[trigger] set_at(self.direct_items@, keys@[j]).contains(
                            x,
                        );
                    assert(self@.direct[keys@[j]].contains(x));
                }
                if goal.contains(x) {
                    let n = choose|n: u32| #[trigger] self@.direct[n].contains(x);
                    assert(set_at(self.direct_items@, n).contains(x));
                    assert(keys@.contains(n));
                    let j = keys@.index_of(n);
                    assert(set_at(self.direct_items@, keys@[j]).contains(x));
                }
            }
            assert(all@ =~= goal);
        }
        all
    }
}

impl Clone for NodeSetIndex {
    fn clone(&self) -> (idx: Self)
        ensures
            idx@ == self@,
            self.wf() ==> idx.wf(),
    {
        NodeSetIndex {
            direct_items: self.direct_items.clone(),
            subtree_items: self.subtree_items.clone(),
            empty: self.empty.clone(),
        }
    }
}

impl Default for NodeSetIndex {
    fn default() -> (idx: Self)
        ensures
            idx.wf(),
            idx@ == NodeSetView::empty(),
    {
        NodeSetIndex::new()
    }
}

/// The staged changes to a node-set index.
pub struct NodeSetIndexLog {
    direct_items: HashMap<u32, IntSet>,
    subtree_items: HashMap<u32, IntSet>,
}

/// The subtree data lifted out of a node-set index, to be put back later.
pub struct DetachedSubtree {
    root: u32,
    direct: HashMap<u32, IntSet>,
    subtree: HashMap<u32, IntSet>,
}

/// The partial function of sets that a map of sets stands for.
pub open spec fn entries_of(m: Map<u32, IntSet>) -> Map<u32, Set<u32>> {
    Map::new(|x: u32| m.contains_key(x), |x: u32| m[x]@)
}

impl View for DetachedSubtree {
    type V = DetachedView;

    closed spec fn view(&self) -> DetachedView {
        DetachedView {
            root: self.root,
            direct: entries_of(self.direct@),
            subtree: entries_of(self.subtree@),
        }
    }
}

impl Default for DetachedSubtree {
    fn default() -> (data: Self)
        ensures
            data@.root == 0,
            data@.direct == Map::<u32, Set<u32>>::empty(),
            data@.subtree == Map::<u32, Set<u32>>::empty(),
    {
        let data = DetachedSubtree { root: 0, direct: HashMap::new(), subtree: HashMap::new() };
        proof {
            assert(data@.direct =~= Map::<u32, Set<u32>>::empty());
            assert(data@.subtree =~= Map::<u32, Set<u32>>::empty());
        }
        data
    }
}

impl Clone for DetachedSubtree {
    fn clone(&self) -> (data: Self)
        ensures
            data@ == self@,
    {
        DetachedSubtree {
            root: self.root,
            direct: self.direct.clone(),
            subtree: self.subtree.clone(),
        }
    }
}

impl NodeSetIndexLog {
    /// What the index looks like with this log laid over `base`.
    pub closed spec fn view(&self, base: &NodeSetIndex) -> NodeSetView {
        NodeSetView {
            direct: overlay_of(base.direct_items@, self.direct_items@),
            subtree: overlay_of(base.subtree_items@, self.subtree_items@),
        }
    }

    /// The log without any change: over every base it shows the base.
    pub fn new() -> (log: Self)
        ensures
            forall|base: &NodeSetIndex| #[trigger] log.view(base) == base@,
    {
        let log = NodeSetIndexLog { direct_items: HashMap::new(), subtree_items: HashMap::new() };
        proof {
            assert forall|base: &NodeSetIndex| #[trigger] log.view(base) == base@ by {
                assert(log.view(base).direct =~= base@.direct);
                assert(log.view(base).subtree =~= base@.subtree);
            }
        }
        log
    }

    /// The items attached to `node`.
    pub fn direct_items<'a>(&'a self, base: &'a NodeSetIndex, node: u32) -> (s: &'a IntSet)
        requires
            base.wf(),
        ensures
            s@ == self.view(base).direct[node],
    {
        overlay_ref(&base.direct_items, &self.direct_items, &base.empty, node)
    }

    /// The items recorded for the subtree of `node`.
    pub fn subtree_items<'a>(&'a self, base: &'a NodeSetIndex, node: u32) -> (s: &'a IntSet)
        requires
            base.wf(),
        ensures
            s@ == self.view(base).subtree[node],
    {
        overlay_ref(&base.subtree_items, &self.subtree_items, &base.empty, node)
    }

    /// Attaches `item` to `node`, and records it for `node` and every
    /// ancestor that `node` has in the tree.
    pub fn insert(
        &mut self,
        base: &NodeSetIndex,
        base_tree: &Tree,
        log_tree: &TreeLog,
        node: u32,
        item: u32,
    )
        ensures
            final(self).view(base) == old(self).view(base).inserted(
                log_tree.view(base_tree),
                node,
                item,
            ),
            is_forest(log_tree.view(base_tree)) && covers(
                old(self).view(base),
                log_tree.view(base_tree),
            ) ==> covers(final(self).view(base), log_tree.view(base_tree)),
    {
        let ghost v = self.view(base);
        proof {
            if is_forest(log_tree.view(base_tree)) && covers(v, log_tree.view(base_tree)) {
                lemma_insert_keeps_coverage(v, log_tree.view(base_tree), node, item);
            }
        }
        let ghost pd = self.direct_items@;
        let mut d = take_set(&base.direct_items, &mut self.direct_items, node);
        let added = d.insert(item);
        self.direct_items.insert(node, d);
        proof {
            assert forall|x: u32| x != node implies overlay_at(
                base.direct_items@,
                self.direct_items@,
                x,
            ) == overlay_at(base.direct_items@, pd, x) by {}
            if !added {
                assert(v.direct[node].insert(item) =~= v.direct[node]);
                assert(self.view(base).direct =~= v.direct);
            }
        }
        if added {
            let mut one = IntSet::new();
            one.insert(item);
            log_tree.spread_up(
                base_tree,
                &base.subtree_items,
                &mut self.subtree_items,
                Some(node),
                &one,
                true,
            );
            proof {
                let goal = v.inserted(log_tree.view(base_tree), node, item);
                assert(one@ =~= set![item]);
                assert(self.view(base).direct =~= goal.direct);
                assert(self.view(base).subtree =~= goal.subtree);
            }
        }
    }

    /// Takes `item` from `node`, and from what is recorded for `node` and
    /// every ancestor that `node` has in the tree.
    pub fn remove(
        &mut self,
        base: &NodeSetIndex,
        base_tree: &Tree,
        log_tree: &TreeLog,
        node: u32,
        item: u32,
    )
        ensures
            final(self).view(base) == old(self).view(base).removed(
                log_tree.view(base_tree),
                node,
                item,
            ),
            is_forest(log_tree.view(base_tree)) && covers(
                old(self).view(base),
                log_tree.view(base_tree),
            ) && attached_once(old(self).view(base), log_tree.view(base_tree), node, item)
                ==> covers(final(self).view(base), log_tree.view(base_tree)),
    {
        let ghost v = self.view(base);
        proof {
            let tree = log_tree.view(base_tree);
            if is_forest(tree) && covers(v, tree) && attached_once(v, tree, node, item) {
                lemma_remove_keeps_coverage(v, tree, node, item);
            }
        }
        let ghost pd = self.direct_items@;
        let mut d = take_set(&base.direct_items, &mut self.direct_items, node);
        let removed = d.remove(item);
        self.direct_items.insert(node, d);
        proof {
            assert forall|x: u32| x != node implies overlay_at(
                base.direct_items@,
                self.direct_items@,
                x,
            ) == overlay_at(base.direct_items@, pd, x) by {}
            if !removed {
                assert(v.direct[node].remove(item) =~= v.direct[node]);
                assert(self.view(base).direct =~= v.direct);
            }
        }
        if removed {
            let mut one = IntSet::new();
            one.insert(item);
            log_tree.spread_up(
                base_tree,
                &base.subtree_items,
                &mut self.subtree_items,
                Some(node),
                &one,
                false,
            );
            proof {
                let goal = v.removed(log_tree.view(base_tree), node, item);
                assert(one@ =~= set![item]);
                assert(self.view(base).direct =~= goal.direct);
                assert(self.view(base).subtree =~= goal.subtree);
            }
        }
    }

    /// Lifts out what the index holds for the subtree of `root`: the sets of
    /// its nodes go into the record that is handed back, and the index shows
    /// nothing for them any more.
    pub fn remove_subtree(
        &mut self,
        base: &NodeSetIndex,
        base_tree: &Tree,
        log_tree: &TreeLog,
        root: u32,
    ) -> (data: DetachedSubtree)
        requires
            base_tree.wf(),
        ensures
            final(self).view(base) == old(self).view(base).without(
                log_tree.view(base_tree).subtree(root),
            ),
            data@ == old(self).view(base).lifted(root, log_tree.view(base_tree).subtree(root)),
    {
        let ghost v = self.view(base);
        let ghost nodes = log_tree.view(base_tree).subtree(root);
        let ids = log_tree.descendants_with_self(base_tree, root).to_bitmap().to_vec();
        let mut direct: HashMap<u32, IntSet> = HashMap::new();
        let mut subtree: HashMap<u32, IntSet> = HashMap::new();
        let mut i: usize = 0;
        while i < ids.len()
            invariant
                i <= ids.len(),
                ids@.no_duplicates(),
                ids@.to_set() == nodes,
                forall|x: u32| #[trigger]
                    overlay_at(base.direct_items@, self.direct_items@, x) == if ids@.take(
                        i as int,
                    ).contains(x) {
                        Set::<u32>::empty()
                    } else {
                        v.direct[x]
                    },
                forall|x: u32| #[trigger]
                    overlay_at(base.subtree_items@, self.subtree_items@, x) == if ids@.take(
                        i as int,
                    ).contains(x) {
                        Set::<u32>::empty()
                    } else {
                        v.subtree[x]
                    },
                forall|x: u32| direct@.contains_key(x) <==> ids@.take(i as int).contains(x),
                forall|x: u32| subtree@.contains_key(x) <==> ids@.take(i as int).contains(x),
                forall|x: u32| direct@.contains_key(x) ==> #[trigger] direct@[x]@ == v.direct[x],
                forall|x: u32| subtree@.contains_key(x) ==> #[trigger] subtree@[x]@ == v.subtree[x],
            decreases ids.len() - i,
        {
            let id = ids[i];
            proof {
                assert(!ids@.take(i as int).contains(id)) by {
                    if ids@.take(i as int).contains(id) {
                        let j = ids@.take(i as int).index_of(id);
                        assert(ids@[j] == id && ids@[i as int] == id);
                    }
                }
                assert(ids@.take(i + 1) =~= ids@.take(i as int).push(id));
                assert forall|x: u32| ids@.take(i + 1).contains(x) <==> (ids@.take(i as int).contains(
                    x,
                ) || x == id) by {
                    vstd::seq_lib::lemma_seq_contains_after_push(ids@.take(i as int), id, x);
                }
            }
            let ghost pd = self.direct_items@;
            let ghost ps = self.subtree_items@;
            let d = replace_set(&base.direct_items, &mut self.direct_items, id, IntSet::new());
            let s = replace_set(&base.subtree_items, &mut self.subtree_items, id, IntSet::new());
            direct.insert(id, d);
            subtree.insert(id, s);
            proof {
                assert forall|x: u32| #[trigger]
                    overlay_at(base.direct_items@, self.direct_items@, x) == if ids@.take(
                        i + 1,
                    ).contains(x) {
                        Set::<u32>::empty()
                    } else {
                        v.direct[x]
                    } by {
                    if x != id {
                        assert(overlay_at(base.direct_items@, self.direct_items@, x) == overlay_at(
                            base.direct_items@,
                            pd,
                            x,
                        ));
                    }
                }
                assert forall|x: u32| #[trigger]
                    overlay_at(base.subtree_items@, self.subtree_items@, x) == if ids@.take(
                        i + 1,
                    ).contains(x) {
                        Set::<u32>::empty()
                    } else {
                        v.subtree[x]
                    } by {
                    if x != id {
                        assert(overlay_at(base.subtree_items@, self.subtree_items@, x) == overlay_at(
                            base.subtree_items@,
                            ps,
                            x,
                        ));
                    }
                }
            }
            i = i + 1;
        }
        let data = DetachedSubtree { root, direct, subtree };
        proof {
            assert(ids@.take(ids@.len() as int) =~= ids@);
            assert forall|x: u32| ids@.contains(x) <==> nodes.contains(x) by {
                assert(ids@.to_set().contains(x) <==> ids@.contains(x));
            }
            let goal = v.without(nodes);
            assert(self.view(base).direct =~= goal.direct);
            assert(self.view(base).subtree =~= goal.subtree);
            let rec = v.lifted(root, nodes);
            assert(data@.direct =~= rec.direct);
            assert(data@.subtree =~= rec.subtree);
        }
        data
    }

    /// Puts back what was lifted out for a subtree, and records the items of
    /// the subtree for every ancestor that its root now has in the tree.
    pub fn insert_subtree(
        &mut self,
        base: &NodeSetIndex,
        base_tree: &Tree,
        log_tree: &TreeLog,
        data: DetachedSubtree,
    )
        ensures
            final(self).view(base) == old(self).view(base).attached(log_tree.view(base_tree), data@),
    {
        let ghost v = self.view(base);
        let ghost rec = data@;
        let DetachedSubtree { root, direct, subtree } = data;
        let ghost lifted_direct = direct@;
        let ghost lifted_subtree = subtree@;
        // 1. the lifted nodes get their sets back
        restore_sets(&base.direct_items, &mut self.direct_items, direct);
        restore_sets(&base.subtree_items, &mut self.subtree_items, subtree);
        let ghost restored = self.subtree_items@;
        proof {
            assert(rec.direct == entries_of(lifted_direct));
            assert(rec.subtree == entries_of(lifted_subtree));
            assert forall|x: u32| #[trigger]
                overlay_at(base.subtree_items@, restored, x) == patched(v.subtree, rec.subtree)[x] by {}
            assert forall|x: u32| #[trigger]
                overlay_at(base.direct_items@, self.direct_items@, x) == patched(
                    v.direct,
                    rec.direct,
                )[x] by {}
        }
        // 2. the items of the whole subtree
        let items = match self.subtree_items.get(&root) {
            Some(s) => s.clone(),
            None => match base.subtree_items.get(&root) {
                Some(s) => s.clone(),
                None => IntSet::new(),
            },
        };
        // 3. every ancestor above the root takes them in
        let start = log_tree.parent(base_tree, root);
        log_tree.spread_up(
            base_tree,
            &base.subtree_items,
            &mut self.subtree_items,
            start,
            &items,
            true,
        );
        proof {
            let goal = v.attached(log_tree.view(base_tree), rec);
            assert(items@ == patched(v.subtree, rec.subtree)[root]) by {
                assert(items@ == overlay_at(base.subtree_items@, restored, root));
            }
            assert(self.view(base).direct =~= goal.direct);
            assert forall|x: u32| self.view(base).subtree[x] == goal.subtree[x] by {
                assert(self.view(base).subtree[x] == overlay_at(
                    base.subtree_items@,
                    self.subtree_items@,
                    x,
                ));
                assert(overlay_at(base.subtree_items@, restored, x) == patched(
                    v.subtree,
                    rec.subtree,
                )[x]);
            }
            assert(self.view(base).subtree =~= goal.subtree);
        }
    }
}

/// Puts every entry of `record` into the log, over whatever the log held.
fn restore_sets(base: &HashMap<u32, IntSet>, log: &mut HashMap<u32, IntSet>, record: HashMap<u32, IntSet>)
    ensures
        forall|x: u32| #[trigger]
            overlay_at(base@, final(log)@, x) == if record@.contains_key(x) {
                record@[x]@
            } else {
                overlay_at(base@, old(log)@, x)
            },
{
    let keys = map_keys(&record);
    let ghost rec = record@;
    let ghost before = log@;
    let mut record = record;
    let mut i: usize = 0;
    while i < keys.len()
        invariant
            i <= keys.len(),
            keys@.no_duplicates(),
            forall|k: u32| keys@.contains(k) <==> rec.contains_key(k),
            forall|k: u32| #[trigger]
                record@.contains_key(k) <==> (rec.contains_key(k) && !keys@.take(i as int).contains(k)),
            forall|k: u32| record@.contains_key(k) ==> #[trigger] record@[k] == rec[k],
            forall|x: u32| #[trigger]
                overlay_at(base@, log@, x) == if keys@.take(i as int).contains(x) {
                    rec[x]@
                } else {
                    overlay_at(base@, before, x)
                },
        decreases keys.len() - i,
    {
        let k = keys[i];
        proof {
            assert(keys@.contains(k));
            assert(!keys@.take(i as int).contains(k)) by {
                if keys@.take(i as int).contains(k) {
                    let j = keys@.take(i as int).index_of(k);
                    assert(keys@[j] == k && keys@[i as int] == k);
                }
            }
            assert(keys@.take(i + 1) =~= keys@.take(i as int).push(k));
            assert forall|x: u32| keys@.take(i + 1).contains(x) <==> (keys@.take(i as int).contains(x)
                || x == k) by {
                vstd::seq_lib::lemma_seq_contains_after_push(keys@.take(i as int), k, x);
            }
            assert(record@.contains_key(k));
        }
        let ghost prev = log@;
        let taken = record.remove(&k);
        let s = taken.unwrap();
        log.insert(k, s);
        proof {
            assert forall|x: u32| #[trigger]
                overlay_at(base@, log@, x) == if keys@.take(i + 1).contains(x) {
                    rec[x]@
                } else {
                    overlay_at(base@, before, x)
                } by {
                if x != k {
                    assert(overlay_at(base@, log@, x) == overlay_at(base@, prev, x));
                }
            }
        }
        i = i + 1;
    }
    proof {
        assert(keys@.take(keys@.len() as int) =~= keys@);
    }
}

/// A read-only view of a base with a log laid over it.
pub struct NodeSetIndexTrx<'a> {
    base: &'a NodeSetIndex,
    log: &'a NodeSetIndexLog,
}

impl<'a> View for NodeSetIndexTrx<'a> {
    type V = NodeSetView;

    closed spec fn view(&self) -> NodeSetView {
        self.log.view(self.base)
    }
}

impl<'a> NodeSetIndexTrx<'a> {
    /// The base is in order.
    pub closed spec fn wf(&self) -> bool {
        self.base.wf()
    }

    /// The view of `log` laid over `base`.
    pub fn new(base: &'a NodeSetIndex, log: &'a NodeSetIndexLog) -> (trx: Self)
        ensures
            trx@ == log.view(base),
            trx.wf() == base.wf(),
    {
        NodeSetIndexTrx { base, log }
    }

    /// The items attached to `node`.
    pub fn direct_items(&self, node: u32) -> (s: &IntSet)
        requires
            self.wf(),
        ensures
            s@ == self@.direct[node],
    {
        self.log.direct_items(self.base, node)
    }

    /// The items recorded for the subtree of `node`.
    pub fn subtree_items(&self, node: u32) -> (s: &IntSet)
        requires
            self.wf(),
        ensures
            s@ == self@.subtree[node],
    {
        self.log.subtree_items(self.base, node)
    }
}

/// A node-set index under construction over a committed tree: a base and the
/// log of changes to it.
pub struct NodeSetIndexBuilder {
    base: NodeSetIndex,
    log: NodeSetIndexLog,
}

impl View for NodeSetIndexBuilder {
    type V = NodeSetView;

    closed spec fn view(&self) -> NodeSetView {
        self.log.view(&self.base)
    }
}

impl NodeSetIndexBuilder {
    /// The base is in order.
    pub closed spec fn wf(&self) -> bool {
        self.base.wf()
    }

    /// A builder for an index without any item.
    pub fn new() -> (b: Self)
        ensures
            b.wf(),
            b@ == NodeSetView::empty(),
    {
        NodeSetIndexBuilder { base: NodeSetIndex::new(), log: NodeSetIndexLog::new() }
    }

    /// Folds the staged changes into the base and hands the base out.
    pub fn build(self) -> (idx: NodeSetIndex)
        requires
            self.wf(),
        ensures
            idx.wf(),
            idx@ == self@,
    {
        let NodeSetIndexBuilder { base, log } = self;
        let mut base = base;
        let _ = base.apply(log);
        base
    }

    /// Attaches `value` to the node `key` of `tree`.
    pub fn insert(&mut self, key: u32, value: u32, tree: &Tree)
        ensures
            final(self).wf() == old(self).wf(),
            final(self)@ == old(self)@.inserted(tree@, key, value),
    {
        let staged = TreeLog::new();
        self.log.insert(&self.base, tree, &staged, key, value);
    }

    /// Takes `value` from the node `key` of `tree`.
    pub fn remove(&mut self, key: u32, value: u32, tree: &Tree)
        ensures
            final(self).wf() == old(self).wf(),
            final(self)@ == old(self)@.removed(tree@, key, value),
    {
        let staged = TreeLog::new();
        self.log.remove(&self.base, tree, &staged, key, value);
    }
}

impl Default for NodeSetIndexBuilder {
    fn default() -> (b: Self)
        ensures
            b.wf(),
            b@ == NodeSetView::empty(),
    {
        NodeSetIndexBuilder::new()
    }
}

impl Clone for NodeSetIndexLog {
    fn clone(&self) -> (log: Self)
        ensures
            forall|base: &NodeSetIndex| #[trigger] log.view(base) == self.view(base),
    {
        NodeSetIndexLog {
            direct_items: self.direct_items.clone(),
            subtree_items: self.subtree_items.clone(),
        }
    }
}

impl Default for NodeSetIndexLog {
    fn default() -> (log: Self)
        ensures
            forall|base: &NodeSetIndex| #[trigger] log.view(base) == base@,
    {
        NodeSetIndexLog::new()
    }
}

} // verus!
