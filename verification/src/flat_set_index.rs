//! The flat set index: a map from a `u32` key to a set of `u32`, with one
//! more set for the entities that have no key.
use crate::int_set::IntSet;
use crate::set_map::{
    apply_sets, map_keys, no_empty_sets, overlay_at, overlay_of, overlay_ref, set_at, set_ref,
    sets_of, take_set,
};
use std::collections::HashMap;
use vstd::prelude::*;

verus! {

/// The state of a flat set index, committed or staged.
pub struct FlatSetView {
    /// The set under each key; empty for a key without values.
    pub map: Map<u32, Set<u32>>,
    /// The set kept for "no key".
    pub none: Set<u32>,
}

impl FlatSetView {
    /// The index without any value.
    pub open spec fn empty() -> FlatSetView {
        FlatSetView { map: Map::new(|k: u32| true, |k: u32| Set::<u32>::empty()), none: Set::empty() }
    }

    /// The index with the set under `key` replaced by `s`.
    pub open spec fn with_bucket(self, key: u32, s: Set<u32>) -> FlatSetView {
        FlatSetView {
            map: Map::new(
                |k: u32| true,
                |k: u32|
                    if k == key {
                        s
                    } else {
                        self.map[k]
                    },
            ),
            none: self.none,
        }
    }

    /// The index with the set for "no key" replaced by `s`.
    pub open spec fn with_none(self, s: Set<u32>) -> FlatSetView {
        FlatSetView { map: self.map, none: s }
    }

    /// Every value in the index, under whatever key.
    pub open spec fn values(self) -> Set<u32> {
        Set::new(|x: u32| self.none.contains(x) || exists|k: u32| #[trigger] self.map[k].contains(x))
    }
}

/// The committed state of a flat set index.
pub struct FlatSetIndex {
    map: HashMap<u32, IntSet>,
    none: IntSet,
    empty: IntSet,
}

impl View for FlatSetIndex {
    type V = FlatSetView;

    closed spec fn view(&self) -> FlatSetView {
        FlatSetView { map: sets_of(self.map@), none: self.none@ }
    }
}

impl FlatSetIndex {
    /// No key is stored with an empty set: a key without values has no entry.
    pub closed spec fn wf(&self) -> bool {
        &&& no_empty_sets(self.map@)
        &&& self.empty@ == Set::<u32>::empty()
    }

    /// The index without any value.
    pub fn new() -> (idx: Self)
        ensures
            idx.wf(),
            idx@ == FlatSetView::empty(),
    {
        FlatSetIndex::with_capacity(0)
    }

    /// The index without any value, with room for `capacity` keys.
    pub fn with_capacity(capacity: usize) -> (idx: Self)
        ensures
            idx.wf(),
            idx@ == FlatSetView::empty(),
    {
        let idx = FlatSetIndex {
            map: HashMap::with_capacity(capacity),
            none: IntSet::new(),
            empty: IntSet::new(),
        };
        proof {
            assert(idx@.map =~= FlatSetView::empty().map);
        }
        idx
    }

    /// Folds a log into the index. Afterwards the index answers every query
    /// as the log laid over it did before. Returns whether anything that the
    /// index answers has changed.
    pub fn apply(&mut self, log: FlatSetIndexLog) -> (changed: bool)
        requires
            old(self).wf(),
        ensures
            final(self).wf(),
            final(self)@ == log.view(old(self)),
            changed == (final(self)@ != old(self)@),
            log.view(old(self)) == old(self)@ ==> !changed && final(self)@ == old(self)@,
    {
        let FlatSetIndexLog { map, none } = log;
        let mut changed = apply_sets(&mut self.map, map);
        match none {
            Some(staged) => {
                if !(self.none == staged) {
                    self.none = staged;
                    changed = true;
                }
            },
            None => {},
        }
        changed
    }

    /// Whether `val` is in the set under `k`.
    pub fn contains(&self, k: &u32, val: u32) -> (found: bool)
        ensures
            found == self@.map[*k].contains(val),
    {
        match self.map.get(k) {
            Some(s) => s.contains(val),
            None => false,
        }
    }

    /// Whether `val` is in the set for "no key".
    pub fn contains_none(&self, val: u32) -> (found: bool)
        ensures
            found == self@.none.contains(val),
    {
        self.none.contains(val)
    }

    /// The set under `k`.
    pub fn get(&self, k: &u32) -> (s: &IntSet)
        requires
            self.wf(),
        ensures
            s@ == self@.map[*k],
    {
        set_ref(&self.map, &self.empty, *k)
    }

    /// The set for "no key".
    pub fn none(&self) -> (s: &IntSet)
        ensures
            s@ == self@.none,
    {
        &self.none
    }

    /// The keys that have values, each once.
    pub fn keys(&self) -> (keys: Vec<u32>)
        requires
            self.wf(),
        ensures
            keys@.no_duplicates(),
            forall|k: u32| keys@.contains(k) <==> self@.map[k] != Set::<u32>::empty(),
    {
        let keys = map_keys(&self.map);
        proof {
            assert forall|k: u32| keys@.contains(k) <==> self@.map[k] != Set::<u32>::empty() by {
                if self.map@.contains_key(k) {
                    assert(self.map@[k]@ != Set::<u32>::empty());
                }
            }
        }
        keys
    }

    /// The keys that have values, each once, with their sets.
    pub fn iter(&self) -> (entries: Vec<(u32, &IntSet)>)
        requires
            self.wf(),
        ensures
            forall|i: int, j: int|
                0 <= i < j < entries@.len() ==> entries@[i].0 != entries@[j].0,
            forall|i: int|
                0 <= i < entries@.len() ==> (#[trigger] entries@[i]).1@ == self@.map[entries@[i].0]
                    && entries@[i].1@ != Set::<u32>::empty(),
            forall|k: u32|
                self@.map[k] != Set::<u32>::empty() ==> exists|i: int|
                    0 <= i < entries@.len() && #[trigger] entries@[i].0 == k,
    {
        let keys = map_keys(&self.map);
        let mut entries: Vec<(u32, &IntSet)> = Vec::new();
        let mut i: usize = 0;
        while i < keys.len()
            invariant
                i <= keys.len(),
                self.wf(),
                keys@.no_duplicates(),
                forall|k: u32| keys@.contains(k) <==> self.map@.contains_key(k),
                entries@.len() == i,
                forall|j: int| 0 <= j < i ==> (#[trigger] entries@[j]).0 == keys@[j],
                forall|j: int|
                    0 <= j < i ==> (#[trigger] entries@[j]).1@ == self@.map[entries@[j].0]
                        && entries@[j].1@ != Set::<u32>::empty(),
            decreases keys.len() - i,
        {
            let k = keys[i];
            assert(keys@.contains(k));
            let s = set_ref(&self.map, &self.empty, k);
            assert(self.map@[k]@ != Set::<u32>::empty());
            entries.push((k, s));
            i = i + 1;
        }
        proof {
            assert forall|k: u32| self@.map[k] != Set::<u32>::empty() implies exists|i: int|
                0 <= i < entries@.len() && #[trigger] entries@[i].0 == k by {
                assert(self.map@.contains_key(k));
                assert(keys@.contains(k));
                let j = keys@.index_of(k);
                assert(entries@[j].0 == k);
            }
        }
        entries
    }

    /// Every value in the index, under whatever key.
    pub fn values(&self) -> (all: IntSet)
        ensures
            all@ == self@.values(),
    {
        let keys = map_keys(&self.map);
        let mut all = self.none.clone();
        let mut i: usize = 0;
        while i < keys.len()
            invariant
                i <= keys.len(),
                forall|k: u32| keys@.contains(k) <==> self.map@.contains_key(k),
                forall|x: u32|
                    all@.contains(x) <==> (self.none@.contains(x) || exists|j: int|
                        0 <= j < i && #[trigger] set_at(self.map@, keys@[j]).contains(x)),
            decreases keys.len() - i,
        {
            let k = keys[i];
            let ghost before = all@;
            match self.map.get(&k) {
                Some(s) => {
                    all.union_with(s);
                },
                None => {},
            }
            proof {
                assert forall|x: u32|
                    all@.contains(x) <==> (self.none@.contains(x) || exists|j: int|
                        0 <= j < i + 1 && #[trigger] set_at(self.map@, keys@[j]).contains(x)) by {
                    if before.contains(x) && !self.none@.contains(x) {
                        let j = choose|j: int|
                            0 <= j < i && #[trigger] set_at(self.map@, keys@[j]).contains(x);
                        assert(0 <= j < i + 1);
                    }
                    if set_at(self.map@, keys@[i as int]).contains(x) {
                        assert(0 <= i < i + 1);
                    }
                }
            }
            i = i + 1;
        }
        proof {
            let goal = self@.values();
            assert forall|x: u32| all@.contains(x) <==> goal.contains(x) by {
                if all@.contains(x) && !self.none@.contains(x) {
                    let j = choose|j: int|
                        0 <= j < keys@.len() && #[trigger] set_at(self.map@, keys@[j]).contains(x);
                    assert(self@.map[keys@[j]].contains(x));
                }
                if goal.contains(x) && !self.none@.contains(x) {
                    let n = choose|n: u32| #[trigger] self@.map[n].contains(x);
                    assert(set_at(self.map@, n).contains(x));
                    assert(keys@.contains(n));
                    let j = keys@.index_of(n);
                    assert(set_at(self.map@, keys@[j]).contains(x));
                }
            }
            assert(all@ =~= goal);
        }
        all
    }
}

impl Clone for FlatSetIndex {
    fn clone(&self) -> (idx: Self)
        ensures
            idx@ == self@,
            self.wf() ==> idx.wf(),
    {
        FlatSetIndex { map: self.map.clone(), none: self.none.clone(), empty: self.empty.clone() }
    }
}

impl Default for FlatSetIndex {
    fn default() -> (idx: Self)
        ensures
            idx.wf(),
            idx@ == FlatSetView::empty(),
    {
        FlatSetIndex::new()
    }
}

/// The staged changes to a flat set index: the sets that were touched, as
/// they are to be.
pub struct FlatSetIndexLog {
    map: HashMap<u32, IntSet>,
    none: Option<IntSet>,
}

impl FlatSetIndexLog {
    /// What the index looks like with this log laid over `base`.
    pub closed spec fn view(&self, base: &FlatSetIndex) -> FlatSetView {
        FlatSetView {
            map: overlay_of(base.map@, self.map@),
            none: match self.none {
                Some(s) => s@,
                None => base.none@,
            },
        }
    }

    /// The log without any change: over every base it shows the base.
    pub fn new() -> (log: Self)
        ensures
            forall|base: &FlatSetIndex| #[trigger] log.view(base) == base@,
    {
        FlatSetIndexLog::with_capacity(0)
    }

    /// The log without any change, with room for `capacity` keys.
    pub fn with_capacity(capacity: usize) -> (log: Self)
        ensures
            forall|base: &FlatSetIndex| #[trigger] log.view(base) == base@,
    {
        let log = FlatSetIndexLog { map: HashMap::with_capacity(capacity), none: None };
        proof {
            assert forall|base: &FlatSetIndex| #[trigger] log.view(base) == base@ by {
                assert(log.view(base).map =~= base@.map);
            }
        }
        log
    }

    /// Whether `val` is in the set under `k`.
    pub fn contains(&self, base: &FlatSetIndex, k: &u32, val: u32) -> (found: bool)
        ensures
            found == self.view(base).map[*k].contains(val),
    {
        match self.map.get(k) {
            Some(s) => s.contains(val),
            None => base.contains(k, val),
        }
    }

    /// Whether `val` is in the set for "no key".
    pub fn contains_none(&self, base: &FlatSetIndex, val: u32) -> (found: bool)
        ensures
            found == self.view(base).none.contains(val),
    {
        match &self.none {
            Some(s) => s.contains(val),
            None => base.contains_none(val),
        }
    }

    /// The set under `k`.
    pub fn get<'a>(&'a self, base: &'a FlatSetIndex, k: &u32) -> (s: &'a IntSet)
        requires
            base.wf(),
        ensures
            s@ == self.view(base).map[*k],
    {
        overlay_ref(&base.map, &self.map, &base.empty, *k)
    }

    /// The set for "no key".
    pub fn none<'a>(&'a self, base: &'a FlatSetIndex) -> (s: &'a IntSet)
        ensures
            s@ == self.view(base).none,
    {
        match &self.none {
            Some(s) => s,
            None => base.none(),
        }
    }

    /// Puts a changed set back under `key`, after `take_set` moved it out.
    fn put(&mut self, base: &FlatSetIndex, key: u32, s: IntSet, Ghost(v): Ghost<FlatSetView>)
        requires
            forall|x: u32|
                x != key ==> #[trigger] overlay_at(base.map@, old(self).map@, x) == v.map[x],
            old(self).view(base).none == v.none,
        ensures
            final(self).view(base) == v.with_bucket(key, s@),
    {
        let ghost before = self.map@;
        self.map.insert(key, s);
        proof {
            assert forall|x: u32| self.view(base).map[x] == v.with_bucket(key, s@).map[x] by {
                if x != key {
                    assert(overlay_at(base.map@, self.map@, x) == overlay_at(base.map@, before, x));
                }
            }
            assert(self.view(base).map =~= v.with_bucket(key, s@).map);
        }
    }

    /// Moves the set for "no key" out of the log, copying it from the base
    /// on first touch.
    fn take_none(&mut self, base: &FlatSetIndex) -> (s: IntSet)
        ensures
            s@ == old(self).view(base).none,
            final(self).map == old(self).map,
    {
        match self.none.take() {
            Some(s) => s,
            None => base.none.clone(),
        }
    }

    /// Puts a changed set for "no key" back.
    fn put_none(&mut self, base: &FlatSetIndex, s: IntSet)
        ensures
            final(self).view(base) == (FlatSetView { map: old(self).view(base).map, none: s@ }),
    {
        self.none = Some(s);
    }

    /// Adds `val` to the set under `key`; true when it was not there.
    pub fn insert(&mut self, base: &FlatSetIndex, key: u32, val: u32) -> (added: bool)
        ensures
            final(self).view(base) == old(self).view(base).with_bucket(
                key,
                old(self).view(base).map[key].insert(val),
            ),
            added == !old(self).view(base).map[key].contains(val),
    {
        let ghost v = self.view(base);
        let mut s = take_set(&base.map, &mut self.map, key);
        let added = s.insert(val);
        self.put(base, key, s, Ghost(v));
        added
    }

    /// Adds `val` to the set for "no key"; true when it was not there.
    pub fn insert_none(&mut self, base: &FlatSetIndex, val: u32) -> (added: bool)
        ensures
            final(self).view(base) == old(self).view(base).with_none(
                old(self).view(base).none.insert(val),
            ),
            added == !old(self).view(base).none.contains(val),
    {
        let mut s = self.take_none(base);
        let added = s.insert(val);
        self.put_none(base, s);
        added
    }

    /// Takes `val` out of the set under `key`; true when it was there.
    pub fn remove(&mut self, base: &FlatSetIndex, key: u32, val: u32) -> (removed: bool)
        ensures
            final(self).view(base) == old(self).view(base).with_bucket(
                key,
                old(self).view(base).map[key].remove(val),
            ),
            removed == old(self).view(base).map[key].contains(val),
    {
        let ghost v = self.view(base);
        let mut s = take_set(&base.map, &mut self.map, key);
        let removed = s.remove(val);
        self.put(base, key, s, Ghost(v));
        removed
    }

    /// Takes `val` out of the set for "no key"; true when it was there.
    pub fn remove_none(&mut self, base: &FlatSetIndex, val: u32) -> (removed: bool)
        ensures
            final(self).view(base) == old(self).view(base).with_none(
                old(self).view(base).none.remove(val),
            ),
            removed == old(self).view(base).none.contains(val),
    {
        let mut s = self.take_none(base);
        let removed = s.remove(val);
        self.put_none(base, s);
        removed
    }

    /// Adds every value of `rhs` to the set under `key`.
    pub fn union(&mut self, base: &FlatSetIndex, key: u32, rhs: &IntSet)
        ensures
            final(self).view(base) == old(self).view(base).with_bucket(
                key,
                old(self).view(base).map[key].union(rhs@),
            ),
    {
        let ghost v = self.view(base);
        let mut s = take_set(&base.map, &mut self.map, key);
        s.union_with(rhs);
        self.put(base, key, s, Ghost(v));
    }

    /// Adds every value of `rhs` to the set for "no key".
    pub fn union_none(&mut self, base: &FlatSetIndex, rhs: &IntSet)
        ensures
            final(self).view(base) == old(self).view(base).with_none(
                old(self).view(base).none.union(rhs@),
            ),
    {
        let mut s = self.take_none(base);
        s.union_with(rhs);
        self.put_none(base, s);
    }

    /// Takes every value of `rhs` out of the set under `key`.
    pub fn difference(&mut self, base: &FlatSetIndex, key: u32, rhs: &IntSet)
        ensures
            final(self).view(base) == old(self).view(base).with_bucket(
                key,
                old(self).view(base).map[key].difference(rhs@),
            ),
    {
        let ghost v = self.view(base);
        let mut s = take_set(&base.map, &mut self.map, key);
        s.difference_with(rhs);
        self.put(base, key, s, Ghost(v));
    }

    /// Takes every value of `rhs` out of the set for "no key".
    pub fn difference_none(&mut self, base: &FlatSetIndex, rhs: &IntSet)
        ensures
            final(self).view(base) == old(self).view(base).with_none(
                old(self).view(base).none.difference(rhs@),
            ),
    {
        let mut s = self.take_none(base);
        s.difference_with(rhs);
        self.put_none(base, s);
    }

    /// Keeps, in the set under `key`, only the values that `rhs` has too.
    pub fn intersection(&mut self, base: &FlatSetIndex, key: u32, rhs: &IntSet)
        ensures
            final(self).view(base) == old(self).view(base).with_bucket(
                key,
                old(self).view(base).map[key].intersect(rhs@),
            ),
    {
        let ghost v = self.view(base);
        let mut s = take_set(&base.map, &mut self.map, key);
        s.intersect_with(rhs);
        self.put(base, key, s, Ghost(v));
    }

    /// Keeps, in the set for "no key", only the values that `rhs` has too.
    pub fn intersection_none(&mut self, base: &FlatSetIndex, rhs: &IntSet)
        ensures
            final(self).view(base) == old(self).view(base).with_none(
                old(self).view(base).none.intersect(rhs@),
            ),
    {
        let mut s = self.take_none(base);
        s.intersect_with(rhs);
        self.put_none(base, s);
    }
}

/// A flat set index under construction: a base and the log of changes to it.
pub struct FlatSetIndexBuilder {
    base: FlatSetIndex,
    log: FlatSetIndexLog,
}

impl View for FlatSetIndexBuilder {
    type V = FlatSetView;

    /// What the index under construction looks like.
    closed spec fn view(&self) -> FlatSetView {
        self.log.view(&self.base)
    }
}

impl FlatSetIndexBuilder {
    /// The base is in order.
    pub closed spec fn wf(&self) -> bool {
        self.base.wf()
    }

    /// A builder for an index without any value.
    pub fn new() -> (b: Self)
        ensures
            b.wf(),
            b@ == FlatSetView::empty(),
    {
        FlatSetIndexBuilder::with_capacity(0)
    }

    /// A builder for an index without any value, with room for `capacity` keys.
    pub fn with_capacity(capacity: usize) -> (b: Self)
        ensures
            b.wf(),
            b@ == FlatSetView::empty(),
    {
        FlatSetIndexBuilder {
            base: FlatSetIndex::with_capacity(capacity),
            log: FlatSetIndexLog::with_capacity(capacity),
        }
    }

    /// Folds the staged changes into the base and hands the base out.
    pub fn build(self) -> (idx: FlatSetIndex)
        requires
            self.wf(),
        ensures
            idx.wf(),
            idx@ == self@,
    {
        let FlatSetIndexBuilder { base, log } = self;
        let mut base = base;
        let _ = base.apply(log);
        base
    }

    /// Adds `val` to the set under `key`; true when it was not there.
    pub fn insert(&mut self, key: u32, val: u32) -> (added: bool)
        ensures
            final(self).wf() == old(self).wf(),
            final(self)@ == old(self)@.with_bucket(key, old(self)@.map[key].insert(val)),
            added == !old(self)@.map[key].contains(val),
    {
        self.log.insert(&self.base, key, val)
    }

    /// Adds `val` to the set for "no key"; true when it was not there.
    pub fn insert_none(&mut self, val: u32) -> (added: bool)
        ensures
            final(self).wf() == old(self).wf(),
            final(self)@ == old(self)@.with_none(old(self)@.none.insert(val)),
            added == !old(self)@.none.contains(val),
    {
        self.log.insert_none(&self.base, val)
    }

    /// Takes `val` out of the set under `key`; true when it was there.
    pub fn remove(&mut self, key: u32, val: u32) -> (removed: bool)
        ensures
            final(self).wf() == old(self).wf(),
            final(self)@ == old(self)@.with_bucket(key, old(self)@.map[key].remove(val)),
            removed == old(self)@.map[key].contains(val),
    {
        self.log.remove(&self.base, key, val)
    }

    /// Takes `val` out of the set for "no key"; true when it was there.
    pub fn remove_none(&mut self, val: u32) -> (removed: bool)
        ensures
            final(self).wf() == old(self).wf(),
            final(self)@ == old(self)@.with_none(old(self)@.none.remove(val)),
            removed == old(self)@.none.contains(val),
    {
        self.log.remove_none(&self.base, val)
    }

    /// Adds every value of `rhs` to the set under `key`.
    pub fn union(&mut self, key: u32, rhs: &IntSet)
        ensures
            final(self).wf() == old(self).wf(),
            final(self)@ == old(self)@.with_bucket(key, old(self)@.map[key].union(rhs@)),
    {
        self.log.union(&self.base, key, rhs);
    }

    /// Adds every value of `rhs` to the set for "no key".
    pub fn union_none(&mut self, rhs: &IntSet)
        ensures
            final(self).wf() == old(self).wf(),
            final(self)@ == old(self)@.with_none(old(self)@.none.union(rhs@)),
    {
        self.log.union_none(&self.base, rhs);
    }

    /// Takes every value of `rhs` out of the set under `key`.
    pub fn difference(&mut self, key: u32, rhs: &IntSet)
        ensures
            final(self).wf() == old(self).wf(),
            final(self)@ == old(self)@.with_bucket(key, old(self)@.map[key].difference(rhs@)),
    {
        self.log.difference(&self.base, key, rhs);
    }

    /// Takes every value of `rhs` out of the set for "no key".
    pub fn difference_none(&mut self, rhs: &IntSet)
        ensures
            final(self).wf() == old(self).wf(),
            final(self)@ == old(self)@.with_none(old(self)@.none.difference(rhs@)),
    {
        self.log.difference_none(&self.base, rhs);
    }

    /// Keeps, in the set under `key`, only the values that `rhs` has too.
    pub fn intersection(&mut self, key: u32, rhs: &IntSet)
        ensures
            final(self).wf() == old(self).wf(),
            final(self)@ == old(self)@.with_bucket(key, old(self)@.map[key].intersect(rhs@)),
    {
        self.log.intersection(&self.base, key, rhs);
    }

    /// Keeps, in the set for "no key", only the values that `rhs` has too.
    pub fn intersection_none(&mut self, rhs: &IntSet)
        ensures
            final(self).wf() == old(self).wf(),
            final(self)@ == old(self)@.with_none(old(self)@.none.intersect(rhs@)),
    {
        self.log.intersection_none(&self.base, rhs);
    }
}

impl Default for FlatSetIndexBuilder {
    fn default() -> (b: Self)
        ensures
            b.wf(),
            b@ == FlatSetView::empty(),
    {
        FlatSetIndexBuilder::new()
    }
}

/// A read-only view of a base with a log laid over it.
pub struct FlatSetIndexTrx<'a> {
    base: &'a FlatSetIndex,
    log: &'a FlatSetIndexLog,
}

impl<'a> View for FlatSetIndexTrx<'a> {
    type V = FlatSetView;

    closed spec fn view(&self) -> FlatSetView {
        self.log.view(self.base)
    }
}

impl<'a> FlatSetIndexTrx<'a> {
    /// The base is in order.
    pub closed spec fn wf(&self) -> bool {
        self.base.wf()
    }

    /// The view of `log` laid over `base`.
    pub fn new(base: &'a FlatSetIndex, log: &'a FlatSetIndexLog) -> (trx: Self)
        ensures
            trx@ == log.view(base),
            trx.wf() == base.wf(),
    {
        FlatSetIndexTrx { base, log }
    }

    /// Whether `val` is in the set under `key`.
    pub fn contains(&self, key: u32, val: u32) -> (found: bool)
        ensures
            found == self@.map[key].contains(val),
    {
        self.log.contains(self.base, &key, val)
    }

    /// Whether `val` is in the set for "no key".
    pub fn contains_none(&self, val: u32) -> (found: bool)
        ensures
            found == self@.none.contains(val),
    {
        self.log.contains_none(self.base, val)
    }

    /// The set under `key`.
    pub fn get(&self, key: u32) -> (s: &IntSet)
        requires
            self.wf(),
        ensures
            s@ == self@.map[key],
    {
        self.log.get(self.base, &key)
    }

    /// The set for "no key".
    pub fn none(&self) -> (s: &IntSet)
        ensures
            s@ == self@.none,
    {
        self.log.none(self.base)
    }
}

impl Default for FlatSetIndexLog {
    fn default() -> (log: Self)
        ensures
            forall|base: &FlatSetIndex| #[trigger] log.view(base) == base@,
    {
        FlatSetIndexLog::new()
    }
}

} // verus!
