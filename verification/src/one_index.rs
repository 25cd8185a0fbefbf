//! The one-value index: a partial map from a `u32` key to a value, stored
//! densely by key.
use crate::set_map::map_keys;
use std::collections::HashMap;
use vstd::prelude::*;
use vstd::std_specs::cmp::PartialEqSpec;

verus! {

/// Whether two optional values count as the same value: both absent, or both
/// present and equal by the value type's own `==`.
pub open spec fn same_value<V: PartialEq>(a: Option<V>, b: Option<V>) -> bool {
    match (a, b) {
        (None, None) => true,
        (Some(x), Some(y)) => x.eq_spec(&y),
        _ => false,
    }
}

/// What a slot holds after an override is folded into it: an override that
/// counts as the same value leaves the slot as it was.
pub open spec fn folded<V: PartialEq>(slot: Option<V>, staged: Option<V>) -> Option<V> {
    if same_value(slot, staged) {
        slot
    } else {
        staged
    }
}

/// The value type's `==` holds of two values exactly when they are the same value.
pub open spec fn eq_is_identity<V: PartialEq>() -> bool {
    &&& V::obeys_eq_spec()
    &&& forall|a: V, b: V| #[trigger] a.eq_spec(&b) <==> a == b
}

/// What a map of overrides shows over a committed map.
pub open spec fn overridden<V>(base: Map<u32, V>, staged: Map<u32, Option<V>>) -> Map<u32, V> {
    Map::new(
        |k: u32|
            if staged.contains_key(k) {
                staged[k] is Some
            } else {
                base.contains_key(k)
            },
        |k: u32|
            if staged.contains_key(k) {
                staged[k]->0
            } else {
                base[k]
            },
    )
}

/// The value under `k`, if there is one.
pub open spec fn slot_of<V>(m: Map<u32, V>, k: u32) -> Option<V> {
    if m.contains_key(k) {
        Some(m[k])
    } else {
        None
    }
}

/// Two maps that hold the same under every key are the same map.
pub proof fn lemma_same_slots<V>(a: Map<u32, V>, b: Map<u32, V>)
    requires
        forall|k: u32| slot_of(a, k) == slot_of(b, k),
    ensures
        a == b,
{
    assert forall|k: u32| a.contains_key(k) == b.contains_key(k) by {
        assert(slot_of(a, k) == slot_of(b, k));
    }
    assert forall|k: u32| a.contains_key(k) implies a[k] == b[k] by {
        assert(slot_of(a, k) == slot_of(b, k));
    }
    assert(a =~= b);
}

/// The committed state of a one-value index.
pub struct OneIndex<V> {
    data: Vec<Option<V>>,
    len: usize,
}

/// The keys below `n` whose slot is occupied.
spec fn occupied<V>(data: Seq<Option<V>>, n: int) -> Set<u32> {
    Set::new(|k: u32| (k as int) < n && (k as int) < data.len() && data[k as int] is Some)
}

/// The occupied keys below `n` are finitely many, at most `n`.
proof fn lemma_occupied_bounded<V>(data: Seq<Option<V>>, n: int)
    requires
        0 <= n,
    ensures
        occupied(data, n).finite(),
        occupied(data, n).len() <= n,
    decreases n,
{
    if n == 0 {
        assert(occupied(data, n) =~= Set::<u32>::empty());
    } else {
        lemma_occupied_bounded(data, n - 1);
        let prev = occupied(data, n - 1);
        if n - 1 <= u32::MAX && n - 1 < data.len() && data[n - 1] is Some {
            assert(occupied(data, n) =~= prev.insert((n - 1) as u32));
        } else {
            assert(occupied(data, n) =~= prev);
        }
    }
}

impl<V> View for OneIndex<V> {
    type V = Map<u32, V>;

    closed spec fn view(&self) -> Map<u32, V> {
        Map::new(
            |k: u32| (k as int) < self.data@.len() && self.data@[k as int] is Some,
            |k: u32| self.data@[k as int]->0,
        )
    }
}

impl<V> OneIndex<V> {
    /// The population count is the number of occupied slots.
    pub closed spec fn wf(&self) -> bool {
        self.len == occupied(self.data@, self.data@.len() as int).len()
    }

    /// The index without any entry.
    pub fn new() -> (idx: Self)
        ensures
            idx.wf(),
            idx@ == Map::<u32, V>::empty(),
    {
        let idx = OneIndex { data: Vec::new(), len: 0 };
        proof {
            assert(occupied(idx.data@, 0) =~= Set::<u32>::empty());
            assert(idx@ =~= Map::<u32, V>::empty());
        }
        idx
    }

    /// The index without any entry, with room for keys below `capacity`.
    pub fn with_capacity(capacity: usize) -> (idx: Self)
        ensures
            idx.wf(),
            idx@ == Map::<u32, V>::empty(),
    {
        let idx = OneIndex { data: Vec::with_capacity(capacity), len: 0 };
        proof {
            assert(occupied(idx.data@, 0) =~= Set::<u32>::empty());
            assert(idx@ =~= Map::<u32, V>::empty());
        }
        idx
    }

    /// The value under `index`.
    pub fn get(&self, index: u32) -> (v: Option<&V>)
        ensures
            match v {
                Some(v) => self@.contains_key(index) && self@[index] == *v,
                None => !self@.contains_key(index),
            },
    {
        let i = index as usize;
        if i < self.data.len() {
            self.data[i].as_ref()
        } else {
            None
        }
    }

    /// Whether the index has no entry.
    pub fn is_empty(&self) -> (empty: bool)
        requires
            self.wf(),
        ensures
            empty == (self@ == Map::<u32, V>::empty()),
    {
        proof {
            self.lemma_count();
            if self.len == 0 {
                assert(self@.dom() =~= Set::<u32>::empty());
                assert(self@ =~= Map::<u32, V>::empty());
            } else {
                assert(self@.dom().len() != 0);
            }
        }
        self.len == 0
    }

    /// The number of entries.
    pub fn len(&self) -> (n: usize)
        requires
            self.wf(),
        ensures
            self@.dom().finite(),
            n == self@.dom().len(),
    {
        proof {
            self.lemma_count();
        }
        self.len
    }

    /// The occupied slots are the domain of the view.
    proof fn lemma_count(&self)
        ensures
            self@.dom() == occupied(self.data@, self.data@.len() as int),
            self@.dom().finite(),
            self@.dom().len() <= self.data@.len(),
    {
        assert(self@.dom() =~= occupied(self.data@, self.data@.len() as int));
        lemma_occupied_bounded(self.data@, self.data@.len() as int);
    }

    /// The keys in ascending order.
    pub fn keys(&self) -> (keys: Vec<u32>)
        ensures
            crate::int_set::strictly_increasing(keys@),
            forall|k: u32| keys@.contains(k) <==> self@.contains_key(k),
    {
        let mut keys: Vec<u32> = Vec::new();
        let mut i: usize = 0;
        while i < self.data.len() && i <= u32::MAX as usize
            invariant
                i <= self.data.len(),
                i <= u32::MAX + 1,
                crate::int_set::strictly_increasing(keys@),
                forall|j: int| 0 <= j < keys@.len() ==> (#[trigger] keys@[j] as int) < i,
                forall|k: u32|
                    keys@.contains(k) <==> ((k as int) < i && #[trigger] self@.contains_key(k)),
            decreases self.data.len() - i,
        {
            if self.data[i].is_some() {
                let ghost before = keys@;
                keys.push(i as u32);
                proof {
                    assert forall|k: u32|
                        keys@.contains(k) <==> ((k as int) < i + 1 && #[trigger] self@.contains_key(
                            k,
                        )) by {
                        vstd::seq_lib::lemma_seq_contains_after_push(before, i as u32, k);
                    }
                }
            }
            i = i + 1;
        }
        keys
    }

    /// The entries in ascending order of their keys.
    pub fn iter(&self) -> (entries: Vec<(u32, &V)>)
        ensures
            forall|i: int, j: int| 0 <= i < j < entries@.len() ==> entries@[i].0 < entries@[j].0,
            forall|i: int|
                0 <= i < entries@.len() ==> self@.contains_key(#[trigger] entries@[i].0)
                    && self@[entries@[i].0] == *entries@[i].1,
            forall|k: u32|
                self@.contains_key(k) ==> exists|i: int|
                    0 <= i < entries@.len() && #[trigger] entries@[i].0 == k,
    {
        let mut entries: Vec<(u32, &V)> = Vec::new();
        let mut i: usize = 0;
        while i < self.data.len() && i <= u32::MAX as usize
            invariant
                i <= self.data.len(),
                i <= u32::MAX + 1,
                forall|a: int, b: int| 0 <= a < b < entries@.len() ==> entries@[a].0 < entries@[b].0,
                forall|j: int| 0 <= j < entries@.len() ==> (#[trigger] entries@[j].0 as int) < i,
                forall|j: int|
                    0 <= j < entries@.len() ==> self@.contains_key(#[trigger] entries@[j].0)
                        && self@[entries@[j].0] == *entries@[j].1,
                forall|k: u32|
                    (k as int) < i && self@.contains_key(k) ==> exists|j: int|
                        0 <= j < entries@.len() && #[trigger] entries@[j].0 == k,
            decreases self.data.len() - i,
        {
            match &self.data[i] {
                Some(v) => {
                    let ghost before = entries@;
                    entries.push((i as u32, v));
                    proof {
                        assert forall|k: u32|
                            (k as int) < i + 1 && self@.contains_key(k) implies exists|j: int|
                            0 <= j < entries@.len() && #[trigger] entries@[j].0 == k by {
                            if (k as int) < i {
                                let j = choose|j: int|
                                    0 <= j < before.len() && #[trigger] before[j].0 == k;
                                assert(entries@[j].0 == k);
                            } else {
                                assert(entries@[before.len() as int].0 == k);
                            }
                        }
                    }
                },
                None => {},
            }
            i = i + 1;
        }
        entries
    }
}

/// The staged changes to a one-value index: per key, a value to set or
/// `None` to clear the slot.
pub struct OneIndexLog<V>(HashMap<u32, Option<V>>);

impl<V> OneIndexLog<V> {
    /// The overrides recorded so far.
    pub closed spec fn staged(&self) -> Map<u32, Option<V>> {
        self.0@
    }

    /// What the index looks like with this log laid over `base`.
    pub open spec fn view(&self, base: &OneIndex<V>) -> Map<u32, V> {
        overridden(base@, self.staged())
    }

    /// The log without any change.
    pub fn new() -> (log: Self)
        ensures
            log.staged() == Map::<u32, Option<V>>::empty(),
    {
        OneIndexLog(HashMap::new())
    }

    /// The value under `index`.
    pub fn get<'a>(&'a self, base: &'a OneIndex<V>, index: u32) -> (v: Option<&'a V>)
        ensures
            match v {
                Some(v) => self.view(base).contains_key(index) && self.view(base)[index] == *v,
                None => !self.view(base).contains_key(index),
            },
    {
        match self.0.get(&index) {
            Some(staged) => staged.as_ref(),
            None => base.get(index),
        }
    }
}

impl<V: PartialEq> OneIndexLog<V> {
    /// Stages `value` under `index`. A key not yet in the log is recorded
    /// only if that changes what the base holds.
    pub fn insert(&mut self, base: &OneIndex<V>, index: u32, value: V)
        ensures
            final(self).staged() == old(self).staged().insert(index, Some(value))
                || final(self).staged() == old(self).staged(),
            V::obeys_eq_spec() ==> final(self).staged() == if old(self).staged().contains_key(index)
                || !same_value(slot_of(base@, index), Some(value)) {
                old(self).staged().insert(index, Some(value))
            } else {
                old(self).staged()
            },
    {
        if self.0.contains_key(&index) {
            self.0.insert(index, Some(value));
        } else {
            let differs = match base.get(index) {
                Some(held) => !(*held == value),
                None => true,
            };
            if differs {
                self.0.insert(index, Some(value));
            }
        }
    }

    /// Stages the removal of the entry under `index`. A key not yet in the
    /// log is recorded only if the base has an entry there.
    pub fn remove(&mut self, base: &OneIndex<V>, index: u32)
        ensures
            final(self).staged() == if old(self).staged().contains_key(index)
                || base@.contains_key(index) {
                old(self).staged().insert(index, None)
            } else {
                old(self).staged()
            },
    {
        if self.0.contains_key(&index) {
            self.0.insert(index, None);
        } else if base.get(index).is_some() {
            self.0.insert(index, None);
        }
    }
}

impl<V> Default for OneIndexLog<V> {
    fn default() -> (log: Self)
        ensures
            log.staged() == Map::<u32, Option<V>>::empty(),
    {
        OneIndexLog::new()
    }
}

impl<V: PartialEq> OneIndex<V> {
    /// Folds a log into the index: a staged value replaces the slot unless it
    /// counts as the same value, a staged removal clears the slot. Returns
    /// whether any slot changed.
    pub fn apply(&mut self, log: OneIndexLog<V>) -> (changed: bool)
        requires
            old(self).wf(),
        ensures
            final(self).wf(),
            V::obeys_eq_spec() ==> {
                &&& forall|k: u32|
                    slot_of(final(self)@, k) == if log.staged().contains_key(k) {
                        folded(slot_of(old(self)@, k), #[trigger] log.staged()[k])
                    } else {
                        slot_of(old(self)@, k)
                    }
                &&& changed == exists|k: u32|
                    log.staged().contains_key(k) && !same_value(
                        slot_of(old(self)@, k),
                        #[trigger] log.staged()[k],
                    )
            },
            eq_is_identity::<V>() ==> final(self)@ == log.view(old(self)) && changed == (final(self)@
                != old(self)@),
            log.staged() == Map::<u32, Option<V>>::empty() ==> !changed && final(self)@ == old(
                self,
            )@,
    {
        let ghost before = self@;
        let ghost src = log.staged();
        let keys = map_keys(&log.0);
        let mut staged = log.0;
        let mut changed = false;
        let mut i: usize = 0;
        while i < keys.len()
            invariant
                i <= keys.len(),
                i == 0 ==> !changed,
                self.wf(),
                keys@.no_duplicates(),
                forall|k: u32| keys@.contains(k) <==> src.contains_key(k),
                forall|k: u32| #[trigger]
                    staged@.contains_key(k) <==> (src.contains_key(k) && !keys@.take(i as int).contains(
                        k,
                    )),
                forall|k: u32| staged@.contains_key(k) ==> #[trigger] staged@[k] == src[k],
                forall|k: u32|
                    !keys@.take(i as int).contains(k) ==> #[trigger] slot_of(self@, k) == slot_of(
                        before,
                        k,
                    ),
                V::obeys_eq_spec() ==> forall|k: u32|
                    keys@.take(i as int).contains(k) ==> #[trigger] slot_of(self@, k) == folded(
                        slot_of(before, k),
                        src[k],
                    ),
                V::obeys_eq_spec() ==> (changed == exists|j: int|
                    0 <= j < i && !same_value(slot_of(before, keys@[j]), #[trigger] src[keys@[j]])),
            decreases keys.len() - i,
        {
            let k = keys[i];
            proof {
                assert(keys@.contains(k));
                assert(!keys@.take(i as int).contains(k)) by {
                    if keys@.take(i as int).contains(k) {
                        let j = keys@.take(i as int).index_of(k);
                        assert(keys@[j] == k && keys@[i as int] == k);
                    }
                }
                assert(keys@.take(i + 1) =~= keys@.take(i as int).push(k));
                assert forall|x: u32| keys@.take(i + 1).contains(x) <==> (keys@.take(i as int).contains(
                    x,
                ) || x == k) by {
                    vstd::seq_lib::lemma_seq_contains_after_push(keys@.take(i as int), k, x);
                }
                assert(staged@.contains_key(k));
            }
            let ghost was = changed;
            let ghost prev = self@;
            let taken = staged.remove(&k);
            let value = taken.unwrap();
            let index = k as usize;
            let hit = self.fold_entry(index, value);
            if hit {
                changed = true;
            }
            proof {
                assert forall|x: u32| x != k implies slot_of(self@, x) == slot_of(prev, x) by {}
                assert(slot_of(prev, k) == slot_of(before, k));
                if V::obeys_eq_spec() {
                    assert(hit == !same_value(slot_of(before, keys@[i as int]), src[keys@[i as int]]));
                    assert(changed == (was || hit));
                }
            }
            i = i + 1;
        }
        proof {
            assert(keys@.take(keys@.len() as int) =~= keys@);
            if src == Map::<u32, Option<V>>::empty() {
                assert(keys@.len() == 0) by {
                    if keys@.len() > 0 {
                        assert(keys@.contains(keys@[0]));
                    }
                }
                assert forall|k: u32| slot_of(self@, k) == slot_of(before, k) by {}
                lemma_same_slots(self@, before);
            }
            if eq_is_identity::<V>() {
                let goal = overridden(before, src);
                assert forall|k: u32| slot_of(self@, k) == slot_of(goal, k) by {
                    if !keys@.contains(k) {
                        assert(slot_of(self@, k) == slot_of(before, k));
                    }
                }
                lemma_same_slots(self@, goal);
                if changed {
                    let j = choose|j: int|
                        0 <= j < keys@.len() && !same_value(
                            slot_of(before, keys@[j]),
                            #[trigger] src[keys@[j]],
                        );
                    assert(keys@.contains(keys@[j]));
                    assert(slot_of(goal, keys@[j]) != slot_of(before, keys@[j]));
                } else {
                    assert forall|k: u32| slot_of(goal, k) == slot_of(before, k) by {
                        if src.contains_key(k) {
                            assert(keys@.contains(k));
                            let j = keys@.index_of(k);
                            assert(0 <= j < keys@.len() && keys@[j] == k);
                            assert(!!same_value(slot_of(before, keys@[j]), src[keys@[j]]));
                        }
                    }
                    lemma_same_slots(goal, before);
                }
            }
            if V::obeys_eq_spec() {
                if changed {
                    let j = choose|j: int|
                        0 <= j < keys@.len() && !same_value(
                            slot_of(before, keys@[j]),
                            #[trigger] src[keys@[j]],
                        );
                    assert(keys@.contains(keys@[j]));
                } else {
                    assert forall|k: u32| src.contains_key(k) implies same_value(
                        slot_of(before, k),
                        #[trigger] src[k],
                    ) by {
                        assert(keys@.contains(k));
                        let j = keys@.index_of(k);
                        assert(0 <= j < keys@.len() && keys@[j] == k);
                        assert(!!same_value(slot_of(before, keys@[j]), src[keys@[j]]));
                    }
                }
            }
        }
        changed
    }

    /// Folds one override into its slot; true when the slot changed.
    fn fold_entry(&mut self, index: usize, value: Option<V>) -> (hit: bool)
        requires
            old(self).wf(),
            index <= u32::MAX,
        ensures
            final(self).wf(),
            forall|x: u32| x != index ==> #[trigger] slot_of(final(self)@, x) == slot_of(old(self)@, x),
            V::obeys_eq_spec() ==> {
                &&& slot_of(final(self)@, index as u32) == folded(
                    slot_of(old(self)@, index as u32),
                    value,
                )
                &&& hit == !same_value(slot_of(old(self)@, index as u32), value)
            },
    {
        let ghost before = self@;
        let ghost before_data = self.data@;
        match value {
            Some(v) => {
                while self.data.len() <= index
                    invariant
                        self.wf(),
                        self@ == before,
                        self.data@.len() >= before_data.len(),
                    decreases index + 1 - self.data.len(),
                {
                    let ghost d = self.data@;
                    self.data.push(None);
                    proof {
                        assert(occupied(self.data@, self.data@.len() as int) =~= occupied(
                            d,
                            d.len() as int,
                        ));
                        assert(self@ =~= before);
                    }
                }
                let vacant = self.data[index].is_none();
                let differs = match &self.data[index] {
                    Some(held) => !(*held == v),
                    None => true,
                };
                if differs {
                    let ghost d = self.data@;
                    proof {
                        lemma_occupied_bounded(d, d.len() as int);
                    }
                    self.data.set(index, Some(v));
                    proof {
                        lemma_occupied_bounded(self.data@, self.data@.len() as int);
                        if vacant {
                            assert(occupied(self.data@, self.data@.len() as int) =~= occupied(
                                d,
                                d.len() as int,
                            ).insert(index as u32));
                        } else {
                            assert(occupied(self.data@, self.data@.len() as int) =~= occupied(
                                d,
                                d.len() as int,
                            ));
                        }
                    }
                    if vacant {
                        self.len = self.len + 1;
                    }
                    true
                } else {
                    false
                }
            },
            None => {
                if index < self.data.len() && self.data[index].is_some() {
                    let ghost d = self.data@;
                    proof {
                        lemma_occupied_bounded(d, d.len() as int);
                    }
                    self.data.set(index, None);
                    proof {
                        assert(occupied(self.data@, self.data@.len() as int) =~= occupied(
                            d,
                            d.len() as int,
                        ).remove(index as u32));
                        assert(occupied(d, d.len() as int).contains(index as u32));
                    }
                    self.len = self.len - 1;
                    true
                } else {
                    false
                }
            },
        }
    }
}

/// A one-value index under construction: a base and the log of changes to it.
pub struct OneIndexBuilder<V> {
    base: OneIndex<V>,
    log: OneIndexLog<V>,
}

impl<V: PartialEq> OneIndexBuilder<V> {
    /// The committed part.
    pub closed spec fn base(&self) -> OneIndex<V> {
        self.base
    }

    /// The staged part.
    pub closed spec fn log(&self) -> OneIndexLog<V> {
        self.log
    }

    /// A builder for an index without any entry.
    pub fn new() -> (b: Self)
        ensures
            b.base().wf(),
            b.base()@ == Map::<u32, V>::empty(),
            b.log().staged() == Map::<u32, Option<V>>::empty(),
    {
        OneIndexBuilder { base: OneIndex::new(), log: OneIndexLog::new() }
    }

    /// Stages `value` under `key`.
    pub fn insert(&mut self, key: u32, value: V)
        ensures
            final(self).base() == old(self).base(),
            final(self).log().staged() == old(self).log().staged().insert(key, Some(value))
                || final(self).log().staged() == old(self).log().staged(),
            V::obeys_eq_spec() ==> final(self).log().staged() == if old(
                self,
            ).log().staged().contains_key(key) || !same_value(
                slot_of(old(self).base()@, key),
                Some(value),
            ) {
                old(self).log().staged().insert(key, Some(value))
            } else {
                old(self).log().staged()
            },
    {
        self.log.insert(&self.base, key, value);
    }

    /// Folds the staged changes into the base and hands the base out.
    pub fn build(self) -> (idx: OneIndex<V>)
        requires
            self.base().wf(),
        ensures
            idx.wf(),
            V::obeys_eq_spec() ==> forall|k: u32|
                slot_of(idx@, k) == if self.log().staged().contains_key(k) {
                    folded(slot_of(self.base()@, k), #[trigger] self.log().staged()[k])
                } else {
                    slot_of(self.base()@, k)
                },
    {
        let OneIndexBuilder { base, log } = self;
        let mut base = base;
        let _ = base.apply(log);
        base
    }
}

/// A read-only view of a base with a log laid over it.
pub struct OneIndexTrx<'a, V> {
    base: &'a OneIndex<V>,
    log: &'a OneIndexLog<V>,
}

impl<'a, V> OneIndexTrx<'a, V> {
    /// What the view shows.
    pub closed spec fn view(&self) -> Map<u32, V> {
        self.log.view(self.base)
    }

    /// The view of `log` laid over `base`.
    pub fn new(base: &'a OneIndex<V>, log: &'a OneIndexLog<V>) -> (trx: Self)
        ensures
            trx.view() == log.view(base),
    {
        OneIndexTrx { base, log }
    }

    /// The value under `key`.
    pub fn get(&self, key: u32) -> (v: Option<&V>)
        ensures
            match v {
                Some(v) => self.view().contains_key(key) && self.view()[key] == *v,
                None => !self.view().contains_key(key),
            },
    {
        self.log.get(self.base, key)
    }
}

impl<V> Default for OneIndex<V> {
    fn default() -> (idx: Self)
        ensures
            idx.wf(),
            idx@ == Map::<u32, V>::empty(),
    {
        OneIndex::new()
    }
}

} // verus!
