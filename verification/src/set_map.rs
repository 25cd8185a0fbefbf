//! Maps from a `u32` key to a set, read as total functions: a key without an
//! entry stands for the empty set.
//!
//! A log map laid over a base map shadows the base entry by entry. Folding the
//! log into the base makes the base answer as the overlay did.
use crate::int_set::IntSet;
use std::collections::HashMap;
use vstd::prelude::*;
use vstd::std_specs::hash::spec_keys_iter;
use vstd::std_specs::iter::IteratorSpec;

verus! {

/// The set stored under `k`; empty where there is no entry.
pub open spec fn set_at(m: Map<u32, IntSet>, k: u32) -> Set<u32> {
    if m.contains_key(k) {
        m[k]@
    } else {
        Set::empty()
    }
}

/// The set that a log laid over a base shows under `k`.
pub open spec fn overlay_at(base: Map<u32, IntSet>, log: Map<u32, IntSet>, k: u32) -> Set<u32> {
    if log.contains_key(k) {
        log[k]@
    } else {
        set_at(base, k)
    }
}

/// The total function that a map of sets stands for.
pub open spec fn sets_of(m: Map<u32, IntSet>) -> Map<u32, Set<u32>> {
    Map::new(|k: u32| true, |k: u32| set_at(m, k))
}

/// The total function that a log laid over a base stands for.
pub open spec fn overlay_of(base: Map<u32, IntSet>, log: Map<u32, IntSet>) -> Map<u32, Set<u32>> {
    Map::new(|k: u32| true, |k: u32| overlay_at(base, log, k))
}

/// No entry holds the empty set, so that equal functions have equal entries.
pub open spec fn no_empty_sets(m: Map<u32, IntSet>) -> bool {
    forall|k: u32| m.contains_key(k) ==> #[trigger] m[k]@ != Set::<u32>::empty()
}

/// `HashMap::shrink_to_fit` gives memory back; the entries stay as they are.
#[verifier::external_body]
pub(crate) fn shrink_map<V>(m: &mut HashMap<u32, V>)
    ensures
        final(m)@ == old(m)@,
{
    m.shrink_to_fit();
}

/// The keys of a map, each once, in the order in which the map yields them.
pub fn map_keys<V>(m: &HashMap<u32, V>) -> (keys: Vec<u32>)
    ensures
        keys@.no_duplicates(),
        forall|k: u32| keys@.contains(k) <==> m@.contains_key(k),
{
    let mut keys: Vec<u32> = Vec::new();
    for k in it: m.keys()
        invariant
            keys@.len() == it.index(),
            it.seq() == spec_keys_iter(m).remaining(),
            forall|i: int| 0 <= i < keys@.len() ==> keys@[i] == *it.seq()[i],
    {
        keys.push(*k);
    }
    proof {
        let r = spec_keys_iter(m).remaining();
        assert(keys@ =~= r.unref());
        assert forall|k: u32| keys@.contains(k) <==> m@.contains_key(k) by {
            assert(keys@.to_set().contains(k) <==> m@.dom().contains(k));
        }
    }
    keys
}

/// A shared reference to the set under `k`, or to `empty` where there is none.
pub fn set_ref<'a>(m: &'a HashMap<u32, IntSet>, empty: &'a IntSet, k: u32) -> (s: &'a IntSet)
    requires
        empty@ == Set::<u32>::empty(),
    ensures
        s@ == set_at(m@, k),
{
    match m.get(&k) {
        Some(s) => s,
        None => empty,
    }
}

/// A shared reference to the set that the overlay shows under `k`.
pub fn overlay_ref<'a>(
    base: &'a HashMap<u32, IntSet>,
    log: &'a HashMap<u32, IntSet>,
    empty: &'a IntSet,
    k: u32,
) -> (s: &'a IntSet)
    requires
        empty@ == Set::<u32>::empty(),
    ensures
        s@ == overlay_at(base@, log@, k),
{
    match log.get(&k) {
        Some(s) => s,
        None => set_ref(base, empty, k),
    }
}

/// Moves the overlay's set under `k` out of the log, copying it from the base
/// on first touch. The caller puts the changed set back with `insert`.
pub fn take_set(base: &HashMap<u32, IntSet>, log: &mut HashMap<u32, IntSet>, k: u32) -> (s: IntSet)
    ensures
        s@ == overlay_at(base@, old(log)@, k),
        final(log)@ == old(log)@.remove(k),
{
    match log.remove(&k) {
        Some(s) => s,
        None => match base.get(&k) {
            Some(b) => b.clone(),
            None => IntSet::new(),
        },
    }
}

/// Puts `new` under `k` in the log and hands back the set that the overlay
/// showed there before.
pub fn replace_set(
    base: &HashMap<u32, IntSet>,
    log: &mut HashMap<u32, IntSet>,
    k: u32,
    new: IntSet,
) -> (s: IntSet)
    ensures
        s@ == overlay_at(base@, old(log)@, k),
        final(log)@ == old(log)@.insert(k, new),
{
    match log.insert(k, new) {
        Some(s) => s,
        None => match base.get(&k) {
            Some(b) => b.clone(),
            None => IntSet::new(),
        },
    }
}

/// Folds `source` into `target`: an empty set removes the entry, a set that
/// differs replaces it, an equal set is left alone. Returns whether any entry
/// of `target` changed.
pub fn apply_sets(target: &mut HashMap<u32, IntSet>, source: HashMap<u32, IntSet>) -> (changed: bool)
    requires
        no_empty_sets(old(target)@),
    ensures
        no_empty_sets(final(target)@),
        sets_of(final(target)@) == overlay_of(old(target)@, source@),
        changed == (sets_of(final(target)@) != sets_of(old(target)@)),
{
    let keys = map_keys(&source);
    let ghost src = source@;
    let ghost before = target@;
    let mut source = source;
    let mut changed = false;
    let mut i: usize = 0;
    while i < keys.len()
        invariant
            i <= keys.len(),
            keys@.no_duplicates(),
            forall|k: u32| keys@.contains(k) <==> src.contains_key(k),
            forall|k: u32| #[trigger]
                source@.contains_key(k) <==> (src.contains_key(k) && !keys@.take(i as int).contains(k)),
            forall|k: u32| source@.contains_key(k) ==> #[trigger] source@[k] == src[k],
            no_empty_sets(target@),
            forall|k: u32|
                #[trigger] set_at(target@, k) == if keys@.take(i as int).contains(k) {
                    src[k]@
                } else {
                    set_at(before, k)
                },
            changed == exists|j: int|
                0 <= j < i && #[trigger] src[keys@[j]]@ != set_at(before, keys@[j]),
        decreases keys.len() - i,
    {
        let k = keys[i];
        proof {
            assert(keys@.contains(k));
            assert(!keys@.take(i as int).contains(k)) by {
                if keys@.take(i as int).contains(k) {
                    let j = keys@.take(i as int).index_of(k);
                    assert(keys@[j] == k && keys@[i as int] == k);
                }
            }
            assert(source@.contains_key(k));
            assert(keys@.take(i + 1) =~= keys@.take(i as int).push(k));
            assert forall|x: u32| keys@.take(i + 1).contains(x) <==> (keys@.take(i as int).contains(x)
                || x == k) by {
                vstd::seq_lib::lemma_seq_contains_after_push(keys@.take(i as int), k, x);
            }
        }
        let ghost prev = target@;
        let ghost was = changed;
        let taken = source.remove(&k);
        assert(taken is Some);
        let b = taken.unwrap();
        assert(b == src[k]);
        let differs = match target.get(&k) {
            Some(cur) => Some(!(b == *cur)),
            None => None,
        };
        assert(set_at(prev, k) == set_at(before, k));
        match differs {
            Some(d) => {
                if b.is_empty() {
                    target.remove(&k);
                    changed = true;
                } else if d {
                    target.insert(k, b);
                    changed = true;
                }
            },
            None => {
                if !b.is_empty() {
                    target.insert(k, b);
                    changed = true;
                }
            },
        }
        proof {
            assert(set_at(target@, k) == src[k]@);
            assert forall|x: u32|
                #[trigger] set_at(target@, x) == if keys@.take(i + 1).contains(x) {
                    src[x]@
                } else {
                    set_at(before, x)
                } by {
                if x != k {
                    assert(set_at(target@, x) == set_at(prev, x));
                }
            }
            let hit = src[keys@[i as int]]@ != set_at(before, keys@[i as int]);
            assert(changed == (was || hit));
        }
        i = i + 1;
    }
    if changed {
        shrink_map(target);
    }
    proof {
        assert(keys@.take(keys@.len() as int) =~= keys@);
        assert(sets_of(target@) =~= overlay_of(before, src));
        if changed {
            let j = choose|j: int|
                0 <= j < keys@.len() && #[trigger] src[keys@[j]]@ != set_at(before, keys@[j]);
            let k = keys@[j];
            assert(keys@.contains(k));
            assert(sets_of(target@)[k] != sets_of(before)[k]);
        } else {
            assert forall|k: u32| set_at(target@, k) == set_at(before, k) by {
                if keys@.contains(k) {
                    let j = keys@.index_of(k);
                    assert(!(src[keys@[j]]@ != set_at(before, keys@[j])));
                }
            }
            assert(sets_of(target@) =~= sets_of(before));
        }
    }
    changed
}

} // verus!
