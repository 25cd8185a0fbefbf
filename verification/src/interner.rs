//! The interner: a pool that keeps one payload per distinct set value and
//! counts the handles that refer to it.
//!
//! The pool is an ordinary value. A program that wants one pool for all its
//! threads keeps it behind a lock of its own.
use crate::int_set::{strictly_increasing, IntSet};
use std::collections::HashMap;
use vstd::prelude::*;

verus! {

/// The 64-bit Fx hash of one `u32`, as `fxhash::hash64` computes it.
pub uninterp spec fn fx_hash_u32(v: u32) -> u64;

/// `fxhash::hash64` on a `u32`: a hash that depends on the value alone.
#[verifier::external_body]
fn hash_single(v: u32) -> (h: u64)
    ensures
        h == fx_hash_u32(v),
{
    fxhash::hash64(&v)
}

/// The hashes of the elements of `s`, folded together with exclusive or.
pub open spec fn xor_fold(s: Seq<u32>) -> u64
    decreases s.len(),
{
    if s.len() == 0 {
        0
    } else {
        xor_fold(s.drop_last()) ^ fx_hash_u32(s.last())
    }
}

/// The members of `s` in ascending order.
pub open spec fn ascending(s: Set<u32>) -> Seq<u32> {
    choose|q: Seq<u32>| strictly_increasing(q) && q.to_set() == s
}

/// The hash of a set: the hashes of its members folded together. Equal sets
/// have equal hashes.
pub open spec fn set_hash(s: Set<u32>) -> u64 {
    xor_fold(ascending(s))
}

/// Two ascending sequences with the same members are the same sequence.
proof fn lemma_ascending_unique(a: Seq<u32>, b: Seq<u32>)
    requires
        strictly_increasing(a),
        strictly_increasing(b),
        a.to_set() == b.to_set(),
    ensures
        a == b,
    decreases a.len(),
{
    if a.len() == 0 {
        if b.len() > 0 {
            assert(b.to_set().contains(b[0]));
            assert(a.to_set().contains(b[0]));
        }
        assert(a =~= b);
    } else {
        assert(a.to_set().contains(a.last()));
        assert(b.to_set().contains(a.last()));
        assert(b.len() > 0);
        assert(b.to_set().contains(b.last()));
        assert(a.to_set().contains(b.last()));
        // both last elements are the greatest member
        let ia = a.index_of(b.last());
        let ib = b.index_of(a.last());
        assert(a[ia] <= a.last()) by {
            if ia < a.len() - 1 {
                assert(a[ia] < a[a.len() - 1]);
            }
        }
        assert(b[ib] <= b.last()) by {
            if ib < b.len() - 1 {
                assert(b[ib] < b[b.len() - 1]);
            }
        }
        assert(a.last() == b.last());
        let a0 = a.drop_last();
        let b0 = b.drop_last();
        assert(strictly_increasing(a0));
        assert(strictly_increasing(b0));
        assert forall|x: u32| a0.to_set().contains(x) <==> b0.to_set().contains(x) by {
            if a0.contains(x) {
                let i = a0.index_of(x);
                assert(a[i] == x && a[i] < a[a.len() - 1]);
                assert(b.to_set().contains(x));
                let j = b.index_of(x);
                assert(j < b.len() - 1);
                assert(b0[j] == x);
            }
            if b0.contains(x) {
                let i = b0.index_of(x);
                assert(b[i] == x && b[i] < b[b.len() - 1]);
                assert(a.to_set().contains(x));
                let j = a.index_of(x);
                assert(j < a.len() - 1);
                assert(a0[j] == x);
            }
        }
        assert(a0.to_set() =~= b0.to_set());
        lemma_ascending_unique(a0, b0);
        assert(a =~= a0.push(a.last()));
        assert(b =~= b0.push(b.last()));
    }
}

/// The hash of a set, computed from its members in ascending order.
pub fn hash_bitmap(set: &IntSet) -> (h: u64)
    ensures
        h == set_hash(set@),
{
    let items = set.to_vec();
    let mut h: u64 = 0;
    let mut i: usize = 0;
    while i < items.len()
        invariant
            i <= items.len(),
            h == xor_fold(items@.take(i as int)),
        decreases items.len() - i,
    {
        let one = hash_single(items[i]);
        proof {
            assert(items@.take(i + 1).drop_last() =~= items@.take(i as int));
            assert(items@.take(i + 1).last() == items@[i as int]);
        }
        h = h ^ one;
        i = i + 1;
    }
    proof {
        assert(items@.take(items@.len() as int) =~= items@);
        lemma_ascending_unique(items@, ascending(set@));
    }
    h
}

/// The payloads that share one hash, each in a slot of its own, with the
/// number of handles that refer to it.
struct Bucket {
    sets: Vec<Option<IntSet>>,
    counts: Vec<u32>,
}

/// A handle to an interned set. It names the payload by the place where the
/// pool keeps it: two handles to the same payload are equal.
#[derive(Debug, PartialEq, Eq, Hash, Structural)]
pub struct IRoaringBitmap {
    hash: u64,
    slot: usize,
}

/// The pool of interned sets.
pub struct Interner {
    table: HashMap<u64, Bucket>,
}

/// Slot `i` of the bucket for `hash` holds a payload.
spec fn live(t: Map<u64, Bucket>, hash: u64, i: int) -> bool {
    &&& t.contains_key(hash)
    &&& 0 <= i < t[hash].sets@.len()
    &&& t[hash].sets@[i] is Some
}

/// Slot `i` of the bucket for the hash of `v` holds `v`.
spec fn finds(t: Map<u64, Bucket>, v: Set<u32>, i: int) -> bool {
    live(t, set_hash(v), i) && t[set_hash(v)].sets@[i]->0@ == v
}

/// The table is in order: every payload lies under its own hash with a
/// positive count, and no value is kept twice.
spec fn table_wf(t: Map<u64, Bucket>) -> bool {
    &&& forall|h: u64| #[trigger] t.contains_key(h) ==> t[h].sets@.len() == t[h].counts@.len()
    &&& forall|h: u64, i: int| #[trigger]
        live(t, h, i) ==> set_hash(t[h].sets@[i]->0@) == h && t[h].counts@[i] >= 1
    &&& forall|h: u64, i: int, j: int|
        #![trigger live(t, h, i), live(t, h, j)]
        live(t, h, i) && live(t, h, j) && t[h].sets@[i]->0@ == t[h].sets@[j]->0@ ==> i == j
}

/// The number of handles that refer to `v`; zero when `v` is not kept.
spec fn table_refs(t: Map<u64, Bucket>, v: Set<u32>) -> nat {
    if exists|i: int| finds(t, v, i) {
        let i = choose|i: int| finds(t, v, i);
        t[set_hash(v)].counts@[i] as nat
    } else {
        0
    }
}

/// In a table that is in order, the slot that holds `v` tells its count.
proof fn lemma_refs_at(t: Map<u64, Bucket>, v: Set<u32>, i: int)
    requires
        table_wf(t),
        finds(t, v, i),
    ensures
        table_refs(t, v) == t[set_hash(v)].counts@[i],
        table_refs(t, v) >= 1,
{
    let j = choose|j: int| finds(t, v, j);
    assert(live(t, set_hash(v), i) && live(t, set_hash(v), j));
}

impl IRoaringBitmap {
    /// The hash of the payload.
    pub closed spec fn hash(&self) -> u64 {
        self.hash
    }

    /// The slot of the payload among those with the same hash.
    pub closed spec fn slot(&self) -> usize {
        self.slot
    }

    /// The place of the payload in its pool: the hash and the slot.
    pub fn key(&self) -> (k: (u64, usize))
        ensures
            k == (self.hash(), self.slot()),
    {
        (self.hash, self.slot)
    }

    /// A handle to the payload equal to `b` in `pool`.
    pub fn new(pool: &mut Interner, b: IntSet) -> (handle: Self)
        requires
            old(pool).wf(),
            old(pool).refs(b@) < u32::MAX,
        ensures
            final(pool).wf(),
            final(pool).holds(&handle),
            final(pool).value(&handle) == b@,
            forall|w: Set<u32>| #[trigger]
                final(pool).refs(w) == step_refs(old(pool).refs(w), PoolOp::Intern(b@), w),
            forall|g: &IRoaringBitmap|
                #![trigger final(pool).holds(g)]
                #![trigger final(pool).value(g)]
                old(pool).holds(g) ==> final(pool).holds(g) && final(pool).value(g) == old(
                    pool,
                ).value(g),
    {
        pool.intern(b)
    }

    /// The set that the handle refers to.
    pub fn as_bitmap<'a>(&self, pool: &'a Interner) -> (s: &'a IntSet)
        requires
            pool.holds(self),
        ensures
            s@ == pool.value(self),
    {
        let found = pool.get(self);
        found.unwrap()
    }

    /// A copy of the set that the handle refers to.
    pub fn to_bitmap(&self, pool: &Interner) -> (s: IntSet)
        requires
            pool.holds(self),
        ensures
            s@ == pool.value(self),
    {
        self.as_bitmap(pool).clone()
    }
}

impl Interner {
    /// Every payload lies under its own hash with a positive count, and no
    /// value is kept twice.
    pub closed spec fn wf(&self) -> bool {
        table_wf(self.table@)
    }

    /// The number of handles that refer to the value `v`; zero when the pool
    /// does not keep `v`.
    pub closed spec fn refs(&self, v: Set<u32>) -> nat {
        table_refs(self.table@, v)
    }

    /// Whether the pool keeps a payload for the value `v`.
    pub open spec fn contains(&self, v: Set<u32>) -> bool {
        self.refs(v) > 0
    }

    /// Whether `h` refers to a payload that the pool keeps.
    pub closed spec fn holds(&self, h: &IRoaringBitmap) -> bool {
        live(self.table@, h.hash, h.slot as int)
    }

    /// The value of the payload that `h` refers to.
    pub closed spec fn value(&self, h: &IRoaringBitmap) -> Set<u32> {
        self.table@[h.hash].sets@[h.slot as int]->0@
    }

    /// The pool without any payload.
    pub fn new() -> (pool: Self)
        ensures
            pool.wf(),
            forall|v: Set<u32>| pool.refs(v) == 0,
            forall|h: &IRoaringBitmap| !pool.holds(h),
    {
        Interner { table: HashMap::new() }
    }

    /// The set that `h` refers to.
    pub fn get(&self, h: &IRoaringBitmap) -> (s: Option<&IntSet>)
        ensures
            match s {
                Some(s) => self.holds(h) && s@ == self.value(h),
                None => !self.holds(h),
            },
    {
        match self.table.get(&h.hash) {
            Some(bucket) => {
                if h.slot < bucket.sets.len() {
                    bucket.sets[h.slot].as_ref()
                } else {
                    None
                }
            },
            None => None,
        }
    }

    /// The number of handles that refer to the payload of `h`.
    pub fn refcount(&self, h: &IRoaringBitmap) -> (n: u32)
        requires
            self.wf(),
        ensures
            self.holds(h) ==> n == self.refs(self.value(h)) && n >= 1,
            !self.holds(h) ==> n == 0,
    {
        match self.table.get(&h.hash) {
            Some(bucket) => {
                if h.slot < bucket.sets.len() && bucket.sets[h.slot].is_some() {
                    proof {
                        assert(live(self.table@, h.hash, h.slot as int));
                        lemma_refs_at(self.table@, self.value(h), h.slot as int);
                    }
                    bucket.counts[h.slot]
                } else {
                    0
                }
            },
            None => 0,
        }
    }

    /// The number of handles that refer to a payload equal to `value`.
    pub fn count_of(&self, value: &IntSet) -> (n: u32)
        requires
            self.wf(),
        ensures
            n == self.refs(value@),
    {
        let hash = hash_bitmap(value);
        self.count_of_hashed(hash, value)
    }

    /// The number of handles that refer to a payload equal to `value`, whose
    /// hash the caller has computed already.
    pub fn count_of_hashed(&self, hash: u64, value: &IntSet) -> (n: u32)
        requires
            self.wf(),
            hash == set_hash(value@),
        ensures
            n == self.refs(value@),
    {
        match self.table.get(&hash) {
            Some(bucket) => {
                match find_in(bucket, value) {
                    Some(i) => {
                        proof {
                            assert(finds(self.table@, value@, i as int));
                            lemma_refs_at(self.table@, value@, i as int);
                        }
                        bucket.counts[i]
                    },
                    None => 0,
                }
            },
            None => 0,
        }
    }
}

/// The sets and counts of the bucket for `hash`; nothing where there is none.
spec fn sets_at(t: Map<u64, Bucket>, hash: u64) -> Seq<Option<IntSet>> {
    if t.contains_key(hash) {
        t[hash].sets@
    } else {
        Seq::empty()
    }
}

spec fn counts_at(t: Map<u64, Bucket>, hash: u64) -> Seq<u32> {
    if t.contains_key(hash) {
        t[hash].counts@
    } else {
        Seq::empty()
    }
}

/// Changing the count of one payload changes the count of its value and
/// nothing else.
proof fn lemma_count_changed(t0: Map<u64, Bucket>, t1: Map<u64, Bucket>, hash: u64, i: int, c: u32)
    requires
        table_wf(t0),
        live(t0, hash, i),
        c >= 1,
        t1.dom() == t0.dom(),
        forall|h: u64| h != hash && t0.contains_key(h) ==> #[trigger] t1[h] == t0[h],
        t1[hash].sets@ == t0[hash].sets@,
        t1[hash].counts@ == t0[hash].counts@.update(i, c),
    ensures
        table_wf(t1),
        forall|h: u64, j: int| #[trigger] live(t1, h, j) == live(t0, h, j),
        forall|h: u64, j: int| live(t0, h, j) ==> #[trigger] t1[h].sets@[j] == t0[h].sets@[j],
        forall|w: Set<u32>| #[trigger]
            table_refs(t1, w) == if w == t0[hash].sets@[i]->0@ {
                c as nat
            } else {
                table_refs(t0, w)
            },
{
    let v = t0[hash].sets@[i]->0@;
    assert forall|h: u64, j: int| #[trigger] live(t1, h, j) == live(t0, h, j) by {
        if h != hash && t0.contains_key(h) {
            assert(t1[h] == t0[h]);
        }
    }
    assert forall|h: u64, j: int| live(t0, h, j) implies #[trigger] t1[h].sets@[j] == t0[h].sets@[j] by {
        if h != hash {
            assert(t1[h] == t0[h]);
        }
    }
    assert(table_wf(t1)) by {
        assert forall|h: u64| #[trigger] t1.contains_key(h) implies t1[h].sets@.len()
            == t1[h].counts@.len() by {
            if h != hash {
                assert(t1[h] == t0[h]);
            }
        }
        assert forall|h: u64, j: int| #[trigger] live(t1, h, j) implies set_hash(
            t1[h].sets@[j]->0@,
        ) == h && t1[h].counts@[j] >= 1 by {
            assert(live(t0, h, j));
            if h != hash {
                assert(t1[h] == t0[h]);
            }
        }
        assert forall|h: u64, a: int, b: int|
            #![trigger live(t1, h, a), live(t1, h, b)]
            live(t1, h, a) && live(t1, h, b) && t1[h].sets@[a]->0@ == t1[h].sets@[b]->0@ implies a
            == b by {
            assert(live(t0, h, a) && live(t0, h, b));
        }
    }
    assert forall|w: Set<u32>| #[trigger]
        table_refs(t1, w) == if w == v {
            c as nat
        } else {
            table_refs(t0, w)
        } by {
        assert forall|j: int| finds(t1, w, j) == finds(t0, w, j) by {
            assert(live(t1, set_hash(w), j) == live(t0, set_hash(w), j));
        }
        if exists|j: int| finds(t0, w, j) {
            let j = choose|j: int| finds(t0, w, j);
            assert(finds(t1, w, j));
            lemma_refs_at(t0, w, j);
            lemma_refs_at(t1, w, j);
            if w == v {
                assert(finds(t0, v, i));
                assert(live(t0, hash, j) && live(t0, hash, i));
            } else if set_hash(w) == hash {
                assert(j != i);
            } else {
                assert(t1[set_hash(w)] == t0[set_hash(w)]);
            }
        } else {
            assert(!(w == v)) by {
                if w == v {
                    assert(finds(t0, v, i));
                }
            }
        }
    }
}

/// Emptying the slot of one payload takes its value out of the pool and
/// leaves every other value as it was.
proof fn lemma_slot_vacated(t0: Map<u64, Bucket>, t1: Map<u64, Bucket>, hash: u64, i: int)
    requires
        table_wf(t0),
        live(t0, hash, i),
        t1.dom() == t0.dom(),
        forall|h: u64| h != hash && t0.contains_key(h) ==> #[trigger] t1[h] == t0[h],
        t1[hash].sets@ == t0[hash].sets@.update(i, None),
        t1[hash].counts@ == t0[hash].counts@,
    ensures
        table_wf(t1),
        forall|h: u64, j: int| #[trigger] live(t1, h, j) == (live(t0, h, j) && !(h == hash && j == i)),
        forall|h: u64, j: int| live(t1, h, j) ==> #[trigger] t1[h].sets@[j] == t0[h].sets@[j],
        forall|w: Set<u32>| #[trigger]
            table_refs(t1, w) == if w == t0[hash].sets@[i]->0@ {
                0nat
            } else {
                table_refs(t0, w)
            },
{
    let v = t0[hash].sets@[i]->0@;
    assert forall|h: u64, j: int| #[trigger]
        live(t1, h, j) == (live(t0, h, j) && !(h == hash && j == i)) by {
        if h != hash && t0.contains_key(h) {
            assert(t1[h] == t0[h]);
        }
    }
    assert forall|h: u64, j: int| live(t1, h, j) implies #[trigger] t1[h].sets@[j] == t0[h].sets@[j] by {
        if h != hash {
            assert(t1[h] == t0[h]);
        }
    }
    assert(table_wf(t1)) by {
        assert forall|h: u64| #[trigger] t1.contains_key(h) implies t1[h].sets@.len()
            == t1[h].counts@.len() by {
            if h != hash {
                assert(t1[h] == t0[h]);
            }
        }
        assert forall|h: u64, j: int| #[trigger] live(t1, h, j) implies set_hash(
            t1[h].sets@[j]->0@,
        ) == h && t1[h].counts@[j] >= 1 by {
            assert(live(t0, h, j));
            if h != hash {
                assert(t1[h] == t0[h]);
            }
        }
        assert forall|h: u64, a: int, b: int|
            #![trigger live(t1, h, a), live(t1, h, b)]
            live(t1, h, a) && live(t1, h, b) && t1[h].sets@[a]->0@ == t1[h].sets@[b]->0@ implies a
            == b by {
            assert(live(t0, h, a) && live(t0, h, b));
        }
    }
    assert forall|w: Set<u32>| #[trigger]
        table_refs(t1, w) == if w == v {
            0nat
        } else {
            table_refs(t0, w)
        } by {
        if w == v {
            assert forall|j: int| !finds(t1, w, j) by {
                if finds(t1, w, j) {
                    assert(live(t1, hash, j));
                    assert(live(t0, hash, j) && live(t0, hash, i));
                }
            }
        } else {
            assert forall|j: int| finds(t1, w, j) == finds(t0, w, j) by {
                assert(live(t1, set_hash(w), j) == (live(t0, set_hash(w), j) && !(set_hash(w) == hash
                    && j == i)));
                if set_hash(w) != hash && t0.contains_key(set_hash(w)) {
                    assert(t1[set_hash(w)] == t0[set_hash(w)]);
                }
            }
            if exists|j: int| finds(t0, w, j) {
                let j = choose|j: int| finds(t0, w, j);
                assert(finds(t1, w, j));
                lemma_refs_at(t0, w, j);
                lemma_refs_at(t1, w, j);
                if set_hash(w) != hash {
                    assert(t1[set_hash(w)] == t0[set_hash(w)]);
                }
            }
        }
    }
}

/// Putting a value that the pool does not keep into a slot that holds
/// nothing, or into a new slot, adds the value with one handle and leaves
/// every other value as it was.
proof fn lemma_slot_filled(t0: Map<u64, Bucket>, t1: Map<u64, Bucket>, hash: u64, i: int, x: IntSet)
    requires
        table_wf(t0),
        set_hash(x@) == hash,
        forall|j: int| !finds(t0, x@, j),
        t1.dom() == t0.dom().insert(hash),
        forall|h: u64| h != hash && t0.contains_key(h) ==> #[trigger] t1[h] == t0[h],
        0 <= i <= sets_at(t0, hash).len(),
        sets_at(t0, hash).len() == counts_at(t0, hash).len(),
        i < sets_at(t0, hash).len() ==> {
            &&& sets_at(t0, hash)[i] is None
            &&& t1[hash].sets@ == sets_at(t0, hash).update(i, Some(x))
            &&& t1[hash].counts@ == counts_at(t0, hash).update(i, 1u32)
        },
        i == sets_at(t0, hash).len() ==> {
            &&& t1[hash].sets@ == sets_at(t0, hash).push(Some(x))
            &&& t1[hash].counts@ == counts_at(t0, hash).push(1u32)
        },
    ensures
        table_wf(t1),
        live(t1, hash, i),
        t1[hash].sets@[i]->0@ == x@,
        forall|h: u64, j: int| #[trigger] live(t1, h, j) == (live(t0, h, j) || (h == hash && j == i)),
        forall|h: u64, j: int| live(t0, h, j) ==> #[trigger] t1[h].sets@[j] == t0[h].sets@[j],
        forall|w: Set<u32>| #[trigger]
            table_refs(t1, w) == if w == x@ {
                1nat
            } else {
                table_refs(t0, w)
            },
{
    assert(t1.contains_key(hash));
    assert forall|h: u64, j: int| #[trigger]
        live(t1, h, j) == (live(t0, h, j) || (h == hash && j == i)) by {
        if h != hash && t0.contains_key(h) {
            assert(t1[h] == t0[h]);
        }
    }
    assert forall|h: u64, j: int| live(t0, h, j) implies #[trigger] t1[h].sets@[j] == t0[h].sets@[j] by {
        if h != hash {
            assert(t1[h] == t0[h]);
        }
    }
    assert(table_wf(t1)) by {
        assert forall|h: u64| #[trigger] t1.contains_key(h) implies t1[h].sets@.len()
            == t1[h].counts@.len() by {
            if h != hash {
                assert(t0.contains_key(h));
                assert(t1[h] == t0[h]);
            }
        }
        assert forall|h: u64, j: int| #[trigger] live(t1, h, j) implies set_hash(
            t1[h].sets@[j]->0@,
        ) == h && t1[h].counts@[j] >= 1 by {
            if !(h == hash && j == i) {
                assert(live(t0, h, j));
                if h != hash {
                    assert(t1[h] == t0[h]);
                }
            }
        }
        assert forall|h: u64, a: int, b: int|
            #![trigger live(t1, h, a), live(t1, h, b)]
            live(t1, h, a) && live(t1, h, b) && t1[h].sets@[a]->0@ == t1[h].sets@[b]->0@ implies a
            == b by {
            if h == hash && a == i && b != i {
                assert(live(t0, h, b));
                assert(finds(t0, x@, b));
            } else if h == hash && b == i && a != i {
                assert(live(t0, h, a));
                assert(finds(t0, x@, a));
            } else if a != b {
                assert(live(t0, h, a) && live(t0, h, b));
            }
        }
    }
    assert forall|w: Set<u32>| #[trigger]
        table_refs(t1, w) == if w == x@ {
            1nat
        } else {
            table_refs(t0, w)
        } by {
        if w == x@ {
            assert(finds(t1, w, i));
            lemma_refs_at(t1, w, i);
        } else {
            assert forall|j: int| finds(t1, w, j) == finds(t0, w, j) by {
                assert(live(t1, set_hash(w), j) == (live(t0, set_hash(w), j) || (set_hash(w) == hash
                    && j == i)));
                if set_hash(w) != hash && t0.contains_key(set_hash(w)) {
                    assert(t1[set_hash(w)] == t0[set_hash(w)]);
                }
            }
            if exists|j: int| finds(t0, w, j) {
                let j = choose|j: int| finds(t0, w, j);
                assert(finds(t1, w, j));
                lemma_refs_at(t0, w, j);
                lemma_refs_at(t1, w, j);
                if set_hash(w) != hash {
                    assert(t1[set_hash(w)] == t0[set_hash(w)]);
                }
            }
        }
    }
}

impl Interner {
    /// Hands out a handle to the payload equal to `value`, making the payload
    /// if the pool does not keep one yet.
    pub fn intern(&mut self, value: IntSet) -> (handle: IRoaringBitmap)
        requires
            old(self).wf(),
            old(self).refs(value@) < u32::MAX,
        ensures
            final(self).wf(),
            final(self).holds(&handle),
            final(self).value(&handle) == value@,
            forall|w: Set<u32>| #[trigger]
                final(self).refs(w) == step_refs(old(self).refs(w), PoolOp::Intern(value@), w),
            forall|g: &IRoaringBitmap|
                #![trigger final(self).holds(g)]
                #![trigger final(self).value(g)]
                old(self).holds(g) ==> final(self).holds(g) && final(self).value(g) == old(
                    self,
                ).value(g),
    {
        let mut value = value;
        value.optimize();
        let hash = hash_bitmap(&value);
        self.intern_hashed(hash, value)
    }

    /// Hands out a handle to the payload equal to `value`, whose hash the
    /// caller has computed already: the work that remains takes no longer
    /// than comparing `value` with the few payloads of the same hash.
    pub fn intern_hashed(&mut self, hash: u64, value: IntSet) -> (handle: IRoaringBitmap)
        requires
            old(self).wf(),
            old(self).refs(value@) < u32::MAX,
            hash == set_hash(value@),
        ensures
            final(self).wf(),
            final(self).holds(&handle),
            final(self).value(&handle) == value@,
            forall|w: Set<u32>| #[trigger]
                final(self).refs(w) == step_refs(old(self).refs(w), PoolOp::Intern(value@), w),
            forall|g: &IRoaringBitmap|
                #![trigger final(self).holds(g)]
                #![trigger final(self).value(g)]
                old(self).holds(g) ==> final(self).holds(g) && final(self).value(g) == old(
                    self,
                ).value(g),
    {
        let ghost t0 = self.table@;
        let ghost v = value@;
        let mut bucket = match self.table.remove(&hash) {
            Some(b) => b,
            None => Bucket { sets: Vec::new(), counts: Vec::new() },
        };
        assert(bucket.sets@ == sets_at(t0, hash));
        assert(bucket.counts@ == counts_at(t0, hash));
        assert(bucket.sets@.len() == bucket.counts@.len());
        let found = find_in(&bucket, &value);
        let slot = match found {
            Some(i) => {
                proof {
                    assert(finds(t0, v, i as int));
                    lemma_refs_at(t0, v, i as int);
                }
                let c = bucket.counts[i];
                bucket.counts.set(i, c + 1);
                i
            },
            None => {
                match free_in(&bucket) {
                    Some(i) => {
                        bucket.sets.set(i, Some(value));
                        bucket.counts.set(i, 1);
                        i
                    },
                    None => {
                        bucket.sets.push(Some(value));
                        bucket.counts.push(1);
                        bucket.sets.len() - 1
                    },
                }
            },
        };
        let ghost b1 = bucket;
        self.table.insert(hash, bucket);
        proof {
            let t1 = self.table@;
            assert(t1.contains_key(hash) && t1[hash] == b1);
            assert(t1.dom() =~= t0.dom().insert(hash));
            match found {
                Some(i) => {
                    assert(t1.dom() =~= t0.dom());
                    lemma_count_changed(t0, t1, hash, i as int, (t0[hash].counts@[i as int] + 1) as u32);
                },
                None => {
                    assert forall|j: int| !finds(t0, v, j) by {
                        if finds(t0, v, j) {
                            assert(sets_at(t0, hash)[j] is Some);
                        }
                    }
                    lemma_slot_filled(t0, t1, hash, slot as int, value);
                    assert(table_refs(t0, v) == 0);
                },
            }
        }
        IRoaringBitmap { hash, slot }
    }

    /// Makes one more handle to the payload of `handle`. A handle that the
    /// pool does not know is copied and nothing is counted.
    pub fn clone_handle(&mut self, handle: &IRoaringBitmap) -> (copy: IRoaringBitmap)
        requires
            old(self).wf(),
            old(self).holds(handle) ==> old(self).refs(old(self).value(handle)) < u32::MAX,
        ensures
            copy == *handle,
            final(self).wf(),
            forall|g: &IRoaringBitmap| #[trigger] final(self).holds(g) == old(self).holds(g),
            forall|g: &IRoaringBitmap|
                old(self).holds(g) ==> #[trigger] final(self).value(g) == old(self).value(g),
            forall|w: Set<u32>| #[trigger]
                final(self).refs(w) == if old(self).holds(handle) {
                    step_refs(old(self).refs(w), PoolOp::Copy(old(self).value(handle)), w)
                } else {
                    old(self).refs(w)
                },
    {
        let ghost t0 = self.table@;
        let copy = IRoaringBitmap { hash: handle.hash, slot: handle.slot };
        let mut bucket = match self.table.remove(&handle.hash) {
            Some(b) => b,
            None => {
                assert(self.table@ =~= t0);
                return copy;
            },
        };
        let mut hit = false;
        if handle.slot < bucket.sets.len() && bucket.sets[handle.slot].is_some() {
            proof {
                assert(live(t0, handle.hash, handle.slot as int));
                lemma_refs_at(t0, t0[handle.hash].sets@[handle.slot as int]->0@, handle.slot as int);
            }
            let c = bucket.counts[handle.slot];
            bucket.counts.set(handle.slot, c + 1);
            hit = true;
        }
        let ghost b1 = bucket;
        self.table.insert(handle.hash, bucket);
        proof {
            let t1 = self.table@;
            assert(t1[handle.hash] == b1);
            assert(t1.dom() =~= t0.dom());
            if hit {
                lemma_count_changed(
                    t0,
                    t1,
                    handle.hash,
                    handle.slot as int,
                    (t0[handle.hash].counts@[handle.slot as int] + 1) as u32,
                );
            } else {
                assert(b1.sets@ == t0[handle.hash].sets@ && b1.counts@ == t0[handle.hash].counts@);
                lemma_same_table(t0, t1);
            }
        }
        copy
    }

    /// Gives a handle back. The payload goes when its last handle is given
    /// back. A handle that the pool does not know changes nothing.
    pub fn release(&mut self, handle: IRoaringBitmap)
        requires
            old(self).wf(),
        ensures
            final(self).wf(),
            forall|w: Set<u32>| #[trigger]
                final(self).refs(w) == if old(self).holds(&handle) {
                    step_refs(old(self).refs(w), PoolOp::Release(old(self).value(&handle)), w)
                } else {
                    old(self).refs(w)
                },
            forall|g: &IRoaringBitmap| #[trigger]
                final(self).holds(g) == (old(self).holds(g) && !(*g == handle && old(self).refs(
                    old(self).value(&handle),
                ) == 1)),
            forall|g: &IRoaringBitmap|
                final(self).holds(g) ==> #[trigger] final(self).value(g) == old(self).value(g),
    {
        let ghost t0 = self.table@;
        let mut bucket = match self.table.remove(&handle.hash) {
            Some(b) => b,
            None => {
                assert(self.table@ =~= t0);
                return ;
            },
        };
        let mut gone = false;
        let mut less = false;
        if handle.slot < bucket.sets.len() && bucket.sets[handle.slot].is_some() {
            proof {
                assert(live(t0, handle.hash, handle.slot as int));
                lemma_refs_at(t0, t0[handle.hash].sets@[handle.slot as int]->0@, handle.slot as int);
            }
            let c = bucket.counts[handle.slot];
            if c <= 1 {
                bucket.sets.set(handle.slot, None);
                gone = true;
            } else {
                bucket.counts.set(handle.slot, c - 1);
                less = true;
            }
        }
        let ghost b1 = bucket;
        self.table.insert(handle.hash, bucket);
        proof {
            let t1 = self.table@;
            assert(t1[handle.hash] == b1);
            assert(t1.dom() =~= t0.dom());
            if gone {
                lemma_slot_vacated(t0, t1, handle.hash, handle.slot as int);
            } else if less {
                lemma_count_changed(
                    t0,
                    t1,
                    handle.hash,
                    handle.slot as int,
                    (t0[handle.hash].counts@[handle.slot as int] - 1) as u32,
                );
            } else {
                assert(b1.sets@ == t0[handle.hash].sets@ && b1.counts@ == t0[handle.hash].counts@);
                lemma_same_table(t0, t1);
            }
        }
    }
}

impl Interner {
    /// Handles to equal values are one and the same handle: the pool keeps
    /// every value once, and all its handles refer to that one payload.
    pub proof fn lemma_equal_values_share_payload(&self, a: &IRoaringBitmap, b: &IRoaringBitmap)
        requires
            self.wf(),
            self.holds(a),
            self.holds(b),
            self.value(a) == self.value(b),
        ensures
            *a == *b,
    {
        let t = self.table@;
        assert(set_hash(self.value(a)) == a.hash);
        assert(set_hash(self.value(b)) == b.hash);
        assert(live(t, a.hash, a.slot as int) && live(t, a.hash, b.slot as int));
    }

    /// Every value that a handle refers to is counted at least once.
    pub proof fn lemma_held_values_are_counted(&self, h: &IRoaringBitmap)
        requires
            self.wf(),
            self.holds(h),
        ensures
            self.refs(self.value(h)) >= 1,
    {
        assert(finds(self.table@, self.value(h), h.slot as int));
        lemma_refs_at(self.table@, self.value(h), h.slot as int);
    }
}

/// One use of the pool: a handle to a value is made by interning the value,
/// made by copying a handle, or given back.
pub enum PoolOp {
    Intern(Set<u32>),
    Copy(Set<u32>),
    Release(Set<u32>),
}

/// The count of `v` after one use of the pool, as `intern`, `clone_handle`
/// and `release` change it.
pub open spec fn step_refs(refs: nat, op: PoolOp, v: Set<u32>) -> nat {
    match op {
        PoolOp::Intern(w) => if w == v {
            refs + 1
        } else {
            refs
        },
        PoolOp::Copy(w) => if w == v {
            refs + 1
        } else {
            refs
        },
        PoolOp::Release(w) => if w == v {
            (refs - 1) as nat
        } else {
            refs
        },
    }
}

/// The count of `v` after a sequence of uses of the pool.
pub open spec fn refs_after(start: nat, ops: Seq<PoolOp>, v: Set<u32>) -> nat
    decreases ops.len(),
{
    if ops.len() == 0 {
        start
    } else {
        step_refs(refs_after(start, ops.drop_last(), v), ops.last(), v)
    }
}

/// How many of `ops` make a handle to `v`.
pub open spec fn handles_made(ops: Seq<PoolOp>, v: Set<u32>) -> nat
    decreases ops.len(),
{
    if ops.len() == 0 {
        0
    } else {
        handles_made(ops.drop_last(), v) + match ops.last() {
            PoolOp::Intern(w) => if w == v {
                1nat
            } else {
                0nat
            },
            PoolOp::Copy(w) => if w == v {
                1nat
            } else {
                0nat
            },
            PoolOp::Release(_) => 0nat,
        }
    }
}

/// How many of `ops` give a handle to `v` back.
pub open spec fn handles_released(ops: Seq<PoolOp>, v: Set<u32>) -> nat
    decreases ops.len(),
{
    if ops.len() == 0 {
        0
    } else {
        handles_released(ops.drop_last(), v) + match ops.last() {
            PoolOp::Release(w) => if w == v {
                1nat
            } else {
                0nat
            },
            _ => 0nat,
        }
    }
}

/// Every handle to `v` that `ops` copy or give back exists at that moment.
pub open spec fn handles_exist(start: nat, ops: Seq<PoolOp>, v: Set<u32>) -> bool
    decreases ops.len(),
{
    if ops.len() == 0 {
        true
    } else {
        &&& handles_exist(start, ops.drop_last(), v)
        &&& match ops.last() {
            PoolOp::Intern(_) => true,
            PoolOp::Copy(w) => w == v ==> refs_after(start, ops.drop_last(), v) >= 1,
            PoolOp::Release(w) => w == v ==> refs_after(start, ops.drop_last(), v) >= 1,
        }
    }
}

/// The count of a value is the number of handles made less the number given
/// back. So when as many handles to a value have been given back as were
/// made, starting from a pool that did not keep the value, the pool does not
/// keep it any more.
pub proof fn lemma_refcount_balance(start: nat, ops: Seq<PoolOp>, v: Set<u32>)
    requires
        handles_exist(start, ops, v),
    ensures
        refs_after(start, ops, v) == start + handles_made(ops, v) - handles_released(ops, v),
        start == 0 && handles_made(ops, v) == handles_released(ops, v) ==> refs_after(start, ops, v)
            == 0,
    decreases ops.len(),
{
    if ops.len() > 0 {
        lemma_refcount_balance(start, ops.drop_last(), v);
    }
}

/// Two tables whose buckets hold the same sets and counts say the same.
proof fn lemma_same_table(t0: Map<u64, Bucket>, t1: Map<u64, Bucket>)
    requires
        table_wf(t0),
        t1.dom() == t0.dom(),
        forall|h: u64|
            t0.contains_key(h) ==> (#[trigger] t1[h]).sets@ == t0[h].sets@ && t1[h].counts@
                == t0[h].counts@,
    ensures
        table_wf(t1),
        forall|h: u64, j: int| #[trigger] live(t1, h, j) == live(t0, h, j),
        forall|h: u64, j: int| live(t0, h, j) ==> #[trigger] t1[h].sets@[j] == t0[h].sets@[j],
        forall|w: Set<u32>| #[trigger] table_refs(t1, w) == table_refs(t0, w),
{
    assert forall|h: u64, j: int| #[trigger] live(t1, h, j) == live(t0, h, j) by {
        if t0.contains_key(h) {
            assert(t1[h].sets@ == t0[h].sets@);
        }
    }
    assert forall|h: u64, j: int| live(t0, h, j) implies #[trigger] t1[h].sets@[j] == t0[h].sets@[j] by {
        assert(t1[h].sets@ == t0[h].sets@);
    }
    assert(table_wf(t1)) by {
        assert forall|h: u64| #[trigger] t1.contains_key(h) implies t1[h].sets@.len()
            == t1[h].counts@.len() by {
            assert(t1[h].sets@ == t0[h].sets@);
        }
        assert forall|h: u64, j: int| #[trigger] live(t1, h, j) implies set_hash(
            t1[h].sets@[j]->0@,
        ) == h && t1[h].counts@[j] >= 1 by {
            assert(live(t0, h, j));
            assert(t1[h].sets@ == t0[h].sets@);
        }
        assert forall|h: u64, a: int, b: int|
            #![trigger live(t1, h, a), live(t1, h, b)]
            live(t1, h, a) && live(t1, h, b) && t1[h].sets@[a]->0@ == t1[h].sets@[b]->0@ implies a
            == b by {
            assert(live(t0, h, a) && live(t0, h, b));
            assert(t1[h].sets@ == t0[h].sets@);
        }
    }
    assert forall|w: Set<u32>| #[trigger] table_refs(t1, w) == table_refs(t0, w) by {
        assert forall|j: int| finds(t1, w, j) == finds(t0, w, j) by {
            assert(live(t1, set_hash(w), j) == live(t0, set_hash(w), j));
            if t0.contains_key(set_hash(w)) {
                assert(t1[set_hash(w)].sets@ == t0[set_hash(w)].sets@);
            }
        }
        if exists|j: int| finds(t0, w, j) {
            let j = choose|j: int| finds(t0, w, j);
            assert(finds(t1, w, j));
            lemma_refs_at(t0, w, j);
            lemma_refs_at(t1, w, j);
            assert(t1[set_hash(w)].counts@ == t0[set_hash(w)].counts@);
        }
    }
}

/// The slot of `bucket` that holds a set equal to `value`.
fn find_in(bucket: &Bucket, value: &IntSet) -> (found: Option<usize>)
    ensures
        match found {
            Some(i) => i < bucket.sets@.len() && bucket.sets@[i as int] is Some
                && bucket.sets@[i as int]->0@ == value@,
            None => forall|i: int|
                0 <= i < bucket.sets@.len() && bucket.sets@[i] is Some ==> bucket.sets@[i]->0@
                    != value@,
        },
{
    let mut i: usize = 0;
    while i < bucket.sets.len()
        invariant
            i <= bucket.sets.len(),
            forall|j: int|
                0 <= j < i && bucket.sets@[j] is Some ==> bucket.sets@[j]->0@ != value@,
        decreases bucket.sets.len() - i,
    {
        let hit = match &bucket.sets[i] {
            Some(s) => *s == *value,
            None => false,
        };
        if hit {
            return Some(i);
        }
        i = i + 1;
    }
    None
}

/// The first slot of `bucket` that holds nothing; none when every slot
/// holds a payload.
fn free_in(bucket: &Bucket) -> (found: Option<usize>)
    ensures
        match found {
            Some(i) => {
                &&& i < bucket.sets@.len()
                &&& bucket.sets@[i as int] is None
                &&& forall|j: int| 0 <= j < i ==> bucket.sets@[j] is Some
            },
            None => forall|j: int| 0 <= j < bucket.sets@.len() ==> bucket.sets@[j] is Some,
        },
{
    let mut i: usize = 0;
    while i < bucket.sets.len()
        invariant
            i <= bucket.sets.len(),
            forall|j: int| 0 <= j < i ==> bucket.sets@[j] is Some,
        decreases bucket.sets.len() - i,
    {
        if bucket.sets[i].is_none() {
            return Some(i);
        }
        i = i + 1;
    }
    None
}

} // verus!
