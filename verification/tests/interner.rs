use fast_set::int_set::IntSet;
use fast_set::interner::{hash_bitmap, IRoaringBitmap, Interner};
use std::collections::hash_map::DefaultHasher;
use std::hash::{Hash, Hasher};

/* ---------- helpers ---------- */

fn hash_of<T: Hash>(t: &T) -> u64 {
    let mut h = DefaultHasher::new();
    t.hash(&mut h);
    h.finish()
}

fn set(values: &[u32]) -> IntSet {
    IntSet::from_slice(values)
}

/* ---------- basic functionality ---------- */

#[test]
fn intern_same_bitmap_gives_same_handle() {
    let mut pool = Interner::new();
    let rb = set(&[1, 2, 3]);
    let a = pool.intern(rb.clone());
    let b = pool.intern(rb.clone());
    assert!(a == b);
}

#[test]
fn intern_different_bitmaps_give_different_handles() {
    let mut pool = Interner::new();
    let a = pool.intern(set(&[1, 2, 3]));
    let b = pool.intern(set(&[4, 5]));
    assert!(a != b);
}

#[test]
fn eq_and_hash_work() {
    let mut pool = Interner::new();
    let rb = set(&[10, 20]);
    let a = pool.intern(rb.clone());
    let b = pool.intern(rb.clone());
    assert_eq!(a, b);
    assert_eq!(hash_of(&a), hash_of(&b));
}

#[test]
fn partial_eq_roaringbitmap() {
    let mut pool = Interner::new();
    let rb = set(&[1, 2, 3]);
    let ib = pool.intern(rb.clone());
    assert!(*pool.get(&ib).unwrap() == rb);
    assert!(rb == *pool.get(&ib).unwrap());
}

/* ---------- clone / drop / ref-counting ---------- */

#[test]
fn clone_increments_refcount() {
    let mut pool = Interner::new();
    let rb = set(&[1, 2]);
    let a = pool.intern(rb.clone());
    let count = pool.refcount(&a);

    let _b = pool.clone_handle(&a);
    assert_eq!(pool.refcount(&a), count + 1);
}

/* ---------- deref / borrow ---------- */

#[test]
fn deref_works() {
    let mut pool = Interner::new();
    let rb = set(&[1, 2, 3]);
    let ib = pool.intern(rb.clone());
    assert_eq!(pool.get(&ib).unwrap().iter(), vec![1, 2, 3]);
}

#[test]
fn borrow_trait_works() {
    fn takes_ref(r: &IntSet) -> usize {
        r.len() as usize
    }
    let mut pool = Interner::new();
    let ib = pool.intern(set(&[7, 8, 9]));
    assert_eq!(takes_ref(pool.get(&ib).unwrap()), 3);
}

/* ---------- the empty set ---------- */

#[test]
fn default_gives_singleton() {
    let mut pool = Interner::new();
    let a = pool.intern(IntSet::default());
    let b = pool.intern(IntSet::default());
    assert!(a == b);
    assert!(pool.get(&a).unwrap().is_empty());
}

/// Stress test for many clones
#[test]
fn miri_cycle_many_clones() {
    let mut pool = Interner::new();
    let rb = set(&(0..100).collect::<Vec<u32>>());
    let ib = pool.intern(rb.clone());
    let mut v: Vec<IRoaringBitmap> = Vec::new();
    for _ in 0..100 {
        v.push(pool.clone_handle(&ib));
    }
    assert_eq!(pool.refcount(&ib), 101);
    let last = v.pop().unwrap();
    pool.release(last);
    for h in v {
        pool.release(h);
    }
    assert_eq!(pool.refcount(&ib), 1);
    pool.release(ib);
    assert_eq!(pool.count_of(&rb), 0);
}

/* ---------- the life of a payload ---------- */

#[test]
fn interner_dedup() {
    let mut pool = Interner::new();
    let a = pool.intern(set(&[1, 2, 3]));
    let b = pool.intern(set(&[3, 2, 1]));
    assert!(a == b);
    assert_eq!(pool.refcount(&a), 2);
    assert_eq!(pool.count_of(&set(&[1, 2, 3])), 2);

    let probe = pool.clone_handle(&a);
    pool.release(probe);
    pool.release(a);
    assert_eq!(pool.refcount(&b), 1);
    assert_eq!(pool.get(&b).unwrap().to_vec(), vec![1, 2, 3]);

    // a handle of the same shape, made by another pool
    let mut other = Interner::new();
    let gone = other.intern(set(&[1, 2, 3]));
    assert!(gone == b);
    pool.release(b);
    assert_eq!(pool.count_of(&set(&[1, 2, 3])), 0);
    assert_eq!(pool.refcount(&gone), 0);
    assert!(pool.get(&gone).is_none());
}

#[test]
fn balanced_use_leaves_no_payload() {
    let mut pool = Interner::new();
    let keep = pool.intern(set(&[9]));
    let mut handles = Vec::new();
    for _ in 0..5 {
        handles.push(pool.intern(set(&[1, 2])));
    }
    for i in 0..3 {
        let h = pool.clone_handle(&handles[i]);
        handles.push(h);
    }
    assert_eq!(pool.count_of(&set(&[1, 2])), 8);
    for h in handles {
        pool.release(h);
    }
    assert_eq!(pool.count_of(&set(&[1, 2])), 0);
    assert_eq!(pool.count_of(&set(&[9])), 1);
    assert_eq!(pool.get(&keep).unwrap().to_vec(), vec![9]);
}

#[test]
fn unknown_handles_change_nothing() {
    let mut pool = Interner::new();
    let mut other = Interner::new();
    let stale = other.intern(set(&[1]));
    let kept = pool.intern(set(&[2]));
    // `stale` belongs to another pool: this one has nothing in its place
    let copy = pool.clone_handle(&stale);
    assert!(copy == stale);
    assert_eq!(pool.refcount(&stale), 0);
    pool.release(copy);
    pool.release(stale);
    assert_eq!(pool.count_of(&set(&[1])), 0);
    assert_eq!(pool.refcount(&kept), 1);
    assert_eq!(other.count_of(&set(&[1])), 1);
}

#[test]
fn freed_slots_are_used_again() {
    let mut pool = Interner::new();
    let a = pool.intern(set(&[1]));
    let first = format!("{:?}", a);
    pool.release(a);
    let b = pool.intern(set(&[1]));
    assert_eq!(format!("{:?}", b), first);
    assert_eq!(pool.refcount(&b), 1);
}

/* ---------- hashing ---------- */

#[test]
fn hash_is_by_members() {
    let mut a = set(&[3, 1, 2]);
    let b = set(&[1, 2, 3]);
    a.optimize();
    assert_eq!(hash_bitmap(&a), hash_bitmap(&b));
    assert_eq!(hash_bitmap(&IntSet::new()), 0);
}

#[test]
fn hash_folds_the_fx_hashes_of_the_members() {
    assert_eq!(hash_bitmap(&set(&[5])), fxhash::hash64(&5u32));
    assert_ne!(hash_bitmap(&set(&[5])), 5);
    assert_eq!(
        hash_bitmap(&set(&[5, 70_000])),
        fxhash::hash64(&5u32) ^ fxhash::hash64(&70_000u32)
    );
    assert_eq!(fxhash::hash64(&1u32), 0x517cc1b727220a95);
}

/* ---------- handles ---------- */

#[test]
fn handle_reads_its_payload() {
    let mut pool = Interner::new();
    let h = IRoaringBitmap::new(&mut pool, set(&[4, 2]));
    assert_eq!(h.as_bitmap(&pool).to_vec(), vec![2, 4]);
    assert!(h.to_bitmap(&pool) == set(&[2, 4]));
    assert_eq!(h.key().0, hash_bitmap(&set(&[2, 4])));
    let again = IRoaringBitmap::new(&mut pool, set(&[2, 4]));
    assert_eq!(h.key(), again.key());
    assert_eq!(pool.refcount(&h), 2);
}

#[test]
fn interning_with_a_hash_computed_before() {
    let mut pool = Interner::new();
    let value = set(&[10, 20, 30]);
    let hash = hash_bitmap(&value);
    assert_eq!(pool.count_of_hashed(hash, &value), 0);
    let a = pool.intern_hashed(hash, value.clone());
    let b = pool.intern(value.clone());
    assert!(a == b);
    assert_eq!(pool.count_of_hashed(hash, &value), 2);
    assert_eq!(pool.count_of(&value), 2);
    assert_eq!(pool.get(&a).unwrap().to_vec(), vec![10, 20, 30]);
}
