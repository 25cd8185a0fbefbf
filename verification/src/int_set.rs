//! An owned set of `u32` values, stored in a compressed bitmap.
//!
//! Everything the rest of the crate knows about the bitmap is stated here, over
//! the mathematical set of values that it holds.
use roaring::RoaringBitmap;
use vstd::prelude::*;
use vstd::std_specs::cmp::PartialEqSpecImpl;

verus! {

/// `roaring::RoaringBitmap`, the compressed bitmap behind every [`IntSet`].
/// Its contents are only visible through [`bitmap_items`].
#[verifier::external_type_specification]
#[verifier::external_body]
pub struct ExRoaringBitmap(roaring::RoaringBitmap);

/// The values stored in a bitmap.
pub uninterp spec fn bitmap_items(b: RoaringBitmap) -> Set<u32>;

/// `RoaringBitmap::new` returns a bitmap that holds no value.
pub assume_specification[ RoaringBitmap::new ]() -> (b: RoaringBitmap)
    ensures
        bitmap_items(b) == Set::<u32>::empty(),
;

/// `RoaringBitmap::insert` adds `value` and reports whether it was absent before.
pub assume_specification[ RoaringBitmap::insert ](b: &mut RoaringBitmap, value: u32) -> (added:
    bool)
    ensures
        bitmap_items(*final(b)) == bitmap_items(*old(b)).insert(value),
        added == !bitmap_items(*old(b)).contains(value),
;

/// `RoaringBitmap::remove` takes `value` out and reports whether it was present before.
pub assume_specification[ RoaringBitmap::remove ](b: &mut RoaringBitmap, value: u32) -> (removed:
    bool)
    ensures
        bitmap_items(*final(b)) == bitmap_items(*old(b)).remove(value),
        removed == bitmap_items(*old(b)).contains(value),
;

/// `RoaringBitmap::contains` tests membership.
pub assume_specification[ RoaringBitmap::contains ](b: &RoaringBitmap, value: u32) -> (found: bool)
    ensures
        found == bitmap_items(*b).contains(value),
;

/// `RoaringBitmap::is_empty` is true exactly when no value is stored.
pub assume_specification[ RoaringBitmap::is_empty ](b: &RoaringBitmap) -> (empty: bool)
    ensures
        empty == (bitmap_items(*b) == Set::<u32>::empty()),
;

/// `RoaringBitmap::len` counts the distinct values stored.
pub assume_specification[ RoaringBitmap::len ](b: &RoaringBitmap) -> (n: u64)
    ensures
        n == bitmap_items(*b).len(),
;

/// `RoaringBitmap::clear` removes every value.
pub assume_specification[ RoaringBitmap::clear ](b: &mut RoaringBitmap)
    ensures
        bitmap_items(*final(b)) == Set::<u32>::empty(),
;

/// `RoaringBitmap::optimize` may change how the values are stored and
/// leaves the values themselves as they were.
pub assume_specification[ RoaringBitmap::optimize ](b: &mut RoaringBitmap) -> (changed: bool)
    ensures
        bitmap_items(*final(b)) == bitmap_items(*old(b)),
;

/// `RoaringBitmap::clone` copies the bitmap with all its values.
pub assume_specification[ <RoaringBitmap as Clone>::clone ](b: &RoaringBitmap) -> (c: RoaringBitmap)
    ensures
        bitmap_items(c) == bitmap_items(*b),
;

/// `==` on two bitmaps compares the stored values, whatever the storage layout.
#[verifier::external_body]
fn bitmap_eq(a: &RoaringBitmap, b: &RoaringBitmap) -> (same: bool)
    ensures
        same == (bitmap_items(*a) == bitmap_items(*b)),
{
    a == b
}

/// `RoaringBitmap::iter` yields every stored value once, in ascending order.
#[verifier::external_body]
fn bitmap_to_vec(b: &RoaringBitmap) -> (v: Vec<u32>)
    ensures
        strictly_increasing(v@),
        v@.to_set() == bitmap_items(*b),
{
    b.iter().collect()
}

/// `|=` with a borrowed bitmap on the right adds every value of `src`.
#[verifier::external_body]
fn bitmap_union(dst: &mut RoaringBitmap, src: &RoaringBitmap)
    ensures
        bitmap_items(*final(dst)) == bitmap_items(*old(dst)).union(bitmap_items(*src)),
{
    *dst |= src;
}

/// `-=` with a borrowed bitmap on the right removes every value of `src`.
#[verifier::external_body]
fn bitmap_difference(dst: &mut RoaringBitmap, src: &RoaringBitmap)
    ensures
        bitmap_items(*final(dst)) == bitmap_items(*old(dst)).difference(bitmap_items(*src)),
{
    *dst -= src;
}

/// `&=` with a borrowed bitmap on the right keeps only the values also in `src`.
#[verifier::external_body]
fn bitmap_intersection(dst: &mut RoaringBitmap, src: &RoaringBitmap)
    ensures
        bitmap_items(*final(dst)) == bitmap_items(*old(dst)).intersect(bitmap_items(*src)),
{
    *dst &= src;
}

/// Every element is smaller than all elements after it.
pub open spec fn strictly_increasing(s: Seq<u32>) -> bool {
    forall|i: int, j: int| 0 <= i < j < s.len() ==> s[i] < s[j]
}

/// The number of distinct `u32` values.
pub open spec fn u32_count() -> nat {
    0x1_0000_0000
}

/// Any set of `u32` is finite and has at most `2^32` members.
pub proof fn lemma_u32_set_bounded(s: Set<u32>)
    ensures
        s.finite(),
        s.len() <= u32_count(),
{
    let full = Set::<u32>::full();
    broadcast use vstd::set_lib::full_set_properties;
    vstd::set_lib::range_set_properties::<u32>(u32::MIN, u32::MAX);
    assert(full.finite());
    assert(full =~= Set::<u32>::range_inclusive(u32::MIN, u32::MAX));
    assert(s.subset_of(full));
    vstd::set_lib::lemma_len_subset(s, full);
}

/// A strictly increasing sequence has no repeated element.
pub proof fn lemma_increasing_no_duplicates(s: Seq<u32>)
    requires
        strictly_increasing(s),
    ensures
        s.no_duplicates(),
{
    assert forall|i: int, j: int| 0 <= i < s.len() && 0 <= j < s.len() && i != j implies s[i]
        != s[j] by {
        if i < j {
            assert(s[i] < s[j]);
        } else {
            assert(s[j] < s[i]);
        }
    }
}

/// An owned, mutable set of `u32`.
pub struct IntSet {
    bits: RoaringBitmap,
}

impl View for IntSet {
    type V = Set<u32>;

    closed spec fn view(&self) -> Set<u32> {
        bitmap_items(self.bits)
    }
}

impl IntSet {
    /// The empty set.
    pub fn new() -> (s: Self)
        ensures
            s@ == Set::<u32>::empty(),
    {
        IntSet { bits: RoaringBitmap::new() }
    }

    /// The set of the values in `values`.
    pub fn from_slice(values: &[u32]) -> (s: Self)
        ensures
            s@ == values@.to_set(),
    {
        let mut s = IntSet::new();
        let mut i: usize = 0;
        while i < values.len()
            invariant
                i <= values.len(),
                s@ == values@.take(i as int).to_set(),
            decreases values.len() - i,
        {
            let v = values[i];
            s.bits.insert(v);
            proof {
                assert(values@.take(i + 1) =~= values@.take(i as int).push(v));
                assert(values@.take(i as int).push(v).to_set() =~= values@.take(i as int).to_set().insert(
                    v,
                )) by {
                    vstd::seq_lib::lemma_seq_contains_after_push(values@.take(i as int), v, v);
                    assert forall|x: u32|
                        values@.take(i as int).push(v).to_set().contains(x)
                            == values@.take(i as int).to_set().insert(v).contains(x) by {
                        vstd::seq_lib::lemma_seq_contains_after_push(values@.take(i as int), v, x);
                    }
                }
            }
            i = i + 1;
        }
        proof {
            assert(values@.take(values@.len() as int) =~= values@);
        }
        s
    }

    /// Removes every value.
    pub fn clear(&mut self)
        ensures
            final(self)@ == Set::<u32>::empty(),
    {
        self.bits.clear();
    }

    /// Whether `value` is a member.
    pub fn contains(&self, value: u32) -> (found: bool)
        ensures
            found == self@.contains(value),
    {
        self.bits.contains(value)
    }

    /// Whether the set has no member.
    pub fn is_empty(&self) -> (empty: bool)
        ensures
            empty == (self@ == Set::<u32>::empty()),
    {
        self.bits.is_empty()
    }

    /// The number of members.
    pub fn len(&self) -> (n: u64)
        ensures
            self@.finite(),
            n == self@.len(),
    {
        proof {
            lemma_u32_set_bounded(self@);
        }
        self.bits.len()
    }

    /// Adds `value`; true when it was not a member before.
    pub fn insert(&mut self, value: u32) -> (added: bool)
        ensures
            final(self)@ == old(self)@.insert(value),
            added == !old(self)@.contains(value),
    {
        self.bits.insert(value)
    }

    /// Removes `value`; true when it was a member before.
    pub fn remove(&mut self, value: u32) -> (removed: bool)
        ensures
            final(self)@ == old(self)@.remove(value),
            removed == old(self)@.contains(value),
    {
        self.bits.remove(value)
    }

    /// Adds every member of `rhs`.
    pub fn union_with(&mut self, rhs: &IntSet)
        ensures
            final(self)@ == old(self)@.union(rhs@),
    {
        bitmap_union(&mut self.bits, &rhs.bits);
    }

    /// Removes every member of `rhs`.
    pub fn difference_with(&mut self, rhs: &IntSet)
        ensures
            final(self)@ == old(self)@.difference(rhs@),
    {
        bitmap_difference(&mut self.bits, &rhs.bits);
    }

    /// Keeps only the members that `rhs` has too.
    pub fn intersect_with(&mut self, rhs: &IntSet)
        ensures
            final(self)@ == old(self)@.intersect(rhs@),
    {
        bitmap_intersection(&mut self.bits, &rhs.bits);
    }

    /// Adds every value of `values`.
    pub fn extend(&mut self, values: &[u32])
        ensures
            final(self)@ == old(self)@.union(values@.to_set()),
    {
        let other = IntSet::from_slice(values);
        self.union_with(&other);
    }

    /// Rewrites the storage in its most compact form; the members stay the same.
    pub fn optimize(&mut self)
        ensures
            final(self)@ == old(self)@,
    {
        let _ = self.bits.optimize();
    }

    /// The members in ascending order.
    pub fn to_vec(&self) -> (v: Vec<u32>)
        ensures
            strictly_increasing(v@),
            v@.no_duplicates(),
            v@.to_set() == self@,
    {
        let v = bitmap_to_vec(&self.bits);
        proof {
            lemma_increasing_no_duplicates(v@);
        }
        v
    }

    /// The members in ascending order.
    pub fn iter(&self) -> (v: Vec<u32>)
        ensures
            strictly_increasing(v@),
            v@.no_duplicates(),
            v@.to_set() == self@,
    {
        self.to_vec()
    }
}

impl Clone for IntSet {
    fn clone(&self) -> (s: Self)
        ensures
            s@ == self@,
    {
        IntSet { bits: self.bits.clone() }
    }
}

impl Default for IntSet {
    fn default() -> (s: Self)
        ensures
            s@ == Set::<u32>::empty(),
    {
        IntSet::new()
    }
}

impl PartialEq for IntSet {
    fn eq(&self, other: &Self) -> (same: bool) {
        bitmap_eq(&self.bits, &other.bits)
    }
}

impl PartialEqSpecImpl for IntSet {
    open spec fn obeys_eq_spec() -> bool {
        true
    }

    open spec fn eq_spec(&self, other: &Self) -> bool {
        self@ == other@
    }
}

} // verus!
