//! Finite sets kept as vectors of distinct elements.

use vstd::prelude::*;

verus! {

/// A value that a `VecSet` can hold: two values are the same element when
/// their views are equal.
pub trait SetItem: Sized + View {
    fn same(&self, other: &Self) -> (r: bool)
        ensures
            r == (self@ == other@),
    ;

    fn duplicate(&self) -> (r: Self)
        ensures
            r@ == self@,
    ;
}

impl SetItem for String {
    fn same(&self, other: &Self) -> (r: bool) {
        *self == *other
    }

    fn duplicate(&self) -> (r: Self) {
        self.clone()
    }
}

impl SetItem for i32 {
    fn same(&self, other: &Self) -> (r: bool) {
        *self == *other
    }

    fn duplicate(&self) -> (r: Self) {
        *self
    }
}

impl SetItem for i64 {
    fn same(&self, other: &Self) -> (r: bool) {
        *self == *other
    }

    fn duplicate(&self) -> (r: Self) {
        *self
    }
}

impl SetItem for u64 {
    fn same(&self, other: &Self) -> (r: bool) {
        *self == *other
    }

    fn duplicate(&self) -> (r: Self) {
        *self
    }
}

impl SetItem for usize {
    fn same(&self, other: &Self) -> (r: bool) {
        *self == *other
    }

    fn duplicate(&self) -> (r: Self) {
        *self
    }
}

impl<A: SetItem, B: SetItem> SetItem for (A, B) {
    fn same(&self, other: &Self) -> (r: bool) {
        self.0.same(&other.0) && self.1.same(&other.1)
    }

    fn duplicate(&self) -> (r: Self) {
        (self.0.duplicate(), self.1.duplicate())
    }
}

/// The views of a vector's elements, in order.
pub open spec fn views<T: View>(v: Seq<T>) -> Seq<T::V> {
    v.map_values(|x: T| x@)
}

/// A finite set kept as a vector of distinct elements.
#[derive(Debug)]
pub struct VecSet<T: SetItem> {
    items: Vec<T>,
}

impl<T: SetItem> View for VecSet<T> {
    type V = Set<T::V>;

    closed spec fn view(&self) -> Set<T::V> {
        self.elems().to_set()
    }
}

impl<T: SetItem> VecSet<T> {
    #[verifier::type_invariant]
    spec fn distinct(self) -> bool {
        self.elems().no_duplicates()
    }

    /// The elements' views in the order in which they were inserted.
    pub closed spec fn elems(&self) -> Seq<T::V> {
        views(self.items@)
    }

    proof fn lemma_len(&self)
        requires
            self.elems().no_duplicates(),
        ensures
            self@.finite(),
            self@.len() == self.items.len(),
    {
        self.elems().unique_seq_to_set();
    }

    /// The set's view is finite.
    pub proof fn lemma_finite(&self)
        ensures
            self@.finite(),
    {
        vstd::seq_lib::seq_to_set_is_finite(self.elems());
    }

    pub fn new() -> (r: Self)
        ensures
            r@ == Set::<T::V>::empty(),
    {
        let r = VecSet { items: Vec::new() };
        assert(r@ =~= Set::<T::V>::empty());
        r
    }

    fn position(&self, item: &T) -> (r: Option<usize>)
        ensures
            match r {
                Some(i) => i < self.items.len() && self.items@[i as int]@ == item@,
                None => !self@.contains(item@),
            },
    {
        let mut i: usize = 0;
        while i < self.items.len()
            invariant
                i <= self.items.len(),
                forall|k: int| 0 <= k < i ==> self.items@[k]@ != item@,
            decreases self.items.len() - i,
        {
            if self.items[i].same(item) {
                return Some(i);
            }
            i += 1;
        }
        proof {
            if self@.contains(item@) {
                let k = choose|k: int| 0 <= k < self.elems().len() && self.elems()[k] == item@;
                assert(self.items@[k]@ == item@);
            }
        }
        None
    }

    fn has(&self, item: &T) -> (r: bool)
        ensures
            r == self@.contains(item@),
    {
        match self.position(item) {
            Some(i) => {
                assert(self.elems()[i as int] == item@);
                true
            },
            None => false,
        }
    }

    fn push_new(&mut self, item: T)
        requires
            !old(self)@.contains(item@),
        ensures
            final(self)@ == old(self)@.insert(item@),
            final(self).elems() == old(self).elems().push(item@),
    {
        proof {
            use_type_invariant(&*self);
        }
        let ghost old_elems = self.elems();
        let ghost v = item@;
        let mut items: Vec<T> = Vec::new();
        std::mem::swap(&mut items, &mut self.items);
        items.push(item);
        proof {
            assert(views(items@) =~= old_elems.push(v));
            assert(views(items@).no_duplicates()) by {
                assert forall|i: int, j: int|
                    0 <= i < views(items@).len() && 0 <= j < views(items@).len() && i != j
                    implies views(items@)[i] != views(items@)[j] by {
                    if i == old_elems.len() as int {
                        assert(old_elems.contains(old_elems[j]));
                    } else if j == old_elems.len() as int {
                        assert(old_elems.contains(old_elems[i]));
                    }
                }
            }
        }
        *self = VecSet { items };
        proof {
            old_elems.lemma_push_to_set_commute(v);
        }
    }

    /// Builds the set of the given values; repeated values are kept once.
    pub fn from_iter(items: Vec<T>) -> (r: Self)
        ensures
            r@ == views(items@).to_set(),
    {
        let mut r = VecSet::new();
        let ghost all = views(items@);
        let mut i: usize = 0;
        while i < items.len()
            invariant
                all == views(items@),
                i <= items.len(),
                r@ =~= all.subrange(0, i as int).to_set(),
            decreases items.len() - i,
        {
            proof {
                assert(all.subrange(0, i + 1) =~= all.subrange(0, i as int).push(all[i as int]));
                all.subrange(0, i as int).lemma_push_to_set_commute(all[i as int]);
            }
            r.insert(items[i].duplicate());
            i += 1;
        }
        assert(all.subrange(0, i as int) =~= all);
        r
    }

    /// Adds `item`; a value that is already present leaves the set unchanged.
    pub fn insert(&mut self, item: T)
        ensures
            final(self)@ == old(self)@.insert(item@),
    {
        if self.has(&item) {
            assert(old(self)@.insert(item@) =~= old(self)@);
            return ;
        }
        self.push_new(item);
    }

    pub fn contains(&self, item: T) -> (r: bool)
        ensures
            r == self@.contains(item@),
    {
        self.has(&item)
    }

    fn filtered(&self, other: &VecSet<T>, keep_common: bool) -> (r: VecSet<T>)
        ensures
            keep_common ==> r@ == self@.intersect(other@),
            !keep_common ==> r@ == self@.difference(other@),
    {
        let mut r = VecSet::new();
        let mut i: usize = 0;
        while i < self.items.len()
            invariant
                i <= self.items.len(),
                r@ =~= Set::new(
                    |v: T::V|
                        exists|k: int|
                            0 <= k < i && self.items@[k]@ == v && (other@.contains(v)
                                == keep_common),
                ),
            decreases self.items.len() - i,
        {
            let x = &self.items[i];
            let in_other = other.has(x);
            if in_other == keep_common {
                let y = x.duplicate();
                r.insert(y);
            }
            proof {
                assert forall|v: T::V|
                    r@.contains(v) <==> (exists|k: int|
                        0 <= k < i + 1 && self.items@[k]@ == v && (other@.contains(v)
                            == keep_common)) by {
                    if v == self.items@[i as int]@ && (other@.contains(v) == keep_common) {
                        assert(r@.contains(v));
                    }
                }
            }
            i += 1;
        }
        proof {
            assert forall|v: T::V|
                r@.contains(v) <==> (self@.contains(v) && (other@.contains(v)
                    == keep_common)) by {
                if self@.contains(v) {
                    let k = choose|k: int| 0 <= k < self.elems().len() && self.elems()[k] == v;
                    assert(self.items@[k]@ == v);
                }
                if r@.contains(v) {
                    let k = choose|k: int|
                        0 <= k < i && self.items@[k]@ == v && (other@.contains(v)
                            == keep_common);
                    assert(self.elems()[k] == v);
                }
            }
        }
        r
    }

    pub fn intersection(&self, other: &VecSet<T>) -> (r: VecSet<T>)
        ensures
            r@ == self@.intersect(other@),
    {
        let r = self.filtered(other, true);
        assert(r@ =~= self@.intersect(other@));
        r
    }

    pub fn difference(&self, other: &VecSet<T>) -> (r: VecSet<T>)
        ensures
            r@ == self@.difference(other@),
    {
        let r = self.filtered(other, false);
        assert(r@ =~= self@.difference(other@));
        r
    }

    /// A copy of the set with the same elements in the same order.
    pub fn duplicate(&self) -> (r: VecSet<T>)
        ensures
            r@ == self@,
            r.elems() == self.elems(),
    {
        proof {
            use_type_invariant(self);
        }
        let mut items: Vec<T> = Vec::new();
        let mut i: usize = 0;
        while i < self.items.len()
            invariant
                i <= self.items.len(),
                views(items@) =~= self.elems().subrange(0, i as int),
            decreases self.items.len() - i,
        {
            let x = self.items[i].duplicate();
            let ghost before = items@;
            items.push(x);
            proof {
                assert(items@ == before.push(x));
                assert(views(items@) =~= views(before).push(x@));
                assert(self.elems().subrange(0, i + 1) =~= self.elems().subrange(0, i as int).push(
                    self.elems()[i as int],
                ));
            }
            i += 1;
        }
        assert(views(items@) =~= self.elems());
        VecSet { items }
    }

    pub fn union(&self, other: &VecSet<T>) -> (r: VecSet<T>)
        ensures
            r@ == self@.union(other@),
    {
        let mut r = self.duplicate();
        let mut i: usize = 0;
        while i < other.items.len()
            invariant
                i <= other.items.len(),
                r@ =~= self@.union(Set::new(|v: T::V| exists|k: int| 0 <= k < i && other.items@[k]@ == v)),
            decreases other.items.len() - i,
        {
            r.insert(other.items[i].duplicate());
            i += 1;
        }
        proof {
            assert forall|v: T::V| other@.contains(v) <==> (exists|k: int| 0 <= k < i && other.items@[k]@ == v) by {
                if other@.contains(v) {
                    let k = choose|k: int| 0 <= k < other.elems().len() && other.elems()[k] == v;
                    assert(other.items@[k]@ == v);
                }
                if exists|k: int| 0 <= k < i && other.items@[k]@ == v {
                    let k = choose|k: int| 0 <= k < i && other.items@[k]@ == v;
                    assert(other.elems()[k] == v);
                }
            }
        }
        assert(r@ =~= self@.union(other@));
        r
    }

    /// The elements in exactly one of the two sets.
    pub fn symmetric_difference(&self, other: &VecSet<T>) -> (r: VecSet<T>)
        ensures
            r@ == self@.difference(other@).union(other@.difference(self@)),
    {
        let a = self.difference(other);
        let b = other.difference(self);
        a.union(&b)
    }

    pub fn is_subset_of(&self, other: &VecSet<T>) -> (r: bool)
        ensures
            r == self@.subset_of(other@),
    {
        let d = self.difference(other);
        proof {
            use_type_invariant(&d);
            d.lemma_len();
            if d@.len() == 0 {
                assert forall|v: T::V| self@.contains(v) implies other@.contains(v) by {
                    if !other@.contains(v) {
                        assert(d@.contains(v));
                    }
                }
            } else {
                assert(d.elems().len() > 0);
                let x = d.elems()[0];
                assert(d.elems().contains(x));
                assert(d@.contains(x));
                assert(self@.contains(x) && !other@.contains(x));
            }
        }
        d.items.len() == 0
    }

    /// True when every element of `self` is in `other` and `other` has more.
    pub fn is_proper_subset_of(&self, other: &VecSet<T>) -> (r: bool)
        ensures
            r == (self@.subset_of(other@) && !other@.subset_of(self@)),
    {
        self.is_subset_of(other) && !other.is_subset_of(self)
    }

    /// Removes `item` if present.
    pub fn remove(&mut self, item: &T)
        ensures
            final(self)@ == old(self)@.remove(item@),
    {
        let mut single = VecSet::new();
        single.insert(item.duplicate());
        let rest = self.difference(&single);
        assert(rest@ =~= old(self)@.remove(item@));
        *self = rest;
    }

    /// True when both sets hold the same elements.
    pub fn set_eq(&self, other: &VecSet<T>) -> (r: bool)
        ensures
            r == (self@ == other@),
    {
        let r = self.is_subset_of(other) && other.is_subset_of(self);
        proof {
            if r {
                assert(self@ =~= other@);
            }
        }
        r
    }

    /// True when the two sets have an element in common.
    pub fn intersects(&self, other: &VecSet<T>) -> (r: bool)
        ensures
            r == !self@.disjoint(other@),
    {
        let common = self.intersection(other);
        proof {
            use_type_invariant(&common);
            common.lemma_len();
            if !self@.disjoint(other@) {
                let x = choose|x: T::V| self@.contains(x) && other@.contains(x);
                assert(common@.contains(x));
                assert(common.elems().len() > 0);
            }
            if common.items.len() > 0 {
                assert(common@.contains(common.elems()[0]));
            }
        }
        common.items.len() > 0
    }

    pub fn len(&self) -> (r: usize)
        ensures
            r == self@.len(),
    {
        proof {
            use_type_invariant(self);
            self.lemma_len();
        }
        self.items.len()
    }

    /// The elements, each once, in insertion order.
    pub fn to_vec(&self) -> (r: Vec<T>)
        ensures
            views(r@) == self.elems(),
            views(r@).to_set() == self@,
            views(r@).no_duplicates(),
            r@.len() == self@.len(),
    {
        proof {
            use_type_invariant(self);
            self.lemma_len();
        }
        let d = self.duplicate();
        assert(views(d.items@).len() == d.items@.len());
        d.items
    }

    /// A cursor over the elements in insertion order.
    pub fn iter(&self) -> (r: SetIterator<'_, T>)
        ensures
            r.elements() == self.elems(),
            r.position() == 0,
    {
        SetIterator { set: self, index: 0 }
    }

    /// The element at position `i` of the insertion order.
    pub fn get(&self, i: usize) -> (r: &T)
        requires
            i < self@.len(),
        ensures
            r@ == self.elems()[i as int],
            self@.contains(r@),
    {
        proof {
            use_type_invariant(self);
            self.lemma_len();
            assert(self.elems().contains(self.elems()[i as int]));
        }
        &self.items[i]
    }
}

/// Union and intersection commute, union with itself changes nothing, a set
/// minus itself is empty, and `|a ∪ b| = |a| + |b| - |a ∩ b|`.
pub proof fn lemma_set_algebra<T: SetItem>(a: &VecSet<T>, b: &VecSet<T>)
    ensures
        a@.union(b@) == b@.union(a@),
        a@.intersect(b@) == b@.intersect(a@),
        a@.union(a@) == a@,
        a@.difference(a@) == Set::<T::V>::empty(),
        a@.union(b@).len() == a@.len() + b@.len() - a@.intersect(b@).len(),
{
    a.lemma_finite();
    b.lemma_finite();
    assert(a@.union(b@) =~= b@.union(a@));
    assert(a@.intersect(b@) =~= b@.intersect(a@));
    assert(a@.union(a@) =~= a@);
    assert(a@.difference(a@) =~= Set::<T::V>::empty());
    vstd::set_lib::lemma_set_intersect_union_lens(a@, b@);
}

/// A cursor over a `VecSet`'s elements in insertion order.
pub struct SetIterator<'a, T: SetItem> {
    set: &'a VecSet<T>,
    index: usize,
}

impl<'a, T: SetItem> SetIterator<'a, T> {
    /// The elements being walked.
    pub closed spec fn elements(&self) -> Seq<T::V> {
        self.set.elems()
    }

    /// How many elements have been handed out.
    pub closed spec fn position(&self) -> int {
        self.index as int
    }

    /// The next element, or `None` once all have been handed out.
    pub fn next(&mut self) -> (r: Option<&'a T>)
        ensures
            final(self).elements() == old(self).elements(),
            old(self).position() < old(self).elements().len() ==> r is Some && r->Some_0@
                == old(self).elements()[old(self).position()] && final(self).position() == old(
                self,
            ).position() + 1,
            old(self).position() >= old(self).elements().len() ==> r is None && final(self).position()
                == old(self).position(),
    {
        proof {
            use_type_invariant(self.set);
            self.set.lemma_len();
        }
        if self.index < self.set.len() {
            let item = self.set.get(self.index);
            self.index = self.index + 1;
            Some(item)
        } else {
            None
        }
    }
}

impl<T: SetItem> PartialEq for VecSet<T> {
    fn eq(&self, other: &VecSet<T>) -> (r: bool) {
        self.set_eq(other)
    }
}

impl<T: SetItem> vstd::std_specs::cmp::PartialEqSpecImpl for VecSet<T> {
    open spec fn obeys_eq_spec() -> bool {
        true
    }

    open spec fn eq_spec(&self, other: &VecSet<T>) -> bool {
        self@ == other@
    }
}

impl<T: SetItem> Clone for VecSet<T> {
    fn clone(&self) -> (r: Self)
        ensures
            r@ == self@,
    {
        self.duplicate()
    }
}

} // verus!
