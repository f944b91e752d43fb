//! Pairs whose order does not matter.

use vstd::prelude::*;

use crate::ids::{
    id_less, id_lt, lemma_id_lt_irreflexive, lemma_id_lt_total, lemma_id_lt_transitive,
};
use crate::sets::SetItem;

verus! {

/// A pair whose order does not matter: `(a, b)` and `(b, a)` are the same
/// tuple. Its view is the set of its two components.
#[derive(Debug)]
pub struct UnorderedTuple<T: SetItem> {
    pub one: T,
    pub two: T,
}

impl<T: SetItem> View for UnorderedTuple<T> {
    type V = Set<T::V>;

    open spec fn view(&self) -> Set<T::V> {
        set![self.one@, self.two@]
    }
}

/// Two-element sets are equal exactly when their components match in some order.
pub proof fn lemma_pair_sets_equal<A>(a: A, b: A, c: A, d: A)
    ensures
        (set![a, b] == set![c, d]) == ((a == c && b == d) || (a == d && b == c)),
{
    if set![a, b] == set![c, d] {
        assert(set![c, d].contains(a));
        assert(set![c, d].contains(b));
        assert(set![a, b].contains(c));
        assert(set![a, b].contains(d));
    }
    if (a == c && b == d) || (a == d && b == c) {
        assert(set![a, b] =~= set![c, d]);
    }
}

/// A tuple equals the one with its components swapped.
pub proof fn lemma_swap_equal<T: SetItem>(p: UnorderedTuple<T>, q: UnorderedTuple<T>)
    requires
        p.one@ == q.two@,
        p.two@ == q.one@,
    ensures
        p@ == q@,
{
    lemma_pair_sets_equal(p.one@, p.two@, q.one@, q.two@);
}

impl<T: SetItem> UnorderedTuple<T> {
    /// True when the two tuples hold the same components, in either order.
    pub fn same_pair(&self, other: &Self) -> (r: bool)
        ensures
            r == (self@ == other@),
    {
        proof {
            lemma_pair_sets_equal(self.one@, self.two@, other.one@, other.two@);
        }
        (self.one.same(&other.one) && self.two.same(&other.two)) || (self.one.same(&other.two)
            && self.two.same(&other.one))
    }

    /// True when `x` is one of the two components.
    pub fn mentions(&self, x: &T) -> (r: bool)
        ensures
            r == self@.contains(x@),
    {
        self.one.same(x) || self.two.same(x)
    }
}

impl<T: SetItem> SetItem for UnorderedTuple<T> {
    fn same(&self, other: &Self) -> (r: bool) {
        self.same_pair(other)
    }

    fn duplicate(&self) -> (r: Self) {
        UnorderedTuple { one: self.one.duplicate(), two: self.two.duplicate() }
    }
}

impl<T: SetItem> PartialEq for UnorderedTuple<T> {
    fn eq(&self, other: &Self) -> (r: bool) {
        self.same_pair(other)
    }
}

impl<T: SetItem> vstd::std_specs::cmp::PartialEqSpecImpl for UnorderedTuple<T> {
    open spec fn obeys_eq_spec() -> bool {
        true
    }

    open spec fn eq_spec(&self, other: &Self) -> bool {
        self@ == other@
    }
}

/// Relies on `String`'s `Hash::hash`, which feeds the string to the hasher;
/// nothing is assumed about the hasher's state.
pub assume_specification<H: std::hash::Hasher>[ <String as std::hash::Hash>::hash::<H> ](
    s: &String,
    state: &mut H,
);

/// The order in which a pair's components are hashed: increasing.
pub open spec fn hash_order(a: Seq<char>, b: Seq<char>) -> (Seq<char>, Seq<char>) {
    if id_lt(b, a) {
        (b, a)
    } else {
        (a, b)
    }
}

/// A pair and its swap are hashed in the same order.
pub proof fn lemma_hash_order_symmetric(a: Seq<char>, b: Seq<char>)
    ensures
        hash_order(a, b) == hash_order(b, a),
{
    lemma_id_lt_total(a, b);
    if id_lt(a, b) && id_lt(b, a) {
        lemma_id_lt_transitive(a, b, a);
        lemma_id_lt_irreflexive(a);
    }
}

/// Hashes the two identifiers in increasing order (`hash_order`), so that a
/// tuple and its swap hash alike.
impl std::hash::Hash for UnorderedTuple<String> {
    fn hash<H: std::hash::Hasher>(&self, state: &mut H) {
        let (first, second) = if id_less(&self.two, &self.one) {
            (&self.two, &self.one)
        } else {
            (&self.one, &self.two)
        };
        proof {
            assert((first@, second@) == hash_order(self.one@, self.two@));
        }
        first.hash(state);
        second.hash(state);
    }
}

impl<T: SetItem> Eq for UnorderedTuple<T> {

}

impl<T: SetItem> Clone for UnorderedTuple<T> {
    fn clone(&self) -> (r: Self)
        ensures
            r.one@ == self.one@,
            r.two@ == self.two@,
    {
        UnorderedTuple { one: self.one.duplicate(), two: self.two.duplicate() }
    }
}

} // verus!
