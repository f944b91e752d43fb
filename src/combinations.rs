//! Index pairs and products, computed by itertools.

use itertools::Itertools;
use vstd::prelude::*;

use crate::sets::views;

verus! {

/// Relies on itertools' `Itertools::combinations` with `k = 2` over `0..n`:
/// each 2-element combination of the positions, in increasing order within
/// the pair, and every such combination among them.
#[verifier::external_body]
pub(crate) fn index_pairs(n: usize) -> (r: Vec<(usize, usize)>)
    ensures
        forall|k: int| 0 <= k < r.len() ==> #[trigger] r@[k].0 < r@[k].1 && r@[k].1 < n,
        forall|i: usize, j: usize| i < j < n ==> r@.contains((i, j)),
{
    (0..n).combinations(2).map(|c| (c[0], c[1])).collect()
}

/// Relies on itertools' `Itertools::combinations_with_replacement` with
/// `k = 2` over `0..n`: each pair `(i, j)` with `i <= j < n`, and every such
/// pair among them.
#[verifier::external_body]
pub(crate) fn index_pairs_with_replacement(n: usize) -> (r: Vec<(usize, usize)>)
    ensures
        forall|k: int| 0 <= k < r.len() ==> #[trigger] r@[k].0 <= r@[k].1 && r@[k].1 < n,
        forall|i: usize, j: usize| i <= j < n ==> r@.contains((i, j)),
{
    (0..n).combinations_with_replacement(2).map(|c| (c[0], c[1])).collect()
}

/// Relies on itertools' `Itertools::cartesian_product`: every pair of an
/// element of `a` with an element of `b`, and nothing else.
#[verifier::external_body]
pub(crate) fn product(a: &Vec<String>, b: &Vec<String>) -> (r: Vec<(String, String)>)
    ensures
        forall|k: int|
            0 <= k < r.len() ==> views(a@).contains((#[trigger] r@[k]).0@) && views(b@).contains(
                r@[k].1@,
            ),
        forall|x: Seq<char>, y: Seq<char>|
            #![trigger views(a@).contains(x), views(b@).contains(y)]
            views(a@).contains(x) && views(b@).contains(y) ==> exists|k: int|
                0 <= k < r.len() && (#[trigger] r@[k]).0@ == x && r@[k].1@ == y,
{
    a.iter().cloned().cartesian_product(b.iter().cloned()).collect()
}

} // verus!
