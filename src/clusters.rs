//! Clusters of nodes with their neighborhoods, and their similarity.

use vstd::prelude::*;

use crate::ids::{group_id, join_ids, lemma_sorted_ids_of, sort_ids};
use crate::sets::{views, SetItem, VecSet};
use crate::unordered_tuple::UnorderedTuple;

verus! {

/// A similarity score kept as the exact fraction `numerator / denominator`;
/// a zero denominator stands for the score 0.
#[derive(Debug, Clone, Copy, PartialEq, Eq, Structural)]
pub struct Similarity {
    pub numerator: usize,
    pub denominator: usize,
}

/// The numerator of the score, taking a zero denominator as the score 0.
pub open spec fn score_num(s: Similarity) -> int {
    if s.denominator == 0 {
        0
    } else {
        s.numerator as int
    }
}

/// The denominator of the score, always positive.
pub open spec fn score_den(s: Similarity) -> int {
    if s.denominator == 0 {
        1
    } else {
        s.denominator as int
    }
}

/// `a`'s score is strictly smaller than `b`'s.
pub open spec fn score_lt(a: Similarity, b: Similarity) -> bool {
    score_num(a) * score_den(b) < score_num(b) * score_den(a)
}

/// `a`'s score is at most `b`'s.
pub open spec fn score_le(a: Similarity, b: Similarity) -> bool {
    !score_lt(b, a)
}

pub proof fn lemma_score_le_transitive(a: Similarity, b: Similarity, c: Similarity)
    requires
        score_le(a, b),
        score_le(b, c),
    ensures
        score_le(a, c),
{
    let (x1, y1) = (score_num(a), score_den(a));
    let (x2, y2) = (score_num(b), score_den(b));
    let (x3, y3) = (score_num(c), score_den(c));
    assert(x1 * y3 <= x3 * y1) by (nonlinear_arith)
        requires
            x1 * y2 <= x2 * y1,
            x2 * y3 <= x3 * y2,
            y1 > 0,
            y2 > 0,
            y3 > 0,
    {
        assert(x1 * y2 * y3 <= x2 * y1 * y3);
        assert(x2 * y3 * y1 <= x3 * y2 * y1);
        assert(y2 * (x1 * y3) <= y2 * (x3 * y1));
    }
}

pub proof fn lemma_score_le_total(a: Similarity, b: Similarity)
    ensures
        score_le(a, b) || score_le(b, a),
{
}

impl Similarity {
    /// The score `numerator / denominator`.
    pub fn new(numerator: usize, denominator: usize) -> (r: Similarity)
        ensures
            r == (Similarity { numerator, denominator }),
    {
        Similarity { numerator, denominator }
    }

    /// The smallest score at which two clusters are merged: one quarter.
    pub fn minimum() -> (r: Similarity)
        ensures
            r == (Similarity { numerator: 1, denominator: 4 }),
    {
        Similarity { numerator: 1, denominator: 4 }
    }

    /// Compares the two scores as fractions.
    pub fn less_than(&self, other: &Similarity) -> (r: bool)
        ensures
            r == score_lt(*self, *other),
    {
        let (x1, y1): (u128, u128) = if self.denominator == 0 {
            (0, 1)
        } else {
            (self.numerator as u128, self.denominator as u128)
        };
        let (x2, y2): (u128, u128) = if other.denominator == 0 {
            (0, 1)
        } else {
            (other.numerator as u128, other.denominator as u128)
        };
        assert(x1 * y2 <= u64::MAX as int * u64::MAX as int) by (nonlinear_arith)
            requires
                x1 <= u64::MAX,
                y2 <= u64::MAX,
        ;
        assert(x2 * y1 <= u64::MAX as int * u64::MAX as int) by (nonlinear_arith)
            requires
                x2 <= u64::MAX,
                y1 <= u64::MAX,
        ;
        x1 * y2 < x2 * y1
    }
}

/// A group of nodes (`items`) with the nodes next to them in the graph
/// (`neighbors`). The two sets never share a node. The view is the pair
/// `(items, neighbors)`.
#[derive(Debug)]
pub struct Cluster {
    items: VecSet<String>,
    neighbors: VecSet<String>,
}

impl View for Cluster {
    type V = (Set<Seq<char>>, Set<Seq<char>>);

    closed spec fn view(&self) -> (Set<Seq<char>>, Set<Seq<char>>) {
        (self.items@, self.neighbors@)
    }
}

/// The neighbors that two clusters share, leaving out the members of both.
pub open spec fn shared_neighbors(
    a: (Set<Seq<char>>, Set<Seq<char>>),
    b: (Set<Seq<char>>, Set<Seq<char>>),
) -> Set<Seq<char>> {
    a.1.intersect(b.1).difference(a.0).difference(b.0)
}

/// The neighbors of either cluster, leaving out the members of both.
pub open spec fn all_neighbors(
    a: (Set<Seq<char>>, Set<Seq<char>>),
    b: (Set<Seq<char>>, Set<Seq<char>>),
) -> Set<Seq<char>> {
    a.1.union(b.1).difference(a.0).difference(b.0)
}

/// The similarity of two clusters lies between 0 and 1: the shared neighbors
/// are among all neighbors. A cluster with neighbors is fully similar to
/// itself.
pub proof fn lemma_similarity_bounds(
    a: (Set<Seq<char>>, Set<Seq<char>>),
    b: (Set<Seq<char>>, Set<Seq<char>>),
)
    requires
        a.0.finite(),
        a.1.finite(),
        b.0.finite(),
        b.1.finite(),
    ensures
        shared_neighbors(a, b).subset_of(all_neighbors(a, b)),
        shared_neighbors(a, b).len() <= all_neighbors(a, b).len(),
        a.1.len() > 0 && a.0.disjoint(a.1) ==> shared_neighbors(a, a).len() == all_neighbors(
            a,
            a,
        ).len() && all_neighbors(a, a).len() > 0,
{
    vstd::set_lib::lemma_len_subset(shared_neighbors(a, b), all_neighbors(a, b));
    if a.1.len() > 0 && a.0.disjoint(a.1) {
        assert(shared_neighbors(a, a) =~= a.1);
        assert(all_neighbors(a, a) =~= a.1);
    }
}

/// A finite set is empty exactly when its size is zero.
pub proof fn lemma_nonempty_len<A>(s: Set<A>)
    requires
        s.finite(),
    ensures
        (s.len() > 0) == (exists|x: A| s.contains(x)),
{
    if s.len() == 0 {
        s.lemma_len0_is_empty();
    } else {
        if !(exists|x: A| s.contains(x)) {
            assert(s =~= Set::empty());
        }
    }
}

impl Cluster {
    #[verifier::type_invariant]
    spec fn exclusive(self) -> bool {
        self.items@.disjoint(self.neighbors@)
    }

    /// A cluster of `items` whose neighbors are `neighbors` without the items.
    pub fn new(items: VecSet<String>, neighbors: VecSet<String>) -> (r: Cluster)
        ensures
            r@ == (items@, neighbors@.difference(items@)),
            r@.0.disjoint(r@.1),
    {
        let neighbors = neighbors.difference(&items);
        Cluster { items, neighbors }
    }

    /// The Jaccard index of the two neighborhoods, leaving out the members of
    /// both clusters.
    pub fn similarity(&self, other_cluster: &Cluster) -> (r: Similarity)
        ensures
            r.numerator == shared_neighbors(self@, other_cluster@).len(),
            r.denominator == all_neighbors(self@, other_cluster@).len(),
    {
        let intersection = self.neighbors.intersection(&other_cluster.neighbors).difference(
            &self.items,
        ).difference(&other_cluster.items);
        let union = self.neighbors.union(&other_cluster.neighbors).difference(
            &self.items,
        ).difference(&other_cluster.items);
        Similarity { numerator: intersection.len(), denominator: union.len() }
    }

    /// Members and neighbors of both clusters; no member stays a neighbor.
    pub fn union(self, other_cluster: &Cluster) -> (r: Cluster)
        ensures
            r@ == (self@.0.union(other_cluster@.0), self@.1.union(other_cluster@.1).difference(
                self@.0.union(other_cluster@.0),
            )),
            r@.0.disjoint(r@.1),
    {
        let items = self.items.union(&other_cluster.items);
        let neighbors = self.neighbors.union(&other_cluster.neighbors);
        Cluster::new(items, neighbors)
    }

    /// Members of `self` not in `other_cluster`, with the neighbors that only
    /// `self` has.
    pub fn difference(self, other_cluster: &Cluster) -> (r: Cluster)
        ensures
            r@ == (self@.0.difference(other_cluster@.0), self@.1.difference(
                other_cluster@.1,
            ).difference(self@.0.difference(other_cluster@.0))),
            r@.0.disjoint(r@.1),
    {
        let items = self.items.difference(&other_cluster.items);
        let neighbors = self.neighbors.difference(&other_cluster.neighbors);
        Cluster::new(items, neighbors)
    }

    /// Members common to both clusters, with their common neighbors.
    pub fn intersection(self, other_cluster: &Cluster) -> (r: Cluster)
        ensures
            r@ == (self@.0.intersect(other_cluster@.0), self@.1.intersect(
                other_cluster@.1,
            ).difference(self@.0.intersect(other_cluster@.0))),
            r@.0.disjoint(r@.1),
    {
        let items = self.items.intersection(&other_cluster.items);
        let neighbors = self.neighbors.intersection(&other_cluster.neighbors);
        Cluster::new(items, neighbors)
    }

    /// Makes `item` a member; it stops being a neighbor.
    pub fn add_item(&mut self, item: String)
        ensures
            final(self)@ == (old(self)@.0.insert(item@), old(self)@.1.remove(item@)),
            final(self)@.0.disjoint(final(self)@.1),
    {
        let mut items = self.items.clone();
        let mut neighbors = self.neighbors.clone();
        neighbors.remove(&item);
        items.insert(item);
        proof {
            use_type_invariant(&*self);
        }
        *self = Cluster { items, neighbors };
    }

    /// Adds a neighbor, unless it is a member.
    pub fn add_neighbor(&mut self, neighbor: String)
        ensures
            old(self)@.0.contains(neighbor@) ==> final(self)@ == old(self)@,
            !old(self)@.0.contains(neighbor@) ==> final(self)@ == (old(self)@.0, old(self)@.1.insert(
                neighbor@,
            )),
            final(self)@.0.disjoint(final(self)@.1),
    {
        proof {
            use_type_invariant(&*self);
        }
        if self.items.contains(neighbor.clone()) {
            return ;
        }
        let items = self.items.clone();
        let mut neighbors = self.neighbors.clone();
        neighbors.insert(neighbor);
        *self = Cluster { items, neighbors };
    }

    /// Two clusters with the same members have the same id.
    pub proof fn lemma_id_determinism(&self, other: &Cluster)
        requires
            self@.0 == other@.0,
        ensures
            group_id(self@.0) == group_id(other@.0),
    {
    }

    /// The members in increasing order, joined with `-`.
    pub fn get_id(&self) -> (r: String)
        ensures
            r@ == group_id(self@.0),
    {
        let values = self.items.to_vec();
        let sorted = sort_ids(values);
        proof {
            lemma_sorted_ids_of(views(sorted@));
        }
        join_ids(&sorted)
    }

    pub fn get_neighbors(&self) -> (r: Vec<String>)
        ensures
            views(r@).to_set() == self@.1,
            views(r@).no_duplicates(),
    {
        self.neighbors.to_vec()
    }

    pub fn get_items(&self) -> (r: Vec<String>)
        ensures
            views(r@).to_set() == self@.0,
            views(r@).no_duplicates(),
    {
        self.items.to_vec()
    }

    /// Both sets of a cluster are finite.
    pub proof fn lemma_finite(&self)
        ensures
            self@.0.finite(),
            self@.1.finite(),
    {
        self.items.lemma_finite();
        self.neighbors.lemma_finite();
    }

    pub fn items_ref(&self) -> (r: &VecSet<String>)
        ensures
            r@ == self@.0,
    {
        &self.items
    }

    pub fn neighbors_ref(&self) -> (r: &VecSet<String>)
        ensures
            r@ == self@.1,
    {
        &self.neighbors
    }

    /// The number of members.
    pub fn size(&self) -> (r: usize)
        ensures
            r == self@.0.len(),
    {
        self.items.len()
    }

    /// Same members and same neighbors.
    pub fn same_cluster(&self, other: &Cluster) -> (r: bool)
        ensures
            r == (self@ == other@),
    {
        self.items.set_eq(&other.items) && self.neighbors.set_eq(&other.neighbors)
    }

    /// True when the two clusters have at least one neighbor in common.
    pub fn shares_neighbor(&self, other: &Cluster) -> (r: bool)
        ensures
            r == !self@.1.disjoint(other@.1),
    {
        let common = self.neighbors.intersection(&other.neighbors);
        proof {
            common.lemma_finite();
            lemma_nonempty_len(common@);
            if !self@.1.disjoint(other@.1) {
                let x = choose|x: Seq<char>| self@.1.contains(x) && other@.1.contains(x);
                assert(common@.contains(x));
            }
        }
        common.len() > 0
    }
}

impl Clone for Cluster {
    fn clone(&self) -> (r: Self)
        ensures
            r@ == self@,
    {
        proof {
            use_type_invariant(self);
        }
        Cluster { items: self.items.clone(), neighbors: self.neighbors.clone() }
    }
}

impl SetItem for Cluster {
    fn same(&self, other: &Self) -> (r: bool) {
        self.same_cluster(other)
    }

    fn duplicate(&self) -> (r: Self) {
        self.clone()
    }
}

impl PartialEq for Cluster {
    fn eq(&self, other: &Self) -> (r: bool) {
        self.same_cluster(other)
    }
}

impl vstd::std_specs::cmp::PartialEqSpecImpl for Cluster {
    open spec fn obeys_eq_spec() -> bool {
        true
    }

    open spec fn eq_spec(&self, other: &Self) -> bool {
        self@ == other@
    }
}

/// Positions `a` and `b` of `cs` hold two different clusters that share a
/// neighbor.
pub open spec fn comparison_pair(cs: Seq<(Set<Seq<char>>, Set<Seq<char>>)>, a: int, b: int) -> bool {
    0 <= a < cs.len() && 0 <= b < cs.len() && cs[a] != cs[b] && !cs[a].1.disjoint(cs[b].1)
}

spec fn compared_before(
    cs: Seq<(Set<Seq<char>>, Set<Seq<char>>)>,
    p: Set<Seq<char>>,
    lim_a: int,
    lim_b: int,
) -> bool {
    exists|a: int, b: int|
        (a < lim_a || (a == lim_a && b < lim_b)) && #[trigger] comparison_pair(cs, a, b) && p
            == set![group_id(cs[a].0), group_id(cs[b].0)]
}

/// The unordered pairs of ids of clusters that should be compared: every two
/// different clusters with a neighbor in common.
pub fn generate_comparison_set(clusters: &Vec<Cluster>) -> (r: VecSet<UnorderedTuple<String>>)
    ensures
        r@ == Set::new(
            |p: Set<Seq<char>>|
                exists|a: int, b: int|
                    comparison_pair(views(clusters@), a, b) && p == set![
                        group_id(views(clusters@)[a].0),
                        group_id(views(clusters@)[b].0),
                    ],
        ),
{
    let ghost cs = views(clusters@);
    let mut comparison_set: VecSet<UnorderedTuple<String>> = VecSet::new();
    let mut i: usize = 0;
    while i < clusters.len()
        invariant
            cs == views(clusters@),
            i <= clusters.len(),
            comparison_set@ == Set::new(|p: Set<Seq<char>>| compared_before(cs, p, i as int, 0)),
        decreases clusters.len() - i,
    {
        let cluster = &clusters[i];
        let mut j: usize = 0;
        while j < clusters.len()
            invariant
                cs == views(clusters@),
                i < clusters.len(),
                j <= clusters.len(),
                cluster@ == cs[i as int],
                comparison_set@ == Set::new(|p: Set<Seq<char>>| compared_before(cs, p, i as int, j as int)),
            decreases clusters.len() - j,
        {
            let comparison_cluster = &clusters[j];
            let ghost before = comparison_set@;
            if !cluster.same_cluster(comparison_cluster) && cluster.shares_neighbor(
                comparison_cluster,
            ) {
                let t = UnorderedTuple { one: cluster.get_id(), two: comparison_cluster.get_id() };
                comparison_set.insert(t);
                proof {
                    assert(comparison_pair(cs, i as int, j as int));
                }
            }
            proof {
                assert(comparison_set@ =~= Set::new(
                    |p: Set<Seq<char>>| compared_before(cs, p, i as int, j + 1),
                )) by {
                    assert forall|p: Set<Seq<char>>| compared_before(cs, p, i as int, j + 1) implies #[trigger] comparison_set@.contains(p) by {
                        let (a, b) = choose|a: int, b: int|
                            (a < i || (a == i && b < j + 1)) && comparison_pair(cs, a, b) && p == set![
                                group_id(cs[a].0),
                                group_id(cs[b].0),
                            ];
                        if !(a == i && b == j) {
                            assert(compared_before(cs, p, i as int, j as int));
                        }
                    }
                    assert forall|p: Set<Seq<char>>| #[trigger] comparison_set@.contains(p) implies compared_before(cs, p, i as int, j + 1) by {
                        if before.contains(p) {
                            let (a, b) = choose|a: int, b: int|
                                (a < i || (a == i && b < j)) && comparison_pair(cs, a, b) && p == set![
                                    group_id(cs[a].0),
                                    group_id(cs[b].0),
                                ];
                            assert(compared_before(cs, p, i as int, j + 1));
                        } else {
                            assert(comparison_pair(cs, i as int, j as int));
                        }
                    }
                }
            }
            j += 1;
        }
        proof {
            assert(comparison_set@ =~= Set::new(|p: Set<Seq<char>>| compared_before(cs, p, i + 1, 0))) by {
                assert forall|p: Set<Seq<char>>| compared_before(cs, p, i + 1, 0) implies #[trigger] comparison_set@.contains(p) by {
                    let (a, b) = choose|a: int, b: int|
                        (a < i + 1 || (a == i + 1 && b < 0)) && comparison_pair(cs, a, b) && p == set![
                            group_id(cs[a].0),
                            group_id(cs[b].0),
                        ];
                    assert(compared_before(cs, p, i as int, clusters.len() as int));
                }
                assert forall|p: Set<Seq<char>>| #[trigger] comparison_set@.contains(p) implies compared_before(cs, p, i + 1, 0) by {
                    let (a, b) = choose|a: int, b: int|
                        (a < i || (a == i && b < clusters.len())) && comparison_pair(cs, a, b) && p == set![
                            group_id(cs[a].0),
                            group_id(cs[b].0),
                        ];
                }
            }
        }
        i += 1;
    }
    proof {
        assert(comparison_set@ =~= Set::new(
            |p: Set<Seq<char>>|
                exists|a: int, b: int|
                    comparison_pair(views(clusters@), a, b) && p == set![
                        group_id(views(clusters@)[a].0),
                        group_id(views(clusters@)[b].0),
                    ],
        )) by {
            assert forall|p: Set<Seq<char>>| #[trigger] comparison_set@.contains(p) implies exists|a: int, b: int|
                    comparison_pair(views(clusters@), a, b) && p == set![
                        group_id(views(clusters@)[a].0),
                        group_id(views(clusters@)[b].0),
                    ] by {
                let (a, b) = choose|a: int, b: int|
                    (a < i || (a == i && b < 0)) && comparison_pair(cs, a, b) && p == set![
                        group_id(cs[a].0),
                        group_id(cs[b].0),
                    ];
            }
            assert forall|p: Set<Seq<char>>| (exists|a: int, b: int|
                    comparison_pair(views(clusters@), a, b) && p == set![
                        group_id(views(clusters@)[a].0),
                        group_id(views(clusters@)[b].0),
                    ]) implies #[trigger] comparison_set@.contains(p) by {
                let (a, b) = choose|a: int, b: int|
                    comparison_pair(views(clusters@), a, b) && p == set![
                        group_id(views(clusters@)[a].0),
                        group_id(views(clusters@)[b].0),
                    ];
                assert(compared_before(cs, p, i as int, 0));
            }
        }
    }
    comparison_set
}

} // verus!
