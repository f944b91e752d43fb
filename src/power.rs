//! Power nodes, power edges, and what it means for them to cover a graph.

use vstd::prelude::*;

use crate::clusters::Cluster;
use crate::ids::group_id;

verus! {

/// A cluster seen as its `(items, neighbors)`.
pub type ClusterView = (Set<Seq<char>>, Set<Seq<char>>);

/// A set of directed edges seen as `(from, to)` pairs.
pub type EdgeSet = Set<(Seq<char>, Seq<char>)>;

/// `u` and `w` are joined by an edge in one direction or the other.
pub open spec fn linked(e: EdgeSet, u: Seq<char>, w: Seq<char>) -> bool {
    e.contains((u, w)) || e.contains((w, u))
}

/// Every member of `a` is linked to every member of `b`.
pub open spec fn spans_biclique(e: EdgeSet, a: Set<Seq<char>>, b: Set<Seq<char>>) -> bool {
    forall|u: Seq<char>, w: Seq<char>| a.contains(u) && b.contains(w) ==> #[trigger] linked(e, u, w)
}

/// Every member of `a` is linked to every different member of `b`.
pub open spec fn spans_clique(e: EdgeSet, a: Set<Seq<char>>, b: Set<Seq<char>>) -> bool {
    forall|u: Seq<char>, w: Seq<char>|
        a.contains(u) && b.contains(w) && u != w ==> #[trigger] linked(e, u, w)
}

/// All pairs with the first element in `a` and the second in `b`.
pub open spec fn cartesian(a: Set<Seq<char>>, b: Set<Seq<char>>) -> EdgeSet {
    Set::new(|p: (Seq<char>, Seq<char>)| a.contains(p.0) && b.contains(p.1))
}

/// Some power node of `pn` has identifier `id`.
pub open spec fn has_id(pn: Seq<(Seq<char>, ClusterView)>, id: Seq<char>) -> bool {
    exists|i: int| 0 <= i < pn.len() && pn[i].0 == id
}

/// The position of the first power node of `pn` with identifier `id`.
pub open spec fn first_with_id(pn: Seq<(Seq<char>, ClusterView)>, id: Seq<char>) -> int {
    choose|i: int|
        0 <= i < pn.len() && pn[i].0 == id && forall|j: int| 0 <= j < i ==> pn[j].0 != id
}

pub proof fn lemma_first_with_id(pn: Seq<(Seq<char>, ClusterView)>, id: Seq<char>, i: int)
    requires
        0 <= i < pn.len(),
        pn[i].0 == id,
        forall|j: int| 0 <= j < i ==> pn[j].0 != id,
    ensures
        first_with_id(pn, id) == i,
{
    let k = first_with_id(pn, id);
    assert(0 <= k < pn.len() && pn[k].0 == id && forall|j: int| 0 <= j < k ==> pn[j].0 != id);
}

/// The edges that a power edge from `s` to `t` stands for: every pair of a
/// member of the first power node named `s` with a member of the first one
/// named `t`.
#[verifier::opaque]
pub open spec fn expansion(pn: Seq<(Seq<char>, ClusterView)>, s: Seq<char>, t: Seq<char>) -> EdgeSet {
    cartesian(pn[first_with_id(pn, s)].1.0, pn[first_with_id(pn, t)].1.0)
}

/// A group of nodes that the compressed graph treats as one. Its view is
/// `(id, (items, neighbors))`; the id is always the cluster's id.
#[derive(Debug)]
pub struct PowerNode {
    id: String,
    cluster: Cluster,
}

impl View for PowerNode {
    type V = (Seq<char>, ClusterView);

    closed spec fn view(&self) -> (Seq<char>, ClusterView) {
        (self.id@, self.cluster@)
    }
}

impl PowerNode {
    #[verifier::type_invariant]
    spec fn named_by_members(self) -> bool {
        self.id@ == group_id(self.cluster@.0)
    }

    pub fn new(cluster: Cluster) -> (r: PowerNode)
        ensures
            r@ == (group_id(cluster@.0), cluster@),
    {
        PowerNode { id: cluster.get_id(), cluster }
    }

    pub fn get_id(&self) -> (r: &String)
        ensures
            r@ == self@.0,
            r@ == group_id(self@.1.0),
    {
        proof {
            use_type_invariant(self);
        }
        &self.id
    }

    /// A power node's member and neighbor sets are finite.
    pub proof fn get_cluster_view_finite(&self)
        ensures
            self@.1.0.finite(),
            self@.1.1.finite(),
    {
        self.cluster.lemma_finite();
    }

    pub fn get_cluster(&self) -> (r: &Cluster)
        ensures
            r@ == self@.1,
            self@.0 == group_id(self@.1.0),
    {
        proof {
            use_type_invariant(self);
        }
        &self.cluster
    }
}

impl Clone for PowerNode {
    fn clone(&self) -> (r: Self)
        ensures
            r@ == self@,
    {
        proof {
            use_type_invariant(self);
        }
        PowerNode { id: self.id.clone(), cluster: self.cluster.clone() }
    }
}

/// A directed connection between two power nodes, named by their ids. Its
/// view is `(from, to)`.
#[derive(Debug)]
pub struct PowerEdge {
    from: String,
    to: String,
}

impl View for PowerEdge {
    type V = (Seq<char>, Seq<char>);

    closed spec fn view(&self) -> (Seq<char>, Seq<char>) {
        (self.from@, self.to@)
    }
}

impl PowerEdge {
    pub fn new(from: String, to: String) -> (r: PowerEdge)
        ensures
            r@ == (from@, to@),
    {
        PowerEdge { from, to }
    }

    pub fn get_from(&self) -> (r: &String)
        ensures
            r@ == self@.0,
    {
        &self.from
    }

    pub fn get_to(&self) -> (r: &String)
        ensures
            r@ == self@.1,
    {
        &self.to
    }
}

impl Clone for PowerEdge {
    fn clone(&self) -> (r: Self)
        ensures
            r@ == self@,
    {
        PowerEdge { from: self.from.clone(), to: self.to.clone() }
    }
}

impl PartialEq for PowerEdge {
    fn eq(&self, other: &Self) -> (r: bool) {
        self.from == other.from && self.to == other.to
    }
}

impl vstd::std_specs::cmp::PartialEqSpecImpl for PowerEdge {
    open spec fn obeys_eq_spec() -> bool {
        true
    }

    open spec fn eq_spec(&self, other: &Self) -> bool {
        self@ == other@
    }
}

/// `a` is strictly inside `b`.
pub open spec fn proper_subset<A>(a: Set<A>, b: Set<A>) -> bool {
    a.subset_of(b) && a != b
}

pub proof fn lemma_proper_subset<A>(a: Set<A>, b: Set<A>)
    ensures
        (a.subset_of(b) && !b.subset_of(a)) == proper_subset(a, b),
{
    if a.subset_of(b) && b.subset_of(a) {
        assert(a =~= b);
    }
}

/// `a` and `b` meet and neither contains the other.
pub open spec fn overlaps_partially(a: Set<Seq<char>>, b: Set<Seq<char>>) -> bool {
    !a.disjoint(b) && !a.subset_of(b) && !b.subset_of(a)
}

/// The power nodes at positions `i` and `j` have different members, and are
/// nested or disjoint.
pub open spec fn nodes_apart(pn: Seq<(Seq<char>, ClusterView)>, i: int, j: int) -> bool {
    pn[i].1.0 != pn[j].1.0 && !overlaps_partially(pn[i].1.0, pn[j].1.0)
}

/// No two power nodes have the same members, and any two are nested or
/// disjoint.
pub open spec fn power_nodes_nested(pn: Seq<(Seq<char>, ClusterView)>) -> bool {
    forall|i: int, j: int| 0 <= i < j < pn.len() ==> #[trigger] nodes_apart(pn, i, j)
}

/// Each power node's id is the id of its members.
pub open spec fn ids_match(pn: Seq<(Seq<char>, ClusterView)>) -> bool {
    forall|i: int| 0 <= i < pn.len() ==> #[trigger] pn[i].0 == group_id(pn[i].1.0)
}

/// Both ends of every power edge name a power node.
pub open spec fn ends_named(pn: Seq<(Seq<char>, ClusterView)>, pe: Seq<(Seq<char>, Seq<char>)>) -> bool {
    forall|k: int| 0 <= k < pe.len() ==> has_id(pn, #[trigger] pe[k].0) && has_id(pn, pe[k].1)
}

/// Naming survives appending power nodes.
pub proof fn lemma_has_id_extends(
    pn: Seq<(Seq<char>, ClusterView)>,
    more: Seq<(Seq<char>, ClusterView)>,
    id: Seq<char>,
)
    requires
        has_id(pn, id),
        pn.len() <= more.len(),
        forall|i: int| 0 <= i < pn.len() ==> more[i] == pn[i],
    ensures
        has_id(more, id),
{
    let i = choose|i: int| 0 <= i < pn.len() && pn[i].0 == id;
    assert(more[i].0 == id);
}

/// A set with at most one member overlaps no set partially.
pub proof fn lemma_small_set_nests(a: Set<Seq<char>>, b: Set<Seq<char>>)
    requires
        a.finite(),
        a.len() <= 1,
    ensures
        !overlaps_partially(a, b),
        !overlaps_partially(b, a),
{
    if !a.disjoint(b) {
        let x = choose|x: Seq<char>| a.contains(x) && b.contains(x);
        assert forall|y: Seq<char>| a.contains(y) implies y == x by {
            if y != x {
                assert(a.remove(x).contains(y));
                assert(a.remove(x).len() == a.len() - 1);
            }
        }
        assert(a.subset_of(b));
    }
    if !b.disjoint(a) {
        let x = choose|x: Seq<char>| b.contains(x) && a.contains(x);
        assert forall|y: Seq<char>| a.contains(y) implies y == x by {
            if y != x {
                assert(a.remove(x).contains(y));
                assert(a.remove(x).len() == a.len() - 1);
            }
        }
        assert(a.subset_of(b));
    }
}

pub proof fn lemma_overlap_symmetric(a: Set<Seq<char>>, b: Set<Seq<char>>)
    ensures
        overlaps_partially(a, b) == overlaps_partially(b, a),
{
    if !a.disjoint(b) {
        let x = choose|x: Seq<char>| a.contains(x) && b.contains(x);
        assert(b.contains(x) && a.contains(x));
    }
    if !b.disjoint(a) {
        let x = choose|x: Seq<char>| b.contains(x) && a.contains(x);
        assert(a.contains(x) && b.contains(x));
    }
}

/// The edge `(u, v)` is covered by the power edges `pe` over the power nodes
/// `pn`: some power edge stands for it in one direction or the other, or
/// names its two ends directly.
#[verifier::opaque]
pub open spec fn covered(
    pn: Seq<(Seq<char>, ClusterView)>,
    pe: Seq<(Seq<char>, Seq<char>)>,
    u: Seq<char>,
    v: Seq<char>,
) -> bool {
    exists|k: int| #[trigger] covers_at(pn, pe, k, u, v)
}

/// Power edge `k` covers the edge `(u, v)`: its expansion holds the edge in
/// one direction or the other, or it names the edge's two ends directly.
pub open spec fn covers_at(
    pn: Seq<(Seq<char>, ClusterView)>,
    pe: Seq<(Seq<char>, Seq<char>)>,
    k: int,
    u: Seq<char>,
    v: Seq<char>,
) -> bool {
    0 <= k < pe.len() && ((has_id(pn, pe[k].0) && has_id(pn, pe[k].1) && (expansion(
        pn,
        pe[k].0,
        pe[k].1,
    ).contains((u, v)) || expansion(pn, pe[k].0, pe[k].1).contains((v, u)))) || pe[k] == (u, v))
}

/// Coverage survives appending power edges.
pub proof fn lemma_covered_extends(
    pn: Seq<(Seq<char>, ClusterView)>,
    pe: Seq<(Seq<char>, Seq<char>)>,
    more: Seq<(Seq<char>, Seq<char>)>,
    u: Seq<char>,
    v: Seq<char>,
)
    requires
        covered(pn, pe, u, v),
        pe.len() <= more.len(),
        forall|m: int| 0 <= m < pe.len() ==> more[m] == pe[m],
    ensures
        covered(pn, more, u, v),
{
    reveal(covered);
    let m = choose|m: int| #[trigger] covers_at(pn, pe, m, u, v);
    assert(more[m] == pe[m]);
    assert(covers_at(pn, more, m, u, v));
}

/// The first power node with a given id stays first when power nodes are
/// appended.
pub proof fn lemma_first_with_id_extends(
    pn: Seq<(Seq<char>, ClusterView)>,
    more: Seq<(Seq<char>, ClusterView)>,
    id: Seq<char>,
)
    requires
        has_id(pn, id),
        pn.len() <= more.len(),
        forall|i: int| 0 <= i < pn.len() ==> more[i] == pn[i],
    ensures
        has_id(more, id),
        first_with_id(more, id) == first_with_id(pn, id),
{
    let w = choose|i: int| 0 <= i < pn.len() && pn[i].0 == id;
    let i = first_with_id(pn, id);
    assert(0 <= i < pn.len() && pn[i].0 == id && forall|j: int| 0 <= j < i ==> pn[j].0 != id) by {
        // a first position exists: take the least position holding `id`
        assert(exists|x: int| 0 <= x < pn.len() && pn[x].0 == id && forall|j: int| 0 <= j < x ==> pn[j].0 != id) by {
            lemma_least_with_id(pn, id, w);
        }
    }
    assert forall|j: int| 0 <= j < i implies more[j].0 != id by {
        assert(more[j] == pn[j]);
    }
    assert(more[i] == pn[i]);
    lemma_first_with_id(more, id, i);
}

/// Below any position holding `id` there is a least one.
proof fn lemma_least_with_id(pn: Seq<(Seq<char>, ClusterView)>, id: Seq<char>, w: int)
    requires
        0 <= w < pn.len(),
        pn[w].0 == id,
    ensures
        exists|x: int| 0 <= x < pn.len() && pn[x].0 == id && forall|j: int| 0 <= j < x ==> pn[j].0 != id,
    decreases w,
{
    if exists|j: int| 0 <= j < w && pn[j].0 == id {
        let j = choose|j: int| 0 <= j < w && pn[j].0 == id;
        lemma_least_with_id(pn, id, j);
    } else {
        assert(forall|j: int| 0 <= j < w ==> pn[j].0 != id);
    }
}

/// The expansion of a power edge whose ends name power nodes stays the same
/// when power nodes are appended.
pub proof fn lemma_expansion_extends(
    pn: Seq<(Seq<char>, ClusterView)>,
    more: Seq<(Seq<char>, ClusterView)>,
    s: Seq<char>,
    t: Seq<char>,
)
    requires
        has_id(pn, s),
        has_id(pn, t),
        pn.len() <= more.len(),
        forall|i: int| 0 <= i < pn.len() ==> more[i] == pn[i],
    ensures
        has_id(more, s),
        has_id(more, t),
        expansion(more, s, t) == expansion(pn, s, t),
{
    lemma_first_with_id_extends(pn, more, s);
    lemma_first_with_id_extends(pn, more, t);
    let fs = first_with_id(pn, s);
    let ft = first_with_id(pn, t);
    assert(0 <= fs < pn.len() && 0 <= ft < pn.len()) by {
        lemma_first_with_id_in_range(pn, s);
        lemma_first_with_id_in_range(pn, t);
    }
    assert(more[fs] == pn[fs]);
    assert(more[ft] == pn[ft]);
    reveal(expansion);
}

/// The first position with an id present lies within the sequence.
pub proof fn lemma_first_with_id_in_range(pn: Seq<(Seq<char>, ClusterView)>, id: Seq<char>)
    requires
        has_id(pn, id),
    ensures
        0 <= first_with_id(pn, id) < pn.len(),
        pn[first_with_id(pn, id)].0 == id,
{
    let w = choose|i: int| 0 <= i < pn.len() && pn[i].0 == id;
    lemma_least_with_id(pn, id, w);
}

/// Coverage survives appending power nodes.
pub proof fn lemma_covered_more_nodes(
    pn: Seq<(Seq<char>, ClusterView)>,
    more: Seq<(Seq<char>, ClusterView)>,
    pe: Seq<(Seq<char>, Seq<char>)>,
    u: Seq<char>,
    v: Seq<char>,
)
    requires
        covered(pn, pe, u, v),
        pn.len() <= more.len(),
        forall|i: int| 0 <= i < pn.len() ==> more[i] == pn[i],
    ensures
        covered(more, pe, u, v),
{
    assert(exists|m: int| #[trigger] covers_at(pn, pe, m, u, v)) by {
        reveal(covered);
    }
    let m = choose|m: int| #[trigger] covers_at(pn, pe, m, u, v);
    if pe[m] != (u, v) {
        lemma_expansion_extends(pn, more, pe[m].0, pe[m].1);
    }
    assert(covers_at(more, pe, m, u, v));
    assert(covered(more, pe, u, v)) by {
        reveal(covered);
    }
}

/// Appending a power edge adds its expansion, when both its ends name power
/// nodes.
pub proof fn lemma_expanded_push(pn: Seq<(Seq<char>, ClusterView)>, pe: Seq<(Seq<char>, Seq<char>)>, k: int)
    requires
        0 <= k < pe.len(),
    ensures
        expanded(pn, pe.subrange(0, k + 1)) == if has_id(pn, pe[k].0) && has_id(pn, pe[k].1) {
            expanded(pn, pe.subrange(0, k)).union(expansion(pn, pe[k].0, pe[k].1))
        } else {
            expanded(pn, pe.subrange(0, k))
        },
{
    let a = pe.subrange(0, k);
    let b = pe.subrange(0, k + 1);
    assert forall|p: (Seq<char>, Seq<char>)| expanded(pn, a).contains(p) implies expanded(pn, b).contains(p) by {
        let m = choose|m: int|
            0 <= m < a.len() && has_id(pn, a[m].0) && has_id(pn, a[m].1) && #[trigger] expansion(pn, a[m].0, a[m].1).contains(p);
        assert(b[m] == a[m]);
    }
    assert forall|p: (Seq<char>, Seq<char>)| expanded(pn, b).contains(p) && !expanded(pn, a).contains(p) implies
        has_id(pn, pe[k].0) && has_id(pn, pe[k].1) && expansion(pn, pe[k].0, pe[k].1).contains(p) by {
        let m = choose|m: int|
            0 <= m < b.len() && has_id(pn, b[m].0) && has_id(pn, b[m].1) && #[trigger] expansion(pn, b[m].0, b[m].1).contains(p);
        if m < k {
            assert(a[m] == b[m]);
        }
    }
    if has_id(pn, pe[k].0) && has_id(pn, pe[k].1) {
        assert forall|p: (Seq<char>, Seq<char>)| expansion(pn, pe[k].0, pe[k].1).contains(p) implies expanded(pn, b).contains(p) by {
            assert(b[k] == pe[k]);
        }
        assert(expanded(pn, b) =~= expanded(pn, a).union(expansion(pn, pe[k].0, pe[k].1)));
    } else {
        assert(expanded(pn, b) =~= expanded(pn, a));
    }
}

/// Power edge `k` names two power nodes whose members are linked in the
/// graph `e`, every member of one to every other member of the other.
pub open spec fn edge_linked(
    e: EdgeSet,
    pn: Seq<(Seq<char>, ClusterView)>,
    pe: Seq<(Seq<char>, Seq<char>)>,
    k: int,
) -> bool {
    exists|i: int, j: int|
        0 <= i < pn.len() && 0 <= j < pn.len() && pn[i].0 == pe[k].0 && pn[j].0 == pe[k].1
            && #[trigger] spans_clique(e, pn[i].1.0, pn[j].1.0)
}

/// Linked power edges stay linked when power nodes are appended.
pub proof fn lemma_edge_linked_extends(
    e: EdgeSet,
    pn: Seq<(Seq<char>, ClusterView)>,
    more: Seq<(Seq<char>, ClusterView)>,
    pe: Seq<(Seq<char>, Seq<char>)>,
    pe2: Seq<(Seq<char>, Seq<char>)>,
    k: int,
)
    requires
        edge_linked(e, pn, pe, k),
        pn.len() <= more.len(),
        forall|i: int| 0 <= i < pn.len() ==> more[i] == pn[i],
        0 <= k < pe.len(),
        k < pe2.len(),
        pe2[k] == pe[k],
    ensures
        edge_linked(e, more, pe2, k),
{
    let (i, j) = choose|i: int, j: int|
        0 <= i < pn.len() && 0 <= j < pn.len() && pn[i].0 == pe[k].0 && pn[j].0 == pe[k].1
            && #[trigger] spans_clique(e, pn[i].1.0, pn[j].1.0);
    assert(more[i] == pn[i] && more[j] == pn[j]);
}

/// Some power node of `pn` has exactly the one member `x`.
pub open spec fn has_singleton(pn: Seq<(Seq<char>, ClusterView)>, x: Seq<char>) -> bool {
    exists|j: int| 0 <= j < pn.len() && #[trigger] pn[j].1.0 == set![x]
}

/// `items` is the singleton of one end of an edge of `e`.
pub open spec fn singleton_of_edge_end(e: EdgeSet, items: Set<Seq<char>>) -> bool {
    exists|u: Seq<char>, v: Seq<char>|
        #![trigger e.contains((u, v))]
        e.contains((u, v)) && (items == set![u] || items == set![v])
}

/// The edges that the power edges `pe` stand for, over the power nodes `pn`.
pub open spec fn expanded(pn: Seq<(Seq<char>, ClusterView)>, pe: Seq<(Seq<char>, Seq<char>)>) -> EdgeSet {
    Set::new(
        |p: (Seq<char>, Seq<char>)|
            exists|m: int|
                0 <= m < pe.len() && has_id(pn, pe[m].0) && has_id(pn, pe[m].1) && #[trigger] expansion(
                    pn,
                    pe[m].0,
                    pe[m].1,
                ).contains(p),
    )
}

/// A power edge whose expansion holds `(u, v)` or `(v, u)` covers it.
pub proof fn lemma_covered_by(
    pn: Seq<(Seq<char>, ClusterView)>,
    pe: Seq<(Seq<char>, Seq<char>)>,
    m: int,
    u: Seq<char>,
    v: Seq<char>,
)
    requires
        0 <= m < pe.len(),
        has_id(pn, pe[m].0),
        has_id(pn, pe[m].1),
        expansion(pn, pe[m].0, pe[m].1).contains((u, v)) || expansion(pn, pe[m].0, pe[m].1).contains((v, u)),
    ensures
        covered(pn, pe, u, v),
{
    reveal(covered);
    assert(covers_at(pn, pe, m, u, v));
}

} // verus!
