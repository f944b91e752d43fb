//! Candidate power edges and the rules that process them.

use vstd::prelude::*;

use crate::clusters::Cluster;
use crate::edge_repository::induced;
use crate::ids::group_id;
use crate::power::{
    ClusterView, EdgeSet, PowerEdge, PowerNode, overlaps_partially, proper_subset, spans_biclique,
    spans_clique,
};
use crate::sets::views;

verus! {

/// `a` and `b` meet and neither lies strictly inside the other.
pub open spec fn overlaps_unevenly(a: Set<Seq<char>>, b: Set<Seq<char>>) -> bool {
    !a.disjoint(b) && !proper_subset(a, b) && !proper_subset(b, a)
}

/// The cluster of `a`'s members outside `b`, with the neighbors that `b`
/// lacks (as `Cluster::difference` builds it).
pub open spec fn cluster_minus(a: ClusterView, b: ClusterView) -> ClusterView {
    (a.0.difference(b.0), a.1.difference(b.1).difference(a.0.difference(b.0)))
}

/// The cluster of members and neighbors common to `a` and `b` (as
/// `Cluster::intersection` builds it).
pub open spec fn cluster_meet(a: ClusterView, b: ClusterView) -> ClusterView {
    (a.0.intersect(b.0), a.1.intersect(b.1).difference(a.0.intersect(b.0)))
}

/// A candidate as `(from, to, doubled size)`.
pub type CandidateView = (ClusterView, ClusterView, u128);

/// A candidate made by splitting another: its size is recomputed from its
/// clusters' sizes.
pub open spec fn derived(f: ClusterView, t: ClusterView) -> CandidateView {
    (f, t, (2 * (f.0.len() + t.0.len())) as u128)
}

/// The edges among the members of two clusters together.
pub open spec fn edge_block(e: EdgeSet, a: Set<Seq<char>>, b: Set<Seq<char>>) -> EdgeSet {
    induced(e, a.union(b))
}

/// A possible power edge between two clusters, with its priority. The
/// priority is kept doubled so that half of an edge count stays exact.
#[derive(Debug)]
pub struct PowerEdgeCandidate {
    from: Cluster,
    to: Cluster,
    doubled_size: u128,
}

impl View for PowerEdgeCandidate {
    type V = CandidateView;

    closed spec fn view(&self) -> CandidateView {
        (self.from@, self.to@, self.doubled_size)
    }
}

impl PowerEdgeCandidate {
    pub fn new(from: Cluster, to: Cluster, doubled_size: u128) -> (r: PowerEdgeCandidate)
        ensures
            r@ == (from@, to@, doubled_size),
    {
        PowerEdgeCandidate { from, to, doubled_size }
    }

    /// A candidate from `from` to `to` whose size is the sum of their sizes.
    pub fn derived(from: Cluster, to: Cluster) -> (r: PowerEdgeCandidate)
        ensures
            r@ == derived(from@, to@),
    {
        let doubled_size = 2 * (from.size() as u128 + to.size() as u128);
        PowerEdgeCandidate { from, to, doubled_size }
    }

    pub fn get_from(&self) -> (r: &Cluster)
        ensures
            r@ == self@.0,
    {
        &self.from
    }

    pub fn get_to(&self) -> (r: &Cluster)
        ensures
            r@ == self@.1,
    {
        &self.to
    }

    /// The candidate's clusters have finite sets.
    pub proof fn lemma_finite(&self)
        ensures
            self@.0.0.finite(),
            self@.0.1.finite(),
            self@.1.0.finite(),
            self@.1.1.finite(),
    {
        self.from.lemma_finite();
        self.to.lemma_finite();
    }

    /// Twice the candidate's priority.
    pub fn doubled_size(&self) -> (r: u128)
        ensures
            r == self@.2,
    {
        self.doubled_size
    }

    /// Same clusters and same size.
    pub fn same_candidate(&self, other: &PowerEdgeCandidate) -> (r: bool)
        ensures
            r == (self@ == other@),
    {
        self.doubled_size == other.doubled_size && self.from.same_cluster(&other.from)
            && self.to.same_cluster(&other.to)
    }
}

impl Clone for PowerEdgeCandidate {
    fn clone(&self) -> (r: Self)
        ensures
            r@ == self@,
    {
        PowerEdgeCandidate {
            from: self.from.clone(),
            to: self.to.clone(),
            doubled_size: self.doubled_size,
        }
    }
}

impl PartialEq for PowerEdgeCandidate {
    fn eq(&self, other: &Self) -> (r: bool) {
        self.same_candidate(other)
    }
}

impl vstd::std_specs::cmp::PartialEqSpecImpl for PowerEdgeCandidate {
    open spec fn obeys_eq_spec() -> bool {
        true
    }

    open spec fn eq_spec(&self, other: &Self) -> bool {
        self@ == other@
    }
}

/// What processing one candidate yields.
#[derive(Debug)]
pub enum PowerEdgeCandidateProcessorOutput {
    NewPowerEdgeCandidate(PowerEdgeCandidate),
    NewPowerNode(PowerNode),
    NewPowerEdge(PowerEdge),
}

/// `o` is the candidate `c`.
pub open spec fn out_candidate(o: PowerEdgeCandidateProcessorOutput, c: CandidateView) -> bool {
    match o {
        PowerEdgeCandidateProcessorOutput::NewPowerEdgeCandidate(x) => x@ == c,
        _ => false,
    }
}

/// `o` is the power node `p`.
pub open spec fn out_node(o: PowerEdgeCandidateProcessorOutput, p: (Seq<char>, ClusterView)) -> bool {
    match o {
        PowerEdgeCandidateProcessorOutput::NewPowerNode(x) => x@ == p,
        _ => false,
    }
}

/// `o` is the power edge `e`.
pub open spec fn out_edge(o: PowerEdgeCandidateProcessorOutput, e: (Seq<char>, Seq<char>)) -> bool {
    match o {
        PowerEdgeCandidateProcessorOutput::NewPowerEdge(x) => x@ == e,
        _ => false,
    }
}

/// Power node `i` of `pn` overlaps the candidate's source partially, and no
/// earlier one does.
pub open spec fn first_from_split(pn: Seq<(Seq<char>, ClusterView)>, f: ClusterView, i: int) -> bool {
    0 <= i < pn.len() && overlaps_partially(f.0, pn[i].1.0) && forall|j: int|
        0 <= j < i ==> !overlaps_partially(f.0, #[trigger] pn[j].1.0)
}

/// Power node `i` of `pn` overlaps the candidate's target unevenly, and no
/// earlier one does.
pub open spec fn first_to_split(pn: Seq<(Seq<char>, ClusterView)>, t: ClusterView, i: int) -> bool {
    0 <= i < pn.len() && overlaps_unevenly(t.0, pn[i].1.0) && forall|j: int|
        0 <= j < i ==> !overlaps_unevenly(t.0, #[trigger] pn[j].1.0)
}

pub open spec fn no_from_split(pn: Seq<(Seq<char>, ClusterView)>, f: ClusterView) -> bool {
    forall|j: int| 0 <= j < pn.len() ==> !overlaps_partially(f.0, #[trigger] pn[j].1.0)
}

pub open spec fn no_to_split(pn: Seq<(Seq<char>, ClusterView)>, t: ClusterView) -> bool {
    forall|j: int| 0 <= j < pn.len() ==> !overlaps_unevenly(t.0, #[trigger] pn[j].1.0)
}

/// The edges among the members of the two ends of power edge `k`.
pub open spec fn power_edge_block(
    e: EdgeSet,
    repo: Map<Seq<char>, ClusterView>,
    pe: Seq<(Seq<char>, Seq<char>)>,
    k: int,
) -> EdgeSet {
    edge_block(e, repo[pe[k].0].0, repo[pe[k].1].0)
}

/// Power edge `k` covers some edge that the candidate `(f, t)` covers.
pub open spec fn conflicts(
    e: EdgeSet,
    repo: Map<Seq<char>, ClusterView>,
    pe: Seq<(Seq<char>, Seq<char>)>,
    f: ClusterView,
    t: ClusterView,
    k: int,
) -> bool {
    !edge_block(e, f.0, t.0).disjoint(power_edge_block(e, repo, pe, k))
}

/// Power edge `k` conflicts with the candidate without covering all of its
/// edges, and one end of the candidate lies strictly inside one end of it.
pub open spec fn shrinks(
    e: EdgeSet,
    repo: Map<Seq<char>, ClusterView>,
    pe: Seq<(Seq<char>, Seq<char>)>,
    f: ClusterView,
    t: ClusterView,
    k: int,
) -> bool {
    let s = repo[pe[k].0];
    let u = repo[pe[k].1];
    conflicts(e, repo, pe, f, t, k) && !proper_subset(
        edge_block(e, f.0, t.0),
        power_edge_block(e, repo, pe, k),
    ) && (proper_subset(f.0, s.0) || proper_subset(f.0, u.0) || proper_subset(t.0, s.0)
        || proper_subset(t.0, u.0))
}

/// The candidate that conflicting power edge `k` shrinks `(f, t)` to.
pub open spec fn shrunk(
    repo: Map<Seq<char>, ClusterView>,
    pe: Seq<(Seq<char>, Seq<char>)>,
    f: ClusterView,
    t: ClusterView,
    k: int,
) -> CandidateView {
    let s = repo[pe[k].0];
    let u = repo[pe[k].1];
    if proper_subset(f.0, s.0) {
        derived(f, cluster_minus(t, u))
    } else if proper_subset(f.0, u.0) {
        derived(f, cluster_minus(t, s))
    } else if proper_subset(t.0, s.0) {
        derived(cluster_minus(f, u), t)
    } else {
        derived(cluster_minus(f, s), t)
    }
}

/// One end of a candidate lies within the same end of `c`, member-wise and
/// neighbor-wise.
pub open spec fn within(a: ClusterView, b: ClusterView) -> bool {
    a.0.subset_of(b.0) && a.1.subset_of(b.1)
}

/// The candidates among the outputs for `c` are split from `c`: at most two,
/// first in the list, each within `c` and sized from its clusters, and when
/// there are two the first is strictly smaller at one end.
pub open spec fn outputs_split_from(r: Seq<PowerEdgeCandidateProcessorOutput>, c: CandidateView) -> bool {
    &&& forall|q: int| #![trigger r[q]]
        0 <= q < r.len() ==> match r[q] {
            PowerEdgeCandidateProcessorOutput::NewPowerEdgeCandidate(x) => q < 2 && within(x@.0, c.0)
                && within(x@.1, c.1) && x@ == derived(x@.0, x@.1),
            _ => true,
        }
    &&& (r.len() >= 2 && r[1] is NewPowerEdgeCandidate) ==> match r[0] {
        PowerEdgeCandidateProcessorOutput::NewPowerEdgeCandidate(x) => proper_subset(x@.0.0, c.0.0)
            || proper_subset(x@.1.0, c.1.0),
        _ => false,
    }
}

/// Every power edge among the outputs is preceded by power nodes named by
/// its two ends.
pub open spec fn edges_follow_nodes(r: Seq<PowerEdgeCandidateProcessorOutput>) -> bool {
    forall|q: int| #![trigger r[q]]
        0 <= q < r.len() ==> match r[q] {
            PowerEdgeCandidateProcessorOutput::NewPowerEdge(e) => (exists|q1: int|
                0 <= q1 < q && out_node_named(r[q1], e@.0)) && (exists|q2: int|
                0 <= q2 < q && out_node_named(r[q2], e@.1)),
            _ => true,
        }
}

/// Every power node among the outputs leaves the power nodes `pn` alone:
/// it overlaps none of them partially.
pub open spec fn nodes_fit(r: Seq<PowerEdgeCandidateProcessorOutput>, pn: Seq<(Seq<char>, ClusterView)>) -> bool {
    forall|q: int, j: int| #![trigger r[q], pn[j]]
        0 <= q < r.len() && 0 <= j < pn.len() ==> match r[q] {
            PowerEdgeCandidateProcessorOutput::NewPowerNode(p) => !overlaps_partially(p@.1.0, pn[j].1.0),
            _ => true,
        }
}

/// Two power nodes among the outputs come first, nested or disjoint,
/// followed by the power edge between them.
pub open spec fn node_pairs_joined(r: Seq<PowerEdgeCandidateProcessorOutput>) -> bool {
    forall|q1: int, q2: int| #![trigger r[q1], r[q2]]
        0 <= q1 < q2 < r.len() && r[q1] is NewPowerNode && r[q2] is NewPowerNode ==> q1 == 0 && q2
            == 1 && r.len() == 3 && match (r[0], r[1], r[2]) {
            (
                PowerEdgeCandidateProcessorOutput::NewPowerNode(a),
                PowerEdgeCandidateProcessorOutput::NewPowerNode(b),
                PowerEdgeCandidateProcessorOutput::NewPowerEdge(e),
            ) => e@ == (a@.0, b@.0) && !overlaps_partially(a@.1.0, b@.1.0),
            _ => false,
        }
}

/// Every power edge among the outputs for `c` joins `c`'s two ends, whose
/// power nodes come first among the outputs.
pub open spec fn edges_join_ends(r: Seq<PowerEdgeCandidateProcessorOutput>, c: CandidateView) -> bool {
    forall|q: int| #![trigger r[q]]
        0 <= q < r.len() ==> match r[q] {
            PowerEdgeCandidateProcessorOutput::NewPowerEdge(e) => e@ == (group_id(c.0.0), group_id(c.1.0))
                && r.len() >= 2 && out_node(r[0], (group_id(c.0.0), c.0)) && (out_node(
                r[0],
                (group_id(c.1.0), c.1),
            ) || out_node(r[1], (group_id(c.1.0), c.1))),
            _ => true,
        }
}

/// `o` is a power node with id `id`.
pub open spec fn out_node_named(o: PowerEdgeCandidateProcessorOutput, id: Seq<char>) -> bool {
    match o {
        PowerEdgeCandidateProcessorOutput::NewPowerNode(x) => x@.0 == id,
        _ => false,
    }
}

/// The position of the candidate with the largest size; among equal sizes,
/// the last one.
pub(crate) fn index_of_largest(candidates: &Vec<PowerEdgeCandidate>) -> (r: usize)
    requires
        candidates.len() > 0,
    ensures
        r < candidates.len(),
        forall|i: int| 0 <= i < candidates.len() ==> candidates@[i]@.2 <= candidates@[r as int]@.2,
        forall|i: int| r < i < candidates.len() ==> candidates@[i]@.2 < candidates@[r as int]@.2,
{
    let mut best: usize = 0;
    let mut i: usize = 1;
    while i < candidates.len()
        invariant
            best < i <= candidates.len(),
            forall|j: int| 0 <= j < i ==> candidates@[j]@.2 <= candidates@[best as int]@.2,
            forall|j: int| best < j < i ==> candidates@[j]@.2 < candidates@[best as int]@.2,
        decreases candidates.len() - i,
    {
        if candidates[i].doubled_size() >= candidates[best].doubled_size() {
            best = i;
        }
        i += 1;
    }
    best
}

/// True when `candidates` holds a candidate equal to `candidate`.
pub(crate) fn contains_candidate(candidates: &Vec<PowerEdgeCandidate>, candidate: &PowerEdgeCandidate) -> (r:
    bool)
    ensures
        r == views(candidates@).contains(candidate@),
{
    let mut i: usize = 0;
    while i < candidates.len()
        invariant
            i <= candidates.len(),
            forall|j: int| 0 <= j < i ==> candidates@[j]@ != candidate@,
        decreases candidates.len() - i,
    {
        if candidates[i].same_candidate(candidate) {
            assert(views(candidates@)[i as int] == candidate@);
            return true;
        }
        i += 1;
    }
    proof {
        if views(candidates@).contains(candidate@) {
            let j = choose|j: int| 0 <= j < views(candidates@).len() && views(candidates@)[j] == candidate@;
            assert(candidates@[j]@ == candidate@);
        }
    }
    false
}

/// The biclique candidate from `x` to `y`, sized by its edge count.
pub open spec fn biclique_candidate(e: EdgeSet, x: ClusterView, y: ClusterView) -> CandidateView {
    (x, y, (2 * induced(e, x.0.union(y.0)).len()) as u128)
}

/// The clique candidate on `x`, sized by half of its edge count.
pub open spec fn clique_candidate(e: EdgeSet, x: ClusterView) -> CandidateView {
    (x, x, induced(e, x.0.union(x.0)).len() as u128)
}

/// `c` is a candidate that the pair `(x, y)` gives: a biclique between
/// disjoint clusters or a clique on one cluster.
pub open spec fn generated(e: EdgeSet, x: ClusterView, y: ClusterView, c: CandidateView) -> bool {
    (x.0.disjoint(y.0) && spans_biclique(e, x.0, y.0) && c == biclique_candidate(e, x, y)) || (x
        == y && spans_clique(e, x.0, y.0) && c == clique_candidate(e, x))
}

/// `c` is a candidate that some pair of the clusters `vals` gives.
pub open spec fn generated_from(e: EdgeSet, vals: Set<ClusterView>, c: CandidateView) -> bool {
    exists|x: ClusterView, y: ClusterView|
        vals.contains(x) && vals.contains(y) && #[trigger] generated(e, x, y, c)
}

} // verus!
