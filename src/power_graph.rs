//! The decomposition engine.

use vstd::prelude::*;

use crate::candidates::{
    CandidateView, PowerEdgeCandidate, PowerEdgeCandidateProcessorOutput, biclique_candidate,
    edges_join_ends,
    clique_candidate, cluster_meet, cluster_minus, conflicts, contains_candidate, derived,
    edge_block, edges_follow_nodes, first_from_split, first_to_split, generated, generated_from,
    index_of_largest, no_from_split, no_to_split, node_pairs_joined, nodes_fit, out_candidate,
    out_edge, out_node, out_node_named, outputs_split_from, overlaps_unevenly, power_edge_block,
    shrinks, shrunk,
};
use crate::cluster_repository::ClusterRepository;
use crate::clusters::{shared_neighbors, Cluster, Similarity};
use crate::combinations::{index_pairs, index_pairs_with_replacement, product};
use crate::edge_repository::{EdgeRepository, induced};
use crate::graph::{Edge, Node};
use crate::ids::{group_id, lemma_group_id_single, lemma_single_seq_set};
use crate::power::{
    ClusterView, EdgeSet, PowerEdge, PowerNode, cartesian, covered, expansion, first_with_id,
    has_id, lemma_covered_by, lemma_covered_extends, lemma_first_with_id, lemma_overlap_symmetric,
    lemma_proper_subset, lemma_small_set_nests, linked, nodes_apart, overlaps_partially,
    ends_named, ids_match, lemma_has_id_extends, expanded, lemma_covered_more_nodes,
    singleton_of_edge_end, lemma_expanded_push, has_singleton, covers_at, edge_linked,
    lemma_edge_linked_extends,
    power_nodes_nested, spans_biclique, spans_clique,
};
use crate::sets::{VecSet, views};
use crate::similarity_matrix::SimilarityMatrix;
use crate::unordered_tuple::UnorderedTuple;
use crate::worklist::{
    child_bound, lemma_child_bound, lemma_potential_done_grows, lemma_potential_push,
    lemma_potential_remove, potential,
};

verus! {

/// An edge from each of `source_items` to each of `target_items`, each once.
fn pair_edges(source_items: &Vec<String>, target_items: &Vec<String>) -> (edges: Vec<Edge>)
    ensures
        views(edges@).to_set() == cartesian(views(source_items@).to_set(), views(target_items@).to_set()),
        views(edges@).no_duplicates(),
{
    let pairs = product(source_items, target_items);
    let mut collected: VecSet<Edge> = VecSet::new();
    let mut k: usize = 0;
    while k < pairs.len()
        invariant
            k <= pairs.len(),
            collected@ == Set::new(
                |p: (Seq<char>, Seq<char>)|
                    exists|m: int| 0 <= m < k && p == (pairs@[m].0@, pairs@[m].1@),
            ),
        decreases pairs.len() - k,
    {
        let ghost before = collected@;
        collected.insert(Edge::from_ids(pairs[k].0.clone(), pairs[k].1.clone()));
        proof {
            assert(collected@ =~= Set::new(
                |p: (Seq<char>, Seq<char>)|
                    exists|m: int| 0 <= m < k + 1 && p == (pairs@[m].0@, pairs@[m].1@),
            )) by {
                assert forall|p: (Seq<char>, Seq<char>)| before.contains(p) implies exists|m: int|
                    0 <= m < k + 1 && p == (pairs@[m].0@, pairs@[m].1@) by {
                    let m = choose|m: int| 0 <= m < k && p == (pairs@[m].0@, pairs@[m].1@);
                }
                assert forall|p: (Seq<char>, Seq<char>)| (exists|m: int|
                    0 <= m < k + 1 && p == (pairs@[m].0@, pairs@[m].1@)) implies collected@.contains(p) by {
                    let m = choose|m: int| 0 <= m < k + 1 && p == (pairs@[m].0@, pairs@[m].1@);
                    if m < k {
                        assert(before.contains(p));
                    }
                }
            }
        }
        k += 1;
    }
    let edges = collected.to_vec();
    proof {
        let target_set = cartesian(views(source_items@).to_set(), views(target_items@).to_set());
        let va = views(source_items@);
        let vb = views(target_items@);
        assert forall|p: (Seq<char>, Seq<char>)| collected@.contains(p) implies target_set.contains(p) by {
            let m = choose|m: int| 0 <= m < k && p == (pairs@[m].0@, pairs@[m].1@);
            assert(va.contains(pairs@[m].0@));
            assert(vb.contains(pairs@[m].1@));
        }
        assert forall|p: (Seq<char>, Seq<char>)| target_set.contains(p) implies collected@.contains(p) by {
            assert(va.to_set().contains(p.0));
            assert(vb.to_set().contains(p.1));
            assert(va.contains(p.0) && vb.contains(p.1));
            let m = choose|m: int| 0 <= m < pairs.len() && (#[trigger] pairs@[m]).0@ == p.0 && pairs@[m].1@ == p.1;
            assert(p == (pairs@[m].0@, pairs@[m].1@));
        }
        assert(collected@ =~= target_set);
    }
    edges
}

/// Positions `i < j` of two clusters of `cs` that have a neighbor in common.
pub open spec fn share_neighbor(cs: Seq<ClusterView>, i: int, j: int) -> bool {
    0 <= i < j < cs.len() && !cs[i].1.disjoint(cs[j].1)
}

/// `p` is a pair of clusters of `cs`, at positions `i < j`, that share a
/// neighbor.
pub open spec fn is_shared_pair(cs: Seq<ClusterView>, p: (ClusterView, ClusterView)) -> bool {
    exists|i: int, j: int| #[trigger] share_neighbor(cs, i, j) && p == (cs[i], cs[j])
}

/// The pairs of clusters held in `ts`, in order.
pub open spec fn tuple_views(ts: Seq<UnorderedTuple<Cluster>>) -> Seq<(ClusterView, ClusterView)> {
    ts.map_values(|t: UnorderedTuple<Cluster>| (t.one@, t.two@))
}

/// The positions, in increasing order, of the clusters that have `n` as a
/// neighbor.
fn clusters_with_neighbor(clusters: &Vec<Cluster>, n: &String) -> (r: Vec<usize>)
    ensures
        forall|a: int, b: int| 0 <= a < b < r.len() ==> r@[a] < r@[b],
        forall|a: int| 0 <= a < r.len() ==> r@[a] < clusters.len(),
        forall|j: int|
            0 <= j < clusters.len() ==> (clusters@[j]@.1.contains(n@) <==> r@.contains(j as usize)),
{
    let mut r: Vec<usize> = Vec::new();
    let mut j: usize = 0;
    while j < clusters.len()
        invariant
            j <= clusters.len(),
            forall|a: int, b: int| 0 <= a < b < r.len() ==> r@[a] < r@[b],
            forall|a: int| 0 <= a < r.len() ==> r@[a] < j,
            forall|x: int|
                0 <= x < j ==> (clusters@[x]@.1.contains(n@) <==> r@.contains(x as usize)),
        decreases clusters.len() - j,
    {
        let ghost before = r@;
        if clusters[j].neighbors_ref().contains(n.clone()) {
            r.push(j);
            proof {
                assert(r@[r.len() - 1] == j);
                assert forall|x: int|
                    0 <= x < j + 1 implies (clusters@[x]@.1.contains(n@) <==> r@.contains(
                    x as usize,
                )) by {
                    if x < j {
                        if before.contains(x as usize) {
                            let a = choose|a: int| 0 <= a < before.len() && before[a] == x as usize;
                            assert(r@[a] == x as usize);
                        }
                        if r@.contains(x as usize) {
                            let a = choose|a: int| 0 <= a < r.len() && r@[a] == x as usize;
                            assert(a < before.len());
                            assert(before[a] == x as usize);
                        }
                    }
                }
            }
        } else {
            proof {
                assert(!r@.contains(j));
            }
        }
        j += 1;
    }
    r
}

/// Every end of a power edge of `pe` is a key of `repo`.
pub open spec fn ends_stored(pe: Seq<(Seq<char>, Seq<char>)>, repo: Map<Seq<char>, ClusterView>) -> bool {
    forall|k: int|
        0 <= k < pe.len() ==> repo.contains_key(#[trigger] pe[k].0) && repo.contains_key(pe[k].1)
}

/// `id` is the id of one of the clusters `cv`.
pub open spec fn names_cluster(cv: Seq<ClusterView>, id: Seq<char>) -> bool {
    exists|j: int| 0 <= j < cv.len() && group_id(cv[j].0) == id
}

/// Every power node of `pn` is named by a key of `repo`.
pub open spec fn nodes_stored(pn: Seq<(Seq<char>, ClusterView)>, repo: Map<Seq<char>, ClusterView>) -> bool {
    forall|i: int| 0 <= i < pn.len() ==> repo.contains_key(#[trigger] pn[i].0)
}

/// The cluster that seeds node `k`: the node alone, with the nodes linked to
/// it in the graph.
pub open spec fn singleton_of(e: EdgeSet, k: Seq<char>) -> ClusterView {
    (set![k], Set::new(|x: Seq<char>| linked(e, x, k)).difference(set![k]))
}

/// Every pair that `m` scores is two different ids stored in `repo`.
pub open spec fn pairs_stored(
    m: Map<Set<Seq<char>>, Similarity>,
    repo: Map<Seq<char>, ClusterView>,
) -> bool {
    forall|k: Set<Seq<char>>| #[trigger]
        m.contains_key(k) ==> exists|x: Seq<char>, y: Seq<char>|
            x != y && k == set![x, y] && repo.contains_key(x) && repo.contains_key(y)
}

/// The candidates `w` hold what the pair of positions `p` of `cl` gives.
pub open spec fn pair_done(
    e: EdgeSet,
    cl: Seq<ClusterView>,
    p: (usize, usize),
    w: Seq<CandidateView>,
) -> bool {
    let x = cl[p.0 as int];
    let y = cl[p.1 as int];
    &&& (x.0.disjoint(y.0) && spans_biclique(e, x.0, y.0)) ==> w.contains(biclique_candidate(e, x, y))
    &&& (x == y && spans_clique(e, x.0, y.0)) ==> w.contains(clique_candidate(e, x))
}

proof fn lemma_pair_done_grows(
    e: EdgeSet,
    cl: Seq<ClusterView>,
    p: (usize, usize),
    w: Seq<CandidateView>,
    more: Seq<CandidateView>,
)
    requires
        pair_done(e, cl, p, w),
        w.len() <= more.len(),
        forall|c: int| 0 <= c < w.len() ==> #[trigger] more[c] == w[c],
    ensures
        pair_done(e, cl, p, more),
{
    let x = cl[p.0 as int];
    let y = cl[p.1 as int];
    if x.0.disjoint(y.0) && spans_biclique(e, x.0, y.0) {
        let c = choose|c: int| 0 <= c < w.len() && w[c] == biclique_candidate(e, x, y);
        assert(more[c] == w[c]);
    }
    if x == y && spans_clique(e, x.0, y.0) {
        let c = choose|c: int| 0 <= c < w.len() && w[c] == clique_candidate(e, x);
        assert(more[c] == w[c]);
    }
}

proof fn lemma_biclique_symmetric(e: EdgeSet, x: ClusterView, y: ClusterView)
    requires
        x.0.disjoint(y.0),
        spans_biclique(e, x.0, y.0),
    ensures
        y.0.disjoint(x.0),
        spans_biclique(e, y.0, x.0),
{
    assert forall|u: Seq<char>, w: Seq<char>| y.0.contains(u) && x.0.contains(w) implies #[trigger] linked(e, u, w) by {
        assert(linked(e, w, u));
    }
}

/// The position in `clusters` of a stored cluster with view `x`.
spec fn stored_position(repo: Map<Seq<char>, ClusterView>, clusters: Seq<Cluster>, x: ClusterView) -> int {
    choose|i: int| 0 <= i < clusters.len() && clusters[i]@ == x
}

/// A graph with its power-graph decomposition: the power nodes and power
/// edges that `decompose` finds, and the clusters it considered.
#[derive(Debug)]
pub struct PowerGraph {
    nodes: Vec<Node>,
    edges: EdgeRepository,
    power_nodes: Vec<PowerNode>,
    power_edges: Vec<PowerEdge>,
    clusters: Vec<Cluster>,
}

impl PowerGraph {
    /// The graph's edges.
    pub closed spec fn edge_set(&self) -> EdgeSet {
        self.edges@
    }

    /// The graph's nodes as `(id, data)`.
    pub closed spec fn node_views(&self) -> Seq<(Seq<char>, Seq<char>)> {
        views(self.nodes@)
    }

    /// The power nodes found so far, in order.
    pub closed spec fn power_node_views(&self) -> Seq<(Seq<char>, ClusterView)> {
        views(self.power_nodes@)
    }

    /// The clusters that the last decomposition considered, in order.
    pub closed spec fn cluster_views(&self) -> Seq<ClusterView> {
        views(self.clusters@)
    }

    /// The power edges found so far, in order.
    pub closed spec fn power_edge_views(&self) -> Seq<(Seq<char>, Seq<char>)> {
        views(self.power_edges@)
    }

    /// A graph of `nodes` and `edges`, not yet decomposed.
    pub fn new(nodes: Vec<Node>, edges: Vec<Edge>) -> (r: PowerGraph)
        ensures
            r.node_views() == views(nodes@),
            r.edge_set() == views(edges@).to_set(),
            r.power_node_views().len() == 0,
            r.power_edge_views().len() == 0,
            r.cluster_views().len() == 0,
    {
        let edge_repository = EdgeRepository::from_edge_list(edges);
        let r = PowerGraph {
            nodes,
            edges: edge_repository,
            power_edges: Vec::new(),
            power_nodes: Vec::new(),
            clusters: Vec::new(),
        };
        assert(views(r.power_nodes@).len() == 0);
        assert(views(r.power_edges@).len() == 0);
        assert(views(r.clusters@).len() == 0);
        r
    }

    pub fn nodes(&self) -> (r: &Vec<Node>)
        ensures
            views(r@) == self.node_views(),
    {
        &self.nodes
    }

    pub fn edges(&self) -> (r: &EdgeRepository)
        ensures
            r@ == self.edge_set(),
    {
        &self.edges
    }

    pub fn power_nodes(&self) -> (r: &Vec<PowerNode>)
        ensures
            views(r@) == self.power_node_views(),
    {
        &self.power_nodes
    }

    pub fn power_edges(&self) -> (r: &Vec<PowerEdge>)
        ensures
            views(r@) == self.power_edge_views(),
    {
        &self.power_edges
    }

    /// The clusters that the last decomposition considered.
    pub fn clusters(&self) -> (r: &Vec<Cluster>)
        ensures
            views(r@) == self.cluster_views(),
    {
        &self.clusters
    }

    /// The edge `from -> to`, if the graph has it.
    pub fn get_edge(&self, from: &String, to: &String) -> (r: Option<Edge>)
        ensures
            r is Some <==> self.edge_set().contains((from@, to@)),
            r matches Some(e) ==> e@ == (from@, to@),
    {
        self.edges.get_edge(from, to)
    }

    /// The first power node of `power_nodes` whose id is `search_id`.
    pub fn find_power_node(&self, search_id: &str, power_nodes: &Vec<PowerNode>) -> (r: Option<
        PowerNode,
    >)
        ensures
            r is Some <==> has_id(views(power_nodes@), search_id@),
            r matches Some(p) ==> p@ == views(power_nodes@)[first_with_id(
                views(power_nodes@),
                search_id@,
            )],
    {
        let ghost pn = views(power_nodes@);
        let target = search_id.to_owned();
        let mut i: usize = 0;
        while i < power_nodes.len()
            invariant
                target@ == search_id@,
                pn == views(power_nodes@),
                i <= power_nodes.len(),
                forall|j: int| 0 <= j < i ==> pn[j].0 != search_id@,
            decreases power_nodes.len() - i,
        {
            let id = power_nodes[i].get_id();
            if *id == target {
                proof {
                    assert(pn[i as int].0 == search_id@);
                    lemma_first_with_id(pn, search_id@, i as int);
                }
                return Some(power_nodes[i].clone());
            }
            i += 1;
        }
        None
    }

    /// The edges that `power_edge` stands for, or `None` when one of its ends
    /// names no power node.
    pub fn expand_power_edge(&self, power_edge: &PowerEdge) -> (r: Option<Vec<Edge>>)
        ensures
            r is Some <==> has_id(self.power_node_views(), power_edge@.0) && has_id(
                self.power_node_views(),
                power_edge@.1,
            ),
            r matches Some(es) ==> views(es@).to_set() == expansion(
                self.power_node_views(),
                power_edge@.0,
                power_edge@.1,
            ) && views(es@).no_duplicates() && es@.len() == expansion(
                self.power_node_views(),
                power_edge@.0,
                power_edge@.1,
            ).len(),
    {
        let source = match self.find_power_node(power_edge.get_from().as_str(), &self.power_nodes) {
            Some(p) => p,
            None => return None,
        };
        let target = match self.find_power_node(power_edge.get_to().as_str(), &self.power_nodes) {
            Some(p) => p,
            None => return None,
        };
        let source_items = source.get_cluster().get_items();
        let target_items = target.get_cluster().get_items();
        let edges = pair_edges(&source_items, &target_items);
        proof {
            views(edges@).unique_seq_to_set();
            reveal(expansion);
        }
        Some(edges)
    }

    /// The pairs of clusters that have a neighbor in common: for each node,
    /// every two of the clusters that have it as a neighbor.
    pub fn generate_graph_comparison_set(&self, clusters: &Vec<Cluster>) -> (r: Vec<
        UnorderedTuple<Cluster>,
    >)
        ensures
            forall|k: int|
                0 <= k < r.len() ==> is_shared_pair(views(clusters@), #[trigger] tuple_views(r@)[k]),
            forall|i: int, j: int|
                share_neighbor(views(clusters@), i, j) ==> tuple_views(r@).to_set().contains(
                    (views(clusters@)[i], views(clusters@)[j]),
                ),
    {
        let ghost cs = views(clusters@);
        let mut seen: VecSet<String> = VecSet::new();
        let mut out: Vec<UnorderedTuple<Cluster>> = Vec::new();
        let mut i: usize = 0;
        while i < clusters.len()
            invariant
                cs == views(clusters@),
                i <= clusters.len(),
                forall|k: int| 0 <= k < out.len() ==> is_shared_pair(cs, #[trigger] tuple_views(out@)[k]),
                forall|n: Seq<char>, a: int, b: int|
                    #![trigger seen@.contains(n), cs[a], cs[b]]
                    seen@.contains(n) && 0 <= a < b < cs.len() && cs[a].1.contains(n) && cs[b].1.contains(n)
                        ==> tuple_views(out@).to_set().contains((cs[a], cs[b])),
                forall|a: int, n: Seq<char>| 0 <= a < i && #[trigger] cs[a].1.contains(n) ==> seen@.contains(n),
            decreases clusters.len() - i,
        {
            let ns = clusters[i].get_neighbors();
            let mut t: usize = 0;
            while t < ns.len()
                invariant
                    cs == views(clusters@),
                    i < clusters.len(),
                    t <= ns.len(),
                    views(ns@).to_set() == cs[i as int].1,
                    forall|k: int| 0 <= k < out.len() ==> is_shared_pair(cs, #[trigger] tuple_views(out@)[k]),
                    forall|n: Seq<char>, a: int, b: int|
                        #![trigger seen@.contains(n), cs[a], cs[b]]
                        seen@.contains(n) && 0 <= a < b < cs.len() && cs[a].1.contains(n) && cs[b].1.contains(n)
                            ==> tuple_views(out@).to_set().contains((cs[a], cs[b])),
                    forall|a: int, n: Seq<char>| 0 <= a < i && #[trigger] cs[a].1.contains(n) ==> seen@.contains(n),
                    forall|x: int| 0 <= x < t ==> seen@.contains(#[trigger] views(ns@)[x]),
                decreases ns.len() - t,
            {
                let n = &ns[t];
                if !seen.contains(n.clone()) {
                    let ghost seen_before = seen@;
                    seen.insert(n.clone());
                    let bucket = clusters_with_neighbor(clusters, n);
                    let pairs = index_pairs(bucket.len());
                    let ghost out_start = out@;
                    let mut q: usize = 0;
                    while q < pairs.len()
                        invariant
                            cs == views(clusters@),
                            q <= pairs.len(),
                            forall|a: int, b: int| 0 <= a < b < bucket.len() ==> bucket@[a] < bucket@[b],
                            forall|a: int| 0 <= a < bucket.len() ==> bucket@[a] < clusters.len(),
                            forall|j: int|
                                0 <= j < clusters.len() ==> (clusters@[j]@.1.contains(n@) <==> bucket@.contains(j as usize)),
                            forall|k: int| 0 <= k < pairs.len() ==> #[trigger] pairs@[k].0 < pairs@[k].1 && pairs@[k].1 < bucket.len(),
                            forall|k: int| 0 <= k < out.len() ==> is_shared_pair(cs, #[trigger] tuple_views(out@)[k]),
                            tuple_views(out_start).to_set().subset_of(tuple_views(out@).to_set()),
                            forall|k: int| 0 <= k < q ==> tuple_views(out@).to_set().contains(
                                (cs[bucket@[#[trigger] pairs@[k].0 as int] as int], cs[bucket@[pairs@[k].1 as int] as int]),
                            ),
                        decreases pairs.len() - q,
                    {
                        let (x, y) = pairs[q];
                        let bx = bucket[x];
                        let by = bucket[y];
                        let ghost before = out@;
                        out.push(UnorderedTuple { one: clusters[bx].clone(), two: clusters[by].clone() });
                        proof {
                            assert(tuple_views(out@) =~= tuple_views(before).push((cs[bx as int], cs[by as int])));
                            tuple_views(before).lemma_push_to_set_commute((cs[bx as int], cs[by as int]));
                            assert(bucket@.contains(bx));
                            assert(bucket@.contains(by));
                            assert(cs[bx as int].1.contains(n@) && cs[by as int].1.contains(n@));
                            assert(share_neighbor(cs, bx as int, by as int));
                            assert forall|k: int| 0 <= k < out.len() implies is_shared_pair(cs, #[trigger] tuple_views(out@)[k]) by {
                                if k < before.len() {
                                    assert(tuple_views(out@)[k] == tuple_views(before)[k]);
                                }
                            }
                        }
                        q += 1;
                    }
                    proof {
                        assert forall|n2: Seq<char>, a: int, b: int|
                            #![trigger seen@.contains(n2), cs[a], cs[b]]
                            seen@.contains(n2) && 0 <= a < b < cs.len() && cs[a].1.contains(n2) && cs[b].1.contains(n2)
                                implies tuple_views(out@).to_set().contains((cs[a], cs[b])) by {
                            if n2 == n@ {
                                assert(bucket@.contains(a as usize));
                                assert(bucket@.contains(b as usize));
                                let pa = choose|pa: int| 0 <= pa < bucket.len() && bucket@[pa] == a as usize;
                                let pb = choose|pb: int| 0 <= pb < bucket.len() && bucket@[pb] == b as usize;
                                if pb <= pa {
                                    if pb < pa {
                                        assert(bucket@[pb] < bucket@[pa]);
                                    }
                                }
                                assert(pairs@.contains((pa as usize, pb as usize)));
                                let k = choose|k: int| 0 <= k < pairs.len() && pairs@[k] == (pa as usize, pb as usize);
                                assert(tuple_views(out@).to_set().contains(
                                    (cs[bucket@[pairs@[k].0 as int] as int], cs[bucket@[pairs@[k].1 as int] as int]),
                                ));
                            } else {
                                assert(seen_before.contains(n2));
                                assert(tuple_views(out_start).to_set().contains((cs[a], cs[b])));
                            }
                        }
                    }
                }
                t += 1;
            }
            proof {
                assert forall|a: int, n: Seq<char>| 0 <= a < i + 1 && #[trigger] cs[a].1.contains(n) implies seen@.contains(n) by {
                    if a == i {
                        assert(views(ns@).to_set().contains(n));
                        let x = choose|x: int| 0 <= x < views(ns@).len() && views(ns@)[x] == n;
                    }
                }
            }
            i += 1;
        }
        proof {
            assert forall|a: int, b: int| share_neighbor(cs, a, b) implies tuple_views(out@).to_set().contains(
                (cs[a], cs[b]),
            ) by {
                let n = choose|n: Seq<char>| cs[a].1.contains(n) && cs[b].1.contains(n);
                assert(seen@.contains(n));
            }
        }
        out
    }

    /// The first power node that overlaps `from` partially.
    fn find_from_split(&self, from: &Cluster) -> (r: Option<usize>)
        ensures
            r matches Some(i) ==> first_from_split(self.power_node_views(), from@, i as int),
            r is None ==> no_from_split(self.power_node_views(), from@),
    {
        let ghost pn = self.power_node_views();
        let mut i: usize = 0;
        while i < self.power_nodes.len()
            invariant
                pn == self.power_node_views(),
                i <= self.power_nodes.len(),
                forall|j: int| 0 <= j < i ==> !overlaps_partially(from@.0, #[trigger] pn[j].1.0),
            decreases self.power_nodes.len() - i,
        {
            let items = self.power_nodes[i].get_cluster().items_ref();
            let meets = from.items_ref().intersects(items);
            let s_subset_u = from.items_ref().is_subset_of(items);
            let u_subset_s = items.is_subset_of(from.items_ref());
            if meets && !s_subset_u && !u_subset_s {
                return Some(i);
            }
            i += 1;
        }
        None
    }

    /// The first power node that overlaps `to` unevenly.
    fn find_to_split(&self, to: &Cluster) -> (r: Option<usize>)
        ensures
            r matches Some(i) ==> first_to_split(self.power_node_views(), to@, i as int),
            r is None ==> no_to_split(self.power_node_views(), to@),
    {
        let ghost pn = self.power_node_views();
        let mut i: usize = 0;
        while i < self.power_nodes.len()
            invariant
                pn == self.power_node_views(),
                i <= self.power_nodes.len(),
                forall|j: int| 0 <= j < i ==> !overlaps_unevenly(to@.0, #[trigger] pn[j].1.0),
            decreases self.power_nodes.len() - i,
        {
            let items = self.power_nodes[i].get_cluster().items_ref();
            let meets = to.items_ref().intersects(items);
            let s_subset_w = to.items_ref().is_proper_subset_of(items);
            let w_subset_s = items.is_proper_subset_of(to.items_ref());
            proof {
                if to@.0.subset_of(pn[i as int].1.0) && pn[i as int].1.0.subset_of(to@.0) {
                    assert(to@.0 =~= pn[i as int].1.0);
                }
            }
            if meets && !s_subset_w && !w_subset_s {
                return Some(i);
            }
            i += 1;
        }
        None
    }

    /// Whether any power edge conflicts with the candidate `(from, to)`, and
    /// the first one that shrinks it.
    fn find_shrink(&self, from: &Cluster, to: &Cluster, cluster_repository: &ClusterRepository) -> (r: (
        bool,
        Option<usize>,
    ))
        requires
            forall|k: int|
                0 <= k < self.power_edge_views().len() ==> cluster_repository@.contains_key(
                    #[trigger] self.power_edge_views()[k].0,
                ) && cluster_repository@.contains_key(self.power_edge_views()[k].1),
        ensures
            r.0 == exists|k: int|
                0 <= k < self.power_edge_views().len() && #[trigger] conflicts(
                    self.edge_set(),
                    cluster_repository@,
                    self.power_edge_views(),
                    from@,
                    to@,
                    k,
                ),
            r.1 matches Some(k) ==> k < self.power_edge_views().len() && shrinks(
                self.edge_set(),
                cluster_repository@,
                self.power_edge_views(),
                from@,
                to@,
                k as int,
            ) && forall|j: int|
                0 <= j < k ==> !#[trigger] shrinks(
                    self.edge_set(),
                    cluster_repository@,
                    self.power_edge_views(),
                    from@,
                    to@,
                    j,
                ),
            r.1 is None ==> forall|j: int|
                0 <= j < self.power_edge_views().len() ==> !#[trigger] shrinks(
                    self.edge_set(),
                    cluster_repository@,
                    self.power_edge_views(),
                    from@,
                    to@,
                    j,
                ),
    {
        let ghost e = self.edge_set();
        let ghost repo = cluster_repository@;
        let ghost pe = self.power_edge_views();
        let candidate_union = from.items_ref().union(to.items_ref());
        let candidate_subgraph = VecSet::from_iter(self.subgraph(&candidate_union));
        let mut any = false;
        proof {
            assert forall|k2: int|
                0 <= k2 < pe.len() implies repo.contains_key(#[trigger] pe[k2].0)
                    && repo.contains_key(pe[k2].1) by {
                assert(cluster_repository@.contains_key(self.power_edge_views()[k2].0));
            }
        }
        let mut k: usize = 0;
        while k < self.power_edges.len()
            invariant
                e == self.edge_set(),
                repo == cluster_repository@,
                pe == self.power_edge_views(),
                k <= self.power_edges.len(),
                forall|k2: int|
                    0 <= k2 < pe.len() ==> repo.contains_key(#[trigger] pe[k2].0)
                        && repo.contains_key(pe[k2].1),
                candidate_subgraph@ == edge_block(e, from@.0, to@.0),
                any == exists|j: int| 0 <= j < k && #[trigger] conflicts(e, repo, pe, from@, to@, j),
                forall|j: int| 0 <= j < k ==> !#[trigger] shrinks(e, repo, pe, from@, to@, j),
            decreases self.power_edges.len() - k,
        {
            let power_edge = &self.power_edges[k];
            proof {
                assert(pe[k as int] == power_edge@);
            }
            let s = match cluster_repository.get(power_edge.get_from()) {
                Some(c) => c,
                None => {
                    proof {
                        assert(repo.contains_key(pe[k as int].0));
                    }
                    return (any, None);
                },
            };
            let t = match cluster_repository.get(power_edge.get_to()) {
                Some(c) => c,
                None => {
                    proof {
                        assert(repo.contains_key(pe[k as int].1));
                    }
                    return (any, None);
                },
            };
            let comparison_union = s.items_ref().union(t.items_ref());
            let comparison_subgraph = VecSet::from_iter(self.subgraph(&comparison_union));
            let conflict = candidate_subgraph.intersects(&comparison_subgraph);
            let ghost before = any;
            proof {
                assert(s@ == repo[pe[k as int].0]);
                assert(t@ == repo[pe[k as int].1]);
                assert(comparison_subgraph@ == power_edge_block(e, repo, pe, k as int));
                lemma_proper_subset(candidate_subgraph@, comparison_subgraph@);
                lemma_proper_subset(from@.0, s@.0);
                lemma_proper_subset(from@.0, t@.0);
                lemma_proper_subset(to@.0, s@.0);
                lemma_proper_subset(to@.0, t@.0);
            }
            if conflict {
                any = true;
                let covers_all_edges = candidate_subgraph.is_proper_subset_of(&comparison_subgraph);
                if !covers_all_edges && (from.items_ref().is_proper_subset_of(s.items_ref())
                    || from.items_ref().is_proper_subset_of(t.items_ref())
                    || to.items_ref().is_proper_subset_of(s.items_ref())
                    || to.items_ref().is_proper_subset_of(t.items_ref())) {
                    proof {
                        assert(conflicts(e, repo, pe, from@, to@, k as int));
                    }
                    return (true, Some(k));
                }
            }
            proof {
                if conflict {
                    assert(conflicts(e, repo, pe, from@, to@, k as int));
                } else {
                    assert(!conflicts(e, repo, pe, from@, to@, k as int));
                }
                assert(!shrinks(e, repo, pe, from@, to@, k as int));
            }
            k += 1;
        }
        (any, None)
    }

    /// Applies the first rule that fits the candidate: drop a small
    /// self-candidate; split its source, then its target, on a power node
    /// that overlaps it; shrink or drop it where power edges already cover
    /// its edges; otherwise emit its power node(s) and power edge.
    fn process_edge_candidate(
        &self,
        edge_candidate: &PowerEdgeCandidate,
        cluster_repository: &ClusterRepository,
    ) -> (r: Vec<PowerEdgeCandidateProcessorOutput>)
        requires
            forall|k: int|
                0 <= k < self.power_edge_views().len() ==> cluster_repository@.contains_key(
                    #[trigger] self.power_edge_views()[k].0,
                ) && cluster_repository@.contains_key(self.power_edge_views()[k].1),
        ensures
            ({
                let (f, t, size) = edge_candidate@;
                let pn = self.power_node_views();
                let pe = self.power_edge_views();
                let e = self.edge_set();
                let repo = cluster_repository@;
                let degenerate = size <= 4 && f == t;
                &&& degenerate ==> r.len() == 0
                &&& forall|i: int|
                    !degenerate && first_from_split(pn, f, i) ==> r.len() == 2 && out_candidate(
                        r[0],
                        derived(cluster_minus(f, pn[i].1), t),
                    ) && out_candidate(r[1], derived(cluster_meet(f, pn[i].1), t))
                &&& forall|i: int|
                    !degenerate && no_from_split(pn, f) && first_to_split(pn, t, i) ==> r.len()
                        == 2 && out_candidate(r[0], derived(f, cluster_minus(t, pn[i].1)))
                        && out_candidate(r[1], derived(f, cluster_meet(t, pn[i].1)))
                &&& forall|k: int|
                    !degenerate && no_from_split(pn, f) && no_to_split(pn, t) && 0 <= k < pe.len()
                        && shrinks(e, repo, pe, f, t, k) && (forall|j: int|
                        0 <= j < k ==> !#[trigger] shrinks(e, repo, pe, f, t, j)) ==> r.len() == 1
                        && out_candidate(r[0], shrunk(repo, pe, f, t, k))
                &&& (!degenerate && no_from_split(pn, f) && no_to_split(pn, t) && (exists|k: int|
                    0 <= k < pe.len() && #[trigger] conflicts(e, repo, pe, f, t, k)) && (forall|
                    k: int,
                | 0 <= k < pe.len() ==> !#[trigger] shrinks(e, repo, pe, f, t, k))) ==> r.len() == 0
                &&& (!degenerate && no_from_split(pn, f) && no_to_split(pn, t) && (forall|k: int|
                    0 <= k < pe.len() ==> !#[trigger] conflicts(e, repo, pe, f, t, k))) ==> if f
                    == t {
                    r.len() == 2 && out_node(r[0], (group_id(f.0), f)) && out_edge(
                        r[1],
                        (group_id(f.0), group_id(f.0)),
                    )
                } else if overlaps_partially(t.0, f.0) {
                    r.len() == 2 && out_candidate(r[0], derived(f, cluster_minus(t, f)))
                        && out_candidate(r[1], derived(f, cluster_meet(t, f)))
                } else {
                    r.len() == 3 && out_node(r[0], (group_id(f.0), f)) && out_node(
                        r[1],
                        (group_id(t.0), t),
                    ) && out_edge(r[2], (group_id(f.0), group_id(t.0)))
                }
            }),
            outputs_split_from(r@, edge_candidate@),
            edges_follow_nodes(r@),
            edges_join_ends(r@, edge_candidate@),
            nodes_fit(r@, self.power_node_views()),
            node_pairs_joined(r@),
    {
        let ghost c = edge_candidate@;
        let from = edge_candidate.get_from();
        let to = edge_candidate.get_to();
        proof {
            from.lemma_finite();
            to.lemma_finite();
        }
        if edge_candidate.doubled_size() <= 4 && from.same_cluster(to) {
            return Vec::new();
        }
        match self.find_from_split(from) {
            Some(i) => {
                let s = self.power_nodes[i].get_cluster();
                let difference_cluster = from.clone().difference(s);
                let intersection_cluster = from.clone().intersection(s);
                let mut r = Vec::new();
                r.push(
                    PowerEdgeCandidateProcessorOutput::NewPowerEdgeCandidate(
                        PowerEdgeCandidate::derived(difference_cluster, to.clone()),
                    ),
                );
                r.push(
                    PowerEdgeCandidateProcessorOutput::NewPowerEdgeCandidate(
                        PowerEdgeCandidate::derived(intersection_cluster, to.clone()),
                    ),
                );
                proof {
                    let pn = self.power_node_views();
                    assert(pn[i as int] == self.power_nodes@[i as int]@);
                    assert forall|i2: int| first_from_split(pn, from@, i2) implies i2 == i by {
                        if i2 < i {
                            assert(!overlaps_partially(from@.0, pn[i2].1.0));
                        } else if i2 > i {
                            assert(!overlaps_partially(from@.0, pn[i as int].1.0));
                        }
                    }
                    let x = choose|x: Seq<char>| from@.0.contains(x) && pn[i as int].1.0.contains(x);
                    assert(!from@.0.difference(pn[i as int].1.0).contains(x));
                }
                return r;
            },
            None => {},
        }
        match self.find_to_split(to) {
            Some(i) => {
                let s = self.power_nodes[i].get_cluster();
                let difference_cluster = to.clone().difference(s);
                let intersection_cluster = to.clone().intersection(s);
                let mut r = Vec::new();
                r.push(
                    PowerEdgeCandidateProcessorOutput::NewPowerEdgeCandidate(
                        PowerEdgeCandidate::derived(from.clone(), difference_cluster),
                    ),
                );
                r.push(
                    PowerEdgeCandidateProcessorOutput::NewPowerEdgeCandidate(
                        PowerEdgeCandidate::derived(from.clone(), intersection_cluster),
                    ),
                );
                proof {
                    let pn = self.power_node_views();
                    assert(pn[i as int] == self.power_nodes@[i as int]@);
                    assert forall|i2: int| first_to_split(pn, to@, i2) implies i2 == i by {
                        if i2 < i {
                            assert(!overlaps_unevenly(to@.0, pn[i2].1.0));
                        } else if i2 > i {
                            assert(!overlaps_unevenly(to@.0, pn[i as int].1.0));
                        }
                    }
                    let x = choose|x: Seq<char>| to@.0.contains(x) && pn[i as int].1.0.contains(x);
                    assert(!to@.0.difference(pn[i as int].1.0).contains(x));
                }
                return r;
            },
            None => {},
        }
        let (any_conflict, first_shrink) = self.find_shrink(from, to, cluster_repository);
        if any_conflict {
            let mut r = Vec::new();
            match first_shrink {
                Some(k) => {
                    let power_edge = &self.power_edges[k];
                    let ghost pe = self.power_edge_views();
                    proof {
                        assert(pe[k as int] == power_edge@);
                        assert(cluster_repository@.contains_key(pe[k as int].0));
                        assert(cluster_repository@.contains_key(pe[k as int].1));
                    }
                    let s = match cluster_repository.get(power_edge.get_from()) {
                        Some(c) => c,
                        None => {
                            return r;
                        },
                    };
                    let t = match cluster_repository.get(power_edge.get_to()) {
                        Some(c) => c,
                        None => {
                            return r;
                        },
                    };
                    let candidate = if from.items_ref().is_proper_subset_of(s.items_ref()) {
                        PowerEdgeCandidate::derived(from.clone(), to.clone().difference(t))
                    } else if from.items_ref().is_proper_subset_of(t.items_ref()) {
                        PowerEdgeCandidate::derived(from.clone(), to.clone().difference(s))
                    } else if to.items_ref().is_proper_subset_of(s.items_ref()) {
                        PowerEdgeCandidate::derived(from.clone().difference(t), to.clone())
                    } else {
                        PowerEdgeCandidate::derived(from.clone().difference(s), to.clone())
                    };
                    proof {
                        lemma_proper_subset(from@.0, s@.0);
                        lemma_proper_subset(from@.0, t@.0);
                        lemma_proper_subset(to@.0, s@.0);
                        lemma_proper_subset(to@.0, t@.0);
                        let repo = cluster_repository@;
                        let e = self.edge_set();
                        assert forall|k2: int|
                            0 <= k2 < pe.len() && shrinks(e, repo, pe, from@, to@, k2) && (forall|j: int|
                                0 <= j < k2 ==> !#[trigger] shrinks(e, repo, pe, from@, to@, j)) implies k2 == k by {
                            if k2 > k {
                                assert(!shrinks(e, repo, pe, from@, to@, k as int));
                            }
                        }
                    }
                    r.push(PowerEdgeCandidateProcessorOutput::NewPowerEdgeCandidate(candidate));
                },
                None => {},
            }
            return r;
        }
        let mut r = Vec::new();
        if to.same_cluster(from) {
            let id = to.get_id();
            r.push(PowerEdgeCandidateProcessorOutput::NewPowerNode(PowerNode::new(to.clone())));
            r.push(PowerEdgeCandidateProcessorOutput::NewPowerEdge(PowerEdge::new(id.clone(), id)));
            proof {
                assert(out_node_named(r@[0], group_id(to@.0)));
                let pn = self.power_node_views();
                assert forall|j: int| 0 <= j < pn.len() implies !overlaps_partially(to@.0, #[trigger] pn[j].1.0) by {
                    assert(!overlaps_unevenly(to@.0, pn[j].1.0));
                }
            }
            return r;
        }
        // the target overlaps the source partially: split the target on the
        // source, as on a power node, so that the two power nodes nest
        if to.items_ref().intersects(from.items_ref()) && !to.items_ref().is_subset_of(
            from.items_ref(),
        ) && !from.items_ref().is_subset_of(to.items_ref()) {
            let difference_cluster = to.clone().difference(from);
            let intersection_cluster = to.clone().intersection(from);
            r.push(
                PowerEdgeCandidateProcessorOutput::NewPowerEdgeCandidate(
                    PowerEdgeCandidate::derived(from.clone(), difference_cluster),
                ),
            );
            r.push(
                PowerEdgeCandidateProcessorOutput::NewPowerEdgeCandidate(
                    PowerEdgeCandidate::derived(from.clone(), intersection_cluster),
                ),
            );
            proof {
                let x = choose|x: Seq<char>| to@.0.contains(x) && from@.0.contains(x);
                assert(!to@.0.difference(from@.0).contains(x));
            }
            return r;
        }
        let from_id = from.get_id();
        let to_id = to.get_id();
        r.push(PowerEdgeCandidateProcessorOutput::NewPowerNode(PowerNode::new(from.clone())));
        r.push(PowerEdgeCandidateProcessorOutput::NewPowerNode(PowerNode::new(to.clone())));
        r.push(PowerEdgeCandidateProcessorOutput::NewPowerEdge(PowerEdge::new(from_id, to_id)));
        proof {
            assert(out_node_named(r@[0], group_id(from@.0)));
            assert(out_node_named(r@[1], group_id(to@.0)));
            let pn = self.power_node_views();
            assert forall|j: int| 0 <= j < pn.len() implies !overlaps_partially(to@.0, #[trigger] pn[j].1.0) by {
                assert(!overlaps_unevenly(to@.0, pn[j].1.0));
            }
            assert forall|j: int| 0 <= j < pn.len() implies !overlaps_partially(from@.0, #[trigger] pn[j].1.0) by {
                assert(!overlaps_partially(from@.0, pn[j].1.0));
            }
        }
        r
    }

    /// True when some power node has exactly the members `items`.
    fn has_power_node_with_items(&self, items: &VecSet<String>) -> (r: bool)
        ensures
            r == exists|i: int|
                0 <= i < self.power_node_views().len() && #[trigger] self.power_node_views()[i].1.0
                    == items@,
    {
        let ghost pn = self.power_node_views();
        let mut i: usize = 0;
        while i < self.power_nodes.len()
            invariant
                pn == self.power_node_views(),
                i <= self.power_nodes.len(),
                forall|j: int| 0 <= j < i ==> #[trigger] pn[j].1.0 != items@,
            decreases self.power_nodes.len() - i,
        {
            if self.power_nodes[i].get_cluster().items_ref().set_eq(items) {
                assert(pn[i as int] == self.power_nodes@[i as int]@);
                return true;
            }
            i += 1;
        }
        false
    }

    /// Records `power_node` unless a power node with the same members is
    /// already recorded.
    fn add_power_node(&mut self, power_node: &PowerNode)
        requires
            power_nodes_nested(old(self).power_node_views()),
            ids_match(old(self).power_node_views()),
            forall|i: int| 0 <= i < old(self).power_node_views().len() ==> !overlaps_partially(
                power_node@.1.0,
                #[trigger] old(self).power_node_views()[i].1.0,
            ),
        ensures
            final(self).edge_set() == old(self).edge_set(),
            final(self).node_views() == old(self).node_views(),
            final(self).power_edge_views() == old(self).power_edge_views(),
            power_nodes_nested(final(self).power_node_views()),
            ids_match(final(self).power_node_views()),
            has_id(final(self).power_node_views(), power_node@.0),
            exists|i: int|
                0 <= i < final(self).power_node_views().len() && #[trigger] final(self).power_node_views()[i].1.0
                    == power_node@.1.0,
            final(self).power_node_views() == old(self).power_node_views() || final(self).power_node_views()
                == old(self).power_node_views().push(power_node@),
    {
        let ghost pn = self.power_node_views();
        let items = power_node.get_cluster().items_ref();
        if self.has_power_node_with_items(items) {
            proof {
                let i = choose|i: int| 0 <= i < pn.len() && #[trigger] pn[i].1.0 == power_node@.1.0;
                assert(pn[i].0 == group_id(pn[i].1.0));
            }
            return ;
        }
        self.power_nodes.push(power_node.clone());
        proof {
            let now = self.power_node_views();
            assert(now =~= pn.push(power_node@));
            assert(now[pn.len() as int] == power_node@);
            assert forall|i: int, j: int| 0 <= i < j < now.len() implies #[trigger] nodes_apart(now, i, j) by {
                if j < pn.len() {
                    assert(nodes_apart(pn, i, j));
                } else {
                    lemma_overlap_symmetric(power_node@.1.0, pn[i].1.0);
                    assert(pn[i].1.0 != power_node@.1.0);
                }
            }
            assert forall|i: int| 0 <= i < now.len() implies #[trigger] now[i].0 == group_id(now[i].1.0) by {
                if i < pn.len() {
                    assert(now[i] == pn[i]);
                }
            }
        }
    }

    /// Works through the candidates, largest first, until none is left:
    /// splits go back into the worklist (once each), power nodes (once per
    /// member set) and power edges are recorded, and every cluster involved
    /// is stored.
    fn process_candidates(
        &mut self,
        edge_candidates: Vec<PowerEdgeCandidate>,
        cluster_repository: &mut ClusterRepository,
    )
        requires
            ends_stored(old(self).power_edge_views(), old(cluster_repository)@),
            ends_named(old(self).power_node_views(), old(self).power_edge_views()),
            power_nodes_nested(old(self).power_node_views()),
            ids_match(old(self).power_node_views()),
            nodes_stored(old(self).power_node_views(), old(cluster_repository)@),
            forall|i: int|
                0 <= i < edge_candidates.len() ==> spans_clique(
                    old(self).edge_set(),
                    (#[trigger] edge_candidates@[i])@.0.0,
                    edge_candidates@[i]@.1.0,
                ),
        ensures
            final(self).edge_set() == old(self).edge_set(),
            final(self).node_views() == old(self).node_views(),
            ends_stored(final(self).power_edge_views(), final(cluster_repository)@),
            ends_named(final(self).power_node_views(), final(self).power_edge_views()),
            old(self).power_edge_views().len() <= final(self).power_edge_views().len(),
            forall|k: int|
                0 <= k < old(self).power_edge_views().len() ==> #[trigger] final(self).power_edge_views()[k]
                    == old(self).power_edge_views()[k],
            forall|k: int|
                old(self).power_edge_views().len() <= k < final(self).power_edge_views().len()
                    ==> #[trigger] edge_linked(
                    final(self).edge_set(),
                    final(self).power_node_views(),
                    final(self).power_edge_views(),
                    k,
                ),
            nodes_stored(final(self).power_node_views(), final(cluster_repository)@),
            power_nodes_nested(final(self).power_node_views()),
            ids_match(final(self).power_node_views()),
            old(self).power_node_views().len() <= final(self).power_node_views().len(),
            forall|i: int|
                0 <= i < old(self).power_node_views().len() ==> #[trigger] final(self).power_node_views()[i]
                    == old(self).power_node_views()[i],
            edge_candidates.len() == 0 ==> final(self).power_node_views() == old(self).power_node_views()
                && final(self).power_edge_views() == old(self).power_edge_views(),
    {
        let ghost pn_start = self.power_node_views();
        let ghost pe_start = self.power_edge_views();
        let ghost start_empty = edge_candidates.len() == 0;
        let mut edge_candidates = edge_candidates;
        let mut completed: Vec<PowerEdgeCandidate> = Vec::new();
        while edge_candidates.len() > 0
            invariant
                self.edge_set() == old(self).edge_set(),
                self.node_views() == old(self).node_views(),
                ends_stored(self.power_edge_views(), cluster_repository@),
                ends_named(self.power_node_views(), self.power_edge_views()),
                nodes_stored(self.power_node_views(), cluster_repository@),
                power_nodes_nested(self.power_node_views()),
                ids_match(self.power_node_views()),
                pn_start == old(self).power_node_views(),
                pe_start == old(self).power_edge_views(),
                forall|i: int|
                    0 <= i < edge_candidates.len() ==> spans_clique(
                        self.edge_set(),
                        (#[trigger] edge_candidates@[i])@.0.0,
                        edge_candidates@[i]@.1.0,
                    ),
                pe_start.len() <= self.power_edge_views().len(),
                forall|k: int| 0 <= k < pe_start.len() ==> #[trigger] self.power_edge_views()[k] == pe_start[k],
                forall|k: int|
                    pe_start.len() <= k < self.power_edge_views().len() ==> #[trigger] edge_linked(
                        self.edge_set(),
                        self.power_node_views(),
                        self.power_edge_views(),
                        k,
                    ),
                start_empty ==> edge_candidates.len() == 0 && self.power_node_views() == pn_start
                    && self.power_edge_views() == pe_start,
                pn_start.len() <= self.power_node_views().len(),
                forall|i: int| 0 <= i < pn_start.len() ==> #[trigger] self.power_node_views()[i] == pn_start[i],
                forall|i: int| 0 <= i < completed.len() ==> #[trigger] completed@[i]@ == derived(
                    completed@[i]@.0,
                    completed@[i]@.1,
                ),
            decreases potential(views(edge_candidates@), views(completed@).to_set()),
        {
            let ghost w0 = views(edge_candidates@);
            let ghost done0 = views(completed@).to_set();
            let idx = index_of_largest(&edge_candidates);
            let edge_candidate = edge_candidates.remove(idx);
            let ghost c = edge_candidate@;
            let ghost w1 = views(edge_candidates@);
            proof {
                assert(w1 =~= w0.remove(idx as int));
                lemma_potential_remove(w0, idx as int, done0);
                edge_candidate.lemma_finite();
                if done0.contains(c) {
                    let j = choose|j: int| 0 <= j < views(completed@).len() && views(completed@)[j] == c;
                    assert(completed@[j]@ == c);
                }
            }
            proof {
                assert(spans_clique(self.edge_set(), w0[idx as int].0.0, w0[idx as int].1.0));
                assert forall|i: int|
                    0 <= i < edge_candidates.len() implies spans_clique(
                        self.edge_set(),
                        (#[trigger] edge_candidates@[i])@.0.0,
                        edge_candidates@[i]@.1.0,
                    ) by {
                    assert(w1[i] == edge_candidates@[i]@);
                    let o = if i < idx { i } else { i + 1 };
                    assert(w0[o] == w1[i]);
                }
            }
            let results = self.process_edge_candidate(&edge_candidate, cluster_repository);
            proof {
                lemma_child_bound(results@, c, done0);
            }
            let ghost p0 = self.power_node_views();
            let ghost mut src: Seq<int> = Seq::empty();
            let mut q: usize = 0;
            while q < results.len()
                invariant
                    self.edge_set() == old(self).edge_set(),
                    self.node_views() == old(self).node_views(),
                    ends_stored(self.power_edge_views(), cluster_repository@),
                    ends_named(self.power_node_views(), self.power_edge_views()),
                    nodes_stored(self.power_node_views(), cluster_repository@),
                    power_nodes_nested(self.power_node_views()),
                    ids_match(self.power_node_views()),
                    q <= results.len(),
                    spans_clique(self.edge_set(), c.0.0, c.1.0),
                    edges_join_ends(results@, c),
                    forall|i: int|
                        0 <= i < edge_candidates.len() ==> spans_clique(
                            self.edge_set(),
                            (#[trigger] edge_candidates@[i])@.0.0,
                            edge_candidates@[i]@.1.0,
                        ),
                    pe_start == old(self).power_edge_views(),
                    pe_start.len() <= self.power_edge_views().len(),
                    forall|k: int| 0 <= k < pe_start.len() ==> #[trigger] self.power_edge_views()[k] == pe_start[k],
                    forall|k: int|
                        pe_start.len() <= k < self.power_edge_views().len() ==> #[trigger] edge_linked(
                            self.edge_set(),
                            self.power_node_views(),
                            self.power_edge_views(),
                            k,
                        ),
                    forall|q1: int| 0 <= q1 < q ==> match #[trigger] results@[q1] {
                        PowerEdgeCandidateProcessorOutput::NewPowerNode(p) => exists|i: int|
                            0 <= i < self.power_node_views().len() && self.power_node_views()[i].0 == p@.0
                                && self.power_node_views()[i].1.0 == p@.1.0,
                        _ => true,
                    },
                    nodes_fit(results@, p0),
                    node_pairs_joined(results@),
                    edges_follow_nodes(results@),
                    pn_start == old(self).power_node_views(),
                    pn_start.len() <= p0.len(),
                    forall|i: int| 0 <= i < pn_start.len() ==> #[trigger] p0[i] == pn_start[i],
                    p0.len() <= self.power_node_views().len(),
                    forall|i: int| 0 <= i < p0.len() ==> #[trigger] self.power_node_views()[i] == p0[i],
                    src.len() == self.power_node_views().len() - p0.len(),
                    forall|k: int| 0 <= k < src.len() ==> 0 <= #[trigger] src[k] < q,
                    forall|k: int| 0 <= k < src.len() ==> out_node(
                        results@[#[trigger] src[k]],
                        self.power_node_views()[p0.len() + k],
                    ),
                    forall|q1: int| 0 <= q1 < q ==> match #[trigger] results@[q1] {
                        PowerEdgeCandidateProcessorOutput::NewPowerNode(p) => cluster_repository@.contains_key(p@.0)
                            && has_id(self.power_node_views(), p@.0),
                        _ => true,
                    },
                    forall|i: int| 0 <= i < completed.len() ==> #[trigger] completed@[i]@ == derived(
                        completed@[i]@.0,
                        completed@[i]@.1,
                    ),
                    outputs_split_from(results@, c),
                    done0.subset_of(views(completed@).to_set()),
                    potential(views(edge_candidates@), views(completed@).to_set()) <= potential(
                        w1,
                        done0,
                    ) + child_bound(results@.subrange(0, q as int), c, done0.contains(c)),
                decreases results.len() - q,
            {
                let ghost w = views(edge_candidates@);
                let ghost done = views(completed@).to_set();
                let ghost repo_before = cluster_repository@;
                let ghost pn_before = self.power_node_views();
                let ghost pe_before = self.power_edge_views();
                proof {
                    assert(results@.subrange(0, q + 1).drop_last() =~= results@.subrange(0, q as int));
                    assert(results@.subrange(0, q + 1).last() == results@[q as int]);
                }
                match &results[q] {
                    PowerEdgeCandidateProcessorOutput::NewPowerEdgeCandidate(candidate) => {
                        if contains_candidate(&completed, candidate) {
                        } else if candidate.get_from().size() == 0 || candidate.get_to().size() == 0 {
                        } else {
                            cluster_repository.add_cluster(candidate.get_from());
                            cluster_repository.add_cluster(candidate.get_to());
                            let ghost x = candidate@;
                            proof {
                                assert(outputs_split_from(results@, c));
                                assert(x == derived(x.0, x.1));
                                if done0.contains(c) && x == c {
                                    assert(done.contains(x));
                                }
                                lemma_potential_done_grows(w, done, done.insert(x));
                            }
                            if !contains_candidate(&edge_candidates, candidate) {
                                edge_candidates.push(candidate.clone());
                                proof {
                                    assert(views(edge_candidates@) =~= w.push(x));
                                    lemma_potential_push(w, x, done.insert(x));
                                }
                            }
                            let ghost before_completed = completed@;
                            completed.push(candidate.clone());
                            proof {
                                assert(views(completed@) =~= views(before_completed).push(x));
                                views(before_completed).lemma_push_to_set_commute(x);
                                assert(views(completed@).to_set() == done.insert(x));
                                assert forall|i: int| 0 <= i < completed.len() implies #[trigger] completed@[i]@ == derived(
                                    completed@[i]@.0,
                                    completed@[i]@.1,
                                ) by {
                                    if i < before_completed.len() {
                                        assert(completed@[i] == before_completed[i]);
                                    }
                                }
                            }
                        }
                    },
                    PowerEdgeCandidateProcessorOutput::NewPowerNode(power_node) => {
                        cluster_repository.add_cluster(power_node.get_cluster());
                        proof {
                            assert(results@[q as int] is NewPowerNode);
                            assert forall|i: int| 0 <= i < pn_before.len() implies !overlaps_partially(
                                power_node@.1.0,
                                #[trigger] pn_before[i].1.0,
                            ) by {
                                if i < p0.len() {
                                    assert(pn_before[i] == p0[i]);
                                } else {
                                    let k = i - p0.len();
                                    let q1 = src[k];
                                    assert(out_node(results@[q1], pn_before[p0.len() + k]));
                                    assert(results@[q1] is NewPowerNode);
                                    assert(q1 == 0 && q == 1 && results.len() == 3);
                                    lemma_overlap_symmetric(power_node@.1.0, pn_before[i].1.0);
                                }
                            }
                        }
                        self.add_power_node(power_node);
                        proof {
                            let pn = self.power_node_views();
                            let e = self.edge_set();
                            let pe = self.power_edge_views();
                            assert forall|k: int|
                                pe_start.len() <= k < pe.len() implies #[trigger] edge_linked(e, pn, pe, k) by {
                                lemma_edge_linked_extends(e, pn_before, pn, pe, pe, k);
                            }
                            assert forall|q1: int| 0 <= q1 < q + 1 implies match #[trigger] results@[q1] {
                                PowerEdgeCandidateProcessorOutput::NewPowerNode(p) => exists|i: int|
                                    0 <= i < pn.len() && pn[i].0 == p@.0 && pn[i].1.0 == p@.1.0,
                                _ => true,
                            } by {
                                match results@[q1] {
                                    PowerEdgeCandidateProcessorOutput::NewPowerNode(p) => {
                                        if q1 < q {
                                            let i = choose|i: int|
                                                0 <= i < pn_before.len() && pn_before[i].0 == p@.0 && pn_before[i].1.0 == p@.1.0;
                                            assert(pn[i] == pn_before[i]);
                                        } else {
                                            let i = choose|i: int|
                                                0 <= i < pn.len() && #[trigger] pn[i].1.0 == power_node@.1.0;
                                            assert(pn[i].0 == group_id(pn[i].1.0));
                                            assert(power_node@.0 == group_id(power_node@.1.0));
                                        }
                                    },
                                    _ => {},
                                }
                            }
                            if pn != pn_before {
                                src = src.push(q as int);
                                assert(pn[pn_before.len() as int] == power_node@);
                            }
                            assert forall|k: int| 0 <= k < src.len() implies out_node(
                                results@[#[trigger] src[k]],
                                pn[p0.len() + k],
                            ) by {
                                if p0.len() + k < pn_before.len() {
                                    assert(pn[p0.len() + k] == pn_before[p0.len() + k]);
                                }
                            }
                            assert forall|i: int| 0 <= i < p0.len() implies #[trigger] pn[i] == p0[i] by {
                                assert(pn[i] == pn_before[i]);
                            }
                            assert forall|k: int| 0 <= k < pe_before.len() implies has_id(pn, #[trigger] pe_before[k].0)
                                && has_id(pn, pe_before[k].1) by {
                                lemma_has_id_extends(pn_before, pn, pe_before[k].0);
                                lemma_has_id_extends(pn_before, pn, pe_before[k].1);
                            }
                            assert forall|q1: int| 0 <= q1 < q implies match #[trigger] results@[q1] {
                                PowerEdgeCandidateProcessorOutput::NewPowerNode(p) => has_id(pn, p@.0),
                                _ => true,
                            } by {
                                match results@[q1] {
                                    PowerEdgeCandidateProcessorOutput::NewPowerNode(p) => {
                                        lemma_has_id_extends(pn_before, pn, p@.0);
                                    },
                                    _ => {},
                                }
                            }
                        }
                    },
                    PowerEdgeCandidateProcessorOutput::NewPowerEdge(power_edge) => {
                        proof {
                            assert(edges_follow_nodes(results@));
                            assert(results@[q as int] is NewPowerEdge);
                            let q1 = choose|q1: int| 0 <= q1 < q && out_node_named(results@[q1], power_edge@.0);
                            let q2 = choose|q2: int| 0 <= q2 < q && out_node_named(results@[q2], power_edge@.1);
                            assert(cluster_repository@.contains_key(power_edge@.0));
                            assert(cluster_repository@.contains_key(power_edge@.1));
                            assert(has_id(pn_before, power_edge@.0));
                            assert(has_id(pn_before, power_edge@.1));
                        }
                        proof {
                            assert(edges_join_ends(results@, c));
                            assert(results@[q as int] is NewPowerEdge);
                        }
                        self.power_edges.push(power_edge.clone());
                        proof {
                            let pe = self.power_edge_views();
                            let pn = self.power_node_views();
                            let e = self.edge_set();
                            assert(pe =~= pe_before.push(power_edge@));
                            assert forall|k: int| 0 <= k < pe.len() implies has_id(pn, #[trigger] pe[k].0)
                                && has_id(pn, pe[k].1) by {
                                if k < pe_before.len() {
                                    assert(pe[k] == pe_before[k]);
                                }
                            }
                            let f = c.0;
                            let t = c.1;
                            assert(power_edge@ == (group_id(f.0), group_id(t.0)));
                            assert(out_node(results@[0], (group_id(f.0), f)));
                            let qt: int = if out_node(results@[0], (group_id(t.0), t)) { 0 } else { 1 };
                            assert(out_node(results@[qt], (group_id(t.0), t)));
                            assert(q != 0);
                            if qt == 1 {
                                assert(q != 1);
                            }
                            match results@[0] {
                                PowerEdgeCandidateProcessorOutput::NewPowerNode(p) => {},
                                _ => {},
                            }
                            let i = choose|i: int|
                                0 <= i < pn.len() && pn[i].0 == group_id(f.0) && pn[i].1.0 == f.0;
                            let j = choose|j: int|
                                0 <= j < pn.len() && pn[j].0 == group_id(t.0) && pn[j].1.0 == t.0;
                            assert(spans_clique(e, pn[i].1.0, pn[j].1.0));
                            assert(edge_linked(e, pn, pe, pe.len() - 1));
                            assert forall|k: int|
                                pe_start.len() <= k < pe.len() implies #[trigger] edge_linked(e, pn, pe, k) by {
                                if k < pe_before.len() {
                                    lemma_edge_linked_extends(e, pn, pn, pe_before, pe, k);
                                }
                            }
                            assert forall|k: int| 0 <= k < pe_start.len() implies #[trigger] pe[k] == pe_start[k] by {
                                assert(pe[k] == pe_before[k]);
                            }
                        }
                    },
                }
                proof {
                    // stored keys are never dropped
                    assert(repo_before.dom().subset_of(cluster_repository@.dom()));
                    let pe = self.power_edge_views();
                    let pn = self.power_node_views();
                    assert(pe_before.len() <= pe.len());
                    assert(forall|k: int| 0 <= k < pe_before.len() ==> #[trigger] pe[k] == pe_before[k]);
                    assert forall|i: int| 0 <= i < pn.len() implies cluster_repository@.contains_key(
                        #[trigger] pn[i].0,
                    ) by {
                        if i < pn_before.len() {
                            assert(pn[i] == pn_before[i]);
                            assert(repo_before.contains_key(pn_before[i].0));
                        } else {
                            assert(results@[q as int] is NewPowerNode);
                        }
                    }
                    assert forall|k: int| 0 <= k < pe.len() implies cluster_repository@.contains_key(
                        #[trigger] pe[k].0,
                    ) && cluster_repository@.contains_key(pe[k].1) by {
                        if k < pe_before.len() {
                            assert(pe[k] == pe_before[k]);
                            assert(repo_before.contains_key(pe_before[k].0));
                            assert(repo_before.contains_key(pe_before[k].1));
                        }
                    }
                    assert forall|k: int| 0 <= k < pe.len() implies has_id(pn, #[trigger] pe[k].0)
                        && has_id(pn, pe[k].1) by {
                        if k < pe_before.len() {
                            assert(pe[k] == pe_before[k]);
                        }
                    }
                    assert forall|q1: int| 0 <= q1 < q + 1 implies match #[trigger] results@[q1] {
                        PowerEdgeCandidateProcessorOutput::NewPowerNode(p) => cluster_repository@.contains_key(p@.0)
                            && has_id(pn, p@.0),
                        _ => true,
                    } by {
                        match results@[q1] {
                            PowerEdgeCandidateProcessorOutput::NewPowerNode(p) => {
                                if q1 < q {
                                    assert(repo_before.contains_key(p@.0));
                                }
                            },
                            _ => {},
                        }
                    }
                }
                q += 1;
            }
            proof {
                assert(results@.subrange(0, q as int) =~= results@);
            }
        }
    }

    /// Decomposes the graph into power nodes and power edges: seeds one
    /// cluster per node, merges similar clusters, offers neighborhood
    /// clusters, makes every singleton a power node, then turns candidate
    /// bicliques and cliques into power nodes and power edges. Edges left
    /// uncovered get a power edge of their own between singleton power nodes,
    /// so that every edge of the graph is covered. Power nodes have distinct
    /// members and are nested or disjoint; every node has a singleton power
    /// node; both ends of every power edge name a power node; each power edge
    /// found before the uncovered edges joins two power nodes whose members
    /// are linked in the graph. Runs on a graph that has not been decomposed
    /// yet; an empty graph yields nothing.
    pub fn decompose(&mut self)
        requires
            old(self).power_node_views().len() == 0,
            old(self).power_edge_views().len() == 0,
        ensures
            final(self).edge_set() == old(self).edge_set(),
            final(self).node_views() == old(self).node_views(),
            power_nodes_nested(final(self).power_node_views()),
            ids_match(final(self).power_node_views()),
            ends_named(final(self).power_node_views(), final(self).power_edge_views()),
            forall|i: int|
                0 <= i < final(self).node_views().len() ==> has_singleton(
                    final(self).power_node_views(),
                    #[trigger] final(self).node_views()[i].0,
                ),
            forall|i: int|
                0 <= i < final(self).power_node_views().len() ==> names_cluster(
                    final(self).cluster_views(),
                    #[trigger] final(self).power_node_views()[i].0,
                ),
            forall|u: Seq<char>, v: Seq<char>|
                #[trigger] final(self).edge_set().contains((u, v)) ==> covered(
                    final(self).power_node_views(),
                    final(self).power_edge_views(),
                    u,
                    v,
                ),
            exists|s: int, n: int|
                #![trigger final(self).power_edge_views().subrange(0, s), final(self).power_node_views().subrange(0, n)]
                0 <= s <= final(self).power_edge_views().len() && 0 <= n
                    <= final(self).power_node_views().len() && (forall|k: int|
                    0 <= k < s ==> #[trigger] edge_linked(
                        final(self).edge_set(),
                        final(self).power_node_views(),
                        final(self).power_edge_views(),
                        k,
                    )) && forall|k: int|
                    s <= k < final(self).power_edge_views().len() ==> {
                        let e = #[trigger] final(self).power_edge_views()[k];
                        let done = expanded(
                            final(self).power_node_views().subrange(0, n),
                            final(self).power_edge_views().subrange(0, s),
                        );
                        &&& final(self).edge_set().contains(e)
                        &&& !done.contains(e)
                        &&& !done.contains((e.1, e.0))
                    },
            final(self).node_views().len() == 0 && final(self).edge_set() == Set::<
                (Seq<char>, Seq<char>),
            >::empty() ==> final(self).power_node_views().len() == 0
                && final(self).power_edge_views().len() == 0,
    {
        let ghost nv = self.node_views();
        let (mut cluster_repository, c_prime) = self.seed_clusters();
        let ghost seeded = cluster_repository@;
        self.agglomerate(&mut cluster_repository, c_prime);
        // first- and then second-order neighborhoods
        self.expand_neighborhoods(&mut cluster_repository);
        self.expand_neighborhoods(&mut cluster_repository);
        proof {
            if nv.len() == 0 {
                assert(seeded.dom() =~= Set::<Seq<char>>::empty());
            }
        }
        let clusters = cluster_repository.clusters();
        proof {
            assert(self.power_node_views() =~= Seq::<(Seq<char>, ClusterView)>::empty());
        }
        let mut i: usize = 0;
        while i < clusters.len()
            invariant
                self.edge_set() == old(self).edge_set(),
                self.node_views() == old(self).node_views(),
                self.power_edge_views().len() == 0,
                power_nodes_nested(self.power_node_views()),
                ids_match(self.power_node_views()),
                nodes_stored(self.power_node_views(), cluster_repository@),
                forall|a: int| 0 <= a < clusters.len() ==> cluster_repository@.contains_key(
                    group_id(#[trigger] clusters@[a]@.0),
                ),
                clusters.len() == 0 ==> self.power_node_views().len() == 0,
            decreases clusters.len() - i,
        {
            if clusters[i].size() <= 1 {
                let ghost pn = self.power_node_views();
                let node = PowerNode::new(clusters[i].clone());
                proof {
                    clusters@[i as int].lemma_finite();
                    assert forall|j: int| 0 <= j < pn.len() implies !overlaps_partially(
                        node@.1.0,
                        #[trigger] pn[j].1.0,
                    ) by {
                        lemma_small_set_nests(node@.1.0, pn[j].1.0);
                    }
                }
                self.add_power_node(&node);
                proof {
                    let now = self.power_node_views();
                    assert forall|j: int| 0 <= j < now.len() implies cluster_repository@.contains_key(
                        #[trigger] now[j].0,
                    ) by {
                        if j < pn.len() {
                            assert(now[j] == pn[j]);
                        }
                    }
                }
            }
            i += 1;
        }
        // a singleton power node for every node, also where another group
        // of nodes took the node's id
        let mut n: usize = 0;
        while n < self.nodes.len()
            invariant
                nv == self.node_views(),
                n <= self.nodes.len(),
                self.edge_set() == old(self).edge_set(),
                self.node_views() == old(self).node_views(),
                self.power_edge_views().len() == 0,
                power_nodes_nested(self.power_node_views()),
                ids_match(self.power_node_views()),
                nodes_stored(self.power_node_views(), cluster_repository@),
                forall|a: int|
                    0 <= a < n ==> exists|j: int|
                        0 <= j < self.power_node_views().len() && self.power_node_views()[j].1.0
                            == set![#[trigger] nv[a].0],
                nv.len() == 0 ==> cluster_repository@ == seeded && self.power_node_views().len() == 0,
            decreases self.nodes.len() - n,
        {
            let id = self.nodes[n].get_id();
            let members = vec![id.clone()];
            let ghost member_views = views(members@);
            let items = VecSet::from_iter(members);
            let ghost pn = self.power_node_views();
            proof {
                assert(nv[n as int] == self.nodes@[n as int]@);
                assert(member_views =~= seq![id@]);
                lemma_single_seq_set(id@);
                lemma_group_id_single(id@);
            }
            if !self.has_power_node_with_items(&items) {
                let cluster = Cluster::new(items, self.neighbors(id));
                cluster_repository.add_cluster(&cluster);
                let node = PowerNode::new(cluster);
                proof {
                    node.get_cluster_view_finite();
                    assert forall|j: int| 0 <= j < pn.len() implies !overlaps_partially(
                        node@.1.0,
                        #[trigger] pn[j].1.0,
                    ) by {
                        lemma_small_set_nests(node@.1.0, pn[j].1.0);
                    }
                }
                self.add_power_node(&node);
                proof {
                    let now = self.power_node_views();
                    assert forall|j: int| 0 <= j < now.len() implies cluster_repository@.contains_key(
                        #[trigger] now[j].0,
                    ) by {
                        if j < pn.len() {
                            assert(now[j] == pn[j]);
                        }
                    }
                }
            }
            proof {
                let now = self.power_node_views();
                assert forall|a: int| 0 <= a < n + 1 implies exists|j: int|
                    0 <= j < now.len() && now[j].1.0 == set![#[trigger] nv[a].0] by {
                    if a < n {
                        let j = choose|j: int| 0 <= j < pn.len() && pn[j].1.0 == set![nv[a].0];
                        assert(now[j] == pn[j]);
                    }
                }
            }
            n += 1;
        }
        let edge_candidates = self.generate_candidates(&cluster_repository);
        proof {
            if nv.len() == 0 {
                assert(cluster_repository@.values() =~= Set::<ClusterView>::empty());
                if edge_candidates.len() > 0 {
                    assert(generated_from(self.edge_set(), cluster_repository@.values(), edge_candidates@[0]@));
                }
            }
        }
        let ghost pn_before_processing = self.power_node_views();
        self.process_candidates(edge_candidates, &mut cluster_repository);
        let ghost pn_mid = self.power_node_views();
        let ghost pe_mid = self.power_edge_views();
        proof {
            assert forall|a: int| 0 <= a < nv.len() implies exists|j: int|
                0 <= j < pn_mid.len() && pn_mid[j].1.0 == set![#[trigger] nv[a].0] by {
                let j = choose|j: int| 0 <= j < pn_before_processing.len() && pn_before_processing[j].1.0 == set![nv[a].0];
                assert(pn_mid[j] == pn_before_processing[j]);
            }
            assert forall|k: int| 0 <= k < pe_mid.len() implies has_id(pn_mid, #[trigger] pe_mid[k].0) && has_id(pn_mid, pe_mid[k].1) by {
            }
        }
        self.cover_remaining_edges(&mut cluster_repository);
        self.clusters = cluster_repository.clusters();
        proof {
            let pn = self.power_node_views();
            let pe = self.power_edge_views();
            let cv = self.cluster_views();
            assert forall|i: int| 0 <= i < pn.len() implies names_cluster(cv, #[trigger] pn[i].0) by {
                assert(cluster_repository@.contains_key(pn[i].0));
                let j = choose|j: int| 0 <= j < self.clusters.len() && group_id(self.clusters@[j]@.0) == pn[i].0;
                assert(cv[j] == self.clusters@[j]@);
            }
            assert(self.node_views() == nv);
            assert forall|a: int| 0 <= a < nv.len() implies has_singleton(pn, #[trigger] nv[a].0) by {
                let j = choose|j: int| 0 <= j < pn_mid.len() && pn_mid[j].1.0 == set![nv[a].0];
                assert(pn[j] == pn_mid[j]);
            }
            let s = pe_mid.len() as int;
            let n = pn_mid.len() as int;
            assert(pe.subrange(0, s) =~= pe_mid);
            assert(pn.subrange(0, n) =~= pn_mid);
            assert forall|k: int| 0 <= k < s implies #[trigger] edge_linked(self.edge_set(), pn, pe, k) by {
                assert(edge_linked(self.edge_set(), pn_mid, pe_mid, k));
                lemma_edge_linked_extends(self.edge_set(), pn_mid, pn, pe_mid, pe, k);
            }
            assert(forall|k: int|
                s <= k < pe.len() ==> {
                    let e = #[trigger] pe[k];
                    let done = expanded(pn.subrange(0, n), pe.subrange(0, s));
                    &&& self.edge_set().contains(e)
                    &&& !done.contains(e)
                    &&& !done.contains((e.1, e.0))
                });
            if nv.len() == 0 && self.edge_set() == Set::<(Seq<char>, Seq<char>)>::empty() {
                assert(pn_mid.len() == 0);
                if pn.len() > 0 {
                    assert(pn.len() > pn_mid.len());
                    assert(singleton_of_edge_end(self.edge_set(), pn[0].1.0));
                }
                if pe.len() > pe_mid.len() {
                    assert(self.edge_set().contains(pe[pe_mid.len() as int]));
                }
            }
        }
    }

    /// A singleton cluster for each node, with the node's neighbors, stored in
    /// two repositories.
    fn seed_clusters(&self) -> (r: (ClusterRepository, ClusterRepository))
        ensures
            r.0@ == r.1@,
            forall|k: Seq<char>|
                r.0@.contains_key(k) <==> exists|i: int|
                    0 <= i < self.node_views().len() && #[trigger] self.node_views()[i].0 == k,
            forall|k: Seq<char>|
                #[trigger] r.0@.contains_key(k) ==> r.0@[k] == singleton_of(self.edge_set(), k),
    {
        let mut cluster_repository = ClusterRepository::new();
        let mut c_prime = ClusterRepository::new();
        let ghost nv = self.node_views();
        let mut i: usize = 0;
        while i < self.nodes.len()
            invariant
                nv == self.node_views(),
                i <= self.nodes.len(),
                cluster_repository@ == c_prime@,
                forall|k: Seq<char>|
                    cluster_repository@.contains_key(k) <==> exists|j: int|
                        0 <= j < i && #[trigger] nv[j].0 == k,
                forall|k: Seq<char>|
                    #[trigger] cluster_repository@.contains_key(k) ==> cluster_repository@[k]
                        == singleton_of(self.edge_set(), k),
            decreases self.nodes.len() - i,
        {
            let id = self.nodes[i].get_id();
            let members = vec![id.clone()];
            let ghost member_views = views(members@);
            let items = VecSet::from_iter(members);
            let cluster_nodes = Cluster::new(items, self.neighbors(id));
            proof {
                assert(member_views =~= seq![id@]);
                lemma_single_seq_set(id@);
                lemma_group_id_single(id@);
                assert(nv[i as int] == self.nodes@[i as int]@);
                assert(cluster_nodes@ =~= singleton_of(self.edge_set(), id@));
            }
            cluster_repository.add_cluster(&cluster_nodes);
            c_prime.add_cluster(&cluster_nodes);
            proof {
                assert forall|k: Seq<char>|
                    cluster_repository@.contains_key(k) <==> exists|j: int|
                        0 <= j < i + 1 && #[trigger] nv[j].0 == k by {
                    if k == id@ {
                        assert(nv[i as int].0 == k);
                    }
                }
            }
            i += 1;
        }
        (cluster_repository, c_prime)
    }

    /// Merges the most similar pair of working clusters, as long as their
    /// similarity reaches one quarter, storing every union in
    /// `cluster_repository`.
    fn agglomerate(&self, cluster_repository: &mut ClusterRepository, c_prime: ClusterRepository)
        ensures
            old(cluster_repository)@.dom().subset_of(final(cluster_repository)@.dom()),
            c_prime@.dom().len() == 0 ==> final(cluster_repository)@ == old(cluster_repository)@,
    {
        let ghost start_empty = c_prime@.dom().len() == 0;
        let mut c_prime = c_prime;
        let mut similarity_matrix = SimilarityMatrix::new();
        let working = c_prime.clusters();
        let comparison_sets = self.generate_graph_comparison_set(&working);
        let ghost cs = views(working@);
        let mut i: usize = 0;
        while i < comparison_sets.len()
            invariant
                cs == views(working@),
                forall|k: int|
                    0 <= k < comparison_sets.len() ==> is_shared_pair(
                        cs,
                        #[trigger] tuple_views(comparison_sets@)[k],
                    ),
                forall|a: int|
                    0 <= a < working.len() ==> c_prime@.contains_key(group_id(#[trigger] working@[a]@.0)),
                forall|a: int, b: int|
                    0 <= a < working.len() && 0 <= b < working.len() && a != b ==> group_id(#[trigger] working@[a]@.0)
                        != group_id(#[trigger] working@[b]@.0),
                pairs_stored(similarity_matrix@, c_prime@),
            decreases comparison_sets.len() - i,
        {
            let cluster = &comparison_sets[i].one;
            let comparison_cluster = &comparison_sets[i].two;
            let similarity = cluster.similarity(comparison_cluster);
            let one = cluster.get_id();
            let two = comparison_cluster.get_id();
            proof {
                assert(is_shared_pair(cs, tuple_views(comparison_sets@)[i as int]));
                let (a, b) = choose|a: int, b: int|
                    #[trigger] share_neighbor(cs, a, b) && tuple_views(comparison_sets@)[i as int] == (cs[a], cs[b]);
                assert(cs[a] == working@[a]@ && cs[b] == working@[b]@);
                assert(one@ != two@);
                assert(c_prime@.contains_key(one@));
                assert(c_prime@.contains_key(two@));
            }
            let ghost before = similarity_matrix@;
            similarity_matrix.set_similarity(UnorderedTuple { one, two }, similarity);
            proof {
                assert forall|k: Set<Seq<char>>| #[trigger] similarity_matrix@.contains_key(k) implies exists|x: Seq<char>, y: Seq<char>|
                    x != y && k == set![x, y] && c_prime@.contains_key(x) && c_prime@.contains_key(y) by {
                    if !before.contains_key(k) {
                        assert(k == set![one@, two@]);
                    }
                }
            }
            i += 1;
        }
        while c_prime.len() > 0
            invariant
                pairs_stored(similarity_matrix@, c_prime@),
                old(cluster_repository)@.dom().subset_of(cluster_repository@.dom()),
                start_empty ==> c_prime@.dom().len() == 0 && cluster_repository@ == old(
                    cluster_repository,
                )@,
            decreases c_prime@.dom().len(),
        {
            let ghost n = c_prime@.dom().len();
            let (pair, similarity) = match similarity_matrix.get_max_similarity() {
                Some(m) => m,
                None => break,
            };
            if similarity.less_than(&Similarity::minimum()) {
                break ;
            }
            let ghost a = pair.one@;
            let ghost b = pair.two@;
            proof {
                let (x, y) = choose|x: Seq<char>, y: Seq<char>|
                    x != y && pair@ == set![x, y] && c_prime@.contains_key(x) && c_prime@.contains_key(y);
                crate::unordered_tuple::lemma_pair_sets_equal(a, b, x, y);
            }
            let cluster = match c_prime.get(&pair.one) {
                Some(c) => c.clone(),
                None => break,
            };
            let comparison_cluster = match c_prime.get(&pair.two) {
                Some(c) => c.clone(),
                None => break,
            };
            let ghost cp0 = c_prime@;
            let ghost m0 = similarity_matrix@;
            c_prime.remove(&pair.one);
            c_prime.remove(&pair.two);
            similarity_matrix.remove_element(pair.one.clone());
            similarity_matrix.remove_element(pair.two.clone());
            proof {
                assert forall|k: Set<Seq<char>>| #[trigger] similarity_matrix@.contains_key(k) implies exists|x: Seq<char>, y: Seq<char>|
                    x != y && k == set![x, y] && c_prime@.contains_key(x) && c_prime@.contains_key(y) by {
                    assert(m0.contains_key(k));
                    let (x, y) = choose|x: Seq<char>, y: Seq<char>|
                        x != y && k == set![x, y] && cp0.contains_key(x) && cp0.contains_key(y);
                    assert(!k.contains(a) && !k.contains(b));
                    assert(k.contains(x) && k.contains(y));
                }
            }
            let unioned_cluster = cluster.union(&comparison_cluster);
            cluster_repository.add_cluster(&unioned_cluster);
            c_prime.add_cluster(&unioned_cluster);
            let unioned_id = unioned_cluster.get_id();
            let siblings = c_prime.get_sibling_clusters(&unioned_cluster);
            let _ = c_prime.len();
            let mut j: usize = 0;
            while j < siblings.len()
                invariant
                    pairs_stored(similarity_matrix@, c_prime@),
                    c_prime@.contains_key(unioned_id@),
                    c_prime@[unioned_id@] == unioned_cluster@,
                    forall|k: Seq<char>| #[trigger] c_prime@.contains_key(k) ==> group_id(c_prime@[k].0) == k,
                    forall|c: ClusterView|
                        views(siblings@).contains(c) ==> exists|k: Seq<char>|
                            #[trigger] c_prime@.contains_key(k) && c_prime@[k] == c,
                decreases siblings.len() - j,
            {
                let comparison_cluster = &siblings[j];
                if !unioned_cluster.same_cluster(comparison_cluster) {
                    let similarity = unioned_cluster.similarity(comparison_cluster);
                    let sibling_id = comparison_cluster.get_id();
                    proof {
                        assert(views(siblings@)[j as int] == comparison_cluster@);
                        assert(views(siblings@).contains(comparison_cluster@));
                        let k = choose|k: Seq<char>| #[trigger] c_prime@.contains_key(k) && c_prime@[k] == comparison_cluster@;
                        assert(sibling_id@ == k);
                    }
                    let ghost before = similarity_matrix@;
                    similarity_matrix.set_similarity(
                        UnorderedTuple { one: unioned_id.clone(), two: sibling_id },
                        similarity,
                    );
                    proof {
                        assert forall|k: Set<Seq<char>>| #[trigger] similarity_matrix@.contains_key(k) implies exists|x: Seq<char>, y: Seq<char>|
                            x != y && k == set![x, y] && c_prime@.contains_key(x) && c_prime@.contains_key(y) by {
                            if !before.contains_key(k) {
                                assert(k == set![unioned_id@, sibling_id@]);
                            }
                        }
                    }
                }
                j += 1;
            }
            proof {
                assert(c_prime@.dom().len() < n);
            }
        }
    }

    /// Adds, for each stored cluster, the cluster of its neighbors when the
    /// two are similar enough. The similarity leaves out both clusters'
    /// members, and the neighborhood cluster's members are the first
    /// cluster's neighbors, so no neighbor is shared and nothing is added.
    fn expand_neighborhoods(&self, cluster_repository: &mut ClusterRepository)
        ensures
            final(cluster_repository)@ == old(cluster_repository)@,
    {
        let snapshot = cluster_repository.clusters();
        let mut i: usize = 0;
        while i < snapshot.len()
            invariant
                cluster_repository@ == old(cluster_repository)@,
            decreases snapshot.len() - i,
        {
            let cluster = &snapshot[i];
            let items = cluster.get_neighbors();
            let ghost item_views = views(items@);
            let mut neighbors: VecSet<String> = VecSet::new();
            let mut k: usize = 0;
            while k < items.len()
                decreases items.len() - k,
            {
                neighbors = neighbors.union(&self.neighbors(&items[k]));
                k += 1;
            }
            let neighborhood_cluster = Cluster::new(VecSet::from_iter(items), neighbors);
            let neighbor_similarity = cluster.similarity(&neighborhood_cluster);
            proof {
                assert(neighborhood_cluster@.0 == cluster@.1);
                assert(shared_neighbors(cluster@, neighborhood_cluster@) =~= Set::<Seq<char>>::empty());
                assert(neighbor_similarity.numerator == 0);
            }
            if !neighbor_similarity.less_than(&Similarity::minimum()) {
                cluster_repository.add_cluster(&neighborhood_cluster);
            }
            i += 1;
        }
    }

    /// Candidates for every pair of stored clusters (a cluster with itself
    /// included): a biclique between disjoint clusters, sized by its edge
    /// count, and a clique on one cluster, sized by half of it.
    fn generate_candidates(&self, cluster_repository: &ClusterRepository) -> (r: Vec<
        PowerEdgeCandidate,
    >)
        ensures
            forall|k: int|
                0 <= k < r.len() ==> generated_from(self.edge_set(), cluster_repository@.values(), #[trigger] r@[k]@),
            forall|x: ClusterView, y: ClusterView|
                cluster_repository@.values().contains(x) && cluster_repository@.values().contains(y)
                    && x.0.disjoint(y.0) && spans_biclique(self.edge_set(), x.0, y.0) ==> exists|k: int|
                    0 <= k < r.len() && (r@[k]@ == biclique_candidate(self.edge_set(), x, y)
                        || r@[k]@ == biclique_candidate(self.edge_set(), y, x)),
            forall|x: ClusterView|
                cluster_repository@.values().contains(x) && spans_clique(self.edge_set(), x.0, x.0)
                    ==> exists|k: int| 0 <= k < r.len() && r@[k]@ == clique_candidate(self.edge_set(), x),
    {
        let ghost e = self.edge_set();
        let ghost repo = cluster_repository@;
        let clusters = cluster_repository.clusters();
        let ghost cl = views(clusters@);
        let combinations = index_pairs_with_replacement(clusters.len());
        let mut edge_candidates: Vec<PowerEdgeCandidate> = Vec::new();
        let mut k: usize = 0;
        proof {
            assert forall|i: int| 0 <= i < cl.len() implies repo.values().contains(#[trigger] cl[i]) by {
                assert(repo.contains_key(group_id(clusters@[i]@.0)));
            }
        }
        while k < combinations.len()
            invariant
                e == self.edge_set(),
                repo == cluster_repository@,
                cl == views(clusters@),
                forall|i: int| 0 <= i < cl.len() ==> repo.values().contains(#[trigger] cl[i]),
                forall|m: int| 0 <= m < combinations.len() ==> #[trigger] combinations@[m].0 <= combinations@[m].1 && combinations@[m].1 < clusters.len(),
                forall|c: int|
                    0 <= c < edge_candidates.len() ==> generated_from(e, repo.values(), #[trigger] edge_candidates@[c]@),
                forall|m: int| 0 <= m < k ==> pair_done(e, cl, #[trigger] combinations@[m], views(edge_candidates@)),
            decreases combinations.len() - k,
        {
            let (a, b) = combinations[k];
            let cluster_one = &clusters[a];
            let cluster_two = &clusters[b];
            let ghost before = views(edge_candidates@);
            proof {
                assert(cl[a as int] == cluster_one@ && cl[b as int] == cluster_two@);
                cluster_one.lemma_finite();
                cluster_two.lemma_finite();
            }
            let node_union = cluster_one.items_ref().union(cluster_two.items_ref());
            if !cluster_one.items_ref().intersects(cluster_two.items_ref())
                && self.clusters_create_subgraph(cluster_one, cluster_two) {
                let edges = self.subgraph(&node_union);
                proof {
                    views(edges@).unique_seq_to_set();
                }
                edge_candidates.push(
                    PowerEdgeCandidate::new(
                        cluster_one.clone(),
                        cluster_two.clone(),
                        2 * (edges.len() as u128),
                    ),
                );
                proof {
                    assert(views(edge_candidates@) =~= before.push(biclique_candidate(e, cluster_one@, cluster_two@)));
                }
            }
            let ghost middle = views(edge_candidates@);
            if cluster_one.same_cluster(cluster_two) && self.clusters_are_clique(
                cluster_one,
                cluster_two,
            ) {
                let edges = self.subgraph(&node_union);
                proof {
                    views(edges@).unique_seq_to_set();
                }
                edge_candidates.push(
                    PowerEdgeCandidate::new(cluster_one.clone(), cluster_two.clone(), edges.len() as u128),
                );
                proof {
                    assert(views(edge_candidates@) =~= middle.push(clique_candidate(e, cluster_one@)));
                }
            }
            proof {
                let now = views(edge_candidates@);
                assert(before.len() <= middle.len() <= now.len());
                assert(forall|c: int| 0 <= c < before.len() ==> #[trigger] now[c] == before[c]);
                assert forall|c: int|
                    0 <= c < edge_candidates.len() implies generated_from(e, repo.values(), #[trigger] edge_candidates@[c]@) by {
                    if c >= before.len() {
                        assert(repo.values().contains(cl[a as int]));
                        assert(repo.values().contains(cl[b as int]));
                        assert(generated(e, cl[a as int], cl[b as int], edge_candidates@[c]@));
                    } else {
                        assert(edge_candidates@[c]@ == before[c]);
                    }
                }
                assert forall|m: int| 0 <= m < k + 1 implies pair_done(e, cl, #[trigger] combinations@[m], now) by {
                    if m < k {
                        assert(pair_done(e, cl, combinations@[m], before));
                        lemma_pair_done_grows(e, cl, combinations@[m], before, now);
                    } else {
                        let (x, y) = (cl[a as int], cl[b as int]);
                        if x.0.disjoint(y.0) && spans_biclique(e, x.0, y.0) {
                            assert(middle[before.len() as int] == biclique_candidate(e, x, y));
                            assert(now[before.len() as int] == middle[before.len() as int]);
                        }
                        if x == y && spans_clique(e, x.0, y.0) {
                            assert(now[middle.len() as int] == clique_candidate(e, x));
                        }
                    }
                }
            }
            k += 1;
        }
        proof {
            let now = views(edge_candidates@);
            assert forall|x: ClusterView, y: ClusterView|
                repo.values().contains(x) && repo.values().contains(y) && x.0.disjoint(y.0)
                    && spans_biclique(e, x.0, y.0) implies exists|c: int|
                    0 <= c < edge_candidates.len() && (edge_candidates@[c]@ == biclique_candidate(e, x, y)
                        || edge_candidates@[c]@ == biclique_candidate(e, y, x)) by {
                let i = stored_position(repo, clusters@, x);
                let j = stored_position(repo, clusters@, y);
                if i <= j {
                    assert(combinations@.contains((i as usize, j as usize)));
                    let m = choose|m: int| 0 <= m < combinations.len() && combinations@[m] == (i as usize, j as usize);
                    assert(pair_done(e, cl, combinations@[m], now));
                } else {
                    assert(combinations@.contains((j as usize, i as usize)));
                    let m = choose|m: int| 0 <= m < combinations.len() && combinations@[m] == (j as usize, i as usize);
                    assert(pair_done(e, cl, combinations@[m], now));
                    lemma_biclique_symmetric(e, x, y);
                }
            }
            assert forall|x: ClusterView|
                repo.values().contains(x) && spans_clique(e, x.0, x.0) implies exists|c: int|
                    0 <= c < edge_candidates.len() && edge_candidates@[c]@ == clique_candidate(e, x) by {
                let i = stored_position(repo, clusters@, x);
                assert(combinations@.contains((i as usize, i as usize)));
                let m = choose|m: int| 0 <= m < combinations.len() && combinations@[m] == (i as usize, i as usize);
                assert(pair_done(e, cl, combinations@[m], now));
            }
        }
        edge_candidates
    }

    /// The edges that the power edges stand for, each once.
    fn covered_by_power_edges(&self) -> (r: VecSet<Edge>)
        ensures
            r@ == expanded(self.power_node_views(), self.power_edge_views()),
    {
        let ghost pn = self.power_node_views();
        let ghost pe = self.power_edge_views();
        let mut covered_edges: VecSet<Edge> = VecSet::new();
        let mut k: usize = 0;
        while k < self.power_edges.len()
            invariant
                pn == self.power_node_views(),
                pe == self.power_edge_views(),
                k <= self.power_edges.len(),
                covered_edges@ == expanded(pn, pe.subrange(0, k as int)),
            decreases self.power_edges.len() - k,
        {
            let ghost before = covered_edges@;
            proof {
                assert(pe[k as int] == self.power_edges@[k as int]@);
            }
            match self.expand_power_edge(&self.power_edges[k]) {
                Some(edges) => {
                    let ghost ex = expansion(pn, pe[k as int].0, pe[k as int].1);
                    let mut t: usize = 0;
                    while t < edges.len()
                        invariant
                            t <= edges.len(),
                            views(edges@).to_set() == ex,
                            covered_edges@ == before.union(views(edges@).subrange(0, t as int).to_set()),
                        decreases edges.len() - t,
                    {
                        proof {
                            let sv = views(edges@);
                            assert(sv.subrange(0, t + 1) =~= sv.subrange(0, t as int).push(sv[t as int]));
                            sv.subrange(0, t as int).lemma_push_to_set_commute(sv[t as int]);
                        }
                        covered_edges.insert(edges[t].clone());
                        proof {
                            assert(covered_edges@ =~= before.union(views(edges@).subrange(0, t + 1).to_set()));
                        }
                        t += 1;
                    }
                    proof {
                        assert(views(edges@).subrange(0, t as int) =~= views(edges@));
                        assert(covered_edges@ == before.union(ex));
                        assert(has_id(pn, pe[k as int].0) && has_id(pn, pe[k as int].1));
                    }
                },
                None => {
                    proof {
                        assert(!(has_id(pn, pe[k as int].0) && has_id(pn, pe[k as int].1)));
                    }
                },
            }
            proof {
                lemma_expanded_push(pn, pe, k as int);
            }
            k += 1;
        }
        proof {
            assert(pe.subrange(0, k as int) =~= pe);
        }
        covered_edges
    }

    /// Makes sure some power node is named `id`, adding the singleton
    /// cluster of `id` (stored in `cluster_repository`) when none is.
    fn name_node(&mut self, id: &String, cluster_repository: &mut ClusterRepository)
        requires
            power_nodes_nested(old(self).power_node_views()),
            ids_match(old(self).power_node_views()),
            nodes_stored(old(self).power_node_views(), old(cluster_repository)@),
        ensures
            final(self).edge_set() == old(self).edge_set(),
            final(self).node_views() == old(self).node_views(),
            final(self).power_edge_views() == old(self).power_edge_views(),
            power_nodes_nested(final(self).power_node_views()),
            ids_match(final(self).power_node_views()),
            nodes_stored(final(self).power_node_views(), final(cluster_repository)@),
            old(cluster_repository)@.dom().subset_of(final(cluster_repository)@.dom()),
            has_id(final(self).power_node_views(), id@),
            final(self).power_node_views() == old(self).power_node_views() || (final(self).power_node_views()
                == old(self).power_node_views().push(final(self).power_node_views().last())
                && final(self).power_node_views().last().1.0 == set![id@]),
    {
        if self.find_power_node(id.as_str(), &self.power_nodes).is_some() {
            return ;
        }
        let ghost pn = self.power_node_views();
        let members = vec![id.clone()];
        let ghost member_views = views(members@);
        let cluster = Cluster::new(VecSet::from_iter(members), self.neighbors(id));
        proof {
            assert(member_views =~= seq![id@]);
            lemma_single_seq_set(id@);
            lemma_group_id_single(id@);
            cluster.lemma_finite();
            assert(cluster@.0 == set![id@]);
            assert forall|i: int| 0 <= i < pn.len() implies !overlaps_partially(
                cluster@.0,
                #[trigger] pn[i].1.0,
            ) by {
                lemma_small_set_nests(cluster@.0, pn[i].1.0);
            }
        }
        cluster_repository.add_cluster(&cluster);
        let node = PowerNode::new(cluster);
        proof {
            assert forall|i: int| 0 <= i < pn.len() implies !overlaps_partially(
                node@.1.0,
                #[trigger] pn[i].1.0,
            ) by {
                lemma_small_set_nests(node@.1.0, pn[i].1.0);
            }
        }
        self.add_power_node(&node);
        proof {
            let now = self.power_node_views();
            if now != pn {
                assert(now.last() == node@);
            }
            assert forall|i: int| 0 <= i < now.len() implies cluster_repository@.contains_key(
                #[trigger] now[i].0,
            ) by {
                if i < pn.len() {
                    assert(now[i] == pn[i]);
                }
            }
        }
    }

    /// Adds a power edge for each edge of the graph that no power edge covers
    /// yet, in either direction, naming a singleton power node for each of
    /// its ends that no power node names yet.
    fn cover_remaining_edges(&mut self, cluster_repository: &mut ClusterRepository)
        requires
            power_nodes_nested(old(self).power_node_views()),
            ids_match(old(self).power_node_views()),
            nodes_stored(old(self).power_node_views(), old(cluster_repository)@),
            ends_named(old(self).power_node_views(), old(self).power_edge_views()),
        ensures
            final(self).edge_set() == old(self).edge_set(),
            final(self).node_views() == old(self).node_views(),
            power_nodes_nested(final(self).power_node_views()),
            ids_match(final(self).power_node_views()),
            nodes_stored(final(self).power_node_views(), final(cluster_repository)@),
            ends_named(final(self).power_node_views(), final(self).power_edge_views()),
            old(self).power_node_views().len() <= final(self).power_node_views().len(),
            forall|i: int|
                0 <= i < old(self).power_node_views().len() ==> #[trigger] final(self).power_node_views()[i]
                    == old(self).power_node_views()[i],
            forall|i: int|
                old(self).power_node_views().len() <= i < final(self).power_node_views().len()
                    ==> singleton_of_edge_end(final(self).edge_set(), #[trigger] final(self).power_node_views()[i].1.0),
            old(self).power_edge_views().len() <= final(self).power_edge_views().len(),
            forall|k: int|
                0 <= k < old(self).power_edge_views().len() ==> #[trigger] final(self).power_edge_views()[k]
                    == old(self).power_edge_views()[k],
            forall|k: int|
                old(self).power_edge_views().len() <= k < final(self).power_edge_views().len() ==> {
                    let e = #[trigger] final(self).power_edge_views()[k];
                    &&& final(self).edge_set().contains(e)
                    &&& !expanded(old(self).power_node_views(), old(self).power_edge_views()).contains(e)
                    &&& !expanded(old(self).power_node_views(), old(self).power_edge_views()).contains(
                        (e.1, e.0),
                    )
                },
            forall|u: Seq<char>, v: Seq<char>|
                #[trigger] final(self).edge_set().contains((u, v)) ==> covered(
                    final(self).power_node_views(),
                    final(self).power_edge_views(),
                    u,
                    v,
                ),
    {
        let ghost pn0 = self.power_node_views();
        let ghost pe0 = self.power_edge_views();
        let covered_edges = self.covered_by_power_edges();
        let all_edges = self.edges.to_vec();
        let mut i: usize = 0;
        while i < all_edges.len()
            invariant
                self.edge_set() == old(self).edge_set(),
                self.node_views() == old(self).node_views(),
                pn0 == old(self).power_node_views(),
                pe0 == old(self).power_edge_views(),
                covered_edges@ == expanded(pn0, pe0),
                views(all_edges@).to_set() == self.edge_set(),
                power_nodes_nested(self.power_node_views()),
                ids_match(self.power_node_views()),
                nodes_stored(self.power_node_views(), cluster_repository@),
                ends_named(self.power_node_views(), self.power_edge_views()),
                pn0.len() <= self.power_node_views().len(),
                forall|j: int| 0 <= j < pn0.len() ==> #[trigger] self.power_node_views()[j] == pn0[j],
                forall|j: int|
                    pn0.len() <= j < self.power_node_views().len() ==> singleton_of_edge_end(
                        self.edge_set(),
                        #[trigger] self.power_node_views()[j].1.0,
                    ),
                pe0.len() <= self.power_edge_views().len(),
                forall|m: int| 0 <= m < pe0.len() ==> #[trigger] self.power_edge_views()[m] == pe0[m],
                forall|m: int|
                    pe0.len() <= m < self.power_edge_views().len() ==> {
                        let e = #[trigger] self.power_edge_views()[m];
                        &&& self.edge_set().contains(e)
                        &&& !expanded(pn0, pe0).contains(e)
                        &&& !expanded(pn0, pe0).contains((e.1, e.0))
                    },
                forall|x: int| 0 <= x < i ==> covered(self.power_node_views(), self.power_edge_views(), #[trigger] views(all_edges@)[x].0, views(all_edges@)[x].1),
            decreases all_edges.len() - i,
        {
            let edge = &all_edges[i];
            let ghost uv = views(all_edges@)[i as int];
            let ghost pn_before = self.power_node_views();
            let ghost pe_before = self.power_edge_views();
            proof {
                assert(edge@ == uv);
                assert(views(all_edges@).to_set().contains(uv));
            }
            let reversed = Edge::from_ids(edge.get_to(), edge.get_from());
            if !covered_edges.contains(edge.clone()) && !covered_edges.contains(reversed) {
                let from = edge.get_from();
                let to = edge.get_to();
                self.name_node(&from, cluster_repository);
                let ghost pn_mid = self.power_node_views();
                self.name_node(&to, cluster_repository);
                self.power_edges.push(PowerEdge::new(from, to));
                proof {
                    let pn = self.power_node_views();
                    let pe = self.power_edge_views();
                    assert(pe =~= pe_before.push(uv));
                    lemma_has_id_extends(pn_mid, pn, uv.0);
                    assert forall|k: int| 0 <= k < pe.len() implies has_id(pn, #[trigger] pe[k].0) && has_id(pn, pe[k].1) by {
                        if k < pe_before.len() {
                            assert(pe[k] == pe_before[k]);
                            lemma_has_id_extends(pn_before, pn, pe_before[k].0);
                            lemma_has_id_extends(pn_before, pn, pe_before[k].1);
                        }
                    }
                    assert forall|j: int|
                        pn0.len() <= j < pn.len() implies singleton_of_edge_end(self.edge_set(), #[trigger] pn[j].1.0) by {
                        if j < pn_before.len() {
                            assert(pn[j] == pn_before[j]);
                        } else {
                            assert(self.edge_set().contains((uv.0, uv.1)));
                        }
                    }
                    assert forall|j: int| 0 <= j < pn0.len() implies #[trigger] pn[j] == pn0[j] by {
                        assert(pn[j] == pn_before[j]);
                    }
                    assert(covered(pn, pe, uv.0, uv.1)) by {
                        reveal(covered);
                        assert(pe[pe.len() - 1] == (uv.0, uv.1));
                        assert(covers_at(pn, pe, pe.len() - 1, uv.0, uv.1));
                    }
                    assert forall|x: int| 0 <= x < i implies covered(pn, pe, #[trigger] views(all_edges@)[x].0, views(all_edges@)[x].1) by {
                        let w = views(all_edges@)[x];
                        lemma_covered_more_nodes(pn_before, pn, pe_before, w.0, w.1);
                        lemma_covered_extends(pn, pe_before, pe, w.0, w.1);
                    }
                }
            } else {
                proof {
                    let pn = self.power_node_views();
                    let pe = self.power_edge_views();
                    let e = if covered_edges@.contains(uv) { uv } else { (uv.1, uv.0) };
                    assert(expanded(pn0, pe0).contains(e));
                    let m = choose|m: int|
                        0 <= m < pe0.len() && has_id(pn0, pe0[m].0) && has_id(pn0, pe0[m].1) && #[trigger] expansion(pn0, pe0[m].0, pe0[m].1).contains(e);
                    lemma_covered_by(pn0, pe0, m, uv.0, uv.1);
                    lemma_covered_more_nodes(pn0, pn, pe0, uv.0, uv.1);
                    lemma_covered_extends(pn, pe0, pe, uv.0, uv.1);
                }
            }
            i += 1;
        }
        proof {
            assert forall|u: Seq<char>, v: Seq<char>|
                #[trigger] self.edge_set().contains((u, v)) implies covered(self.power_node_views(), self.power_edge_views(), u, v) by {
                assert(views(all_edges@).to_set().contains((u, v)));
                let x = choose|x: int| 0 <= x < views(all_edges@).len() && views(all_edges@)[x] == (u, v);
                assert(covered(self.power_node_views(), self.power_edge_views(), views(all_edges@)[x].0, views(all_edges@)[x].1));
            }
        }
    }

    /// Every edge between members of `nodes`.
    pub fn subgraph(&self, nodes: &VecSet<String>) -> (r: Vec<Edge>)
        ensures
            views(r@).to_set() == induced(self.edge_set(), nodes@),
            views(r@).no_duplicates(),
    {
        self.edges.subgraph(nodes)
    }

    /// The nodes with an edge to or from `node_id`.
    pub fn neighbors(&self, node_id: &String) -> (r: VecSet<String>)
        ensures
            r@ == Set::new(|x: Seq<char>| linked(self.edge_set(), x, node_id@)),
    {
        let parents = self.edges.parents(node_id);
        let children = self.edges.children(node_id);
        let r = parents.union(&children);
        assert(r@ =~= Set::new(|x: Seq<char>| linked(self.edge_set(), x, node_id@)));
        r
    }

    /// The nodes with an edge into `node_id`.
    pub fn predecessors(&self, node_id: &String) -> (r: VecSet<String>)
        ensures
            r@ == Set::new(|x: Seq<char>| self.edge_set().contains((x, node_id@))),
    {
        self.edges.parents(node_id)
    }

    /// True when every member of `cluster_one` is linked by an edge, in
    /// either direction, to every member of `cluster_two`.
    pub fn clusters_create_subgraph(&self, cluster_one: &Cluster, cluster_two: &Cluster) -> (r:
        bool)
        ensures
            r == spans_biclique(self.edge_set(), cluster_one@.0, cluster_two@.0),
    {
        self.all_linked(cluster_one, cluster_two, false)
    }

    /// True when every member of `cluster_one` is linked by an edge, in
    /// either direction, to every other member of `cluster_two`.
    pub fn clusters_are_clique(&self, cluster_one: &Cluster, cluster_two: &Cluster) -> (r: bool)
        ensures
            r == spans_clique(self.edge_set(), cluster_one@.0, cluster_two@.0),
    {
        self.all_linked(cluster_one, cluster_two, true)
    }

    fn all_linked(&self, cluster_one: &Cluster, cluster_two: &Cluster, skip_same: bool) -> (r: bool)
        ensures
            !skip_same ==> r == spans_biclique(self.edge_set(), cluster_one@.0, cluster_two@.0),
            skip_same ==> r == spans_clique(self.edge_set(), cluster_one@.0, cluster_two@.0),
    {
        let ghost e = self.edge_set();
        let a = cluster_one.get_items();
        let b = cluster_two.get_items();
        let ghost va = views(a@);
        let ghost vb = views(b@);
        let mut i: usize = 0;
        while i < a.len()
            invariant
                e == self.edge_set(),
                va == views(a@),
                vb == views(b@),
                va.to_set() == cluster_one@.0,
                vb.to_set() == cluster_two@.0,
                i <= a.len(),
                forall|x: int, y: int|
                    0 <= x < i && 0 <= y < b.len() && (!skip_same || va[x] != vb[y]) ==> #[trigger] linked(
                        e,
                        va[x],
                        vb[y],
                    ),
            decreases a.len() - i,
        {
            let mut j: usize = 0;
            while j < b.len()
                invariant
                    e == self.edge_set(),
                    va == views(a@),
                    vb == views(b@),
                    va.to_set() == cluster_one@.0,
                    vb.to_set() == cluster_two@.0,
                    i < a.len(),
                    j <= b.len(),
                    forall|x: int, y: int|
                        0 <= x < i && 0 <= y < b.len() && (!skip_same || va[x] != vb[y]) ==> #[trigger] linked(
                            e,
                            va[x],
                            vb[y],
                        ),
                    forall|y: int|
                        0 <= y < j && (!skip_same || va[i as int] != vb[y]) ==> #[trigger] linked(
                            e,
                            va[i as int],
                            vb[y],
                        ),
                decreases b.len() - j,
            {
                if !(skip_same && a[i] == b[j]) && !self.edges.connected(&a[i], &b[j]) {
                    proof {
                        assert(va.to_set().contains(va[i as int]));
                        assert(vb.to_set().contains(vb[j as int]));
                        assert(cluster_one@.0.contains(va[i as int]));
                        assert(cluster_two@.0.contains(vb[j as int]));
                        assert(!linked(e, va[i as int], vb[j as int]));
                        if skip_same {
                            assert(va[i as int] != vb[j as int]);
                        }
                    }
                    return false;
                }
                j += 1;
            }
            i += 1;
        }
        proof {
            assert forall|u: Seq<char>, w: Seq<char>|
                cluster_one@.0.contains(u) && cluster_two@.0.contains(w) && (!skip_same || u != w)
                    implies #[trigger] linked(e, u, w) by {
                assert(va.to_set().contains(u));
                assert(vb.to_set().contains(w));
                let x = choose|x: int| 0 <= x < va.len() && va[x] == u;
                let y = choose|y: int| 0 <= y < vb.len() && vb[y] == w;
                assert(linked(e, va[x], vb[y]));
            }
        }
        true
    }
}

} // verus!
