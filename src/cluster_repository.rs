//! The clusters found so far, keyed by id, with overlaps and a neighbor index.

use vstd::pervasive::VecAdditionalExecFns;
use vstd::prelude::*;

use crate::clusters::Cluster;
use crate::ids::group_id;
use crate::sets::{views, SetItem, VecSet};
use crate::similarity_matrix::{keys_distinct, lemma_map_of, map_of};

verus! {

/// How the members of a newly added cluster relate to those of a stored one.
#[derive(Debug, Clone, Copy, PartialEq, Eq, Structural)]
pub enum OverlapType {
    /// Some members in common, and each has members the other lacks.
    Partial,
    /// The new cluster's members are strictly inside the stored one's.
    Subset,
    /// The same members.
    Equal,
}

/// The overlap of member set `a` (the new cluster) with member set `b`.
pub open spec fn overlap_of(a: Set<Seq<char>>, b: Set<Seq<char>>) -> Option<OverlapType> {
    if a == b {
        Some(OverlapType::Equal)
    } else if a.subset_of(b) {
        Some(OverlapType::Subset)
    } else if !a.disjoint(b) && !b.subset_of(a) {
        Some(OverlapType::Partial)
    } else {
        None
    }
}

/// The overlaps of a cluster with id `id` and members `items` against the
/// clusters of `m`.
pub open spec fn overlaps_against(
    id: Seq<char>,
    items: Set<Seq<char>>,
    m: Map<Seq<char>, (Set<Seq<char>>, Set<Seq<char>>)>,
) -> Map<(Seq<char>, Seq<char>), OverlapType> {
    Map::new(
        |k: (Seq<char>, Seq<char>)|
            k.0 == id && m.contains_key(k.1) && overlap_of(items, m[k.1].0) is Some,
        |k: (Seq<char>, Seq<char>)| overlap_of(items, m[k.1].0)->Some_0,
    )
}

fn is_equal_clusters(cluster: &Cluster, comparison_cluster: &Cluster) -> (r: bool)
    ensures
        r == (cluster@.0 == comparison_cluster@.0),
{
    cluster.items_ref().set_eq(&comparison_cluster.items_ref())
}

fn is_subset(cluster: &Cluster, comparison_cluster: &Cluster) -> (r: bool)
    ensures
        r == (cluster@.0.subset_of(comparison_cluster@.0) && cluster@.0
            != comparison_cluster@.0),
{
    let r = cluster.items_ref().is_proper_subset_of(&comparison_cluster.items_ref());
    proof {
        if cluster@.0.subset_of(comparison_cluster@.0) && comparison_cluster@.0.subset_of(
            cluster@.0,
        ) {
            assert(cluster@.0 =~= comparison_cluster@.0);
        }
    }
    r
}

fn is_partial_overlap(cluster: &Cluster, comparison_cluster: &Cluster) -> (r: bool)
    ensures
        r == (!cluster@.0.disjoint(comparison_cluster@.0) && !cluster@.0.subset_of(
            comparison_cluster@.0,
        ) && !comparison_cluster@.0.subset_of(cluster@.0)),
{
    let common = cluster.items_ref().intersection(&comparison_cluster.items_ref());
    let meets = common.len() > 0;
    proof {
        common.lemma_finite();
        crate::clusters::lemma_nonempty_len(common@);
        if !cluster@.0.disjoint(comparison_cluster@.0) {
            let x = choose|x: Seq<char>|
                cluster@.0.contains(x) && comparison_cluster@.0.contains(x);
            assert(common@.contains(x));
        }
    }
    meets && !cluster.items_ref().is_subset_of(&comparison_cluster.items_ref())
        && !comparison_cluster.items_ref().is_subset_of(cluster.items_ref())
}

fn classify(cluster: &Cluster, comparison_cluster: &Cluster) -> (r: Option<OverlapType>)
    ensures
        r == overlap_of(cluster@.0, comparison_cluster@.0),
{
    if is_equal_clusters(cluster, comparison_cluster) {
        Some(OverlapType::Equal)
    } else if is_subset(cluster, comparison_cluster) {
        Some(OverlapType::Subset)
    } else if is_partial_overlap(cluster, comparison_cluster) {
        Some(OverlapType::Partial)
    } else {
        None
    }
}

/// The clusters found so far, keyed by id, with the overlaps between them and
/// an index from each node to the clusters that have it as a neighbor. The
/// view maps each id to the cluster's `(items, neighbors)`.
#[derive(Debug)]
pub struct ClusterRepository {
    clusters: Vec<(String, Cluster)>,
    overlaps: Vec<((String, String), OverlapType)>,
    node_cluster_neighbor_map: VecSet<(String, String)>,
}

pub open spec fn cluster_pairs(v: Seq<(String, Cluster)>) -> Seq<
    (Seq<char>, (Set<Seq<char>>, Set<Seq<char>>)),
> {
    v.map_values(|e: (String, Cluster)| (e.0@, e.1@))
}

pub open spec fn overlap_pairs(v: Seq<((String, String), OverlapType)>) -> Seq<
    ((Seq<char>, Seq<char>), OverlapType),
> {
    v.map_values(|e: ((String, String), OverlapType)| ((e.0.0@, e.0.1@), e.1))
}

impl View for ClusterRepository {
    type V = Map<Seq<char>, (Set<Seq<char>>, Set<Seq<char>>)>;

    closed spec fn view(&self) -> Map<Seq<char>, (Set<Seq<char>>, Set<Seq<char>>)> {
        map_of(cluster_pairs(self.clusters@))
    }
}

impl ClusterRepository {
    #[verifier::type_invariant]
    spec fn keyed_by_id(self) -> bool {
        &&& keys_distinct(cluster_pairs(self.clusters@))
        &&& forall|i: int|
            0 <= i < self.clusters.len() ==> #[trigger] cluster_pairs(self.clusters@)[i].0
                == group_id(cluster_pairs(self.clusters@)[i].1.0)
    }

    /// The overlap recorded for each ordered pair of cluster ids.
    pub closed spec fn overlaps_view(&self) -> Map<(Seq<char>, Seq<char>), OverlapType> {
        map_of(overlap_pairs(self.overlaps@))
    }

    /// The pairs `(node, cluster id)` where the node is a neighbor of the
    /// cluster when it was added.
    pub closed spec fn neighbor_index(&self) -> Set<(Seq<char>, Seq<char>)> {
        self.node_cluster_neighbor_map@
    }

    pub fn new() -> (r: ClusterRepository)
        ensures
            r@ == Map::<Seq<char>, (Set<Seq<char>>, Set<Seq<char>>)>::empty(),
            r.overlaps_view() == Map::<(Seq<char>, Seq<char>), OverlapType>::empty(),
            r.neighbor_index() == Set::<(Seq<char>, Seq<char>)>::empty(),
    {
        let r = ClusterRepository {
            clusters: Vec::new(),
            overlaps: Vec::new(),
            node_cluster_neighbor_map: VecSet::new(),
        };
        assert(cluster_pairs(r.clusters@) =~= Seq::empty());
        assert(overlap_pairs(r.overlaps@) =~= Seq::empty());
        r
    }

    /// The number of stored clusters.
    pub fn len(&self) -> (r: usize)
        ensures
            r == self@.dom().len(),
            self@.dom().finite(),
            forall|k: Seq<char>| #[trigger] self@.contains_key(k) ==> group_id(self@[k].0) == k,
    {
        proof {
            use_type_invariant(self);
            lemma_map_of(cluster_pairs(self.clusters@));
            let cp = cluster_pairs(self.clusters@);
            assert forall|k: Seq<char>| #[trigger] self@.contains_key(k) implies group_id(self@[k].0) == k by {
                let m = choose|m: int| 0 <= m < cp.len() && cp[m].0 == k;
                assert(cp[m].0 == group_id(cp[m].1.0));
            }
        }
        self.clusters.len()
    }

    fn position(&self, cluster_id: &String) -> (r: Option<usize>)
        ensures
            match r {
                Some(i) => i < self.clusters.len() && cluster_pairs(self.clusters@)[i as int].0
                    == cluster_id@,
                None => !self@.contains_key(cluster_id@),
            },
    {
        proof {
            use_type_invariant(self);
            lemma_map_of(cluster_pairs(self.clusters@));
        }
        let mut i: usize = 0;
        while i < self.clusters.len()
            invariant
                i <= self.clusters.len(),
                forall|k: int| 0 <= k < i ==> cluster_pairs(self.clusters@)[k].0 != cluster_id@,
            decreases self.clusters.len() - i,
        {
            if self.clusters[i].0 == *cluster_id {
                return Some(i);
            }
            i += 1;
        }
        None
    }

    /// The overlaps of `cluster`, whose id is `cluster_id`, against every
    /// stored cluster.
    fn calculate_overlaps(&self, cluster: &Cluster, cluster_id: &String) -> (r: Vec<
        ((String, String), OverlapType),
    >)
        ensures
            map_of(overlap_pairs(r@)) == overlaps_against(cluster_id@, cluster@.0, self@),
    {
        proof {
            use_type_invariant(self);
            lemma_map_of(cluster_pairs(self.clusters@));
        }
        let ghost cp = cluster_pairs(self.clusters@);
        let mut r: Vec<((String, String), OverlapType)> = Vec::new();
        let mut i: usize = 0;
        while i < self.clusters.len()
            invariant
                cp == cluster_pairs(self.clusters@),
                keys_distinct(cp),
                i <= self.clusters.len(),
                keys_distinct(overlap_pairs(r@)),
                forall|a: int|
                    0 <= a < r.len() ==> exists|m: int|
                        0 <= m < i && #[trigger] overlap_pairs(r@)[a].0 == (cluster_id@, cp[m].0),
                map_of(overlap_pairs(r@)) == overlaps_against(
                    cluster_id@,
                    cluster@.0,
                    map_of(cp.subrange(0, i as int)),
                ),
            decreases self.clusters.len() - i,
        {
            let entry = &self.clusters[i];
            let ghost before = r@;
            let ghost sub = cp.subrange(0, i as int);
            proof {
                assert(cp.subrange(0, i + 1) =~= sub.push(cp[i as int]));
                assert(cp.subrange(0, i + 1).drop_last() == sub);
                assert(keys_distinct(sub));
                lemma_map_of(sub);
                assert(!map_of(sub).contains_key(cp[i as int].0)) by {
                    if map_of(sub).contains_key(cp[i as int].0) {
                        let m = choose|m: int| 0 <= m < sub.len() && sub[m].0 == cp[i as int].0;
                        assert(cp[m].0 == cp[i as int].0);
                    }
                }
            }
            match classify(cluster, &entry.1) {
                Some(kind) => {
                    r.push(((cluster_id.clone(), entry.0.clone()), kind));
                    proof {
                        let vr = overlap_pairs(r@);
                        assert(vr =~= overlap_pairs(before).push(((cluster_id@, cp[i as int].0), kind)));
                        assert(vr.drop_last() == overlap_pairs(before));
                        assert forall|a: int, b: int|
                            0 <= a < vr.len() && 0 <= b < vr.len() && a != b implies vr[a].0
                            != vr[b].0 by {
                            if a == before.len() {
                                let m = choose|m: int|
                                    0 <= m < i && #[trigger] overlap_pairs(before)[b].0 == (cluster_id@, cp[m].0);
                                assert(vr[b] == overlap_pairs(before)[b]);
                            } else if b == before.len() {
                                let m = choose|m: int|
                                    0 <= m < i && #[trigger] overlap_pairs(before)[a].0 == (cluster_id@, cp[m].0);
                                assert(vr[a] == overlap_pairs(before)[a]);
                            }
                        }
                        assert forall|a: int| 0 <= a < r.len() implies exists|m: int|
                            0 <= m < i + 1 && #[trigger] overlap_pairs(r@)[a].0 == (cluster_id@, cp[m].0) by {
                            if a < before.len() {
                                assert(vr[a] == overlap_pairs(before)[a]);
                                let m = choose|m: int|
                                    0 <= m < i && #[trigger] overlap_pairs(before)[a].0 == (cluster_id@, cp[m].0);
                            }
                        }
                        assert(map_of(vr) =~= overlaps_against(
                            cluster_id@,
                            cluster@.0,
                            map_of(cp.subrange(0, i + 1)),
                        ));
                    }
                },
                None => {
                    proof {
                        assert(map_of(overlap_pairs(r@)) =~= overlaps_against(
                            cluster_id@,
                            cluster@.0,
                            map_of(cp.subrange(0, i + 1)),
                        ));
                    }
                },
            }
            i += 1;
        }
        proof {
            assert(cp.subrange(0, i as int) =~= cp);
        }
        r
    }

    /// Stores `cluster` under its id (replacing a cluster with the same id),
    /// records its overlaps with every stored cluster, itself included, and
    /// indexes it under each of its neighbors.
    pub fn add_cluster(&mut self, cluster: &Cluster)
        ensures
            final(self)@ == old(self)@.insert(group_id(cluster@.0), cluster@),
            final(self).overlaps_view() == old(self).overlaps_view().union_prefer_right(
                overlaps_against(group_id(cluster@.0), cluster@.0, final(self)@),
            ),
            final(self).neighbor_index() == old(self).neighbor_index().union(
                Set::new(
                    |p: (Seq<char>, Seq<char>)|
                        p.1 == group_id(cluster@.0) && cluster@.1.contains(p.0),
                ),
            ),
    {
        proof {
            use_type_invariant(&*self);
            lemma_map_of(cluster_pairs(self.clusters@));
        }
        let cluster_id = cluster.get_id();
        let ghost old_pairs = cluster_pairs(self.clusters@);
        let ghost key = cluster_id@;
        match self.position(&cluster_id) {
            Some(i) => {
                let mut stored: Vec<(String, Cluster)> = Vec::new();
                std::mem::swap(&mut stored, &mut self.clusters);
                stored.set(i, (cluster_id.clone(), cluster.clone()));
                proof {
                    let np = cluster_pairs(stored@);
                    assert(np =~= old_pairs.update(i as int, (key, cluster@)));
                    assert forall|a: int, b: int|
                        0 <= a < np.len() && 0 <= b < np.len() && a != b implies np[a].0
                        != np[b].0 by {
                        if a != i && b != i {
                            assert(np[a] == old_pairs[a] && np[b] == old_pairs[b]);
                        } else if a == i {
                            assert(np[b] == old_pairs[b]);
                        } else {
                            assert(np[a] == old_pairs[a]);
                        }
                    }
                }
                self.clusters = stored;
                proof {
                    let np = cluster_pairs(self.clusters@);
                    assert(np =~= old_pairs.update(i as int, (key, cluster@)));
                    lemma_map_of(np);
                    assert(self@ =~= old(self)@.insert(key, cluster@)) by {
                        assert forall|k: Seq<char>| #[trigger] self@.contains_key(k) <==> old(self)@.insert(key, cluster@).contains_key(k) by {
                            if old(self)@.contains_key(k) {
                                let m = choose|m: int| 0 <= m < old_pairs.len() && old_pairs[m].0 == k;
                                assert(np[m].0 == k);
                            }
                            if self@.contains_key(k) {
                                let m = choose|m: int| 0 <= m < np.len() && np[m].0 == k;
                                if m != i {
                                    assert(old_pairs[m].0 == k);
                                }
                            }
                        }
                        assert forall|k: Seq<char>| #[trigger] self@.contains_key(k) implies self@[k] == old(self)@.insert(key, cluster@)[k] by {
                            let m = choose|m: int| 0 <= m < np.len() && np[m].0 == k;
                            if m != i {
                                assert(old_pairs[m] == np[m]);
                                assert(old_pairs[m].0 != key);
                            }
                        }
                    }
                }
            },
            None => {
                let mut stored: Vec<(String, Cluster)> = Vec::new();
                std::mem::swap(&mut stored, &mut self.clusters);
                stored.push((cluster_id.clone(), cluster.clone()));
                proof {
                    let np = cluster_pairs(stored@);
                    assert(np =~= old_pairs.push((key, cluster@)));
                    assert(np.drop_last() == old_pairs);
                    assert forall|a: int, b: int|
                        0 <= a < np.len() && 0 <= b < np.len() && a != b implies np[a].0
                        != np[b].0 by {
                        if a == old_pairs.len() {
                            assert(old(self)@.contains_key(old_pairs[b].0));
                        } else if b == old_pairs.len() {
                            assert(old(self)@.contains_key(old_pairs[a].0));
                        }
                    }
                }
                self.clusters = stored;
            },
        }
        let overlaps = self.calculate_overlaps(cluster, &cluster_id);
        let ghost old_ov = overlap_pairs(self.overlaps@);
        let mut recorded: Vec<((String, String), OverlapType)> = Vec::new();
        std::mem::swap(&mut recorded, &mut self.overlaps);
        let mut i: usize = 0;
        while i < overlaps.len()
            invariant
                i <= overlaps.len(),
                map_of(overlap_pairs(recorded@)) == map_of(old_ov).union_prefer_right(
                    map_of(overlap_pairs(overlaps@).subrange(0, i as int)),
                ),
            decreases overlaps.len() - i,
        {
            let ghost before = overlap_pairs(recorded@);
            let e = ((overlaps[i].0.0.clone(), overlaps[i].0.1.clone()), overlaps[i].1);
            recorded.push(e);
            proof {
                let s = overlap_pairs(overlaps@);
                assert(s.subrange(0, i + 1).drop_last() =~= s.subrange(0, i as int));
                assert(overlap_pairs(recorded@).drop_last() =~= before);
                assert(overlap_pairs(recorded@).last() == s[i as int]);
                assert(map_of(overlap_pairs(recorded@)) =~= map_of(old_ov).union_prefer_right(
                    map_of(s.subrange(0, i + 1)),
                ));
            }
            i += 1;
        }
        proof {
            assert(overlap_pairs(overlaps@).subrange(0, i as int) =~= overlap_pairs(overlaps@));
        }
        self.overlaps = recorded;
        let neighbors = cluster.get_neighbors();
        let ghost old_index = self.node_cluster_neighbor_map@;
        let mut index: VecSet<(String, String)> = VecSet::new();
        std::mem::swap(&mut index, &mut self.node_cluster_neighbor_map);
        let mut j: usize = 0;
        while j < neighbors.len()
            invariant
                j <= neighbors.len(),
                key == cluster_id@,
                views(neighbors@).to_set() == cluster@.1,
                index@ == old_index.union(
                    Set::new(
                        |p: (Seq<char>, Seq<char>)|
                            p.1 == key && views(neighbors@).subrange(0, j as int).contains(p.0),
                    ),
                ),
            decreases neighbors.len() - j,
        {
            let ghost before = index@;
            index.insert((neighbors[j].clone(), cluster_id.clone()));
            proof {
                let s = views(neighbors@);
                assert(index@ == before.insert((s[j as int], key)));
                assert(s.subrange(0, j + 1) =~= s.subrange(0, j as int).push(s[j as int]));
                assert(index@ =~= old_index.union(
                    Set::new(
                        |p: (Seq<char>, Seq<char>)|
                            p.1 == key && s.subrange(0, j + 1).contains(p.0),
                    ),
                )) by {
                    assert forall|p: (Seq<char>, Seq<char>)| s.subrange(0, j as int).contains(p.0) implies s.subrange(0, j + 1).contains(p.0) by {
                        let t = s.subrange(0, j as int);
                        let m = choose|m: int| 0 <= m < t.len() && t[m] == p.0;
                        assert(s.subrange(0, j + 1)[m] == p.0);
                    }
                    assert forall|p: (Seq<char>, Seq<char>)| s.subrange(0, j + 1).contains(p.0) && p.0 != s[j as int] implies s.subrange(0, j as int).contains(p.0) by {
                        let t = s.subrange(0, j + 1);
                        let m = choose|m: int| 0 <= m < t.len() && t[m] == p.0;
                        assert(s.subrange(0, j as int)[m] == p.0);
                    }
                    assert(s.subrange(0, j + 1)[j as int] == s[j as int]);
                }
            }
            j += 1;
        }
        proof {
            assert(views(neighbors@).subrange(0, j as int) =~= views(neighbors@));
            assert(index@ =~= old_index.union(
                Set::new(
                    |p: (Seq<char>, Seq<char>)|
                        p.1 == group_id(cluster@.0) && cluster@.1.contains(p.0),
                ),
            ));
        }
        self.node_cluster_neighbor_map = index;
    }

    /// The cluster stored under `cluster_id`.
    pub fn get(&self, cluster_id: &String) -> (r: Option<&Cluster>)
        ensures
            r is Some <==> self@.contains_key(cluster_id@),
            r matches Some(c) ==> c@ == self@[cluster_id@] && group_id(c@.0) == cluster_id@,
    {
        proof {
            use_type_invariant(self);
            lemma_map_of(cluster_pairs(self.clusters@));
        }
        match self.position(cluster_id) {
            Some(i) => {
                proof {
                    assert(cluster_pairs(self.clusters@)[i as int].0 == cluster_id@);
                }
                Some(&self.clusters[i].1)
            },
            None => None,
        }
    }

    /// Deletes the cluster stored under `cluster_id`, every overlap that
    /// mentions it, and its entries in the neighbor index.
    pub fn remove(&mut self, cluster_id: &String)
        ensures
            final(self)@ == old(self)@.remove(cluster_id@),
            final(self).overlaps_view() == old(self).overlaps_view().restrict(
                Set::new(|k: (Seq<char>, Seq<char>)| k.0 != cluster_id@ && k.1 != cluster_id@),
            ),
            final(self).neighbor_index() == old(self).neighbor_index().filter(
                |p: (Seq<char>, Seq<char>)| p.1 != cluster_id@,
            ),
    {
        proof {
            use_type_invariant(&*self);
            lemma_map_of(cluster_pairs(self.clusters@));
        }
        // clusters
        let ghost cp = cluster_pairs(self.clusters@);
        let mut kept: Vec<(String, Cluster)> = Vec::new();
        let mut i: usize = 0;
        while i < self.clusters.len()
            invariant
                cp == cluster_pairs(self.clusters@),
                keys_distinct(cp),
                forall|k: int| 0 <= k < cp.len() ==> #[trigger] cp[k].0 == group_id(cp[k].1.0),
                i <= self.clusters.len(),
                keys_distinct(cluster_pairs(kept@)),
                forall|k: int|
                    0 <= k < kept.len() ==> #[trigger] cluster_pairs(kept@)[k].0 == group_id(
                        cluster_pairs(kept@)[k].1.0,
                    ),
                forall|a: int|
                    0 <= a < kept.len() ==> exists|m: int|
                        0 <= m < i && #[trigger] cluster_pairs(kept@)[a] == cp[m],
                map_of(cluster_pairs(kept@)) == map_of(cp.subrange(0, i as int)).remove(
                    cluster_id@,
                ),
            decreases self.clusters.len() - i,
        {
            let ghost before = kept@;
            proof {
                assert(cp.subrange(0, i + 1) =~= cp.subrange(0, i as int).push(cp[i as int]));
                assert(cp.subrange(0, i + 1).drop_last() == cp.subrange(0, i as int));
            }
            if self.clusters[i].0 != *cluster_id {
                kept.push((self.clusters[i].0.clone(), self.clusters[i].1.clone()));
                proof {
                    let vk = cluster_pairs(kept@);
                    let vb = cluster_pairs(before);
                    assert(vk =~= vb.push(cp[i as int]));
                    assert(vk.drop_last() == vb);
                    assert forall|a: int, b: int|
                        0 <= a < vk.len() && 0 <= b < vk.len() && a != b implies vk[a].0
                        != vk[b].0 by {
                        if a == vb.len() {
                            assert(vk[b] == vb[b]);
                            let m = choose|m: int| 0 <= m < i && #[trigger] vb[b] == cp[m];
                        } else if b == vb.len() {
                            assert(vk[a] == vb[a]);
                            let m = choose|m: int| 0 <= m < i && #[trigger] vb[a] == cp[m];
                        }
                    }
                    assert forall|a: int| 0 <= a < kept.len() implies exists|m: int|
                        0 <= m < i + 1 && #[trigger] cluster_pairs(kept@)[a] == cp[m] by {
                        if a < vb.len() {
                            assert(vk[a] == vb[a]);
                            let m = choose|m: int| 0 <= m < i && #[trigger] vb[a] == cp[m];
                        }
                    }
                    assert forall|k: int| 0 <= k < kept.len() implies #[trigger] cluster_pairs(kept@)[k].0 == group_id(
                        cluster_pairs(kept@)[k].1.0,
                    ) by {
                        if k < vb.len() {
                            assert(vk[k] == vb[k]);
                        }
                    }
                    assert(map_of(vk) =~= map_of(cp.subrange(0, i + 1)).remove(cluster_id@));
                }
            } else {
                proof {
                    assert(map_of(cluster_pairs(kept@)) =~= map_of(cp.subrange(0, i + 1)).remove(
                        cluster_id@,
                    ));
                }
            }
            i += 1;
        }
        proof {
            assert(cp.subrange(0, i as int) =~= cp);
        }
        self.clusters = kept;
        // overlaps
        let ghost keep = Set::new(
            |k: (Seq<char>, Seq<char>)| k.0 != cluster_id@ && k.1 != cluster_id@,
        );
        let ghost ov = overlap_pairs(self.overlaps@);
        let mut kept_overlaps: Vec<((String, String), OverlapType)> = Vec::new();
        let mut i: usize = 0;
        while i < self.overlaps.len()
            invariant
                ov == overlap_pairs(self.overlaps@),
                i <= self.overlaps.len(),
                keep == Set::new(
                    |k: (Seq<char>, Seq<char>)| k.0 != cluster_id@ && k.1 != cluster_id@,
                ),
                map_of(overlap_pairs(kept_overlaps@)) == map_of(ov.subrange(0, i as int)).restrict(
                    keep,
                ),
            decreases self.overlaps.len() - i,
        {
            let ghost before = overlap_pairs(kept_overlaps@);
            proof {
                assert(ov.subrange(0, i + 1) =~= ov.subrange(0, i as int).push(ov[i as int]));
                assert(ov.subrange(0, i + 1).drop_last() == ov.subrange(0, i as int));
            }
            let entry = &self.overlaps[i];
            if entry.0.0 != *cluster_id && entry.0.1 != *cluster_id {
                kept_overlaps.push(((entry.0.0.clone(), entry.0.1.clone()), entry.1));
                proof {
                    let vk = overlap_pairs(kept_overlaps@);
                    assert(vk =~= before.push(ov[i as int]));
                    assert(vk.drop_last() == before);
                    assert(map_of(vk) =~= map_of(ov.subrange(0, i + 1)).restrict(keep));
                }
            } else {
                proof {
                    assert(map_of(before) =~= map_of(ov.subrange(0, i + 1)).restrict(keep));
                }
            }
            i += 1;
        }
        proof {
            assert(ov.subrange(0, i as int) =~= ov);
        }
        self.overlaps = kept_overlaps;
        // neighbor index
        let pairs = self.node_cluster_neighbor_map.to_vec();
        let ghost ps = views(pairs@);
        let mut index: VecSet<(String, String)> = VecSet::new();
        let mut i: usize = 0;
        while i < pairs.len()
            invariant
                ps == views(pairs@),
                i <= pairs.len(),
                index@ == ps.subrange(0, i as int).to_set().filter(
                    |p: (Seq<char>, Seq<char>)| p.1 != cluster_id@,
                ),
            decreases pairs.len() - i,
        {
            proof {
                assert(ps.subrange(0, i + 1) =~= ps.subrange(0, i as int).push(ps[i as int]));
                ps.subrange(0, i as int).lemma_push_to_set_commute(ps[i as int]);
            }
            if pairs[i].1 != *cluster_id {
                index.insert(pairs[i].duplicate());
            }
            proof {
                assert(index@ =~= ps.subrange(0, i + 1).to_set().filter(
                    |p: (Seq<char>, Seq<char>)| p.1 != cluster_id@,
                ));
            }
            i += 1;
        }
        proof {
            assert(ps.subrange(0, i as int) =~= ps);
        }
        self.node_cluster_neighbor_map = index;
    }

    /// The stored clusters that some neighbor of `cluster` indexes, each once,
    /// in storage order.
    pub fn get_sibling_clusters(&self, cluster: &Cluster) -> (r: Vec<Cluster>)
        ensures
            forall|c: (Set<Seq<char>>, Set<Seq<char>>)|
                views(r@).contains(c) <==> exists|k: Seq<char>|
                    #[trigger] self@.contains_key(k) && self@[k] == c && exists|n: Seq<char>|
                        cluster@.1.contains(n) && self.neighbor_index().contains((n, k)),
            views(r@).no_duplicates(),
    {
        proof {
            use_type_invariant(self);
            lemma_map_of(cluster_pairs(self.clusters@));
        }
        // ids indexed under some neighbor of `cluster`
        let pairs = self.node_cluster_neighbor_map.to_vec();
        let ghost ps = views(pairs@);
        let mut sibling_ids: VecSet<String> = VecSet::new();
        let mut i: usize = 0;
        while i < pairs.len()
            invariant
                ps == views(pairs@),
                ps.to_set() == self.neighbor_index(),
                i <= pairs.len(),
                forall|k: Seq<char>|
                    sibling_ids@.contains(k) <==> exists|m: int|
                        0 <= m < i && #[trigger] ps[m].1 == k && cluster@.1.contains(ps[m].0),
            decreases pairs.len() - i,
        {
            let ghost before = sibling_ids@;
            if cluster.neighbors_ref().contains(pairs[i].0.clone()) {
                sibling_ids.insert(pairs[i].1.clone());
            }
            proof {
                assert(pairs@[i as int]@ == ps[i as int]);
                if cluster@.1.contains(ps[i as int].0) {
                    assert(sibling_ids@ == before.insert(ps[i as int].1));
                } else {
                    assert(sibling_ids@ == before);
                }
                assert forall|k: Seq<char>|
                    sibling_ids@.contains(k) <==> exists|m: int|
                        0 <= m < i + 1 && #[trigger] ps[m].1 == k && cluster@.1.contains(ps[m].0) by {
                    if exists|m: int| 0 <= m < i + 1 && #[trigger] ps[m].1 == k && cluster@.1.contains(ps[m].0) {
                        let m = choose|m: int| 0 <= m < i + 1 && #[trigger] ps[m].1 == k && cluster@.1.contains(ps[m].0);
                        if m < i {
                            assert(exists|m: int| 0 <= m < i && #[trigger] ps[m].1 == k && cluster@.1.contains(ps[m].0));
                        }
                    }
                }
            }
            i += 1;
        }
        let ghost cp = cluster_pairs(self.clusters@);
        let mut r: Vec<Cluster> = Vec::new();
        let mut j: usize = 0;
        while j < self.clusters.len()
            invariant
                cp == cluster_pairs(self.clusters@),
                keys_distinct(cp),
                forall|i: int| 0 <= i < cp.len() ==> #[trigger] cp[i].0 == group_id(cp[i].1.0),
                j <= self.clusters.len(),
                views(r@).no_duplicates(),
                forall|c: (Set<Seq<char>>, Set<Seq<char>>)|
                    views(r@).contains(c) <==> exists|m: int|
                        0 <= m < j && #[trigger] cp[m].1 == c && sibling_ids@.contains(cp[m].0),
            decreases self.clusters.len() - j,
        {
            let ghost before = r@;
            if sibling_ids.contains(self.clusters[j].0.clone()) {
                r.push(self.clusters[j].1.clone());
                proof {
                    assert(views(r@) =~= views(before).push(cp[j as int].1));
                    assert(!views(before).contains(cp[j as int].1)) by {
                        if views(before).contains(cp[j as int].1) {
                            let m = choose|m: int|
                                0 <= m < j && #[trigger] cp[m].1 == cp[j as int].1 && sibling_ids@.contains(cp[m].0);
                            assert(cp[m].0 == cp[j as int].0);
                        }
                    }
                    assert forall|a: int, b: int|
                        0 <= a < views(r@).len() && 0 <= b < views(r@).len() && a != b implies views(r@)[a]
                        != views(r@)[b] by {
                        if a == views(before).len() {
                            assert(views(before).contains(views(before)[b]));
                        } else if b == views(before).len() {
                            assert(views(before).contains(views(before)[a]));
                        }
                    }
                }
            }
            proof {
                assert forall|c: (Set<Seq<char>>, Set<Seq<char>>)|
                    views(r@).contains(c) <==> exists|m: int|
                        0 <= m < j + 1 && #[trigger] cp[m].1 == c && sibling_ids@.contains(cp[m].0) by {
                    if views(r@).contains(c) && !views(before).contains(c) {
                        assert(cp[j as int].1 == c);
                    }
                    if views(before).contains(c) {
                        let k = choose|k: int| 0 <= k < views(before).len() && views(before)[k] == c;
                        assert(views(r@)[k] == c);
                    }
                    if exists|m: int| 0 <= m < j + 1 && #[trigger] cp[m].1 == c && sibling_ids@.contains(cp[m].0) {
                        let m = choose|m: int| 0 <= m < j + 1 && #[trigger] cp[m].1 == c && sibling_ids@.contains(cp[m].0);
                        if m == j {
                            assert(views(r@)[views(r@).len() - 1] == c);
                        } else {
                            assert(exists|m: int| 0 <= m < j && #[trigger] cp[m].1 == c && sibling_ids@.contains(cp[m].0));
                        }
                    }
                }
            }
            j += 1;
        }
        proof {
            assert forall|c: (Set<Seq<char>>, Set<Seq<char>>)|
                views(r@).contains(c) <==> exists|k: Seq<char>|
                    #[trigger] self@.contains_key(k) && self@[k] == c && exists|n: Seq<char>|
                        cluster@.1.contains(n) && self.neighbor_index().contains((n, k)) by {
                if views(r@).contains(c) {
                    let m = choose|m: int| 0 <= m < j && #[trigger] cp[m].1 == c && sibling_ids@.contains(cp[m].0);
                    let k = cp[m].0;
                    assert(self@.contains_key(k));
                    let q = choose|q: int| 0 <= q < i && #[trigger] ps[q].1 == k && cluster@.1.contains(ps[q].0);
                    assert(ps.to_set().contains(ps[q]));
                    assert(self.neighbor_index().contains((ps[q].0, k)));
                }
                if exists|k: Seq<char>|
                    #[trigger] self@.contains_key(k) && self@[k] == c && exists|n: Seq<char>|
                        cluster@.1.contains(n) && self.neighbor_index().contains((n, k)) {
                    let k = choose|k: Seq<char>|
                        #[trigger] self@.contains_key(k) && self@[k] == c && exists|n: Seq<char>|
                            cluster@.1.contains(n) && self.neighbor_index().contains((n, k));
                    let n = choose|n: Seq<char>| cluster@.1.contains(n) && self.neighbor_index().contains((n, k));
                    let q = choose|q: int| 0 <= q < ps.len() && ps[q] == (n, k);
                    assert(ps[q].1 == k);
                    assert(sibling_ids@.contains(k));
                    let m = choose|m: int| 0 <= m < cp.len() && cp[m].0 == k;
                    assert(cp[m].1 == c);
                }
            }
        }
        r
    }

    /// Every stored cluster, in storage order.
    pub fn clusters(&self) -> (r: Vec<Cluster>)
        ensures
            r@.len() == self@.dom().len(),
            forall|i: int|
                0 <= i < r.len() ==> self@.contains_key(group_id(#[trigger] r@[i]@.0))
                    && self@[group_id(r@[i]@.0)] == r@[i]@,
            forall|k: Seq<char>|
                #[trigger] self@.contains_key(k) ==> exists|i: int|
                    0 <= i < r.len() && group_id(r@[i]@.0) == k,
            forall|i: int, j: int|
                0 <= i < r.len() && 0 <= j < r.len() && i != j ==> group_id(#[trigger] r@[i]@.0)
                    != group_id(#[trigger] r@[j]@.0),
    {
        proof {
            use_type_invariant(self);
            lemma_map_of(cluster_pairs(self.clusters@));
        }
        let ghost cp = cluster_pairs(self.clusters@);
        let mut r: Vec<Cluster> = Vec::new();
        let mut i: usize = 0;
        while i < self.clusters.len()
            invariant
                cp == cluster_pairs(self.clusters@),
                i <= self.clusters.len(),
                r.len() == i,
                forall|k: int| 0 <= k < i ==> #[trigger] r@[k]@ == cp[k].1,
            decreases self.clusters.len() - i,
        {
            r.push(self.clusters[i].1.clone());
            i += 1;
        }
        proof {
            assert forall|k: int| 0 <= k < r.len() implies self@.contains_key(group_id(#[trigger] r@[k]@.0))
                && self@[group_id(r@[k]@.0)] == r@[k]@ by {
                assert(cp[k].0 == group_id(cp[k].1.0));
                assert(self@[cp[k].0] == cp[k].1);
            }
            assert forall|i: int, j: int|
                0 <= i < r.len() && 0 <= j < r.len() && i != j implies group_id(#[trigger] r@[i]@.0)
                    != group_id(#[trigger] r@[j]@.0) by {
                assert(cp[i].0 == group_id(cp[i].1.0));
                assert(cp[j].0 == group_id(cp[j].1.0));
            }
            assert forall|k: Seq<char>| #[trigger] self@.contains_key(k) implies exists|i: int|
                0 <= i < r.len() && group_id(r@[i]@.0) == k by {
                let m = choose|m: int| 0 <= m < cp.len() && cp[m].0 == k;
                assert(cp[m].0 == group_id(cp[m].1.0));
                assert(group_id(r@[m]@.0) == k);
            }
        }
        r
    }

    /// The recorded overlap of the cluster with id `a` against the one with
    /// id `b`.
    pub fn overlap(&self, a: &String, b: &String) -> (r: Option<OverlapType>)
        ensures
            r is Some <==> self.overlaps_view().contains_key((a@, b@)),
            r matches Some(t) ==> self.overlaps_view()[(a@, b@)] == t,
    {
        let ghost ov = overlap_pairs(self.overlaps@);
        let mut found: Option<OverlapType> = None;
        let mut i: usize = 0;
        while i < self.overlaps.len()
            invariant
                ov == overlap_pairs(self.overlaps@),
                i <= self.overlaps.len(),
                found is Some <==> map_of(ov.subrange(0, i as int)).contains_key((a@, b@)),
                found matches Some(t) ==> map_of(ov.subrange(0, i as int))[(a@, b@)] == t,
            decreases self.overlaps.len() - i,
        {
            proof {
                assert(ov.subrange(0, i + 1).drop_last() =~= ov.subrange(0, i as int));
            }
            if self.overlaps[i].0.0 == *a && self.overlaps[i].0.1 == *b {
                found = Some(self.overlaps[i].1);
            }
            i += 1;
        }
        proof {
            assert(ov.subrange(0, i as int) =~= ov);
        }
        found
    }
}

} // verus!
