//! The graph's edges, with neighbor and subgraph queries.

use vstd::prelude::*;

use crate::graph::Edge;
use crate::sets::{views, SetItem, VecSet};

verus! {

/// The directed edges of a graph, each stored once. Its view is the set of
/// `(from, to)` pairs.
#[derive(Debug)]
pub struct EdgeRepository {
    edges: VecSet<Edge>,
}

impl View for EdgeRepository {
    type V = Set<(Seq<char>, Seq<char>)>;

    closed spec fn view(&self) -> Set<(Seq<char>, Seq<char>)> {
        self.edges@
    }
}

/// The edges of `e` whose two ends both lie in `v`.
pub open spec fn induced(e: Set<(Seq<char>, Seq<char>)>, v: Set<Seq<char>>) -> Set<
    (Seq<char>, Seq<char>),
> {
    e.filter(|p: (Seq<char>, Seq<char>)| v.contains(p.0) && v.contains(p.1))
}

impl EdgeRepository {
    pub fn new() -> (r: EdgeRepository)
        ensures
            r@ == Set::<(Seq<char>, Seq<char>)>::empty(),
    {
        EdgeRepository { edges: VecSet::new() }
    }

    pub fn from_edge_list(edges: Vec<Edge>) -> (r: EdgeRepository)
        ensures
            r@ == views(edges@).to_set(),
    {
        EdgeRepository { edges: VecSet::from_iter(edges) }
    }

    pub fn add_edge(&mut self, edge: &Edge)
        ensures
            final(self)@ == old(self)@.insert(edge@),
    {
        self.edges.insert(edge.duplicate());
    }

    /// The edge `from -> to`, if the graph has it.
    pub fn get_edge(&self, from: &String, to: &String) -> (r: Option<Edge>)
        ensures
            r is Some <==> self@.contains((from@, to@)),
            r matches Some(e) ==> e@ == (from@, to@),
    {
        let e = Edge::from_ids(from.clone(), to.clone());
        if self.edges.contains(e.duplicate()) {
            Some(e)
        } else {
            None
        }
    }

    /// True when the graph has `u -> w` or `w -> u`.
    pub fn connected(&self, u: &String, w: &String) -> (r: bool)
        ensures
            r == (self@.contains((u@, w@)) || self@.contains((w@, u@))),
    {
        self.edges.contains(Edge::from_ids(u.clone(), w.clone())) || self.edges.contains(
            Edge::from_ids(w.clone(), u.clone()),
        )
    }

    /// Every edge whose two ends are in `nodes`, each once.
    pub fn subgraph(&self, nodes: &VecSet<String>) -> (r: Vec<Edge>)
        ensures
            views(r@).to_set() == induced(self@, nodes@),
            views(r@).no_duplicates(),
    {
        let all = self.edges.to_vec();
        let ghost va = views(all@);
        let mut r: Vec<Edge> = Vec::new();
        let mut i: usize = 0;
        while i < all.len()
            invariant
                i <= all.len(),
                va == views(all@),
                va.to_set() == self@,
                va.no_duplicates(),
                views(r@).no_duplicates(),
                views(r@).to_set() == induced(va.subrange(0, i as int).to_set(), nodes@),
            decreases all.len() - i,
        {
            let e = &all[i];
            let ghost before = views(r@);
            proof {
                assert(va.subrange(0, i + 1) =~= va.subrange(0, i as int).push(va[i as int]));
                va.subrange(0, i as int).lemma_push_to_set_commute(va[i as int]);
                assert(!va.subrange(0, i as int).to_set().contains(va[i as int])) by {
                    if va.subrange(0, i as int).to_set().contains(va[i as int]) {
                        let k = choose|k: int| 0 <= k < i && va.subrange(0, i as int)[k] == va[i as int];
                        assert(va[k] == va[i as int]);
                    }
                }
            }
            if nodes.contains(e.get_from()) && nodes.contains(e.get_to()) {
                r.push(e.duplicate());
                proof {
                    assert(views(r@) =~= before.push(e@));
                    before.lemma_push_to_set_commute(e@);
                    assert(!before.contains(e@)) by {
                        if before.contains(e@) {
                            assert(before.to_set().contains(e@));
                        }
                    }
                    assert forall|a: int, b: int|
                        0 <= a < views(r@).len() && 0 <= b < views(r@).len() && a != b implies views(
                        r@,
                    )[a] != views(r@)[b] by {
                        if a == before.len() {
                            assert(before.contains(before[b]));
                        } else if b == before.len() {
                            assert(before.contains(before[a]));
                        }
                    }
                    assert(views(r@).to_set() =~= induced(
                        va.subrange(0, i + 1).to_set(),
                        nodes@,
                    ));
                }
            } else {
                proof {
                    assert(views(r@).to_set() =~= induced(
                        va.subrange(0, i + 1).to_set(),
                        nodes@,
                    ));
                }
            }
            i += 1;
        }
        assert(va.subrange(0, i as int) =~= va);
        r
    }

    /// The nodes with an edge into `node`.
    pub fn parents(&self, node: &String) -> (r: VecSet<String>)
        ensures
            r@ == Set::new(|u: Seq<char>| self@.contains((u, node@))),
    {
        self.neighbors_on(node, false)
    }

    /// The nodes that `node` has an edge to.
    pub fn children(&self, node: &String) -> (r: VecSet<String>)
        ensures
            r@ == Set::new(|w: Seq<char>| self@.contains((node@, w))),
    {
        self.neighbors_on(node, true)
    }

    fn neighbors_on(&self, node: &String, outgoing: bool) -> (r: VecSet<String>)
        ensures
            outgoing ==> r@ == Set::new(|w: Seq<char>| self@.contains((node@, w))),
            !outgoing ==> r@ == Set::new(|u: Seq<char>| self@.contains((u, node@))),
    {
        let all = self.edges.to_vec();
        let mut r: VecSet<String> = VecSet::new();
        let mut i: usize = 0;
        let ghost f = |p: (Seq<char>, Seq<char>)| if outgoing { p.1 } else { p.0 };
        let ghost g = |p: (Seq<char>, Seq<char>)| if outgoing { p.0 == node@ } else { p.1 == node@ };
        while i < all.len()
            invariant
                i <= all.len(),
                views(all@).to_set() == self@,
                f == (|p: (Seq<char>, Seq<char>)| if outgoing { p.1 } else { p.0 }),
                g == (|p: (Seq<char>, Seq<char>)| if outgoing { p.0 == node@ } else { p.1 == node@ }),
                r@ == Set::new(
                    |x: Seq<char>|
                        exists|m: int| 0 <= m < i && g(views(all@)[m]) && #[trigger] f(views(all@)[m]) == x,
                ),
            decreases all.len() - i,
        {
            let e = &all[i];
            let ghost before = r@;
            let hit = if outgoing {
                *e.from_ref() == *node
            } else {
                *e.to_ref() == *node
            };
            if hit {
                let x = if outgoing {
                    e.get_to()
                } else {
                    e.get_from()
                };
                r.insert(x);
            }
            proof {
                assert(views(all@)[i as int] == e@);
                assert(r@ =~= Set::new(
                    |x: Seq<char>|
                        exists|m: int| 0 <= m < i + 1 && g(views(all@)[m]) && #[trigger] f(views(all@)[m]) == x,
                )) by {
                    assert forall|x: Seq<char>| #[trigger] r@.contains(x) implies exists|m: int| 0 <= m < i + 1 && g(views(all@)[m]) && #[trigger] f(views(all@)[m]) == x by {
                        if !before.contains(x) {
                            assert(f(views(all@)[i as int]) == x);
                        }
                    }
                }
            }
            i += 1;
        }
        proof {
            if outgoing {
                assert forall|w: Seq<char>| r@.contains(w) <==> self@.contains((node@, w)) by {
                    if self@.contains((node@, w)) {
                        let m = choose|m: int| 0 <= m < views(all@).len() && views(all@)[m] == (node@, w);
                        assert(f(views(all@)[m]) == w);
                    }
                    if r@.contains(w) {
                        let m = choose|m: int| 0 <= m < i && g(views(all@)[m]) && #[trigger] f(views(all@)[m]) == w;
                        assert(views(all@).to_set().contains(views(all@)[m]));
                        assert(views(all@)[m] == (node@, w));
                    }
                }
                assert(r@ =~= Set::new(|w: Seq<char>| self@.contains((node@, w))));
            } else {
                assert forall|u: Seq<char>| r@.contains(u) <==> self@.contains((u, node@)) by {
                    if self@.contains((u, node@)) {
                        let m = choose|m: int| 0 <= m < views(all@).len() && views(all@)[m] == (u, node@);
                        assert(f(views(all@)[m]) == u);
                    }
                    if r@.contains(u) {
                        let m = choose|m: int| 0 <= m < i && g(views(all@)[m]) && #[trigger] f(views(all@)[m]) == u;
                        assert(views(all@).to_set().contains(views(all@)[m]));
                        assert(views(all@)[m] == (u, node@));
                    }
                }
                assert(r@ =~= Set::new(|u: Seq<char>| self@.contains((u, node@))));
            }
        }
        r
    }

    /// The number of distinct edges.
    pub fn len(&self) -> (r: usize)
        ensures
            r == self@.len(),
    {
        self.edges.len()
    }

    /// All edges, each once.
    pub fn to_vec(&self) -> (r: Vec<Edge>)
        ensures
            views(r@).to_set() == self@,
            views(r@).no_duplicates(),
    {
        self.edges.to_vec()
    }
}

} // verus!
