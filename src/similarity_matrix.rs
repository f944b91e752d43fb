//! Scores of compared cluster pairs, highest first.

use vstd::prelude::*;

use crate::clusters::{lemma_score_le_transitive, score_le, Similarity};
use crate::unordered_tuple::UnorderedTuple;

verus! {

/// The map that a list of `(key, value)` entries describes, later entries
/// overriding earlier ones.
pub open spec fn map_of<K, V>(e: Seq<(K, V)>) -> Map<K, V>
    decreases e.len(),
{
    if e.len() == 0 {
        Map::empty()
    } else {
        map_of(e.drop_last()).insert(e.last().0, e.last().1)
    }
}

/// No two entries have the same key.
pub open spec fn keys_distinct<K, V>(e: Seq<(K, V)>) -> bool {
    forall|i: int, j: int| 0 <= i < e.len() && 0 <= j < e.len() && i != j ==> e[i].0 != e[j].0
}

/// The entries' scores never increase along the list.
pub open spec fn scores_descending<K>(e: Seq<(K, Similarity)>) -> bool {
    forall|i: int, j: int| 0 <= i < j < e.len() ==> score_le(e[j].1, e[i].1)
}

/// With distinct keys, the map holds exactly the entries.
pub proof fn lemma_map_of<K, V>(e: Seq<(K, V)>)
    requires
        keys_distinct(e),
    ensures
        forall|k: K| #[trigger]
            map_of(e).contains_key(k) <==> exists|i: int| 0 <= i < e.len() && e[i].0 == k,
        forall|i: int| 0 <= i < e.len() ==> #[trigger] map_of(e)[e[i].0] == e[i].1,
        map_of(e).dom().finite(),
        map_of(e).dom().len() == e.len(),
    decreases e.len(),
{
    if e.len() > 0 {
        let d = e.drop_last();
        assert(keys_distinct(d));
        lemma_map_of(d);
        let k = e.last().0;
        assert(!map_of(d).contains_key(k)) by {
            if map_of(d).contains_key(k) {
                let i = choose|i: int| 0 <= i < d.len() && d[i].0 == k;
                assert(e[i].0 == e[e.len() - 1].0);
            }
        }
        assert forall|k2: K| #[trigger]
            map_of(e).contains_key(k2) <==> exists|i: int| 0 <= i < e.len() && e[i].0 == k2 by {
            if exists|i: int| 0 <= i < e.len() && e[i].0 == k2 {
                let i = choose|i: int| 0 <= i < e.len() && e[i].0 == k2;
                if i < e.len() - 1 {
                    assert(d[i].0 == k2);
                }
            }
            if map_of(d).contains_key(k2) {
                let i = choose|i: int| 0 <= i < d.len() && d[i].0 == k2;
                assert(e[i].0 == k2);
            }
        }
        assert forall|i: int| 0 <= i < e.len() implies #[trigger] map_of(e)[e[i].0] == e[i].1 by {
            if i < e.len() - 1 {
                assert(d[i] == e[i]);
                assert(e[i].0 != k);
            }
        }
    }
}

/// The pairs of clusters compared so far, each with its score, in order of
/// decreasing score. Its view maps each unordered pair of cluster ids to its
/// score.
#[derive(Debug)]
pub struct SimilarityMatrix {
    matrix: Vec<(UnorderedTuple<String>, Similarity)>,
}

impl View for SimilarityMatrix {
    type V = Map<Set<Seq<char>>, Similarity>;

    closed spec fn view(&self) -> Map<Set<Seq<char>>, Similarity> {
        map_of(self.entries())
    }
}

impl SimilarityMatrix {
    #[verifier::type_invariant]
    spec fn well_ordered(self) -> bool {
        keys_distinct(self.entries()) && scores_descending(self.entries())
    }

    /// The entries as `(pair, score)`, highest score first.
    pub closed spec fn entries(&self) -> Seq<(Set<Seq<char>>, Similarity)> {
        self.matrix@.map_values(|e: (UnorderedTuple<String>, Similarity)| (e.0@, e.1))
    }

    pub fn new() -> (r: SimilarityMatrix)
        ensures
            r@ == Map::<Set<Seq<char>>, Similarity>::empty(),
    {
        let r = SimilarityMatrix { matrix: Vec::new() };
        assert(r.entries() =~= Seq::empty());
        r
    }

    /// Drops every entry whose pair mentions `element_id`.
    pub fn remove_element(&mut self, element_id: String)
        ensures
            final(self)@ == old(self)@.restrict(
                Set::new(|k: Set<Seq<char>>| !k.contains(element_id@)),
            ),
    {
        proof {
            use_type_invariant(&*self);
        }
        let ghost keep = Set::new(|k: Set<Seq<char>>| !k.contains(element_id@));
        let ghost e = self.entries();
        let mut r: Vec<(UnorderedTuple<String>, Similarity)> = Vec::new();
        let mut i: usize = 0;
        while i < self.matrix.len()
            invariant
                e == self.entries(),
                keys_distinct(e),
                scores_descending(e),
                i <= self.matrix.len(),
                keep == Set::new(|k: Set<Seq<char>>| !k.contains(element_id@)),
                keys_distinct(
                    r@.map_values(|x: (UnorderedTuple<String>, Similarity)| (x.0@, x.1)),
                ),
                scores_descending(
                    r@.map_values(|x: (UnorderedTuple<String>, Similarity)| (x.0@, x.1)),
                ),
                forall|a: int|
                    0 <= a < r.len() ==> exists|m: int|
                        0 <= m < i && (#[trigger] r@[a]).0@ == e[m].0 && r@[a].1 == e[m].1,
                map_of(r@.map_values(|x: (UnorderedTuple<String>, Similarity)| (x.0@, x.1)))
                    == map_of(e.subrange(0, i as int)).restrict(keep),
            decreases self.matrix.len() - i,
        {
            let entry = &self.matrix[i];
            let ghost before = r@;
            let ghost vb = before.map_values(
                |x: (UnorderedTuple<String>, Similarity)| (x.0@, x.1),
            );
            proof {
                assert(e.subrange(0, i + 1) =~= e.subrange(0, i as int).push(e[i as int]));
                assert(e.subrange(0, i + 1).drop_last() == e.subrange(0, i as int));
            }
            if !entry.0.mentions(&element_id) {
                r.push((entry.0.clone(), entry.1));
                proof {
                    let vr = r@.map_values(|x: (UnorderedTuple<String>, Similarity)| (x.0@, x.1));
                    assert(vr =~= vb.push(e[i as int]));
                    assert(vr.drop_last() == vb);
                    assert forall|a: int, b: int|
                        0 <= a < vr.len() && 0 <= b < vr.len() && a != b implies vr[a].0
                        != vr[b].0 by {
                        if a == vb.len() {
                            let m = choose|m: int|
                                0 <= m < i && (#[trigger] r@[b]).0@ == e[m].0 && r@[b].1 == e[m].1;
                        } else if b == vb.len() {
                            let m = choose|m: int|
                                0 <= m < i && (#[trigger] r@[a]).0@ == e[m].0 && r@[a].1 == e[m].1;
                        }
                    }
                    assert forall|a: int, b: int| 0 <= a < b < vr.len() implies score_le(
                        vr[b].1,
                        vr[a].1,
                    ) by {
                        if b == vb.len() {
                            let m = choose|m: int|
                                0 <= m < i && (#[trigger] r@[a]).0@ == e[m].0 && r@[a].1 == e[m].1;
                        }
                    }
                    assert forall|a: int| 0 <= a < r.len() implies exists|m: int|
                        0 <= m < i + 1 && (#[trigger] r@[a]).0@ == e[m].0 && r@[a].1 == e[m].1 by {
                        if a < vb.len() {
                            assert(r@[a] == before[a]);
                        }
                    }
                    assert(map_of(vr) =~= map_of(e.subrange(0, i + 1)).restrict(keep));
                }
            } else {
                proof {
                    assert(map_of(vb) =~= map_of(e.subrange(0, i + 1)).restrict(keep));
                }
            }
            i += 1;
        }
        proof {
            assert(e.subrange(0, i as int) =~= e);
        }
        self.matrix = r;
    }

    /// Sets the score of `index`, replacing any earlier score of that pair.
    pub fn set_similarity(&mut self, index: UnorderedTuple<String>, similarity: Similarity)
        ensures
            final(self)@ == old(self)@.insert(index@, similarity),
    {
        proof {
            use_type_invariant(&*self);
        }
        let ghost e = self.entries();
        // keep every other pair, in order
        let mut r: Vec<(UnorderedTuple<String>, Similarity)> = Vec::new();
        let mut i: usize = 0;
        while i < self.matrix.len()
            invariant
                e == self.entries(),
                keys_distinct(e),
                scores_descending(e),
                i <= self.matrix.len(),
                keys_distinct(
                    r@.map_values(|x: (UnorderedTuple<String>, Similarity)| (x.0@, x.1)),
                ),
                scores_descending(
                    r@.map_values(|x: (UnorderedTuple<String>, Similarity)| (x.0@, x.1)),
                ),
                forall|a: int|
                    0 <= a < r.len() ==> exists|m: int|
                        0 <= m < i && (#[trigger] r@[a]).0@ == e[m].0 && r@[a].1 == e[m].1,
                map_of(r@.map_values(|x: (UnorderedTuple<String>, Similarity)| (x.0@, x.1)))
                    == map_of(e.subrange(0, i as int)).remove(index@),
            decreases self.matrix.len() - i,
        {
            let entry = &self.matrix[i];
            let ghost before = r@;
            let ghost vb = before.map_values(
                |x: (UnorderedTuple<String>, Similarity)| (x.0@, x.1),
            );
            proof {
                assert(e.subrange(0, i + 1) =~= e.subrange(0, i as int).push(e[i as int]));
                assert(e.subrange(0, i + 1).drop_last() == e.subrange(0, i as int));
            }
            if !entry.0.same_pair(&index) {
                r.push((entry.0.clone(), entry.1));
                proof {
                    let vr = r@.map_values(|x: (UnorderedTuple<String>, Similarity)| (x.0@, x.1));
                    assert(vr =~= vb.push(e[i as int]));
                    assert(vr.drop_last() == vb);
                    assert forall|a: int, b: int|
                        0 <= a < vr.len() && 0 <= b < vr.len() && a != b implies vr[a].0
                        != vr[b].0 by {
                        if a == vb.len() {
                            let m = choose|m: int|
                                0 <= m < i && (#[trigger] r@[b]).0@ == e[m].0 && r@[b].1 == e[m].1;
                        } else if b == vb.len() {
                            let m = choose|m: int|
                                0 <= m < i && (#[trigger] r@[a]).0@ == e[m].0 && r@[a].1 == e[m].1;
                        }
                    }
                    assert forall|a: int, b: int| 0 <= a < b < vr.len() implies score_le(
                        vr[b].1,
                        vr[a].1,
                    ) by {
                        if b == vb.len() {
                            let m = choose|m: int|
                                0 <= m < i && (#[trigger] r@[a]).0@ == e[m].0 && r@[a].1 == e[m].1;
                        }
                    }
                    assert forall|a: int| 0 <= a < r.len() implies exists|m: int|
                        0 <= m < i + 1 && (#[trigger] r@[a]).0@ == e[m].0 && r@[a].1 == e[m].1 by {
                        if a < vb.len() {
                            assert(r@[a] == before[a]);
                        }
                    }
                    assert(map_of(vr) =~= map_of(e.subrange(0, i + 1)).remove(index@));
                }
            } else {
                proof {
                    assert(map_of(vb) =~= map_of(e.subrange(0, i + 1)).remove(index@));
                }
            }
            i += 1;
        }
        proof {
            assert(e.subrange(0, i as int) =~= e);
        }
        // the first position whose score is not above the new one
        let mut p: usize = 0;
        while p < r.len() && similarity.less_than(&r[p].1)
            invariant
                p <= r.len(),
                forall|k: int| 0 <= k < p ==> crate::clusters::score_lt(similarity, #[trigger] r@[k].1),
            decreases r.len() - p,
        {
            p += 1;
        }
        let ghost vb = r@.map_values(|x: (UnorderedTuple<String>, Similarity)| (x.0@, x.1));
        proof {
            lemma_map_of(vb);
            assert(!map_of(vb).contains_key(index@));
            assert forall|k: int| p <= k < vb.len() implies score_le(vb[k].1, similarity) by {
                if k > p {
                    lemma_score_le_transitive(vb[k].1, vb[p as int].1, similarity);
                }
            }
        }
        let ghost key = index@;
        r.insert(p, (index, similarity));
        proof {
            let vr = r@.map_values(|x: (UnorderedTuple<String>, Similarity)| (x.0@, x.1));
            assert(vr =~= vb.insert(p as int, (key, similarity)));
            assert forall|a: int, b: int|
                0 <= a < vr.len() && 0 <= b < vr.len() && a != b implies vr[a].0 != vr[b].0 by {
                if a == p && b != p {
                    let b2 = if b < p { b } else { b - 1 };
                    assert(vr[b] == vb[b2]);
                } else if b == p && a != p {
                    let a2 = if a < p { a } else { a - 1 };
                    assert(vr[a] == vb[a2]);
                }
            }
            assert forall|a: int, b: int| 0 <= a < b < vr.len() implies score_le(vr[b].1, vr[a].1) by {
                if a < p && b > p {
                    lemma_score_le_transitive(vb[b - 1].1, similarity, vb[a].1);
                }
            }
            lemma_map_of(vr);
            assert(map_of(vr) =~= map_of(vb).insert(key, similarity)) by {
                assert forall|k: Set<Seq<char>>| #[trigger] map_of(vr).contains_key(k) <==> map_of(vb).insert(key, similarity).contains_key(k) by {
                    if map_of(vb).contains_key(k) && k != key {
                        let m = choose|m: int| 0 <= m < vb.len() && vb[m].0 == k;
                        let m2 = if m < p { m } else { m + 1 };
                        assert(vr[m2].0 == k);
                    }
                    if k == key {
                        assert(vr[p as int].0 == k);
                    }
                    if map_of(vr).contains_key(k) {
                        let m = choose|m: int| 0 <= m < vr.len() && vr[m].0 == k;
                        if m < p {
                            assert(vb[m].0 == k);
                        } else if m > p {
                            assert(vb[m - 1].0 == k);
                        }
                    }
                }
                assert forall|k: Set<Seq<char>>| #[trigger] map_of(vr).contains_key(k) implies map_of(vr)[k] == map_of(vb).insert(key, similarity)[k] by {
                    let m = choose|m: int| 0 <= m < vr.len() && vr[m].0 == k;
                    if m < p {
                        assert(vb[m] == vr[m]);
                    } else if m > p {
                        assert(vb[m - 1] == vr[m]);
                    }
                }
            }
        }
        self.matrix = r;
    }

    /// The entry with the highest score, or `None` when the matrix is empty.
    pub fn get_max_similarity(&self) -> (r: Option<(UnorderedTuple<String>, Similarity)>)
        ensures
            r is None <==> self@.dom().len() == 0,
            r matches Some(e) ==> self@.contains_key(e.0@) && self@[e.0@] == e.1 && forall|
                k: Set<Seq<char>>,
            | #[trigger] self@.contains_key(k) ==> score_le(self@[k], e.1),
    {
        proof {
            use_type_invariant(self);
            lemma_map_of(self.entries());
        }
        if self.matrix.len() == 0 {
            return None;
        }
        let top = (self.matrix[0].0.clone(), self.matrix[0].1);
        proof {
            let e = self.entries();
            assert(e[0].0 == top.0@);
            assert forall|k: Set<Seq<char>>| #[trigger] self@.contains_key(k) implies score_le(self@[k], top.1) by {
                let m = choose|m: int| 0 <= m < e.len() && e[m].0 == k;
                assert(self@[e[m].0] == e[m].1);
                assert(self@[e[0].0] == e[0].1);
            }
        }
        Some(top)
    }

    /// The number of pairs with a score.
    pub fn len(&self) -> (r: usize)
        ensures
            r == self@.dom().len(),
            self@.dom().finite(),
    {
        proof {
            use_type_invariant(self);
            lemma_map_of(self.entries());
        }
        self.matrix.len()
    }
}

} // verus!
