//! Node identifiers: their order, sorting, and joining into cluster ids.

use vstd::prelude::*;
use vstd::string::*;

use crate::sets::views;

verus! {

/// Strict lexicographic order on identifiers, comparing characters by code
/// point (the order of `str`'s `Ord`).
pub open spec fn id_lt(a: Seq<char>, b: Seq<char>) -> bool
    decreases a.len(),
{
    if b.len() == 0 {
        false
    } else if a.len() == 0 {
        true
    } else if a[0] != b[0] {
        (a[0] as int) < (b[0] as int)
    } else {
        id_lt(a.drop_first(), b.drop_first())
    }
}

/// Each identifier is strictly smaller than every one after it.
pub open spec fn strictly_sorted(q: Seq<Seq<char>>) -> bool {
    forall|i: int, j: int| 0 <= i < j < q.len() ==> id_lt(q[i], q[j])
}

/// The members of a finite set of identifiers in increasing order.
pub open spec fn sorted_ids(s: Set<Seq<char>>) -> Seq<Seq<char>> {
    choose|q: Seq<Seq<char>>| q.to_set() == s && strictly_sorted(q)
}

/// Identifiers joined with `-` between consecutive ones.
pub open spec fn join_dash(q: Seq<Seq<char>>) -> Seq<char>
    decreases q.len(),
{
    if q.len() == 0 {
        Seq::empty()
    } else if q.len() == 1 {
        q[0]
    } else {
        join_dash(q.drop_last()) + seq!['-'] + q.last()
    }
}

/// The identifier of a group of nodes: its members in increasing order,
/// joined with `-`.
pub open spec fn group_id(s: Set<Seq<char>>) -> Seq<char> {
    join_dash(sorted_ids(s))
}

pub proof fn lemma_id_lt_irreflexive(a: Seq<char>)
    ensures
        !id_lt(a, a),
    decreases a.len(),
{
    if a.len() > 0 {
        lemma_id_lt_irreflexive(a.drop_first());
    }
}

pub proof fn lemma_id_lt_transitive(a: Seq<char>, b: Seq<char>, c: Seq<char>)
    requires
        id_lt(a, b),
        id_lt(b, c),
    ensures
        id_lt(a, c),
    decreases a.len(),
{
    if a.len() > 0 && b.len() > 0 && c.len() > 0 && a[0] == b[0] && b[0] == c[0] {
        lemma_id_lt_transitive(a.drop_first(), b.drop_first(), c.drop_first());
    }
}

pub proof fn lemma_id_lt_total(a: Seq<char>, b: Seq<char>)
    ensures
        a == b || id_lt(a, b) || id_lt(b, a),
    decreases a.len(),
{
    if a.len() > 0 && b.len() > 0 {
        if a[0] == b[0] {
            lemma_id_lt_total(a.drop_first(), b.drop_first());
            if a.drop_first() == b.drop_first() {
                assert(a =~= seq![a[0]] + a.drop_first());
                assert(b =~= seq![b[0]] + b.drop_first());
            }
        }
    } else if a.len() == 0 && b.len() == 0 {
        assert(a =~= b);
    }
}

proof fn lemma_id_lt_asymmetric(a: Seq<char>, b: Seq<char>)
    requires
        id_lt(a, b),
    ensures
        !id_lt(b, a),
{
    if id_lt(b, a) {
        lemma_id_lt_transitive(a, b, a);
        lemma_id_lt_irreflexive(a);
    }
}

/// Two strictly sorted sequences that hold the same identifiers are equal.
pub proof fn lemma_sorted_unique(p: Seq<Seq<char>>, q: Seq<Seq<char>>)
    requires
        strictly_sorted(p),
        strictly_sorted(q),
        p.to_set() == q.to_set(),
    ensures
        p == q,
    decreases p.len(),
{
    if p.len() == 0 {
        if q.len() > 0 {
            assert(q.to_set().contains(q[0]));
        }
        assert(p =~= q);
    } else if q.len() == 0 {
        assert(p.to_set().contains(p[0]));
    } else {
        assert(p.to_set().contains(p[0]));
        assert(q.to_set().contains(q[0]));
        let i = choose|i: int| 0 <= i < q.len() && q[i] == p[0];
        let j = choose|j: int| 0 <= j < p.len() && p[j] == q[0];
        if p[0] != q[0] {
            assert(i > 0 && j > 0);
            lemma_id_lt_asymmetric(q[0], q[i]);
        }
        let p1 = p.drop_first();
        let q1 = q.drop_first();
        assert forall|x: Seq<char>| p1.to_set().contains(x) implies q1.to_set().contains(x) by {
            let k = choose|k: int| 0 <= k < p1.len() && p1[k] == x;
            assert(p.to_set().contains(x));
            let m = choose|m: int| 0 <= m < q.len() && q[m] == x;
            if m == 0 {
                lemma_id_lt_irreflexive(p[0]);
            }
            assert(q1[m - 1] == x);
        }
        assert forall|x: Seq<char>| q1.to_set().contains(x) implies p1.to_set().contains(x) by {
            let k = choose|k: int| 0 <= k < q1.len() && q1[k] == x;
            assert(q.to_set().contains(x));
            let m = choose|m: int| 0 <= m < p.len() && p[m] == x;
            if m == 0 {
                lemma_id_lt_irreflexive(q[0]);
            }
            assert(p1[m - 1] == x);
        }
        assert(p1.to_set() =~= q1.to_set());
        lemma_sorted_unique(p1, q1);
        assert(p =~= seq![p[0]] + p1);
        assert(q =~= seq![q[0]] + q1);
    }
}

/// A strictly sorted sequence is the increasing order of its set.
pub proof fn lemma_sorted_ids_of(q: Seq<Seq<char>>)
    requires
        strictly_sorted(q),
    ensures
        sorted_ids(q.to_set()) == q,
{
    let p = sorted_ids(q.to_set());
    assert(p.to_set() == q.to_set() && strictly_sorted(p));
    lemma_sorted_unique(p, q);
}

/// The one-element sequence holds exactly its element.
pub proof fn lemma_single_seq_set<A>(x: A)
    ensures
        seq![x].to_set() == set![x],
{
    let q = seq![x];
    assert(q[0] == x);
    assert forall|y: A| q.to_set().contains(y) <==> set![x].contains(y) by {
        if y == x {
            assert(q.contains(x));
        }
    }
    assert(q.to_set() =~= set![x]);
}

/// A group of one node is identified by that node's id.
pub proof fn lemma_group_id_single(x: Seq<char>)
    ensures
        group_id(set![x]) == x,
{
    lemma_single_seq_set(x);
    lemma_sorted_ids_of(seq![x]);
}

/// Compares two identifiers character by character.
pub fn id_less(a: &String, b: &String) -> (r: bool)
    ensures
        r == id_lt(a@, b@),
{
    let sa = a.as_str();
    let sb = b.as_str();
    let la = sa.unicode_len();
    let lb = sb.unicode_len();
    let mut i: usize = 0;
    assert(a@.subrange(0, la as int) =~= a@);
    assert(b@.subrange(0, lb as int) =~= b@);
    while i < la && i < lb
        invariant
            la == a@.len(),
            lb == b@.len(),
            sa@ == a@,
            sb@ == b@,
            i <= la,
            i <= lb,
            id_lt(a@, b@) == id_lt(a@.subrange(i as int, la as int), b@.subrange(i as int, lb as int)),
        decreases la - i,
    {
        let ca = sa.get_char(i);
        let cb = sb.get_char(i);
        let ghost x = a@.subrange(i as int, la as int);
        let ghost y = b@.subrange(i as int, lb as int);
        if ca != cb {
            assert(x[0] == ca && y[0] == cb);
            return (ca as u32) < (cb as u32);
        }
        assert(x.drop_first() =~= a@.subrange(i + 1, la as int));
        assert(y.drop_first() =~= b@.subrange(i + 1, lb as int));
        i += 1;
    }
    i < lb
}

/// Sorts distinct identifiers into increasing order.
pub fn sort_ids(v: Vec<String>) -> (r: Vec<String>)
    requires
        views(v@).no_duplicates(),
    ensures
        views(r@).to_set() == views(v@).to_set(),
        strictly_sorted(views(r@)),
        r@.len() == v@.len(),
{
    let mut r: Vec<String> = Vec::new();
    let mut i: usize = 0;
    while i < v.len()
        invariant
            views(v@).no_duplicates(),
            i <= v.len(),
            r@.len() == i,
            views(r@).to_set() == views(v@).subrange(0, i as int).to_set(),
            strictly_sorted(views(r@)),
        decreases v.len() - i,
    {
        let x = v[i].clone();
        let mut p: usize = 0;
        while p < r.len() && id_less(&r[p], &x)
            invariant
                p <= r.len(),
                forall|k: int| 0 <= k < p ==> id_lt(r@[k]@, x@),
            decreases r.len() - p,
        {
            p += 1;
        }
        let ghost before = views(r@);
        proof {
            // x is new: no earlier element of v has its view.
            assert(!before.to_set().contains(x@)) by {
                if before.to_set().contains(x@) {
                    let k = choose|k: int| 0 <= k < i && views(v@)[k] == x@;
                    assert(views(v@)[i as int] == x@);
                }
            }
            if p < r.len() {
                assert(before.to_set().contains(before[p as int]));
                lemma_id_lt_total(before[p as int], x@);
            }
        }
        proof {
            assert forall|k: int| p <= k < before.len() implies id_lt(x@, before[k]) by {
                if k > p {
                    lemma_id_lt_transitive(x@, before[p as int], before[k]);
                }
            }
        }
        r.insert(p, x);
        proof {
            let after = views(r@);
            assert(after =~= before.insert(p as int, x@));
            assert forall|a: int, b: int| 0 <= a < b < after.len() implies id_lt(after[a], after[b]) by {
                if b == p {
                } else if a == p {
                } else if a < p && b > p {
                    lemma_id_lt_transitive(before[a], x@, before[b - 1]);
                } else if a > p {
                } else {
                }
            }
            let s = views(v@);
            assert(s.subrange(0, i + 1) =~= s.subrange(0, i as int).push(s[i as int]));
            assert forall|y: Seq<char>| after.to_set().contains(y) <==> s.subrange(0, i + 1).to_set().contains(y) by {
                if after.to_set().contains(y) {
                    let k = choose|k: int| 0 <= k < after.len() && after[k] == y;
                    if k < p {
                        assert(before.to_set().contains(before[k]));
                    } else if k > p {
                        assert(before.to_set().contains(before[k - 1]));
                    }
                    assert(s.subrange(0, i + 1)[i as int] == s[i as int]);
                }
                let t = s.subrange(0, i + 1);
                if t.to_set().contains(y) {
                    let k = choose|k: int| 0 <= k < t.len() && t[k] == y;
                    if k < i {
                        assert(s.subrange(0, i as int)[k] == y);
                        assert(before.to_set().contains(y));
                        let m = choose|m: int| 0 <= m < before.len() && before[m] == y;
                        if m < p {
                            assert(after[m] == y);
                        } else {
                            assert(after[m + 1] == y);
                        }
                    } else {
                        assert(after[p as int] == y);
                    }
                }
            }
            assert(after.to_set() =~= s.subrange(0, i + 1).to_set());
        }
        i += 1;
    }
    assert(views(v@).subrange(0, i as int) =~= views(v@));
    r
}

/// Joins identifiers with `-` between consecutive ones.
pub fn join_ids(q: &Vec<String>) -> (r: String)
    ensures
        r@ == join_dash(views(q@)),
{
    let mut r = String::new();
    if q.len() == 0 {
        assert(views(q@).len() == 0);
        return r;
    }
    r = q[0].clone();
    let mut i: usize = 1;
    proof {
        assert(views(q@).subrange(0, 1).drop_last().len() == 0);
    }
    while i < q.len()
        invariant
            1 <= i <= q.len(),
            r@ == join_dash(views(q@).subrange(0, i as int)),
        decreases q.len() - i,
    {
        proof {
            reveal_strlit("-");
        }
        r.append("-");
        r.append(q[i].as_str());
        proof {
            let s = views(q@).subrange(0, i + 1);
            assert(s.drop_last() =~= views(q@).subrange(0, i as int));
        }
        i += 1;
    }
    assert(views(q@).subrange(0, i as int) =~= views(q@));
    r
}

} // verus!
