//! The weight of the candidate worklist, which every processing step lowers.

use vstd::prelude::*;
use vstd::set_lib::{lemma_len_subset, lemma_subset_equality};

use crate::candidates::{
    derived, outputs_split_from, within, CandidateView, PowerEdgeCandidateProcessorOutput,
};
use crate::power::{proper_subset, ClusterView};

verus! {

pub open spec fn pow4(n: nat) -> nat
    decreases n,
{
    if n == 0 {
        1
    } else {
        4 * pow4((n - 1) as nat)
    }
}

/// The total size of a candidate's four sets.
pub open spec fn measure(c: CandidateView) -> nat {
    c.0.0.len() + c.0.1.len() + c.1.0.len() + c.1.1.len()
}

/// The weight of a candidate in the worklist: halved once it has been
/// recorded as completed.
pub open spec fn weight(c: CandidateView, done: Set<CandidateView>) -> nat {
    if done.contains(c) {
        pow4(measure(c))
    } else {
        2 * pow4(measure(c))
    }
}

/// The summed weight of a worklist; each processing step lowers it.
pub open spec fn potential(w: Seq<CandidateView>, done: Set<CandidateView>) -> nat
    decreases w.len(),
{
    if w.len() == 0 {
        0
    } else {
        potential(w.drop_last(), done) + weight(w.last(), done)
    }
}

/// What the candidates among `r` can add to the worklist's weight, leaving
/// out a copy of `c` when `c` is already completed.
pub open spec fn child_bound(
    r: Seq<PowerEdgeCandidateProcessorOutput>,
    c: CandidateView,
    c_done: bool,
) -> nat
    decreases r.len(),
{
    if r.len() == 0 {
        0
    } else {
        child_bound(r.drop_last(), c, c_done) + contribution(r.last(), c, c_done)
    }
}

pub open spec fn finite_cluster(a: ClusterView) -> bool {
    a.0.finite() && a.1.finite()
}

pub proof fn lemma_pow4_grows(a: nat, b: nat)
    requires
        a < b,
    ensures
        4 * pow4(a) <= pow4(b),
    decreases b,
{
    if a + 1 < b {
        lemma_pow4_grows(a, (b - 1) as nat);
        lemma_pow4_positive((b - 1) as nat);
    }
}

pub proof fn lemma_pow4_positive(a: nat)
    ensures
        pow4(a) >= 1,
    decreases a,
{
    if a > 0 {
        lemma_pow4_positive((a - 1) as nat);
    }
}

pub proof fn lemma_pow4_monotone(a: nat, b: nat)
    requires
        a <= b,
    ensures
        pow4(a) <= pow4(b),
{
    if a < b {
        lemma_pow4_grows(a, b);
        lemma_pow4_positive(a);
    }
}

pub proof fn lemma_potential_push(w: Seq<CandidateView>, x: CandidateView, done: Set<CandidateView>)
    ensures
        potential(w.push(x), done) == potential(w, done) + weight(x, done),
{
    assert(w.push(x).drop_last() =~= w);
}

pub proof fn lemma_potential_remove(w: Seq<CandidateView>, i: int, done: Set<CandidateView>)
    requires
        0 <= i < w.len(),
    ensures
        potential(w.remove(i), done) + weight(w[i], done) == potential(w, done),
    decreases w.len(),
{
    if i == w.len() - 1 {
        assert(w.remove(i) =~= w.drop_last());
    } else {
        lemma_potential_remove(w.drop_last(), i, done);
        assert(w.remove(i).drop_last() =~= w.drop_last().remove(i));
        assert(w.remove(i).last() == w.last());
    }
}

pub proof fn lemma_potential_done_grows(
    w: Seq<CandidateView>,
    done: Set<CandidateView>,
    more: Set<CandidateView>,
)
    requires
        done.subset_of(more),
    ensures
        potential(w, more) <= potential(w, done),
    decreases w.len(),
{
    if w.len() > 0 {
        lemma_potential_done_grows(w.drop_last(), done, more);
    }
}

/// A candidate within `c` weighs no more than `c`, and one of the same
/// measure has `c`'s clusters.
pub proof fn lemma_within_measure(x: CandidateView, c: CandidateView)
    requires
        within(x.0, c.0),
        within(x.1, c.1),
        finite_cluster(c.0),
        finite_cluster(c.1),
    ensures
        measure(x) <= measure(c),
        measure(x) == measure(c) ==> x.0 == c.0 && x.1 == c.1,
        proper_subset(x.0.0, c.0.0) || proper_subset(x.1.0, c.1.0) ==> measure(x) < measure(c),
{
    lemma_len_subset(x.0.0, c.0.0);
    lemma_len_subset(x.0.1, c.0.1);
    lemma_len_subset(x.1.0, c.1.0);
    lemma_len_subset(x.1.1, c.1.1);
    if measure(x) == measure(c) {
        lemma_subset_equality(x.0.0, c.0.0);
        lemma_subset_equality(x.0.1, c.0.1);
        lemma_subset_equality(x.1.0, c.1.0);
        lemma_subset_equality(x.1.1, c.1.1);
        assert(x.0 == c.0);
        assert(x.1 == c.1);
    }
    if proper_subset(x.0.0, c.0.0) {
        let e = choose|e: Seq<char>| c.0.0.contains(e) && !x.0.0.contains(e);
        assert(!(x.0.0 =~= c.0.0));
        x.0.0.lemma_subset_not_in_lt(c.0.0, e);
    }
    if proper_subset(x.1.0, c.1.0) {
        let e = choose|e: Seq<char>| c.1.0.contains(e) && !x.1.0.contains(e);
        assert(!(x.1.0 =~= c.1.0));
        x.1.0.lemma_subset_not_in_lt(c.1.0, e);
    }
}

pub open spec fn contribution(o: PowerEdgeCandidateProcessorOutput, c: CandidateView, c_done: bool) -> nat {
    match o {
        PowerEdgeCandidateProcessorOutput::NewPowerEdgeCandidate(x) => if c_done && x@ == c {
            0
        } else {
            pow4(measure(x@))
        },
        _ => 0,
    }
}

proof fn lemma_child_bound_prefix(
    r: Seq<PowerEdgeCandidateProcessorOutput>,
    c: CandidateView,
    c_done: bool,
    n: int,
)
    requires
        0 <= n <= r.len(),
        forall|q: int| n <= q < r.len() ==> !(#[trigger] r[q] is NewPowerEdgeCandidate),
    ensures
        child_bound(r, c, c_done) == child_bound(r.subrange(0, n), c, c_done),
    decreases r.len(),
{
    if r.len() > n {
        lemma_child_bound_prefix(r.drop_last(), c, c_done, n);
        assert(r.drop_last().subrange(0, n) =~= r.subrange(0, n));
        assert(!(r[r.len() - 1] is NewPowerEdgeCandidate));
    } else {
        assert(r.subrange(0, n) =~= r);
    }
}

/// What the outputs for `c` add to the worklist weighs less than `c` did.
pub proof fn lemma_child_bound(
    r: Seq<PowerEdgeCandidateProcessorOutput>,
    c: CandidateView,
    done: Set<CandidateView>,
)
    requires
        outputs_split_from(r, c),
        finite_cluster(c.0),
        finite_cluster(c.1),
        done.contains(c) ==> c == derived(c.0, c.1),
    ensures
        child_bound(r, c, done.contains(c)) < weight(c, done),
{
    let c_done = done.contains(c);
    let m = measure(c);
    lemma_pow4_positive(m);
    let n: int = if r.len() < 2 {
        r.len() as int
    } else {
        2
    };
    assert forall|q: int| n <= q < r.len() implies !(#[trigger] r[q] is NewPowerEdgeCandidate) by {
        assert(0 <= q < r.len());
    }
    lemma_child_bound_prefix(r, c, c_done, n);
    let p = r.subrange(0, n);
    // each candidate output weighs at most `c`'s measure, and a quarter of
    // it when `c` is completed (a copy of `c` then weighs nothing)
    assert forall|q: int| 0 <= q < n implies #[trigger] contribution(r[q], c, c_done) <= pow4(m) && (
    c_done ==> 4 * contribution(r[q], c, c_done) <= pow4(m)) by {
        assert(0 <= q < r.len());
        match r[q] {
            PowerEdgeCandidateProcessorOutput::NewPowerEdgeCandidate(x) => {
                lemma_within_measure(x@, c);
                lemma_pow4_monotone(measure(x@), m);
                if measure(x@) < m {
                    lemma_pow4_grows(measure(x@), m);
                } else if c_done {
                    assert(x@ == c);
                }
            },
            _ => {},
        }
    }
    if n == 0 {
        assert(p.len() == 0);
    } else if n == 1 {
        assert(p.drop_last().len() == 0);
        assert(child_bound(p.drop_last(), c, c_done) == 0);
        assert(p.last() == r[0]);
        assert(child_bound(p, c, c_done) == contribution(r[0], c, c_done));
    } else {
        assert(p.drop_last().drop_last().len() == 0);
        assert(child_bound(p.drop_last().drop_last(), c, c_done) == 0);
        assert(child_bound(p.drop_last(), c, c_done) == contribution(p.drop_last().last(), c, c_done));
        assert(p.drop_last().last() == r[0]);
        assert(p.last() == r[1]);
        assert(child_bound(p, c, c_done) == contribution(r[0], c, c_done) + contribution(
            r[1],
            c,
            c_done,
        ));
        let a = contribution(r[0], c, c_done);
        let b = contribution(r[1], c, c_done);
        assert(a <= pow4(m) && b <= pow4(m));
        if r[1] is NewPowerEdgeCandidate {
            match r[0] {
                PowerEdgeCandidateProcessorOutput::NewPowerEdgeCandidate(x) => {
                    lemma_within_measure(x@, c);
                    lemma_pow4_grows(measure(x@), m);
                    lemma_pow4_monotone(measure(x@), m);
                    assert(4 * a <= pow4(m));
                },
                _ => {},
            }
        } else {
            assert(b == 0);
        }
    }
}

} // verus!
