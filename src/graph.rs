//! Walks over a finite set of edges, and the fixpoint that finds the states
//! they reach.
use std::collections::HashSet;
use vstd::prelude::*;

use crate::automaton::State;

verus! {

broadcast use vstd::std_specs::hash::group_hash_axioms;

/// A directed edge between two states, as (source, destination).
pub type Edge = (State, State);

/// `p` is a non-empty sequence of states in which each consecutive pair is an
/// edge of `edges`.
pub open spec fn is_walk(edges: Set<Edge>, p: Seq<State>) -> bool {
    &&& p.len() > 0
    &&& forall|i: int| 0 <= i < p.len() - 1 ==> #[trigger] edges.contains((p[i], p[i + 1]))
}

/// Some walk of `edges` starts in `sources` and ends in `q`.
pub open spec fn reaches(edges: Set<Edge>, sources: Set<State>, q: State) -> bool {
    exists|p: Seq<State>| #[trigger] is_walk(edges, p) && sources.contains(p[0]) && p.last() == q
}

/// The states that some walk of `edges` reaches from `sources`.
pub open spec fn reach_set(edges: Set<Edge>, sources: Set<State>) -> Set<State> {
    Set::new(|q: State| reaches(edges, sources, q))
}

/// The states from which some walk of `edges` ends in `targets`.
pub open spec fn co_reach_set(edges: Set<Edge>, targets: Set<State>) -> Set<State> {
    Set::new(
        |q: State|
            exists|p: Seq<State>| #[trigger] is_walk(edges, p) && p[0] == q && targets.contains(p.last()),
    )
}

/// Every edge of `edges` turned around.
pub open spec fn reversed(edges: Set<Edge>) -> Set<Edge> {
    Set::new(|e: Edge| edges.contains((e.1, e.0)))
}

/// Every edge that leaves a member of `r` ends in `r`.
pub open spec fn closed_under(edges: Set<Edge>, r: Set<State>) -> bool {
    forall|s: State, d: State| #[trigger] edges.contains((s, d)) && r.contains(s) ==> r.contains(d)
}

/// A set that holds the sources and is closed under the edges holds the end
/// of every walk that starts in a source.
proof fn lemma_closed_holds_walk_end(edges: Set<Edge>, sources: Set<State>, r: Set<State>, p: Seq<State>)
    requires
        closed_under(edges, r),
        sources.subset_of(r),
        is_walk(edges, p),
        sources.contains(p[0]),
    ensures
        r.contains(p.last()),
    decreases p.len(),
{
    if p.len() > 1 {
        let q = p.drop_last();
        assert forall|i: int| 0 <= i < q.len() - 1 implies #[trigger] edges.contains((q[i], q[i + 1])) by {
            assert(edges.contains((p[i], p[i + 1])));
        }
        lemma_closed_holds_walk_end(edges, sources, r, q);
        let i = p.len() - 2;
        assert(edges.contains((p[i], p[i + 1])));
    }
}

/// A walk that reaches `s` goes on along an edge from `s`.
proof fn lemma_reaches_step(edges: Set<Edge>, sources: Set<State>, s: State, d: State)
    requires
        reaches(edges, sources, s),
        edges.contains((s, d)),
    ensures
        reaches(edges, sources, d),
{
    let p = choose|p: Seq<State>| #[trigger] is_walk(edges, p) && sources.contains(p[0]) && p.last() == s;
    let q = p.push(d);
    assert forall|i: int| 0 <= i < q.len() - 1 implies #[trigger] edges.contains((q[i], q[i + 1])) by {
        if i < p.len() - 1 {
            assert(edges.contains((p[i], p[i + 1])));
        }
    }
    assert(is_walk(edges, q));
}

/// The states reachable from `seeds` along `edges`, computed as a fixpoint:
/// passes over the edges add the destination of every edge whose source is
/// already in the set, until a pass adds nothing.
pub fn reach_closure(edges: &Vec<Edge>, seeds: &Vec<State>) -> (r: HashSet<State>)
    ensures
        r@ == reach_set(edges@.to_set(), seeds@.to_set()),
{
    broadcast use vstd::seq_lib::seq_to_set_is_finite;

    let ghost es = edges@.to_set();
    let ghost srcs = seeds@.to_set();
    let ghost univ = srcs + edges@.map_values(|e: Edge| e.1).to_set();
    let mut r: HashSet<State> = HashSet::new();
    let mut k: usize = 0;
    while k < seeds.len()
        invariant
            k <= seeds.len(),
            srcs == seeds@.to_set(),
            r@.subset_of(srcs),
            forall|j: int| 0 <= j < k ==> r@.contains(#[trigger] seeds@[j]),
        decreases seeds.len() - k,
    {
        assert(srcs.contains(seeds@[k as int]));
        r.insert(seeds[k]);
        k += 1;
    }
    assert forall|q: State| r@.contains(q) implies reaches(es, srcs, q) by {
        let p = seq![q];
        assert(is_walk(es, p));
    }
    assert(srcs.subset_of(r@));
    let mut changed = true;
    while changed
        invariant
            es == edges@.to_set(),
            univ == srcs + edges@.map_values(|e: Edge| e.1).to_set(),
            srcs.subset_of(r@),
            r@.subset_of(univ),
            univ.finite(),
            forall|q: State| r@.contains(q) ==> reaches(es, srcs, q),
            !changed ==> closed_under(es, r@),
        decreases univ.len() - r@.len() + if changed { 1int } else { 0int },
    {
        changed = false;
        let ghost r0 = r@;
        proof {
            vstd::set_lib::lemma_len_subset(r0, univ);
        }
        let mut i: usize = 0;
        while i < edges.len()
            invariant
                i <= edges.len(),
                es == edges@.to_set(),
                univ == srcs + edges@.map_values(|e: Edge| e.1).to_set(),
                r0.subset_of(r@),
                r0.finite(),
                srcs.subset_of(r@),
                r@.subset_of(univ),
                univ.finite(),
                forall|q: State| r@.contains(q) ==> reaches(es, srcs, q),
                !changed ==> r@ == r0,
                changed ==> r@.len() > r0.len(),
                !changed ==> forall|j: int|
                    0 <= j < i ==> (r@.contains(#[trigger] edges@[j].0) ==> r@.contains(
                        edges@[j].1,
                    )),
            decreases edges.len() - i,
        {
            let (s, d) = edges[i];
            if r.contains(&s) && !r.contains(&d) {
                proof {
                    assert(es.contains(edges@[i as int]));
                    lemma_reaches_step(es, srcs, s, d);
                    assert(edges@.map_values(|e: Edge| e.1)[i as int] == d);
                    assert(edges@.map_values(|e: Edge| e.1).to_set().contains(d));
                    vstd::set_lib::lemma_len_subset(r0, r@);
                }
                r.insert(d);
                changed = true;
            }
            i += 1;
        }
        proof {
            vstd::set_lib::lemma_len_subset(r@, univ);
            if !changed {
                assert forall|s: State, d: State| #[trigger] es.contains((s, d)) && r@.contains(s) implies r@.contains(d) by {
                    let j = choose|j: int| 0 <= j < edges@.len() && edges@[j] == (s, d);
                    assert(r@.contains(edges@[j].0));
                }
            }
        }
    }
    proof {
        assert forall|q: State| reaches(es, srcs, q) implies r@.contains(q) by {
            let p = choose|p: Seq<State>| #[trigger] is_walk(es, p) && srcs.contains(p[0]) && p.last() == q;
            lemma_closed_holds_walk_end(es, srcs, r@, p);
        }
        assert(r@ =~= reach_set(es, srcs));
    }
    r
}

/// A walk read backwards is a walk of the reversed edges.
proof fn lemma_walk_reversed(edges: Set<Edge>, p: Seq<State>)
    requires
        is_walk(edges, p),
    ensures
        is_walk(reversed(edges), p.reverse()),
{
    let q = p.reverse();
    assert forall|i: int| 0 <= i < q.len() - 1 implies #[trigger] reversed(edges).contains((q[i], q[i + 1])) by {
        let j = p.len() - 2 - i;
        assert(edges.contains((p[j], p[j + 1])));
    }
}

/// Walking the reversed edges forward from the targets finds exactly the
/// states from which the targets can be reached.
pub proof fn lemma_reach_reversed(edges: Set<Edge>, targets: Set<State>)
    ensures
        reach_set(reversed(edges), targets) == co_reach_set(edges, targets),
{
    assert forall|q: State| reach_set(reversed(edges), targets).contains(q) <==> co_reach_set(edges, targets).contains(q) by {
        if reach_set(reversed(edges), targets).contains(q) {
            let p = choose|p: Seq<State>| #[trigger] is_walk(reversed(edges), p) && targets.contains(p[0]) && p.last() == q;
            lemma_walk_reversed(reversed(edges), p);
            assert(reversed(reversed(edges)) =~= edges);
            assert(is_walk(edges, p.reverse()));
            assert(p.reverse()[0] == q);
            assert(p.reverse().last() == p[0]);
        }
        if co_reach_set(edges, targets).contains(q) {
            let p = choose|p: Seq<State>| #[trigger] is_walk(edges, p) && p[0] == q && targets.contains(p.last());
            lemma_walk_reversed(edges, p);
            assert(p.reverse()[0] == p.last());
            assert(p.reverse().last() == q);
        }
    }
    assert(reach_set(reversed(edges), targets) =~= co_reach_set(edges, targets));
}

/// The edges of `edges` turned around, in the same order.
pub fn reverse_edges(edges: &Vec<Edge>) -> (r: Vec<Edge>)
    ensures
        r@.to_set() == reversed(edges@.to_set()),
{
    let mut r: Vec<Edge> = Vec::new();
    let mut i: usize = 0;
    while i < edges.len()
        invariant
            i <= edges.len(),
            r@.len() == i,
            forall|j: int| 0 <= j < i ==> #[trigger] r@[j] == (edges@[j].1, edges@[j].0),
        decreases edges.len() - i,
    {
        let (s, d) = edges[i];
        r.push((d, s));
        i += 1;
    }
    assert forall|e: Edge| r@.to_set().contains(e) <==> reversed(edges@.to_set()).contains(e) by {
        if r@.to_set().contains(e) {
            let j = choose|j: int| 0 <= j < r@.len() && r@[j] == e;
            assert(edges@[j] == (e.1, e.0));
        }
        if reversed(edges@.to_set()).contains(e) {
            let j = choose|j: int| 0 <= j < edges@.len() && edges@[j] == (e.1, e.0);
            assert(r@[j] == e);
        }
    }
    assert(r@.to_set() =~= reversed(edges@.to_set()));
    r
}

} // verus!
