//! The validator interface and the productive and useful validators.
use std::collections::HashSet;
use vstd::prelude::*;

use crate::automaton::{set_members, Automaton, AutomatonModel, State};
use crate::graph::{lemma_reach_reversed, reach_closure, reverse_edges, Edge};

verus! {

broadcast use vstd::std_specs::hash::group_hash_axioms;

/// The view of an optional value.
pub open spec fn view_option<T: View>(r: Option<T>) -> Option<T::V> {
    match r {
        Some(x) => Some(x@),
        None => None,
    }
}

/// A structural property computed over an automaton.
pub trait Property {
    /// What the property yields.
    type Out: View;

    /// What `validate` yields, in view, on an automaton with model `a`.
    spec fn outcome(a: AutomatonModel) -> Option<<Self::Out as View>::V>;

    /// Computes the property over `input`, which it only reads.
    fn validate(input: &Automaton) -> (r: Option<Self::Out>)
        ensures
            view_option(r) == Self::outcome(input@),
    ;
}

/// The set of productive states of an automaton: those from which some
/// sequence of transitions ends in a final state.
pub struct Productive(pub HashSet<State>);

/// The set of useful states of an automaton: those that lie on some path
/// from an initial state to a final state.
pub struct Useful(pub HashSet<State>);

impl View for Productive {
    type V = Set<State>;

    open spec fn view(&self) -> Set<State> {
        self.0@
    }
}

impl View for Useful {
    type V = Set<State>;

    open spec fn view(&self) -> Set<State> {
        self.0@
    }
}

/// The productive states, found by walking the transitions backwards from the
/// final states; `edges` holds the automaton's transition edges.
fn productive_set(input: &Automaton, edges: &Vec<Edge>) -> (r: HashSet<State>)
    requires
        edges@.to_set() == input@.edges(),
    ensures
        r@ == input@.productive_states(),
{
    let back = reverse_edges(edges);
    let finals = set_members(&input.final_states);
    let r = reach_closure(&back, &finals);
    proof {
        lemma_reach_reversed(input@.edges(), input@.final_states);
    }
    r
}

/// The members of `a` that are also in `b`.
fn intersection(a: &HashSet<State>, b: &HashSet<State>) -> (r: HashSet<State>)
    ensures
        r@ == a@.intersect(b@),
{
    let members = set_members(a);
    let mut r: HashSet<State> = HashSet::new();
    let mut i: usize = 0;
    while i < members.len()
        invariant
            i <= members.len(),
            members@.to_set() == a@,
            r@ == members@.take(i as int).to_set().intersect(b@),
        decreases members.len() - i,
    {
        let q = members[i];
        assert(members@.take(i + 1) =~= members@.take(i as int).push(q));
        proof {
            members@.take(i as int).lemma_push_to_set_commute(q);
        }
        if b.contains(&q) {
            r.insert(q);
        }
        assert(r@ =~= members@.take(i + 1).to_set().intersect(b@));
        i += 1;
    }
    assert(members@.take(members.len() as int) =~= members@);
    r
}

impl Property for Productive {
    type Out = Productive;

    /// Nothing on an automaton without states, else its productive states.
    open spec fn outcome(a: AutomatonModel) -> Option<Set<State>> {
        if a.states().is_empty() {
            None
        } else {
            Some(a.productive_states())
        }
    }

    fn validate(input: &Automaton) -> (r: Option<Productive>) {
        let edges = input.transition_edges();
        if input.has_no_states(&edges) {
            None
        } else {
            Some(Productive(productive_set(input, &edges)))
        }
    }
}

impl Property for Useful {
    type Out = Useful;

    /// Nothing on an automaton without states, else its useful states (none
    /// where there is no initial state).
    open spec fn outcome(a: AutomatonModel) -> Option<Set<State>> {
        if a.states().is_empty() {
            None
        } else {
            Some(a.useful_states())
        }
    }

    fn validate(input: &Automaton) -> (r: Option<Useful>) {
        let edges = input.transition_edges();
        if input.has_no_states(&edges) {
            None
        } else {
            let initials = set_members(&input.initial_states);
            let reachable = reach_closure(&edges, &initials);
            let productive = productive_set(input, &edges);
            Some(Useful(intersection(&reachable, &productive)))
        }
    }
}

impl Automaton {
    /// Computes the property `P` over this automaton, which it only reads.
    pub fn validate<P: Property>(&self) -> (r: Option<P::Out>)
        ensures
            view_option(r) == P::outcome(self@),
    {
        P::validate(self)
    }
}

} // verus!
