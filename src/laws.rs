//! Laws that relate the validators and the insertion operations.
use vstd::prelude::*;

use crate::automaton::{AutomatonModel, Label, State};
use crate::graph::{is_walk, Edge};
use crate::property::{view_option, Productive, Property, Useful};

verus! {

/// Every useful state is productive and reachable from an initial state, and
/// the useful validator yields a set exactly when the productive one does.
pub proof fn law_useful_within_productive_and_reachable(a: AutomatonModel)
    ensures
        <Useful as Property>::outcome(a) is Some <==> <Productive as Property>::outcome(a) is Some,
        <Useful as Property>::outcome(a) matches Some(u) ==> u.subset_of(<Productive as Property>::outcome(a)->0)
            && u.subset_of(a.reachable_states()),
{
}

/// Without transitions, the productive states are exactly the final states,
/// provided there is at least one.
pub proof fn law_productive_without_transitions(a: AutomatonModel)
    requires
        !a.final_states.is_empty(),
        a.edges() == Set::<Edge>::empty(),
    ensures
        <Productive as Property>::outcome(a) == Some(a.final_states),
{
    let f = a.final_states.choose();
    assert(a.states().contains(f));
    assert forall|q: State| a.productive_states().contains(q) <==> a.final_states.contains(q) by {
        if a.productive_states().contains(q) {
            let p = choose|p: Seq<State>| #[trigger] is_walk(a.edges(), p) && p[0] == q && a.final_states.contains(p.last());
            if p.len() > 1 {
                let i: int = 0;
                assert(a.edges().contains((p[i], p[i + 1])));
            }
        }
        if a.final_states.contains(q) {
            assert(is_walk(a.edges(), seq![q]));
        }
    }
    assert(a.productive_states() =~= a.final_states);
}

/// Without initial states no state is useful.
pub proof fn law_no_initial_no_useful(a: AutomatonModel)
    requires
        a.initial_states.is_empty(),
    ensures
        <Useful as Property>::outcome(a) == if a.states().is_empty() {
            None
        } else {
            Some(Set::<State>::empty())
        },
{
    assert(a.reachable_states() =~= Set::empty());
    assert(a.useful_states() =~= Set::empty());
}

/// Validation reads the automaton and nothing else: two validations of one
/// automaton by the same property yield the same result.
pub proof fn law_validate_deterministic<P: Property>(
    a: AutomatonModel,
    r1: Option<P::Out>,
    r2: Option<P::Out>,
)
    requires
        view_option(r1) == P::outcome(a),
        view_option(r2) == P::outcome(a),
    ensures
        view_option(r1) == view_option(r2),
{
}

/// Inserting a state or a transition a second time leaves the automaton as the
/// first insertion left it, so every validation result is unchanged.
pub proof fn law_duplicate_insertion(a: AutomatonModel, s: State, l: Label, d: State)
    ensures
        a.with_external_state(s).with_external_state(s) == a.with_external_state(s),
        a.with_internal_state(s).with_internal_state(s) == a.with_internal_state(s),
        a.with_initial_state(s).with_initial_state(s) == a.with_initial_state(s),
        a.with_final_state(s).with_final_state(s) == a.with_final_state(s),
        a.with_external_transition(s, l, d).with_external_transition(s, l, d)
            == a.with_external_transition(s, l, d),
        a.with_internal_transition(s, l, d).with_internal_transition(s, l, d)
            == a.with_internal_transition(s, l, d),
{
    let e = a.with_external_state(s);
    assert(e.with_external_state(s).external_states =~= e.external_states);
    let e = a.with_internal_state(s);
    assert(e.with_internal_state(s).internal_states =~= e.internal_states);
    let e = a.with_initial_state(s);
    assert(e.with_initial_state(s).initial_states =~= e.initial_states);
    let e = a.with_final_state(s);
    assert(e.with_final_state(s).final_states =~= e.final_states);
    let e = a.with_external_transition(s, l, d);
    assert(e.with_external_transition(s, l, d).external_transitions[s] =~= e.external_transitions[s]);
    assert(e.with_external_transition(s, l, d).external_transitions =~= e.external_transitions);
    let e = a.with_internal_transition(s, l, d);
    assert(e.internal_transitions[s][l].insert(d) =~= e.internal_transitions[s][l]);
    assert(e.with_internal_transition(s, l, d).internal_transitions[s] =~= e.internal_transitions[s]);
    assert(e.with_internal_transition(s, l, d).internal_transitions =~= e.internal_transitions);
}

} // verus!
