//! The automaton store: its state tags, its two transition relations, and
//! the combined edge relation that the validators walk.
use std::collections::{HashMap, HashSet};
use vstd::prelude::*;

use crate::graph::{co_reach_set, reach_set, Edge};

verus! {

broadcast use vstd::std_specs::hash::group_hash_axioms;

/// Identity of a state.
pub type State = u64;

/// Label of a transition.
pub type Label = u64;

/// The mathematical content of an automaton: four tag sets and the two
/// labelled transition relations.
pub ghost struct AutomatonModel {
    pub external_states: Set<State>,
    pub internal_states: Set<State>,
    pub initial_states: Set<State>,
    pub final_states: Set<State>,
    pub external_transitions: Map<State, Map<Label, State>>,
    pub internal_transitions: Map<State, Map<Label, Set<State>>>,
}

/// An automaton whose external transitions are deterministic (one destination
/// per source and label) and whose internal transitions are not.
///
/// The four state sets are independent tags: a state may carry any of them or
/// none. A transition may name states that carry no tag; they are states of
/// the automaton all the same. Recording an external transition for a source
/// and label that already have one replaces its destination.
pub struct Automaton {
    pub external_states: HashSet<State>,
    pub internal_states: HashSet<State>,
    pub initial_states: HashSet<State>,
    pub final_states: HashSet<State>,
    pub external_transitions: HashMap<State, HashMap<Label, State>>,
    pub internal_transitions: HashMap<State, HashMap<Label, HashSet<State>>>,
}

impl View for Automaton {
    type V = AutomatonModel;

    open spec fn view(&self) -> AutomatonModel {
        AutomatonModel {
            external_states: self.external_states@,
            internal_states: self.internal_states@,
            initial_states: self.initial_states@,
            final_states: self.final_states@,
            external_transitions: self.external_transitions@.map_values(
                |m: HashMap<Label, State>| m@,
            ),
            internal_transitions: self.internal_transitions@.map_values(
                |m: HashMap<Label, HashSet<State>>| m@.map_values(|s: HashSet<State>| s@),
            ),
        }
    }
}

impl AutomatonModel {
    /// Some transition, external or internal and of any label, leads from `s`
    /// to `d`.
    pub open spec fn has_edge(self, s: State, d: State) -> bool {
        ||| self.external_transitions.contains_key(s) && exists|l: Label|
            #[trigger] self.external_transitions[s].contains_key(l)
                && self.external_transitions[s][l] == d
        ||| self.internal_transitions.contains_key(s) && exists|l: Label|
            #[trigger] self.internal_transitions[s].contains_key(l)
                && self.internal_transitions[s][l].contains(d)
    }

    /// The external transitions as edges.
    pub open spec fn external_edges(self) -> Set<Edge> {
        Set::new(
            |e: Edge|
                self.external_transitions.contains_key(e.0)
                    && self.external_transitions[e.0].values().contains(e.1),
        )
    }

    /// The internal transitions as edges.
    pub open spec fn internal_edges(self) -> Set<Edge> {
        Set::new(
            |e: Edge|
                self.internal_transitions.contains_key(e.0) && row_targets(
                    self.internal_transitions[e.0],
                ).contains(e.1),
        )
    }

    /// The combined transition relation with labels forgotten.
    pub open spec fn edges(self) -> Set<Edge> {
        Set::new(|e: Edge| self.has_edge(e.0, e.1))
    }

    /// The model with every set and relation empty.
    pub open spec fn empty() -> AutomatonModel {
        AutomatonModel {
            external_states: Set::empty(),
            internal_states: Set::empty(),
            initial_states: Set::empty(),
            final_states: Set::empty(),
            external_transitions: Map::empty(),
            internal_transitions: Map::empty(),
        }
    }

    /// The model after `state` is tagged as external.
    pub open spec fn with_external_state(self, state: State) -> AutomatonModel {
        AutomatonModel { external_states: self.external_states.insert(state), ..self }
    }

    /// The model after `state` is tagged as internal.
    pub open spec fn with_internal_state(self, state: State) -> AutomatonModel {
        AutomatonModel { internal_states: self.internal_states.insert(state), ..self }
    }

    /// The model after `state` is tagged as initial.
    pub open spec fn with_initial_state(self, state: State) -> AutomatonModel {
        AutomatonModel { initial_states: self.initial_states.insert(state), ..self }
    }

    /// The model after `state` is tagged as final.
    pub open spec fn with_final_state(self, state: State) -> AutomatonModel {
        AutomatonModel { final_states: self.final_states.insert(state), ..self }
    }

    /// Every state that is tagged or is an end of some transition.
    pub open spec fn states(self) -> Set<State> {
        self.external_states + self.internal_states + self.initial_states + self.final_states
            + Set::new(|s: State| exists|d: State| self.edges().contains((s, d)))
            + Set::new(|d: State| exists|s: State| self.edges().contains((s, d)))
    }

    /// The productive states: those from which some sequence of transitions
    /// ends in a final state (a final state itself by the empty sequence).
    pub open spec fn productive_states(self) -> Set<State> {
        co_reach_set(self.edges(), self.final_states)
    }

    /// The states that some sequence of transitions reaches from an initial
    /// state (an initial state itself by the empty sequence).
    pub open spec fn reachable_states(self) -> Set<State> {
        reach_set(self.edges(), self.initial_states)
    }

    /// The useful states: reachable from an initial state and productive, so
    /// on some path from an initial state to a final state.
    pub open spec fn useful_states(self) -> Set<State> {
        self.reachable_states().intersect(self.productive_states())
    }

    /// The model after `source --label--> destination` is recorded as an
    /// external transition: the destination replaces any earlier one for that
    /// source and label.
    pub open spec fn with_external_transition(
        self,
        source: State,
        label: Label,
        destination: State,
    ) -> AutomatonModel {
        let row = if self.external_transitions.contains_key(source) {
            self.external_transitions[source]
        } else {
            Map::empty()
        };
        AutomatonModel {
            external_transitions: self.external_transitions.insert(
                source,
                row.insert(label, destination),
            ),
            ..self
        }
    }

    /// The model after `source --label--> destination` is recorded as an
    /// internal transition: the destination joins those of that source and
    /// label.
    pub open spec fn with_internal_transition(
        self,
        source: State,
        label: Label,
        destination: State,
    ) -> AutomatonModel {
        let row = if self.internal_transitions.contains_key(source) {
            self.internal_transitions[source]
        } else {
            Map::empty()
        };
        let dests = if row.contains_key(label) {
            row[label]
        } else {
            Set::empty()
        };
        AutomatonModel {
            internal_transitions: self.internal_transitions.insert(
                source,
                row.insert(label, dests.insert(destination)),
            ),
            ..self
        }
    }
}

impl Automaton {
    /// An automaton with no states and no transitions.
    pub fn new() -> (r: Self)
        ensures
            r@ == AutomatonModel::empty(),
    {
        let r = Automaton {
            external_states: HashSet::new(),
            internal_states: HashSet::new(),
            initial_states: HashSet::new(),
            final_states: HashSet::new(),
            external_transitions: HashMap::new(),
            internal_transitions: HashMap::new(),
        };
        assert(r@.external_transitions =~= Map::empty());
        assert(r@.internal_transitions =~= Map::empty());
        r
    }

    /// Tags `state` as external; inserting it again changes nothing.
    pub fn insert_external_state(&mut self, state: State)
        ensures
            final(self)@ == old(self)@.with_external_state(state),
    {
        self.external_states.insert(state);
    }

    /// Tags `state` as internal; inserting it again changes nothing.
    pub fn insert_internal_state(&mut self, state: State)
        ensures
            final(self)@ == old(self)@.with_internal_state(state),
    {
        self.internal_states.insert(state);
    }

    /// Tags `state` as initial; inserting it again changes nothing.
    pub fn insert_initial_state(&mut self, state: State)
        ensures
            final(self)@ == old(self)@.with_initial_state(state),
    {
        self.initial_states.insert(state);
    }

    /// Tags `state` as final; inserting it again changes nothing.
    pub fn insert_final_state(&mut self, state: State)
        ensures
            final(self)@ == old(self)@.with_final_state(state),
    {
        self.final_states.insert(state);
    }

    /// Records `source --label--> destination` as an external transition; a
    /// destination recorded earlier for the same source and label is replaced.
    pub fn insert_external_transition(&mut self, source: State, label: Label, destination: State)
        ensures
            final(self)@ == old(self)@.with_external_transition(source, label, destination),
    {
        let row = self.external_transitions.entry(source).or_insert(HashMap::new());
        row.insert(label, destination);
        proof {
            assert(final(self)@.external_transitions =~= old(self)@.with_external_transition(
                source,
                label,
                destination,
            ).external_transitions);
        }
    }

    /// Records `source --label--> destination` as an internal transition; the
    /// destination joins those already recorded for the same source and label.
    pub fn insert_internal_transition(&mut self, source: State, label: Label, destination: State)
        ensures
            final(self)@ == old(self)@.with_internal_transition(source, label, destination),
    {
        let row = self.internal_transitions.entry(source).or_insert(HashMap::new());
        let dests = row.entry(label).or_insert(HashSet::new());
        dests.insert(destination);
        proof {
            let m = old(self)@.internal_transitions;
            let row0 = if m.contains_key(source) { m[source] } else { Map::empty() };
            let dests0 = if row0.contains_key(label) { row0[label] } else { Set::empty() };
            let row1 = self.internal_transitions@[source]@;
            assert(row1.map_values(|s: HashSet<State>| s@) =~= row0.insert(label, dests0.insert(destination)));
            assert(final(self)@.internal_transitions =~= old(self)@.with_internal_transition(
                source,
                label,
                destination,
            ).internal_transitions);
        }
    }
}

/// The members of a set, in the order in which the set hands them out.
pub(crate) fn set_members(s: &HashSet<State>) -> (r: Vec<State>)
    ensures
        r@.to_set() == s@,
{
    let mut r: Vec<State> = Vec::new();
    for x in it: s.iter()
        invariant
            it.seq().unref().to_set() == s@,
            r@ == it.seq().take(it.index()).unref(),
            it.index() == it.seq().len() ==> r@.to_set() == s@,
    {
        r.push(*x);
        assert(it.seq().take(it.index() + 1).unref() =~= r@);
        assert(it.seq().take(it.seq().len() as int) =~= it.seq());
    }
    r
}

/// The edges from `s` to each member of `ds`.
pub open spec fn edges_from(s: State, ds: Set<State>) -> Set<Edge> {
    Set::new(|e: Edge| e.0 == s && ds.contains(e.1))
}

/// The states in at least one of the destination sets of `row`.
pub open spec fn row_targets(row: Map<Label, Set<State>>) -> Set<State> {
    Set::new(|d: State| exists|l: Label| #[trigger] row.contains_key(l) && row[l].contains(d))
}

/// The keys of a map, in the order in which the map hands them out.
fn map_keys<V>(m: &HashMap<State, V>) -> (r: Vec<State>)
    ensures
        r@.to_set() == m@.dom(),
{
    let mut r: Vec<State> = Vec::new();
    for k in it: m.keys()
        invariant
            it.seq().unref().to_set() == m@.dom(),
            r@ == it.seq().take(it.index()).unref(),
            it.index() == it.seq().len() ==> r@.to_set() == m@.dom(),
    {
        r.push(*k);
        assert(it.seq().take(it.index() + 1).unref() =~= r@);
        assert(it.seq().take(it.seq().len() as int) =~= it.seq());
    }
    r
}

/// Appends an edge from `s` to each member of `ds`.
fn push_edges(r: &mut Vec<Edge>, s: State, ds: &Vec<State>)
    ensures
        final(r)@.to_set() == old(r)@.to_set() + edges_from(s, ds@.to_set()),
{
    let ghost r0 = r@;
    let mut i: usize = 0;
    while i < ds.len()
        invariant
            i <= ds.len(),
            r@.to_set() == r0.to_set() + edges_from(s, ds@.take(i as int).to_set()),
        decreases ds.len() - i,
    {
        let ghost before = r@;
        r.push((s, ds[i]));
        proof {
            before.lemma_push_to_set_commute((s, ds@[i as int]));
            assert(ds@.take(i + 1) =~= ds@.take(i as int).push(ds@[i as int]));
            ds@.take(i as int).lemma_push_to_set_commute(ds@[i as int]);
            assert(r@.to_set() =~= r0.to_set() + edges_from(s, ds@.take(i + 1).to_set()));
        }
        i += 1;
    }
    assert(ds@.take(ds.len() as int) =~= ds@);
}

/// Appends an edge from `s` to each destination of the external row `row`.
fn push_external_row(r: &mut Vec<Edge>, s: State, row: &HashMap<Label, State>)
    ensures
        final(r)@.to_set() == old(r)@.to_set() + edges_from(s, row@.values()),
{
    let ghost r0 = r@;
    for d in it: row.values()
        invariant
            it.seq().unref().to_set() == row@.values(),
            r@.to_set() == r0.to_set() + edges_from(s, it.seq().take(it.index()).unref().to_set()),
            it.index() == it.seq().len() ==> r@.to_set() == r0.to_set() + edges_from(s, row@.values()),
    {
        let ghost before = r@;
        r.push((s, *d));
        proof {
            before.lemma_push_to_set_commute((s, *d));
        }
        assert(it.seq().take(it.index() + 1).unref() =~= it.seq().take(it.index()).unref().push(*d));
        broadcast use vstd::seq::Seq::lemma_push_to_set_commute;
        assert(r@.to_set() =~= r0.to_set() + edges_from(s, it.seq().take(it.index() + 1).unref().to_set()));
        assert(it.seq().take(it.seq().len() as int) =~= it.seq());
    }
}

/// The states in the view of at least one member of `hs`.
spec fn union_of_views(hs: Set<HashSet<State>>) -> Set<State> {
    Set::new(|d: State| exists|h: HashSet<State>| #[trigger] hs.contains(h) && h@.contains(d))
}

broadcast proof fn lemma_union_of_views_insert(hs: Set<HashSet<State>>, h: HashSet<State>)
    ensures
        #[trigger] union_of_views(hs.insert(h)) == union_of_views(hs) + h@,
{
    assert forall|d: State| union_of_views(hs.insert(h)).contains(d) <==> (union_of_views(hs) + h@).contains(d) by {
        if h@.contains(d) {
            assert(hs.insert(h).contains(h));
        }
        if union_of_views(hs).contains(d) {
            let g = choose|g: HashSet<State>| #[trigger] hs.contains(g) && g@.contains(d);
            assert(hs.insert(h).contains(g));
        }
    }
    assert(union_of_views(hs.insert(h)) =~= union_of_views(hs) + h@);
}

/// Appends an edge from `s` to each destination of the internal row `row`.
fn push_internal_row(r: &mut Vec<Edge>, s: State, row: &HashMap<Label, HashSet<State>>)
    ensures
        final(r)@.to_set() == old(r)@.to_set() + edges_from(
            s,
            row_targets(row@.map_values(|h: HashSet<State>| h@)),
        ),
{
    let ghost r0 = r@;
    for h in it: row.values()
        invariant
            it.seq().unref().to_set() == row@.values(),
            r@.to_set() == r0.to_set() + edges_from(
                s,
                union_of_views(it.seq().take(it.index()).unref().to_set()),
            ),
            it.index() == it.seq().len() ==> r@.to_set() == r0.to_set() + edges_from(
                s,
                union_of_views(row@.values()),
            ),
    {
        let members = set_members(h);
        push_edges(r, s, &members);
        assert(it.seq().take(it.index() + 1).unref() =~= it.seq().take(it.index()).unref().push(*h));
        broadcast use vstd::seq::Seq::lemma_push_to_set_commute;
        assert(it.seq().take(it.index() + 1).unref().to_set() =~= it.seq().take(
            it.index(),
        ).unref().to_set().insert(*h));
        broadcast use lemma_union_of_views_insert;
        assert(r@.to_set() =~= r0.to_set() + edges_from(
            s,
            union_of_views(it.seq().take(it.index() + 1).unref().to_set()),
        ));
        assert(it.seq().take(it.seq().len() as int) =~= it.seq());
    }
    proof {
        let targets = row_targets(row@.map_values(|h: HashSet<State>| h@));
        assert forall|d: State| union_of_views(row@.values()).contains(d) <==> targets.contains(d) by {
            if targets.contains(d) {
                let l = choose|l: Label| #[trigger] row@.contains_key(l) && row@[l]@.contains(d);
                assert(row@.values().contains(row@[l]));
            }
            if union_of_views(row@.values()).contains(d) {
                let h = choose|h: HashSet<State>| #[trigger] row@.values().contains(h) && h@.contains(d);
                let l = choose|l: Label| row@.dom().contains(l) && row@[l] == h;
                assert(row@.map_values(|h: HashSet<State>| h@).contains_key(l));
            }
        }
        assert(union_of_views(row@.values()) =~= targets);
    }
}

impl Automaton {
    /// Every transition, external or internal, as an edge from its source to
    /// one of its destinations.
    pub fn transition_edges(&self) -> (r: Vec<Edge>)
        ensures
            r@.to_set() == self@.edges(),
    {
        let mut r: Vec<Edge> = Vec::new();
        let sources = map_keys(&self.external_transitions);
        let mut i: usize = 0;
        while i < sources.len()
            invariant
                i <= sources.len(),
                sources@.to_set() == self.external_transitions@.dom(),
                r@.to_set() == Set::new(
                    |e: Edge| sources@.take(i as int).contains(e.0) && self@.external_edges().contains(e),
                ),
            decreases sources.len() - i,
        {
            let s = sources[i];
            let ghost before = r@;
            assert(sources@.take(i + 1) =~= sources@.take(i as int).push(s));
            assert(self.external_transitions@.dom().contains(s));
            match self.external_transitions.get(&s) {
                Some(row) => {
                    push_external_row(&mut r, s, row);
                    assert(self@.external_transitions[s] == row@);
                    assert(sources@.take(i + 1)[i as int] == s);
                    assert(sources@.take(i + 1).contains(s));
                    assert forall|x: State| sources@.take(i + 1).contains(x) implies x == s
                        || sources@.take(i as int).contains(x) by {
                        let j = choose|j: int| 0 <= j < i + 1 && #[trigger] sources@.take(i + 1)[j] == x;
                        if j < i {
                            assert(sources@.take(i as int)[j] == x);
                        }
                    }
                    assert(r@.to_set() =~= Set::new(
                        |e: Edge| sources@.take(i + 1).contains(e.0) && self@.external_edges().contains(e),
                    ));
                },
                None => {},
            }
            i += 1;
        }
        assert(sources@.take(sources.len() as int) =~= sources@);
        assert(r@.to_set() =~= self@.external_edges());
        let sources = map_keys(&self.internal_transitions);
        let mut i: usize = 0;
        while i < sources.len()
            invariant
                i <= sources.len(),
                sources@.to_set() == self.internal_transitions@.dom(),
                r@.to_set() == self@.external_edges() + Set::new(
                    |e: Edge| sources@.take(i as int).contains(e.0) && self@.internal_edges().contains(e),
                ),
            decreases sources.len() - i,
        {
            let s = sources[i];
            assert(sources@.take(i + 1) =~= sources@.take(i as int).push(s));
            assert(self.internal_transitions@.dom().contains(s));
            match self.internal_transitions.get(&s) {
                Some(row) => {
                    push_internal_row(&mut r, s, row);
                    assert(self@.internal_transitions[s] == row@.map_values(|h: HashSet<State>| h@));
                    assert(sources@.take(i + 1)[i as int] == s);
                    assert(sources@.take(i + 1).contains(s));
                    assert forall|x: State| sources@.take(i + 1).contains(x) implies x == s
                        || sources@.take(i as int).contains(x) by {
                        let j = choose|j: int| 0 <= j < i + 1 && #[trigger] sources@.take(i + 1)[j] == x;
                        if j < i {
                            assert(sources@.take(i as int)[j] == x);
                        }
                    }
                    assert(r@.to_set() =~= self@.external_edges() + Set::new(
                        |e: Edge| sources@.take(i + 1).contains(e.0) && self@.internal_edges().contains(e),
                    ));
                },
                None => {},
            }
            i += 1;
        }
        assert(sources@.take(sources.len() as int) =~= sources@);
        proof {
            lemma_edges_split(self@);
        }
        assert(r@.to_set() =~= self@.edges());
        r
    }
}

/// The combined relation is the union of the external and internal ones.
proof fn lemma_edges_split(a: AutomatonModel)
    ensures
        a.edges() == a.external_edges() + a.internal_edges(),
{
    assert forall|e: Edge| a.edges().contains(e) <==> (a.external_edges() + a.internal_edges()).contains(e) by {
        let (s, d) = e;
        if a.external_edges().contains(e) {
            let l = choose|l: Label| a.external_transitions[s].dom().contains(l) && a.external_transitions[s][l] == d;
            assert(a.external_transitions[s].contains_key(l));
        }
        if a.internal_edges().contains(e) {
            let l = choose|l: Label| #[trigger] a.internal_transitions[s].contains_key(l) && a.internal_transitions[s][l].contains(d);
            assert(a.internal_transitions[s].contains_key(l));
        }
        if a.has_edge(s, d) {
            if a.external_transitions.contains_key(s) && exists|l: Label|
                #[trigger] a.external_transitions[s].contains_key(l) && a.external_transitions[s][l] == d {
                let l = choose|l: Label| #[trigger] a.external_transitions[s].contains_key(l) && a.external_transitions[s][l] == d;
                assert(a.external_transitions[s].values().contains(d));
            } else {
                let l = choose|l: Label| #[trigger] a.internal_transitions[s].contains_key(l) && a.internal_transitions[s][l].contains(d);
                assert(row_targets(a.internal_transitions[s]).contains(d));
            }
        }
    }
    assert(a.edges() =~= a.external_edges() + a.internal_edges());
}

impl Automaton {
    /// Whether no state is tagged and no transition recorded; `edges` holds
    /// the automaton's transition edges.
    pub(crate) fn has_no_states(&self, edges: &Vec<Edge>) -> (r: bool)
        requires
            edges@.to_set() == self@.edges(),
        ensures
            r == self@.states().is_empty(),
    {
        let r = self.external_states.is_empty() && self.internal_states.is_empty()
            && self.initial_states.is_empty() && self.final_states.is_empty() && edges.len() == 0;
        proof {
            if r {
                assert forall|q: State| !self@.states().contains(q) by {
                    if exists|d: State| self@.edges().contains((q, d)) {
                        let d = choose|d: State| self@.edges().contains((q, d));
                        assert(edges@.to_set().contains((q, d)));
                    }
                    if exists|s: State| self@.edges().contains((s, q)) {
                        let s = choose|s: State| self@.edges().contains((s, q));
                        assert(edges@.to_set().contains((s, q)));
                    }
                }
                assert(self@.states() =~= Set::empty());
            } else if edges.len() > 0 {
                let e = edges@[0];
                assert(edges@.to_set().contains(e));
                assert(self@.states().contains(e.0));
            } else if !self.external_states@.is_empty() {
                assert(self@.states().contains(self.external_states@.choose()));
            } else if !self.internal_states@.is_empty() {
                assert(self@.states().contains(self.internal_states@.choose()));
            } else if !self.initial_states@.is_empty() {
                assert(self@.states().contains(self.initial_states@.choose()));
            } else {
                assert(self@.states().contains(self.final_states@.choose()));
            }
        }
        r
    }
}

} // verus!
