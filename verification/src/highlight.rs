use vstd::prelude::*;

use crate::automaton::{EdgeLabel, StateId};
use crate::sets::set_members;
use std::collections::{HashMap, HashSet};

verus! {

broadcast use vstd::std_specs::hash::group_hash_axioms;

/// Key identifying a transition: two highlights are the same edge when they
/// share origin, destination and label.
#[derive(Debug, Clone, Copy, PartialEq, Eq, Hash, Structural)]
pub struct EdgeHighlight {
    pub from: StateId,
    pub to: StateId,
    pub label: EdgeLabel,
}

impl EdgeHighlight {
    /// Creates the highlight key of the edge `from --label--> to`.
    pub fn new(from: StateId, to: StateId, label: EdgeLabel) -> (r: Self)
        ensures
            r == (EdgeHighlight { from, to, label }),
    {
        EdgeHighlight { from, to, label }
    }
}

/// How an active state is emphasised during simulation.
#[derive(Debug, Clone, Copy, PartialEq, Eq, Hash, Structural)]
pub enum StateHighlight {
    /// The state is part of the current frontier.
    Active,
    /// The state is part of the final frontier of a rejected input.
    Rejected,
}

/// The style recorded for `id`, if it is highlighted.
pub open spec fn style_of(states: Map<StateId, StateHighlight>, id: StateId) -> Option<StateHighlight> {
    if states.contains_key(id) {
        Some(states[id])
    } else {
        None
    }
}

/// Every state of `s` with the style `style`.
pub open spec fn styled(s: Set<StateId>, style: StateHighlight) -> Map<StateId, StateHighlight> {
    Map::new(|id: StateId| s.contains(id), |id: StateId| style)
}

/// States and transitions to emphasise in the rendered automaton.
#[derive(Debug, Clone)]
pub struct Highlights {
    /// Highlighted states with their styles.
    pub states: HashMap<StateId, StateHighlight>,
    /// Transitions taken in the current simulation step.
    pub edges: Vec<EdgeHighlight>,
}

/// The states of `s`, each with the style `style`.
pub fn styled_states(s: &HashSet<StateId>, style: StateHighlight) -> (r: HashMap<StateId, StateHighlight>)
    ensures
        r@ == styled(s@, style),
{
    let members = set_members(s);
    let mut out: HashMap<StateId, StateHighlight> = HashMap::new();
    let mut i: usize = 0;
    while i < members.len()
        invariant
            i <= members@.len(),
            out@ == styled(members@.take(i as int).to_set(), style),
        decreases members.len() - i,
    {
        out.insert(members[i], style);
        proof {
            assert(members@.take(i + 1) =~= members@.take(i as int).push(members@[i as int]));
            members@.take(i as int).lemma_push_to_set_commute(members@[i as int]);
            assert(out@ =~= styled(members@.take(i + 1).to_set(), style));
        }
        i = i + 1;
    }
    assert(members@.take(members@.len() as int) =~= members@);
    out
}

impl Highlights {
    /// The set of highlighted states.
    pub open spec fn state_set(self) -> Set<StateId> {
        self.states@.dom()
    }

    /// Highlights with nothing emphasised.
    pub fn empty() -> (r: Self)
        ensures
            r.states@ == Map::<StateId, StateHighlight>::empty(),
            r.edges@.len() == 0,
    {
        Highlights { states: HashMap::new(), edges: Vec::new() }
    }

    /// Builds highlights from styled states and edges.
    pub fn new(states: HashMap<StateId, StateHighlight>, edges: Vec<EdgeHighlight>) -> (r: Self)
        ensures
            r.states@ == states@,
            r.edges == edges,
    {
        Highlights { states, edges }
    }

    /// Builds highlights that mark every given state as active.
    pub fn from_sets(states: &HashSet<StateId>, edges: Vec<EdgeHighlight>) -> (r: Self)
        ensures
            r.states@ == styled(states@, StateHighlight::Active),
            r.edges == edges,
    {
        Highlights { states: styled_states(states, StateHighlight::Active), edges }
    }

    /// Whether `state` is highlighted, whatever its style.
    pub fn is_state_active(&self, state: StateId) -> (r: bool)
        ensures
            r == self.state_set().contains(state),
    {
        self.states.contains_key(&state)
    }

    /// The style of `state`, if it is highlighted.
    pub fn state_style(&self, state: StateId) -> (r: Option<StateHighlight>)
        ensures
            r == style_of(self.states@, state),
    {
        match self.states.get(&state) {
            Some(st) => Some(*st),
            None => None,
        }
    }

    /// Whether the transition `from --label--> to` was taken.
    pub fn is_edge_active(&self, from: StateId, to: StateId, label: EdgeLabel) -> (r: bool)
        ensures
            r == self.edges@.contains(EdgeHighlight { from, to, label }),
    {
        contains_edge(&self.edges, EdgeHighlight::new(from, to, label))
    }
}

/// Whether `e` occurs in `v`.
pub fn contains_edge(v: &Vec<EdgeHighlight>, e: EdgeHighlight) -> (r: bool)
    ensures
        r == v@.contains(e),
{
    let mut i: usize = 0;
    while i < v.len()
        invariant
            i <= v.len(),
            forall|j: int| 0 <= j < i ==> v@[j] != e,
        decreases v.len() - i,
    {
        if v[i] == e {
            return true;
        }
        i = i + 1;
    }
    false
}

/// Appends `e` unless it is already present.
pub fn insert_edge(v: &mut Vec<EdgeHighlight>, e: EdgeHighlight)
    requires
        old(v)@.no_duplicates(),
    ensures
        final(v)@.no_duplicates(),
        final(v)@.to_set() == old(v)@.to_set().insert(e),
{
    if !contains_edge(v, e) {
        v.push(e);
        assert(final(v)@.to_set() =~= old(v)@.to_set().insert(e)) by {
            assert forall|y: EdgeHighlight| #[trigger] final(v)@.contains(y) <==> old(v)@.to_set().insert(e).contains(y) by {
                if final(v)@.contains(y) {
                    let k = choose|k: int| 0 <= k < final(v)@.len() && final(v)@[k] == y;
                    if k < old(v)@.len() {
                        assert(old(v)@[k] == y);
                    }
                }
                if old(v)@.contains(y) {
                    let k = choose|k: int| 0 <= k < old(v)@.len() && old(v)@[k] == y;
                    assert(final(v)@[k] == y);
                }
                if y == e {
                    assert(final(v)@[old(v)@.len() as int] == e);
                }
            }
        }
    } else {
        assert(old(v)@.to_set().insert(e) =~= old(v)@.to_set());
    }
}

} // verus!
