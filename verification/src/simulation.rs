use vstd::prelude::*;

use crate::automaton::{Dfa, EdgeLabel, Nfa, StateId};
use crate::highlight::{EdgeHighlight, Highlights, StateHighlight, insert_edge, styled, styled_states};
use crate::sim::{epsilon_closure, eps_closure_set, move_on, move_set};
use crate::sets::id_set;
use crate::text::chars_of;
use std::collections::HashSet;

verus! {

broadcast use vstd::std_specs::hash::group_hash_axioms;

/// Which automaton drives the simulation.
#[derive(Debug, Clone, Copy, PartialEq, Eq, Structural)]
pub enum SimulationTarget {
    /// The Thompson NFA.
    Nfa,
    /// The determinised DFA.
    Dfa,
    /// The minimised DFA.
    MinDfa,
}

impl SimulationTarget {
    /// The default target, the NFA.
    pub fn default_target() -> (r: Self)
        ensures
            r == SimulationTarget::Nfa,
    {
        SimulationTarget::Nfa
    }
}

/// Snapshot of the automaton after consuming a prefix of the input.
#[derive(Debug)]
pub struct SimulationStep {
    /// Index of the step (0 = before consuming any input).
    pub index: usize,
    /// Character consumed to reach this step (`None` for the initial step).
    pub consumed: Option<char>,
    /// States active at this step.
    pub active_states: HashSet<StateId>,
    /// Transitions taken to reach this step, each listed once.
    pub traversed_edges: Vec<EdgeHighlight>,
    /// Whether some active state accepts.
    pub accepted: bool,
}

impl SimulationStep {
    /// Creates a step snapshot.
    pub fn new(
        index: usize,
        consumed: Option<char>,
        active_states: HashSet<StateId>,
        traversed_edges: Vec<EdgeHighlight>,
        accepted: bool,
    ) -> (r: Self)
        ensures
            r.index == index,
            r.consumed == consumed,
            r.active_states == active_states,
            r.traversed_edges == traversed_edges,
            r.accepted == accepted,
    {
        SimulationStep { index, consumed, active_states, traversed_edges, accepted }
    }
}

/// Ordered steps of a simulation, from the initial configuration on.
#[derive(Debug)]
pub struct SimulationTrace {
    steps: Vec<SimulationStep>,
}

impl SimulationTrace {
    /// The steps of the trace.
    pub closed spec fn steps(self) -> Seq<SimulationStep> {
        self.steps@
    }

    /// Creates a trace from a list of steps.
    pub fn new(steps: Vec<SimulationStep>) -> (r: Self)
        ensures
            r.steps() == steps@,
    {
        SimulationTrace { steps }
    }

    /// Number of stored steps.
    pub fn len(&self) -> (r: usize)
        ensures
            r == self.steps().len(),
    {
        self.steps.len()
    }

    /// The step at `index`, if there is one.
    pub fn step(&self, index: usize) -> (r: Option<&SimulationStep>)
        ensures
            index < self.steps().len() ==> r == Some(&self.steps()[index as int]),
            index >= self.steps().len() ==> r is None,
    {
        if index < self.steps.len() {
            Some(&self.steps[index])
        } else {
            None
        }
    }
}

// ---------------------------------------------------------------------------
// NFA simulation
// ---------------------------------------------------------------------------

/// The states active after consuming the first `k` symbols of `input`.
pub open spec fn nfa_states_after(nfa: Nfa, input: Seq<char>, k: nat) -> Set<StateId>
    decreases k,
{
    if k == 0 {
        eps_closure_set(nfa, set![nfa.start])
    } else {
        eps_closure_set(nfa, move_set(nfa, nfa_states_after(nfa, input, (k - 1) as nat), input[k - 1]))
    }
}

/// The transitions labelled `c` that leave a state of `from`.
pub open spec fn nfa_traversed(nfa: Nfa, from: Set<StateId>, c: char) -> Set<EdgeHighlight> {
    Set::new(|e: EdgeHighlight| from.contains(e.from) && e.label == EdgeLabel::Sym(c) && nfa.has_edge(e.from, e.label, e.to))
}

/// Whether some state of `s` accepts.
pub open spec fn nfa_set_accepts(nfa: Nfa, s: Set<StateId>) -> bool {
    exists|x: StateId| s.contains(x) && #[trigger] nfa.is_accept(x)
}

/// Step `i` of an NFA trace on `input` is as the simulation defines it.
pub open spec fn nfa_step_ok(nfa: Nfa, input: Seq<char>, i: int, st: SimulationStep) -> bool {
    &&& st.index == i
    &&& st.consumed == (if i == 0 { None } else { Some(input[i - 1]) })
    &&& st.active_states@ == nfa_states_after(nfa, input, i as nat)
    &&& st.traversed_edges@.no_duplicates()
    &&& st.traversed_edges@.to_set() == (if i == 0 {
        Set::empty()
    } else {
        nfa_traversed(nfa, nfa_states_after(nfa, input, (i - 1) as nat), input[i - 1])
    })
    &&& st.accepted == nfa_set_accepts(nfa, nfa_states_after(nfa, input, i as nat))
}

/// `steps` is the NFA trace of `input`: one step per consumed symbol, stopping
/// early once the frontier is empty and input remains.
pub open spec fn is_nfa_trace(nfa: Nfa, input: Seq<char>, steps: Seq<SimulationStep>) -> bool {
    &&& 1 <= steps.len() <= input.len() + 1
    &&& forall|i: int| 0 <= i < steps.len() ==> nfa_step_ok(nfa, input, i, #[trigger] steps[i])
    &&& forall|j: int| 1 <= j < steps.len() - 1 ==> !(#[trigger] nfa_states_after(nfa, input, j as nat)).is_empty()
    &&& (steps.len() == input.len() + 1 || nfa_states_after(nfa, input, (steps.len() - 1) as nat).is_empty())
}

fn any_accepting_nfa(states: &Vec<StateId>, nfa: &Nfa) -> (r: bool)
    ensures
        r == nfa_set_accepts(*nfa, states@.to_set()),
{
    let mut i: usize = 0;
    while i < states.len()
        invariant
            i <= states.len(),
            forall|j: int| 0 <= j < i ==> !nfa.is_accept(#[trigger] states@[j]),
        decreases states.len() - i,
    {
        if nfa.accepts_state(states[i]) {
            assert(states@.to_set().contains(states@[i as int]));
            return true;
        }
        i = i + 1;
    }
    proof {
        assert forall|x: StateId| states@.to_set().contains(x) implies !#[trigger] nfa.is_accept(x) by {
            let j = choose|j: int| 0 <= j < states@.len() && states@[j] == x;
            assert(!nfa.is_accept(states@[j]));
        }
    }
    false
}

fn traversed_nfa(states: &Vec<StateId>, c: char, nfa: &Nfa) -> (r: Vec<EdgeHighlight>)
    ensures
        r@.no_duplicates(),
        r@.to_set() == nfa_traversed(*nfa, states@.to_set(), c),
{
    let ghost from = states@.to_set();
    let mut out: Vec<EdgeHighlight> = Vec::new();
    let mut i: usize = 0;
    while i < states.len()
        invariant
            i <= states.len(),
            from == states@.to_set(),
            out@.no_duplicates(),
            forall|e: EdgeHighlight| #[trigger] out@.contains(e) ==> nfa_traversed(*nfa, from, c).contains(e),
            forall|j: int, t: StateId|
                0 <= j < i && #[trigger] nfa.has_edge(states@[j], EdgeLabel::Sym(c), t)
                    ==> out@.contains(EdgeHighlight { from: states@[j], to: t, label: EdgeLabel::Sym(c) }),
        decreases states.len() - i,
    {
        let s = states[i];
        let mut k: usize = 0;
        while k < nfa.edges.len()
            invariant
                k <= nfa.edges.len(),
                i < states.len(),
                s == states@[i as int],
                from == states@.to_set(),
                out@.no_duplicates(),
                forall|e: EdgeHighlight| #[trigger] out@.contains(e) ==> nfa_traversed(*nfa, from, c).contains(e),
                forall|j: int, t: StateId|
                    0 <= j < i && #[trigger] nfa.has_edge(states@[j], EdgeLabel::Sym(c), t)
                        ==> out@.contains(EdgeHighlight { from: states@[j], to: t, label: EdgeLabel::Sym(c) }),
                forall|m: int|
                    0 <= m < k && (#[trigger] nfa.edges@[m]).from == s && nfa.edges@[m].label == EdgeLabel::Sym(c)
                        ==> out@.contains(EdgeHighlight { from: s, to: nfa.edges@[m].to, label: EdgeLabel::Sym(c) }),
            decreases nfa.edges.len() - k,
        {
            let edge = nfa.edges[k];
            if edge.from == s && edge.label.is_sym(c) {
                let h = EdgeHighlight::new(s, edge.to, EdgeLabel::Sym(c));
                let ghost before = out@;
                proof {
                    assert(nfa.edges@.contains(edge));
                    assert(states@.to_set().contains(s));
                    assert(nfa_traversed(*nfa, from, c).contains(h));
                }
                insert_edge(&mut out, h);
                proof {
                    assert forall|x: EdgeHighlight| #[trigger] out@.contains(x) implies before.contains(x) || x == h by {
                        assert(out@.to_set().contains(x));
                    }
                    assert forall|x: EdgeHighlight| before.contains(x) implies #[trigger] out@.contains(x) by {
                        assert(before.to_set().contains(x));
                        assert(out@.to_set().contains(x));
                    }
                    assert(out@.to_set().contains(h));
                }
            }
            k = k + 1;
        }
        proof {
            assert forall|j: int, t: StateId|
                0 <= j < i + 1 && #[trigger] nfa.has_edge(states@[j], EdgeLabel::Sym(c), t)
                    implies out@.contains(EdgeHighlight { from: states@[j], to: t, label: EdgeLabel::Sym(c) }) by {
                if j == i {
                    let ne = crate::automaton::NfaEdge { from: s, label: EdgeLabel::Sym(c), to: t };
                    let m = choose|m: int| 0 <= m < nfa.edges@.len() && nfa.edges@[m] == ne;
                    assert(nfa.edges@[m].from == s);
                }
            }
        }
        i = i + 1;
    }
    proof {
        assert forall|e: EdgeHighlight| nfa_traversed(*nfa, from, c).contains(e) implies #[trigger] out@.contains(e) by {
            let j = choose|j: int| 0 <= j < states@.len() && states@[j] == e.from;
            assert(nfa.has_edge(states@[j], EdgeLabel::Sym(c), e.to));
        }
        assert(out@.to_set() =~= nfa_traversed(*nfa, from, c));
    }
    out
}


/// Builds the simulation trace of `nfa` on `input`: the epsilon closure of the
/// start state, then one step per symbol, stopping early when no state remains
/// active and input is left.
pub fn build_nfa_trace(nfa: &Nfa, input: &str) -> (r: SimulationTrace)
    ensures
        is_nfa_trace(*nfa, input@, r.steps()),
{
    let symbols = chars_of(input);
    let ghost inp = input@;
    let n = symbols.len();
    let mut steps: Vec<SimulationStep> = Vec::new();
    let start_set: Vec<StateId> = vec![nfa.start];
    assert(start_set@.to_set() =~= set![nfa.start]) by {
        assert(start_set@[0] == nfa.start);
    }
    let mut current = epsilon_closure(&start_set, nfa);
    let initial_accepting = any_accepting_nfa(&current, nfa);
    let first = SimulationStep::new(0, None, id_set(&current), Vec::new(), initial_accepting);
    proof {
        assert(first.traversed_edges@.to_set() =~= Set::<EdgeHighlight>::empty());
    }
    steps.push(first);
    let mut idx: usize = 0;
    proof {
        assert(current@.to_set().contains(nfa.start)) by {
            let p = seq![nfa.start];
            assert(crate::sim::eps_path(*nfa, p));
        }
    }
    while idx < n
        invariant_except_break
            idx < n ==> !nfa_states_after(*nfa, inp, idx as nat).is_empty(),
        invariant
            n == symbols@.len(),
            symbols@ == inp,
            idx <= n,
            steps@.len() == idx + 1,
            current@.no_duplicates(),
            current@.to_set() == nfa_states_after(*nfa, inp, idx as nat),
            forall|i: int| 0 <= i < steps@.len() ==> nfa_step_ok(*nfa, inp, i, #[trigger] steps@[i]),
            forall|j: int| 1 <= j < idx ==> !(#[trigger] nfa_states_after(*nfa, inp, j as nat)).is_empty(),
        ensures
            1 <= steps@.len() <= n + 1,
            forall|i: int| 0 <= i < steps@.len() ==> nfa_step_ok(*nfa, inp, i, #[trigger] steps@[i]),
            forall|j: int| 1 <= j < steps@.len() - 1 ==> !(#[trigger] nfa_states_after(*nfa, inp, j as nat)).is_empty(),
            steps@.len() == n + 1 || nfa_states_after(*nfa, inp, (steps@.len() - 1) as nat).is_empty(),
        decreases n - idx,
    {
        let symbol = symbols[idx];
        let traversed = traversed_nfa(&current, symbol, nfa);
        let moved = move_on(&current, symbol, nfa);
        let next = epsilon_closure(&moved, nfa);
        let accepting = any_accepting_nfa(&next, nfa);
        proof {
            assert(next@.to_set() == nfa_states_after(*nfa, inp, (idx + 1) as nat));
        }
        let step = SimulationStep::new(idx + 1, Some(symbol), id_set(&next), traversed, accepting);
        let ghost prev_steps = steps@;
        steps.push(step);
        proof {
            assert forall|i: int| 0 <= i < steps@.len() implies nfa_step_ok(*nfa, inp, i, #[trigger] steps@[i]) by {
                if i < idx + 1 {
                    assert(steps@[i] == prev_steps[i]);
                }
            }
        }
        current = next;
        idx = idx + 1;
        if current.len() == 0 && idx < n {
            proof {
                assert(current@.to_set() =~= Set::<StateId>::empty());
            }
            break;
        }
        proof {
            if current.len() > 0 {
                assert(current@.to_set().contains(current@[0]));
            }
            if idx == n && current.len() == 0 {
                assert(current@.to_set() =~= Set::<StateId>::empty());
            }
        }
    }
    SimulationTrace::new(steps)
}

// ---------------------------------------------------------------------------
// DFA simulation
// ---------------------------------------------------------------------------

/// The first position at or after `i` where `c` occurs in `a`.
pub open spec fn index_from(a: Seq<char>, c: char, i: nat) -> Option<nat>
    decreases a.len() - i,
{
    if i >= a.len() {
        None
    } else if a[i as int] == c {
        Some(i)
    } else {
        index_from(a, c, i + 1)
    }
}

/// The successor of `s` on symbol `c`, if `c` is in the alphabet and the table has one.
pub open spec fn dfa_next(dfa: Dfa, alphabet: Seq<char>, s: StateId, c: char) -> Option<StateId> {
    match index_from(alphabet, c, 0) {
        None => None,
        Some(ix) => dfa.trans@[s as int]@[ix as int],
    }
}

/// The state the DFA is in after consuming the first `k` symbols, if it has not died.
pub open spec fn dfa_state_after(dfa: Dfa, alphabet: Seq<char>, input: Seq<char>, k: nat) -> Option<StateId>
    decreases k,
{
    if k == 0 {
        Some(dfa.start)
    } else {
        match dfa_state_after(dfa, alphabet, input, (k - 1) as nat) {
            None => None,
            Some(s) => dfa_next(dfa, alphabet, s, input[k - 1]),
        }
    }
}

/// The transition taken by step `k` (at least 1), if one was taken.
pub open spec fn dfa_traversed(dfa: Dfa, alphabet: Seq<char>, input: Seq<char>, k: nat) -> Seq<EdgeHighlight> {
    match dfa_state_after(dfa, alphabet, input, (k - 1) as nat) {
        None => Seq::empty(),
        Some(s) => match dfa_next(dfa, alphabet, s, input[k - 1]) {
            None => Seq::empty(),
            Some(t) => seq![EdgeHighlight { from: s, to: t, label: EdgeLabel::Sym(input[k - 1]) }],
        },
    }
}

/// The active states of a DFA step: the current state, or none once the DFA died.
pub open spec fn option_states(o: Option<StateId>) -> Set<StateId> {
    match o {
        None => Set::empty(),
        Some(s) => set![s],
    }
}

/// Step `i` of a DFA trace on `input` is as the simulation defines it.
pub open spec fn dfa_step_ok(dfa: Dfa, alphabet: Seq<char>, input: Seq<char>, i: int, st: SimulationStep) -> bool {
    &&& st.index == i
    &&& st.consumed == (if i == 0 { None } else { Some(input[i - 1]) })
    &&& st.active_states@ == option_states(dfa_state_after(dfa, alphabet, input, i as nat))
    &&& st.traversed_edges@ == (if i == 0 { Seq::empty() } else { dfa_traversed(dfa, alphabet, input, i as nat) })
    &&& st.accepted == (dfa_state_after(dfa, alphabet, input, i as nat) matches Some(s) && dfa.is_accept(s))
}

/// Every table lookup the simulation of `input` makes stays in bounds: while
/// the DFA is alive in state `s` and the next symbol sits at column `ix` of
/// the alphabet, the table has a row `s` with an entry `ix`.
pub open spec fn dfa_reads_in_bounds(dfa: Dfa, alphabet: Seq<char>, input: Seq<char>) -> bool {
    forall|k: int| 0 <= k < input.len() ==> match #[trigger] dfa_state_after(dfa, alphabet, input, k as nat) {
        None => true,
        Some(s) => match index_from(alphabet, input[k], 0) {
            None => true,
            Some(ix) => (s as int) < dfa.trans@.len() && (ix as int) < dfa.trans@[s as int]@.len(),
        },
    }
}

/// `steps` is the DFA trace of `input`: one step per consumed symbol, stopping
/// early once the DFA has died and input is left.
pub open spec fn is_dfa_trace(dfa: Dfa, alphabet: Seq<char>, input: Seq<char>, steps: Seq<SimulationStep>) -> bool {
    &&& 1 <= steps.len() <= input.len() + 1
    &&& forall|i: int| 0 <= i < steps.len() ==> dfa_step_ok(dfa, alphabet, input, i, #[trigger] steps[i])
    &&& forall|j: int| 1 <= j < steps.len() - 1 ==> (#[trigger] dfa_state_after(dfa, alphabet, input, j as nat)) is Some
    &&& (steps.len() == input.len() + 1 || dfa_state_after(dfa, alphabet, input, (steps.len() - 1) as nat) is None)
}

fn position_of(alphabet: &[char], c: char) -> (r: Option<usize>)
    ensures
        r matches Some(i) ==> index_from(alphabet@, c, 0) == Some(i as nat) && i < alphabet@.len(),
        r is None ==> index_from(alphabet@, c, 0) is None,
{
    let mut i: usize = 0;
    while i < alphabet.len()
        invariant
            i <= alphabet@.len(),
            index_from(alphabet@, c, 0) == index_from(alphabet@, c, i as nat),
        decreases alphabet.len() - i,
    {
        if alphabet[i] == c {
            return Some(i);
        }
        i = i + 1;
    }
    None
}

/// Builds the simulation trace of `dfa` on `input`, looking symbols up in
/// `alphabet` to find the table column.
pub fn build_dfa_trace(dfa: &Dfa, alphabet: &[char], input: &str) -> (r: SimulationTrace)
    requires
        dfa_reads_in_bounds(*dfa, alphabet@, input@),
    ensures
        is_dfa_trace(*dfa, alphabet@, input@, r.steps()),
{
    let symbols = chars_of(input);
    let ghost inp = input@;
    let ghost alpha = alphabet@;
    let n = symbols.len();
    let mut steps: Vec<SimulationStep> = Vec::new();
    let mut current: Option<StateId> = Some(dfa.start);
    let initial_accepting = dfa.accepts_state(dfa.start);
    let mut initial: HashSet<StateId> = HashSet::new();
    initial.insert(dfa.start);
    assert(initial@ =~= set![dfa.start]);
    let first = SimulationStep::new(0, None, initial, Vec::new(), initial_accepting);
    assert(first.traversed_edges@ =~= Seq::<EdgeHighlight>::empty());
    steps.push(first);
    let mut idx: usize = 0;
    while idx < n
        invariant_except_break
            idx < n ==> current is Some,
        invariant
            n == symbols@.len(),
            symbols@ == inp,
            alpha == alphabet@,
            dfa_reads_in_bounds(*dfa, alpha, inp),
            idx <= n,
            steps@.len() == idx + 1,
            current == dfa_state_after(*dfa, alpha, inp, idx as nat),
            forall|i: int| 0 <= i < steps@.len() ==> dfa_step_ok(*dfa, alpha, inp, i, #[trigger] steps@[i]),
            forall|j: int| 1 <= j < idx ==> (#[trigger] dfa_state_after(*dfa, alpha, inp, j as nat)) is Some,
        ensures
            1 <= steps@.len() <= n + 1,
            forall|i: int| 0 <= i < steps@.len() ==> dfa_step_ok(*dfa, alpha, inp, i, #[trigger] steps@[i]),
            forall|j: int| 1 <= j < steps@.len() - 1 ==> (#[trigger] dfa_state_after(*dfa, alpha, inp, j as nat)) is Some,
            steps@.len() == n + 1 || dfa_state_after(*dfa, alpha, inp, (steps@.len() - 1) as nat) is None,
        decreases n - idx,
    {
        let symbol = symbols[idx];
        let mut traversed: Vec<EdgeHighlight> = Vec::new();
        let ghost prev = current;
        match current {
            Some(state) => {
                match position_of(alphabet, symbol) {
                    Some(symbol_idx) => {
                        assert(dfa_state_after(*dfa, alpha, inp, idx as nat) == Some(state));
                        let row = &dfa.trans[state as usize];
                        match row[symbol_idx] {
                            Some(next) => {
                                traversed.push(EdgeHighlight::new(state, next, EdgeLabel::Sym(symbol)));
                                current = Some(next);
                            },
                            None => {
                                current = None;
                            },
                        }
                    },
                    None => {
                        current = None;
                    },
                }
            },
            None => {},
        }
        let mut active: HashSet<StateId> = HashSet::new();
        let mut accepting = false;
        match current {
            Some(s) => {
                active.insert(s);
                accepting = dfa.accepts_state(s);
            },
            None => {},
        }
        proof {
            assert(current == dfa_state_after(*dfa, alpha, inp, (idx + 1) as nat));
            assert(active@ =~= option_states(current));
            assert(traversed@ =~= dfa_traversed(*dfa, alpha, inp, (idx + 1) as nat));
        }
        let step = SimulationStep::new(idx + 1, Some(symbol), active, traversed, accepting);
        let ghost prev_steps = steps@;
        steps.push(step);
        proof {
            assert forall|i: int| 0 <= i < steps@.len() implies dfa_step_ok(*dfa, alpha, inp, i, #[trigger] steps@[i]) by {
                if i < idx + 1 {
                    assert(steps@[i] == prev_steps[i]);
                }
            }
        }
        idx = idx + 1;
        if current.is_none() && idx < n {
            break;
        }
    }
    SimulationTrace::new(steps)
}

/// Whether every table lookup the simulation of `input` makes stays in
/// bounds (see `dfa_reads_in_bounds`).
pub fn dfa_input_in_bounds(dfa: &Dfa, alphabet: &[char], input: &str) -> (r: bool)
    ensures
        r == dfa_reads_in_bounds(*dfa, alphabet@, input@),
{
    let symbols = chars_of(input);
    let ghost inp = input@;
    let ghost alpha = alphabet@;
    let mut current: Option<StateId> = Some(dfa.start);
    let mut k: usize = 0;
    while k < symbols.len()
        invariant
            symbols@ == inp,
            inp == input@,
            alpha == alphabet@,
            k <= symbols@.len(),
            current == dfa_state_after(*dfa, alpha, inp, k as nat),
            forall|j: int| 0 <= j < k ==> match #[trigger] dfa_state_after(*dfa, alpha, inp, j as nat) {
                None => true,
                Some(s) => match index_from(alpha, inp[j], 0) {
                    None => true,
                    Some(ix) => (s as int) < dfa.trans@.len() && (ix as int) < dfa.trans@[s as int]@.len(),
                },
            },
        decreases symbols.len() - k,
    {
        match current {
            Some(state) => match position_of(alphabet, symbols[k]) {
                Some(ix) => {
                    if state as usize >= dfa.trans.len() || ix >= dfa.trans[state as usize].len() {
                        proof {
                            let kk = k as int;
                            assert(dfa_state_after(*dfa, alpha, inp, kk as nat) == Some(state));
                            assert(index_from(alpha, inp[kk], 0) == Some(ix as nat));
                            assert(!(match dfa_state_after(*dfa, alpha, inp, kk as nat) {
                                None => true,
                                Some(s) => match index_from(alpha, inp[kk], 0) {
                                    None => true,
                                    Some(ix) => (s as int) < dfa.trans@.len() && (ix as int) < dfa.trans@[s as int]@.len(),
                                },
                            }));
                            if dfa_reads_in_bounds(*dfa, alphabet@, input@) {
                                assert(0 <= kk < input@.len());
                                assert(match dfa_state_after(*dfa, alphabet@, input@, kk as nat) {
                                    None => true,
                                    Some(s) => match index_from(alphabet@, input@[kk], 0) {
                                        None => true,
                                        Some(ix) => (s as int) < dfa.trans@.len() && (ix as int) < dfa.trans@[s as int]@.len(),
                                    },
                                });
                            }
                        }
                        return false;
                    }
                    current = dfa.trans[state as usize][ix];
                },
                None => {
                    current = None;
                },
            },
            None => {},
        }
        assert(current == dfa_state_after(*dfa, alpha, inp, (k + 1) as nat));
        k = k + 1;
    }
    true
}

// ---------------------------------------------------------------------------
// Interactive stepping
// ---------------------------------------------------------------------------

/// Reactive state that drives step-by-step simulation.
#[derive(Debug)]
pub struct SimulationState {
    /// Input string provided by the user.
    pub input: String,
    /// Index of the currently displayed step.
    pub cursor: usize,
    /// Selected automaton.
    pub target: SimulationTarget,
    /// The computed trace; replace it through `set_trace` so the cursor stays in bounds.
    pub trace: Option<SimulationTrace>,
}

impl SimulationState {
    /// The stored trace, if any.
    pub open spec fn trace_view(self) -> Option<Seq<SimulationStep>> {
        match self.trace {
            None => None,
            Some(t) => Some(t.steps()),
        }
    }

    /// Number of stored steps (0 without a trace).
    pub open spec fn step_total(self) -> nat {
        match self.trace_view() {
            None => 0,
            Some(s) => s.len(),
        }
    }

    /// Where `set_trace` leaves a cursor `c` for a trace of `total` steps.
    pub open spec fn clamped(c: usize, total: nat) -> usize {
        if total == 0 {
            0
        } else if c >= total {
            (total - 1) as usize
        } else {
            c
        }
    }

    /// An empty simulation: no input, cursor at 0, NFA target, no trace.
    pub fn new() -> (r: Self)
        ensures
            r.input@ == Seq::<char>::empty(),
            r.cursor == 0,
            r.target == SimulationTarget::Nfa,
            r.trace_view() is None,
    {
        SimulationState { input: String::new(), cursor: 0, target: SimulationTarget::Nfa, trace: None }
    }

    /// Replaces the trace and clamps the cursor to its bounds.
    pub fn set_trace(&mut self, trace: Option<SimulationTrace>)
        ensures
            final(self).trace_view() == (match trace {
                None => None,
                Some(t) => Some(t.steps()),
            }),
            final(self).input == old(self).input,
            final(self).target == old(self).target,
            final(self).cursor == Self::clamped(old(self).cursor, final(self).step_total()),
    {
        self.trace = trace;
        let len = match &self.trace {
            Some(t) => t.len(),
            None => 0,
        };
        if len == 0 {
            self.cursor = 0;
        } else if self.cursor >= len {
            self.cursor = len - 1;
        }
    }

    /// Drops the trace and moves the cursor back to 0.
    pub fn clear_trace(&mut self)
        ensures
            final(self).trace_view() is None,
            final(self).cursor == 0,
            final(self).input == old(self).input,
            final(self).target == old(self).target,
    {
        self.trace = None;
        self.cursor = 0;
    }

    /// Number of available steps, if a trace is stored.
    pub fn step_count(&self) -> (r: Option<usize>)
        ensures
            r is Some <==> self.trace_view() is Some,
            r matches Some(n) ==> n as nat == self.step_total(),
    {
        match &self.trace {
            Some(t) => Some(t.len()),
            None => None,
        }
    }

    /// The step under the cursor, if any.
    pub fn current_step(&self) -> (r: Option<&SimulationStep>)
        ensures
            r == (match self.trace_view() {
                None => None::<&SimulationStep>,
                Some(s) => if self.cursor < s.len() {
                    Some(&s[self.cursor as int])
                } else {
                    None
                },
            }),
    {
        match &self.trace {
            Some(t) => t.step(self.cursor),
            None => None,
        }
    }

    /// Whether the cursor can move back.
    pub fn can_step_backward(&self) -> (r: bool)
        ensures
            r == (self.cursor > 0),
    {
        self.cursor > 0
    }

    /// Whether the cursor can move forward: a later step is stored.
    pub fn can_step_forward(&self) -> (r: bool)
        ensures
            r == (self.trace_view() is Some && self.cursor + 1 < self.step_total()),
    {
        match self.step_count() {
            Some(len) => len > 0 && self.cursor < len - 1,
            None => false,
        }
    }

    /// The state after one step back: the cursor moves back unless it is on the first step.
    pub open spec fn moved_backward(self) -> Self {
        SimulationState { cursor: if self.cursor > 0 { (self.cursor - 1) as usize } else { 0 }, ..self }
    }

    /// The state after one step forward: the cursor moves on when a later step is stored.
    pub open spec fn moved_forward(self) -> Self {
        SimulationState {
            cursor: if self.trace_view() is Some && self.cursor + 1 < self.step_total() {
                (self.cursor + 1) as usize
            } else {
                self.cursor
            },
            ..self
        }
    }

    /// The cursor is on a stored step, or at 0 when there is no trace or no step.
    pub open spec fn cursor_in_range(self) -> bool {
        if self.step_total() == 0 {
            self.cursor == 0
        } else {
            self.cursor < self.step_total()
        }
    }

    /// Moves to the previous step if possible.
    pub fn step_backward(&mut self)
        ensures
            *final(self) == old(self).moved_backward(),
            final(self).cursor == (if old(self).cursor > 0 { old(self).cursor - 1 } else { 0 }),
            final(self).trace_view() == old(self).trace_view(),
            final(self).input == old(self).input,
            final(self).target == old(self).target,
    {
        if self.can_step_backward() {
            self.cursor = self.cursor - 1;
        }
    }

    /// Advances to the next step if possible.
    pub fn step_forward(&mut self)
        ensures
            *final(self) == old(self).moved_forward(),
            final(self).cursor == (if old(self).trace_view() is Some && old(self).cursor + 1 < old(self).step_total() {
                old(self).cursor + 1
            } else {
                old(self).cursor as int
            }),
            final(self).trace_view() == old(self).trace_view(),
            final(self).input == old(self).input,
            final(self).target == old(self).target,
    {
        let total = self.step_count();
        if self.can_step_forward() {
            self.cursor = self.cursor + 1;
        }
    }

    /// Moves the cursor back to the initial step.
    pub fn reset_cursor(&mut self)
        ensures
            final(self).cursor == 0,
            final(self).trace_view() == old(self).trace_view(),
            final(self).input == old(self).input,
            final(self).target == old(self).target,
    {
        self.cursor = 0;
    }

    /// Whether the cursor is on the last step and that step does not accept.
    pub fn is_current_rejection(&self) -> (r: bool)
        ensures
            r == (self.trace_view() is Some && self.cursor + 1 == self.step_total()
                && !self.trace_view()->0[self.cursor as int].accepted),
    {
        match self.current_step() {
            None => false,
            Some(step) => match self.step_count() {
                None => false,
                Some(total) => self.cursor + 1 == total && !step.accepted,
            },
        }
    }

    /// Highlights for the step under the cursor: its active states, styled as
    /// rejected on a final non-accepting step and active otherwise, and the
    /// transitions taken to reach it.
    pub fn current_highlights(&self) -> (r: Option<Highlights>)
        ensures
            (self.trace_view() is Some && self.cursor < self.step_total()) <==> r is Some,
            r matches Some(h) ==> {
                let st = self.trace_view()->0[self.cursor as int];
                let style = if self.cursor + 1 == self.step_total() && !st.accepted {
                    StateHighlight::Rejected
                } else {
                    StateHighlight::Active
                };
                &&& h.states@ == styled(st.active_states@, style)
                &&& h.edges@ == st.traversed_edges@
            },
    {
        let step = match self.current_step() {
            None => { return None; },
            Some(st) => st,
        };
        let total = match self.step_count() {
            None => { return None; },
            Some(t) => t,
        };
        let is_terminal_step = self.cursor + 1 == total;
        let style = if is_terminal_step && !step.accepted {
            StateHighlight::Rejected
        } else {
            StateHighlight::Active
        };
        let marks = styled_states(&step.active_states, style);
        let mut edges: Vec<EdgeHighlight> = Vec::new();
        let mut k: usize = 0;
        while k < step.traversed_edges.len()
            invariant
                k <= step.traversed_edges@.len(),
                edges@ == step.traversed_edges@.take(k as int),
            decreases step.traversed_edges.len() - k,
        {
            edges.push(step.traversed_edges[k]);
            k = k + 1;
            assert(edges@ =~= step.traversed_edges@.take(k as int));
        }
        assert(step.traversed_edges@.take(step.traversed_edges@.len() as int) =~= step.traversed_edges@);
        Some(Highlights::new(marks, edges))
    }
}

/// Law: when a later step exists, stepping forward and then back returns to
/// the same state.
pub proof fn lemma_forward_then_backward(s: SimulationState)
    requires
        s.step_total() <= usize::MAX,
        s.trace_view() is Some,
        s.cursor + 1 < s.step_total(),
    ensures
        s.moved_forward().moved_backward() == s,
{
}

/// Law: when the cursor is past the first step and on a stored step,
/// stepping back and then forward returns to the same state.
pub proof fn lemma_backward_then_forward(s: SimulationState)
    requires
        s.trace_view() is Some,
        0 < s.cursor < s.step_total(),
    ensures
        s.moved_backward().moved_forward() == s,
{
}

/// Law: stepping forward or back, resetting the cursor and replacing the
/// trace all keep the cursor on a stored step (or at 0 without steps).
pub proof fn lemma_cursor_stays_in_range(s: SimulationState, t: Option<SimulationTrace>)
    requires
        s.step_total() <= usize::MAX,
        s.cursor_in_range(),
    ensures
        s.moved_forward().cursor_in_range(),
        s.moved_backward().cursor_in_range(),
        (SimulationState { cursor: 0, ..s }).cursor_in_range(),
        ({
            let with = SimulationState { trace: t, ..s };
            (SimulationState { cursor: SimulationState::clamped(s.cursor, with.step_total()), ..with }).cursor_in_range()
        }),
{
}

/// Law: every step of a DFA trace has at most one active state, and exactly
/// one until the automaton dies.
pub proof fn lemma_dfa_single_state(dfa: Dfa, alphabet: Seq<char>, input: Seq<char>, steps: Seq<SimulationStep>, i: int)
    requires
        is_dfa_trace(dfa, alphabet, input, steps),
        0 <= i < steps.len(),
    ensures
        steps[i].active_states@.len() <= 1,
        dfa_state_after(dfa, alphabet, input, i as nat) is Some ==> steps[i].active_states@.len() == 1,
{
    assert(dfa_step_ok(dfa, alphabet, input, i, steps[i]));
}

} // verus!
