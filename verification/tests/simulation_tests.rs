use std::collections::HashSet;
use regviz::automaton::{Dfa, EdgeLabel, Nfa, NfaEdge, NfaState};
use regviz::highlight::{EdgeHighlight, StateHighlight};
use regviz::sim::{epsilon_closure, move_on};
use regviz::simulation::{build_dfa_trace, build_nfa_trace, dfa_input_in_bounds, SimulationState, SimulationTarget};

fn edge(from: u32, label: EdgeLabel, to: u32) -> NfaEdge {
    NfaEdge { from, label, to }
}

/// Thompson NFA of `a*`: 0 -e-> 1 -a-> 2 -e-> 3, 2 -e-> 1, 0 -e-> 3; accept 3.
fn star_a() -> Nfa {
    Nfa {
        states: (0..4).map(|id| NfaState { id, box_id: None }).collect(),
        start: 0,
        accepts: vec![3],
        edges: vec![
            edge(0, EdgeLabel::Eps, 1),
            edge(1, EdgeLabel::Sym('a'), 2),
            edge(2, EdgeLabel::Eps, 3),
            edge(2, EdgeLabel::Eps, 1),
            edge(0, EdgeLabel::Eps, 3),
        ],
        boxes: Vec::new(),
    }
}

/// NFA of the literal `a`: 0 -a-> 1; accept 1.
fn literal_a() -> Nfa {
    Nfa {
        states: vec![NfaState { id: 0, box_id: None }, NfaState { id: 1, box_id: None }],
        start: 0,
        accepts: vec![1],
        edges: vec![edge(0, EdgeLabel::Sym('a'), 1)],
        boxes: Vec::new(),
    }
}

fn sorted(mut v: Vec<u32>) -> Vec<u32> {
    v.sort();
    v
}

#[test]
fn closure_follows_epsilon_chains() {
    let nfa = star_a();
    assert_eq!(sorted(epsilon_closure(&vec![0], &nfa)), vec![0, 1, 3]);
    assert_eq!(sorted(epsilon_closure(&vec![2], &nfa)), vec![1, 2, 3]);
}

#[test]
fn closure_is_idempotent() {
    let nfa = star_a();
    let once = epsilon_closure(&vec![0], &nfa);
    let twice = epsilon_closure(&once, &nfa);
    assert_eq!(sorted(once), sorted(twice));
}

#[test]
fn closure_of_nothing_is_empty() {
    let nfa = star_a();
    assert!(epsilon_closure(&Vec::new(), &nfa).is_empty());
}

#[test]
fn move_on_symbol() {
    let nfa = star_a();
    assert_eq!(move_on(&vec![0, 1, 3], 'a', &nfa), vec![2]);
    assert!(move_on(&vec![0, 1, 3], 'b', &nfa).is_empty());
}

#[test]
fn nfa_trace_accepts_aa() {
    let nfa = star_a();
    let trace = build_nfa_trace(&nfa, "aa");
    assert_eq!(trace.len(), 3);
    let first = trace.step(0).unwrap();
    assert_eq!(first.index, 0);
    assert_eq!(first.consumed, None);
    assert!(first.accepted);
    assert!(first.traversed_edges.is_empty());
    let last = trace.step(2).unwrap();
    assert_eq!(last.index, 2);
    assert_eq!(last.consumed, Some('a'));
    assert!(last.accepted);
    assert_eq!(sorted(last.active_states.iter().copied().collect()), vec![1, 2, 3]);
    assert_eq!(last.traversed_edges, vec![EdgeHighlight::new(1, 2, EdgeLabel::Sym('a'))]);
    assert!(trace.step(3).is_none());
}

#[test]
fn nfa_trace_stops_when_frontier_dies_early() {
    let nfa = literal_a();
    let trace = build_nfa_trace(&nfa, "ba");
    assert_eq!(trace.len(), 2);
    let dead = trace.step(1).unwrap();
    assert!(dead.active_states.is_empty());
    assert!(!dead.accepted);
}

#[test]
fn nfa_trace_keeps_last_dead_step() {
    let nfa = literal_a();
    let trace = build_nfa_trace(&nfa, "ab");
    assert_eq!(trace.len(), 3);
    assert!(trace.step(1).unwrap().accepted);
    assert!(trace.step(2).unwrap().active_states.is_empty());
}

#[test]
fn nfa_trace_of_empty_input() {
    let nfa = literal_a();
    let trace = build_nfa_trace(&nfa, "");
    assert_eq!(trace.len(), 1);
    assert!(!trace.step(0).unwrap().accepted);
}

/// DFA over alphabet [a, b]: 0 -a-> 1, 1 -b-> 0, 1 -a-> 1; accept 1.
fn small_dfa() -> Dfa {
    Dfa {
        states: vec![0, 1],
        start: 0,
        accepts: vec![1],
        trans: vec![vec![Some(1), None], vec![Some(1), Some(0)]],
    }
}

#[test]
fn dfa_trace_follows_table() {
    let dfa = small_dfa();
    let trace = build_dfa_trace(&dfa, &['a', 'b'], "aba");
    assert_eq!(trace.len(), 4);
    assert_eq!(trace.step(1).unwrap().active_states, HashSet::from([1]));
    assert_eq!(trace.step(2).unwrap().active_states, HashSet::from([0]));
    assert_eq!(
        trace.step(2).unwrap().traversed_edges,
        vec![EdgeHighlight::new(1, 0, EdgeLabel::Sym('b'))]
    );
    assert!(trace.step(3).unwrap().accepted);
}

#[test]
fn dfa_trace_dies_on_missing_transition() {
    let dfa = small_dfa();
    let trace = build_dfa_trace(&dfa, &['a', 'b'], "bab");
    assert_eq!(trace.len(), 2);
    assert!(trace.step(1).unwrap().active_states.is_empty());
    assert!(trace.step(1).unwrap().traversed_edges.is_empty());
}

#[test]
fn dfa_trace_dies_on_unknown_symbol() {
    let dfa = small_dfa();
    let trace = build_dfa_trace(&dfa, &['a', 'b'], "c");
    assert_eq!(trace.len(), 2);
    assert!(!trace.step(1).unwrap().accepted);
}

#[test]
fn dfa_trace_reads_only_the_rows_it_reaches() {
    // Row 0 is wider than the alphabet; row 2 is unreachable and too short.
    let dfa = Dfa {
        states: vec![0, 1, 2],
        start: 0,
        accepts: vec![1],
        trans: vec![vec![Some(1), None, Some(2)], vec![Some(1), Some(0)], vec![]],
    };
    assert!(dfa_input_in_bounds(&dfa, &['a', 'b'], "aab"));
    let trace = build_dfa_trace(&dfa, &['a', 'b'], "aab");
    assert_eq!(trace.len(), 4);
    assert_eq!(trace.step(3).unwrap().active_states, HashSet::from([0]));
    assert!(!trace.step(3).unwrap().accepted);
}

#[test]
fn dfa_lookup_out_of_bounds_is_detected() {
    let dfa = Dfa { states: vec![0, 1], start: 0, accepts: vec![], trans: vec![vec![Some(1), None], vec![Some(0)]] };
    assert!(dfa_input_in_bounds(&dfa, &['a', 'b'], "ac"));
    assert!(!dfa_input_in_bounds(&dfa, &['a', 'b'], "ab"));
    assert!(dfa_input_in_bounds(&dfa, &['a', 'b'], "ba"));
    assert!(!dfa_input_in_bounds(&Dfa { states: vec![0], start: 3, accepts: vec![], trans: vec![] }, &['a'], "a"));
    assert!(dfa_input_in_bounds(&Dfa { states: vec![0], start: 3, accepts: vec![], trans: vec![] }, &['a'], ""));
}

#[test]
fn stepping_is_clamped_to_trace() {
    let nfa = star_a();
    let mut sim = SimulationState::new();
    assert_eq!(sim.step_count(), None);
    assert!(!sim.can_step_forward());
    sim.cursor = 7;
    sim.set_trace(Some(build_nfa_trace(&nfa, "aa")));
    assert_eq!(sim.cursor, 2);
    assert_eq!(sim.step_count(), Some(3));
    assert!(!sim.can_step_forward());
    sim.step_forward();
    assert_eq!(sim.cursor, 2);
    sim.step_backward();
    assert_eq!(sim.cursor, 1);
    sim.step_forward();
    assert_eq!(sim.cursor, 2);
    sim.reset_cursor();
    assert_eq!(sim.cursor, 0);
    sim.step_backward();
    assert_eq!(sim.cursor, 0);
    sim.clear_trace();
    assert_eq!(sim.step_count(), None);
    assert!(sim.current_step().is_none());
}

#[test]
fn rejection_and_highlight_style() {
    let nfa = literal_a();
    let mut sim = SimulationState::new();
    sim.set_trace(Some(build_nfa_trace(&nfa, "ab")));
    let h0 = sim.current_highlights().unwrap();
    assert_eq!(h0.states.len(), 1);
    assert_eq!(h0.states.values().next(), Some(&StateHighlight::Active));
    assert!(!sim.is_current_rejection());
    sim.step_forward();
    let h1 = sim.current_highlights().unwrap();
    assert!(h1.is_state_active(1));
    assert!(h1.is_edge_active(0, 1, EdgeLabel::Sym('a')));
    assert!(!h1.is_edge_active(0, 1, EdgeLabel::Eps));
    sim.step_forward();
    assert!(sim.is_current_rejection());
    assert!(sim.current_highlights().unwrap().states.is_empty());
}

#[test]
fn rejected_style_on_final_non_accepting_step() {
    let nfa = star_a();
    let mut sim = SimulationState::new();
    sim.set_trace(Some(build_nfa_trace(&literal_a(), "")));
    let h = sim.current_highlights().unwrap();
    assert_eq!(h.state_style(0), Some(StateHighlight::Rejected));
    assert_eq!(h.state_style(1), None);
    sim.set_trace(Some(build_nfa_trace(&nfa, "")));
    assert_eq!(sim.current_highlights().unwrap().state_style(0), Some(StateHighlight::Active));
    assert_eq!(sim.target, SimulationTarget::Nfa);
}
