use std::collections::HashSet;
use regviz::automaton::{Ast, BoxKind, Dfa, EdgeLabel, Nfa, NfaEdge, NfaState};
use regviz::message::{RightPaneMode, ViewMode};
use regviz::simulation::SimulationTarget;
use regviz::state::{invalid_symbols, missing_automata, App, BuildArtifacts};
use regviz::summary::{drawn_dfa, error_marks, missing_dfa_notice, DrawnDfa, TextClass};
use regviz::visibility::BoxVisibility;

type Pos = (f32, f32);

fn e(from: u32, label: EdgeLabel, to: u32) -> NfaEdge {
    NfaEdge { from, label, to }
}

/// Artifacts of `a*` with both automata cached.
fn star_artifacts() -> BuildArtifacts {
    let nfa = Nfa {
        states: (0..4).map(|id| NfaState { id, box_id: None }).collect(),
        start: 0,
        accepts: vec![3],
        edges: vec![
            e(0, EdgeLabel::Eps, 1),
            e(1, EdgeLabel::Sym('a'), 2),
            e(2, EdgeLabel::Eps, 3),
            e(2, EdgeLabel::Eps, 1),
            e(0, EdgeLabel::Eps, 3),
        ],
        boxes: Vec::new(),
    };
    let dfa = Dfa { states: vec![0, 1], start: 0, accepts: vec![0, 1], trans: vec![vec![Some(1)], vec![Some(1)]] };
    let min = Dfa { states: vec![0], start: 0, accepts: vec![0], trans: vec![vec![Some(0)]] };
    BuildArtifacts {
        ast: Ast::Star(Box::new(Ast::Atom('a'))),
        nfa,
        alphabet: vec!['a'],
        dfa: Some(dfa),
        min_dfa: Some(min),
    }
}

fn built_app() -> App<Pos> {
    let mut app: App<Pos> = App::new();
    app.apply_build_result(Ok(star_artifacts()));
    app
}

#[test]
fn new_app_starts_empty() {
    let app: App<Pos> = App::new();
    assert!(app.input.is_empty());
    assert!(app.error.is_none());
    assert!(app.build_artifacts.is_none());
    assert_eq!(app.view_mode, ViewMode::Nfa);
    assert_eq!(app.simulation.target, SimulationTarget::Nfa);
    assert_eq!(app.simulation.step_count(), None);
    assert!(app.box_visibility.is_visible(BoxKind::Concat));
    assert_eq!(app.pinned_positions_nfa.len(), 0);
}

#[test]
fn build_error_is_reported() {
    let mut app: App<Pos> = App::new();
    app.apply_build_result(Err("unexpected ')' at 3".to_string()));
    assert_eq!(app.error.as_deref(), Some("Build error: unexpected ')' at 3"));
    assert!(app.build_artifacts.is_none());
    assert_eq!(app.simulation.step_count(), None);
    assert!(app.simulation_error.is_none());
}

#[test]
fn successful_build_traces_empty_input() {
    let app = built_app();
    assert!(app.error.is_none());
    assert_eq!(app.simulation.step_count(), Some(1));
    assert_eq!(app.simulation.cursor, 0);
    assert!(app.simulation_error.is_none());
}

#[test]
fn input_outside_alphabet_is_rejected() {
    let mut app = built_app();
    app.handle_simulation_input_changed("abza".to_string());
    assert_eq!(
        app.simulation_error.as_deref(),
        Some("Input contains symbol(s) outside the regex alphabet: 'b', 'z'")
    );
    assert_eq!(app.simulation.step_count(), None);
    assert_eq!(app.validate_simulation_input().as_deref(), app.simulation_error.as_deref());
}

#[test]
fn valid_input_is_traced() {
    let mut app = built_app();
    app.handle_simulation_input_changed("aa".to_string());
    assert!(app.simulation_error.is_none());
    assert_eq!(app.validate_simulation_input(), None);
    assert_eq!(app.simulation.step_count(), Some(3));
}

#[test]
fn input_change_is_ignored_before_a_build() {
    let mut app: App<Pos> = App::new();
    app.handle_simulation_input_changed("abc".to_string());
    assert!(app.simulation.input.is_empty());
    assert!(app.simulation_error.is_none());
}

#[test]
fn invalid_symbols_sorted_and_distinct() {
    assert_eq!(invalid_symbols("zbazb", &vec!['a']), vec!['b', 'z']);
    assert_eq!(invalid_symbols("aaa", &vec!['a']), Vec::<char>::new());
}

#[test]
fn stepping_forward_then_back_restores_cursor() {
    let mut app = built_app();
    app.handle_simulation_input_changed("aa".to_string());
    app.handle_simulation_step_forward();
    assert_eq!(app.simulation.cursor, 1);
    app.handle_simulation_step_forward();
    app.handle_simulation_step_forward();
    assert_eq!(app.simulation.cursor, 2);
    app.handle_simulation_step_backward();
    assert_eq!(app.simulation.cursor, 1);
    app.handle_simulation_step_forward();
    assert_eq!(app.simulation.cursor, 2);
    app.handle_simulation_reset();
    assert_eq!(app.simulation.cursor, 0);
    app.handle_simulation_step_backward();
    assert_eq!(app.simulation.cursor, 0);
}

#[test]
fn switching_targets_retraces() {
    let mut app = built_app();
    app.handle_simulation_input_changed("a".to_string());
    app.handle_simulation_step_forward();
    app.handle_right_pane_mode(RightPaneMode::Dfa);
    assert_eq!(app.simulation.target, SimulationTarget::Dfa);
    assert_eq!(app.view_mode, ViewMode::Nfa);
    assert_eq!(app.simulation.cursor, 0);
    assert_eq!(app.simulation.step_count(), Some(2));
    let step = app.simulation.current_step().unwrap();
    assert_eq!(step.active_states, HashSet::from([0]));
    app.handle_right_pane_mode(RightPaneMode::MinDfa);
    assert_eq!(app.simulation.target, SimulationTarget::MinDfa);
    app.handle_right_pane_mode(RightPaneMode::Ast);
    assert_eq!(app.view_mode, ViewMode::Ast);
    assert_eq!(app.simulation.target, SimulationTarget::MinDfa);
}

#[test]
fn selecting_the_current_target_changes_nothing() {
    let mut app = built_app();
    app.handle_simulation_input_changed("a".to_string());
    app.handle_simulation_step_forward();
    app.handle_simulation_target_changed(SimulationTarget::Nfa);
    assert_eq!(app.simulation.cursor, 1);
}

#[test]
fn missing_dfa_means_no_trace() {
    let mut art = star_artifacts();
    art.dfa = None;
    let mut app: App<Pos> = App::new();
    app.apply_build_result(Ok(art));
    app.handle_simulation_target_changed(SimulationTarget::Dfa);
    assert_eq!(app.simulation.step_count(), None);
}

#[test]
fn automata_to_compute_before_simulating() {
    assert_eq!(missing_automata(SimulationTarget::Nfa, false, false), (false, false));
    assert_eq!(missing_automata(SimulationTarget::Dfa, false, true), (true, false));
    assert_eq!(missing_automata(SimulationTarget::Dfa, true, false), (false, false));
    assert_eq!(missing_automata(SimulationTarget::MinDfa, false, true), (true, true));
    assert_eq!(missing_automata(SimulationTarget::MinDfa, true, false), (false, true));
    assert_eq!(missing_automata(SimulationTarget::MinDfa, true, true), (false, false));
}

#[test]
fn toggling_a_box_kind_twice_restores_it() {
    let mut app: App<Pos> = App::new();
    app.handle_toggle_box(BoxKind::Literal);
    assert!(!app.box_visibility.is_visible(BoxKind::Literal));
    assert!(app.box_visibility.is_visible(BoxKind::Concat));
    app.handle_toggle_box(BoxKind::Literal);
    assert!(app.box_visibility.is_visible(BoxKind::Literal));
    let mut v = BoxVisibility::default();
    v.toggle(BoxKind::Optional);
    v.toggle(BoxKind::Optional);
    assert_eq!(v, BoxVisibility::all_visible());
}

#[test]
fn dragging_a_node_pins_it_in_the_current_view() {
    let mut app: App<Pos> = App::new();
    app.handle_node_drag_start(4, (1.0, 2.0));
    assert_eq!(app.node_dragging, Some(4));
    assert_eq!(app.selected_node, Some(4));
    assert_eq!(app.pinned_positions_nfa.get(&4), Some(&(1.0, 2.0)));
    app.handle_node_drag(4, (3.0, 4.0));
    assert_eq!(app.pinned_positions_nfa.get(&4), Some(&(3.0, 4.0)));
    assert_eq!(app.last_node_cursor_position, Some((3.0, 4.0)));
    app.handle_node_drag(5, (9.0, 9.0));
    assert_eq!(app.pinned_positions_nfa.get(&5), None);
    app.handle_node_drag_end(4, (5.0, 6.0));
    assert_eq!(app.pinned_positions_nfa.get(&4), Some(&(5.0, 6.0)));
    assert_eq!(app.node_dragging, None);
    assert_eq!(app.last_node_cursor_position, None);
    assert_eq!(app.pinned_positions_dfa.get(&4), None);
    assert_eq!(app.pinned_positions_ast.get(&4), None);
}

#[test]
fn tree_view_pins_go_to_the_tree_map() {
    let mut app: App<Pos> = App::new();
    app.handle_right_pane_mode(RightPaneMode::Ast);
    app.handle_node_drag_start(0, (7.0, 8.0));
    assert_eq!(app.pinned_positions_ast.get(&0), Some(&(7.0, 8.0)));
    assert_eq!(app.pinned_positions_nfa.get(&0), None);
}

#[test]
fn reset_view_clears_pins_and_drags() {
    let mut app: App<Pos> = App::new();
    app.handle_node_drag_start(1, (1.0, 1.0));
    app.handle_start_pan((0.0, 0.0));
    app.handle_reset_view();
    assert_eq!(app.pinned_positions_nfa.len(), 0);
    assert_eq!(app.node_dragging, None);
    assert_eq!(app.selected_node, None);
    assert!(!app.dragging);
    assert_eq!(app.last_cursor_position, None);
}

#[test]
fn panning_reports_previous_position() {
    let mut app: App<Pos> = App::new();
    assert_eq!(app.handle_pan((1.0, 1.0)), None);
    app.handle_start_pan((2.0, 3.0));
    assert!(app.dragging);
    assert_eq!(app.handle_pan((4.0, 6.0)), Some((2.0, 3.0)));
    assert_eq!(app.last_cursor_position, Some((4.0, 6.0)));
    app.handle_end_pan();
    assert!(!app.dragging);
    assert_eq!(app.handle_pan((5.0, 5.0)), None);
}

#[test]
fn summary_lines_describe_the_current_step() {
    let mut app = built_app();
    app.handle_simulation_input_changed("a".to_string());
    assert_eq!(
        app.simulation.summary_line().as_deref(),
        Some("Step 0 / 1 \u{2022} Consumed: \u{2013} \u{2022} Accepting: Yes")
    );
    assert_eq!(
        app.simulation.active_states_line().as_deref(),
        Some("Active NFA states: {0, 1, 3}")
    );
    app.handle_simulation_step_forward();
    assert_eq!(
        app.simulation.summary_line().as_deref(),
        Some("Step 1 / 1 \u{2022} Consumed: 'a' \u{2022} Accepting: Yes")
    );
    assert!(app.simulation.acceptance_hint());
    let msgs = app.simulation.summary_messages();
    assert_eq!(msgs.len(), 3);
    assert_eq!(msgs[2].0, "Input string is accepted.");
    assert_eq!(msgs[2].1, TextClass::Success);
}

#[test]
fn rejection_message_on_last_failing_step() {
    let mut art = star_artifacts();
    // a DFA over {a} that dies on its first symbol
    art.dfa = Some(Dfa { states: vec![0], start: 0, accepts: vec![0], trans: vec![vec![None]] });
    let mut app: App<Pos> = App::new();
    app.apply_build_result(Ok(art));
    app.handle_simulation_input_changed("a".to_string());
    app.handle_simulation_target_changed(SimulationTarget::Dfa);
    app.handle_simulation_step_forward();
    assert!(app.simulation.is_current_rejection());
    assert!(!app.simulation.acceptance_hint());
    assert_eq!(
        app.simulation.active_states_line().as_deref(),
        Some("Active DFA states: \u{2205}")
    );
    let msgs = app.simulation.summary_messages();
    assert_eq!(msgs.len(), 3);
    assert_eq!(msgs[2].0, "Input string is not accepted.");
    assert_eq!(msgs[2].1, TextClass::Error);
}

#[test]
fn no_step_no_summary() {
    let app: App<Pos> = App::new();
    assert_eq!(app.simulation.summary_line(), None);
    assert_eq!(app.simulation.active_states_line(), None);
    assert!(app.simulation.summary_messages().is_empty());
}

#[test]
fn simulation_status_labels() {
    let mut app: App<Pos> = App::new();
    assert_eq!(app.simulation_status(), ("Regex required", TextClass::Secondary));
    app.apply_build_result(Ok(star_artifacts()));
    assert_eq!(app.simulation_status(), ("Ready", TextClass::Success));
    app.handle_simulation_input_changed("q".to_string());
    assert_eq!(app.simulation_status(), ("Input error", TextClass::Error));
}

#[test]
fn step_buttons_follow_cursor_and_errors() {
    let mut app: App<Pos> = App::new();
    assert_eq!(app.step_buttons(), (false, false, false));
    app.apply_build_result(Ok(star_artifacts()));
    app.handle_simulation_input_changed("aa".to_string());
    assert_eq!(app.step_buttons(), (false, true, true));
    app.handle_simulation_step_forward();
    assert_eq!(app.step_buttons(), (true, true, true));
    app.handle_simulation_step_forward();
    assert_eq!(app.step_buttons(), (true, true, false));
    app.handle_simulation_input_changed("q".to_string());
    assert_eq!(app.step_buttons(), (false, false, false));
}

#[test]
fn drawn_dfa_falls_back_to_the_other_automaton() {
    assert_eq!(drawn_dfa(SimulationTarget::Dfa, true, true), DrawnDfa::Determinized);
    assert_eq!(drawn_dfa(SimulationTarget::Dfa, false, true), DrawnDfa::Minimized);
    assert_eq!(drawn_dfa(SimulationTarget::MinDfa, true, true), DrawnDfa::Minimized);
    assert_eq!(drawn_dfa(SimulationTarget::MinDfa, true, false), DrawnDfa::Determinized);
    assert_eq!(drawn_dfa(SimulationTarget::MinDfa, false, false), DrawnDfa::Missing);
    assert_eq!(missing_dfa_notice(SimulationTarget::MinDfa), "Minimized DFA is not available");
    assert_eq!(missing_dfa_notice(SimulationTarget::Dfa), "Determinized DFA is not available");
}

#[test]
fn error_mark_on_character_or_past_the_end() {
    assert_eq!(error_marks(3, Some(1)), (vec![false, true, false], false));
    assert_eq!(error_marks(2, Some(2)), (vec![false, false], true));
    assert_eq!(error_marks(2, None), (vec![false, false], false));
}
