use vstd::prelude::*;

use crate::automaton::{Ast, BoxKind, Dfa, Nfa, StateId};
use crate::graph::{join_quoted, strictly_sorted};
use crate::message::{AppTheme, RightPaneMode, ViewMode};
use std::collections::HashMap;
use crate::simulation::{
    SimulationState, SimulationTarget, SimulationTrace, build_dfa_trace, build_nfa_trace, dfa_input_in_bounds,
    dfa_reads_in_bounds, is_dfa_trace, is_nfa_trace,
};
use crate::text::{chars_of, push_chars, push_str};
use crate::visibility::BoxVisibility;

verus! {

broadcast use vstd::std_specs::hash::group_hash_axioms;


/// Everything built from a successfully parsed regex.
pub struct BuildArtifacts {
    pub ast: Ast,
    pub nfa: Nfa,
    pub alphabet: Vec<char>,
    /// The determinised automaton, once computed.
    pub dfa: Option<Dfa>,
    /// The minimised automaton, once computed.
    pub min_dfa: Option<Dfa>,
}

/// Which pinned-position map a node drag updates.
#[derive(Debug, Clone, Copy, PartialEq, Eq, Structural)]
pub enum PinSlot {
    Ast,
    Nfa,
    Dfa,
    MinDfa,
}

/// The map for the tree view, or for the automaton being simulated.
pub open spec fn pin_slot_of(view_mode: ViewMode, target: SimulationTarget) -> PinSlot {
    if view_mode == ViewMode::Ast {
        PinSlot::Ast
    } else {
        match target {
            SimulationTarget::Nfa => PinSlot::Nfa,
            SimulationTarget::Dfa => PinSlot::Dfa,
            SimulationTarget::MinDfa => PinSlot::MinDfa,
        }
    }
}

/// Which automata must be computed before simulating `target`, given which
/// are cached: `(determinised, minimised)`. The minimised automaton is
/// recomputed whenever the determinised one is missing, so both stay consistent.
pub open spec fn automata_needed(target: SimulationTarget, has_dfa: bool, has_min: bool) -> (bool, bool) {
    match target {
        SimulationTarget::Nfa => (false, false),
        SimulationTarget::Dfa => (!has_dfa, false),
        SimulationTarget::MinDfa => (!has_dfa, !has_min || !has_dfa),
    }
}

/// Decides which automata to compute before simulating `target` (see `automata_needed`).
pub fn missing_automata(target: SimulationTarget, has_dfa: bool, has_min: bool) -> (r: (bool, bool))
    ensures
        r == automata_needed(target, has_dfa, has_min),
        target != SimulationTarget::Nfa && !has_dfa ==> r.0,
        r.0 ==> target != SimulationTarget::Nfa && !has_dfa,
        r.1 <==> (target == SimulationTarget::MinDfa && (!has_min || !has_dfa)),
{
    match target {
        SimulationTarget::Nfa => (false, false),
        SimulationTarget::Dfa => (!has_dfa, false),
        SimulationTarget::MinDfa => (!has_dfa, !has_min || !has_dfa),
    }
}

/// Law: before simulating a DFA target, the determinised automaton is
/// computed exactly when it is not cached (whatever the minimised one); the
/// minimised automaton is computed only for the minimised target, when it is
/// missing or the determinised one is; the NFA target needs neither.
pub proof fn lemma_needed_automata(target: SimulationTarget, has_dfa: bool, has_min: bool)
    ensures
        automata_needed(target, has_dfa, has_min).0 <==> (target != SimulationTarget::Nfa && !has_dfa),
        automata_needed(target, has_dfa, has_min).1 <==> (target == SimulationTarget::MinDfa && (!has_min || !has_dfa)),
{
}

/// The symbols of `input` missing from `alphabet`, each once, in increasing order.
pub open spec fn invalid_symbols_ok(input: Seq<char>, alphabet: Seq<char>, syms: Seq<char>) -> bool {
    &&& strictly_sorted(syms)
    &&& forall|c: char| #[trigger] syms.contains(c) <==> (input.contains(c) && !alphabet.contains(c))
}

/// The validation message for the invalid symbols `syms`.
pub open spec fn invalid_input_message(syms: Seq<char>) -> Seq<char> {
    "Input contains symbol(s) outside the regex alphabet: "@ + join_quoted(syms)
}

fn contains_char(v: &Vec<char>, c: char) -> (r: bool)
    ensures
        r == v@.contains(c),
{
    let mut i: usize = 0;
    while i < v.len()
        invariant
            i <= v@.len(),
            forall|j: int| 0 <= j < i ==> v@[j] != c,
        decreases v.len() - i,
    {
        if v[i] == c {
            return true;
        }
        i = i + 1;
    }
    false
}

/// The symbols of `input` that `alphabet` lacks, each once, in increasing order.
pub fn invalid_symbols(input: &str, alphabet: &Vec<char>) -> (r: Vec<char>)
    ensures
        invalid_symbols_ok(input@, alphabet@, r@),
{
    let cs = chars_of(input);
    let mut out: Vec<char> = Vec::new();
    let mut i: usize = 0;
    while i < cs.len()
        invariant
            i <= cs@.len(),
            cs@ == input@,
            strictly_sorted(out@),
            forall|c: char| #[trigger] out@.contains(c) <==> (cs@.take(i as int).contains(c) && !alphabet@.contains(c)),
        decreases cs.len() - i,
    {
        let c = cs[i];
        let ghost before = out@;
        if !contains_char(alphabet, c) {
            crate::graph::insert_sorted(&mut out, c);
        }
        proof {
            let pre = cs@.take(i as int);
            let cur = cs@.take(i + 1);
            assert(cur =~= pre.push(c));
            assert forall|x: char| #[trigger] out@.contains(x) <==> (cur.contains(x) && !alphabet@.contains(x)) by {
                if cur.contains(x) {
                    let k = choose|k: int| 0 <= k < cur.len() && cur[k] == x;
                    if k < i {
                        assert(pre[k] == x);
                    }
                }
                if pre.contains(x) {
                    let k = choose|k: int| 0 <= k < pre.len() && pre[k] == x;
                    assert(cur[k] == x);
                }
                assert(cur[i as int] == c);
            }
        }
        i = i + 1;
    }
    assert(cs@.take(cs@.len() as int) =~= cs@);
    out
}

/// The application state that the update loop drives. `P` is the type of
/// canvas positions (pointer positions and pinned node positions).
pub struct App<P> {
    /// Current regex input.
    pub input: String,
    /// Message of the last build failure, if any.
    pub error: Option<String>,
    /// Artifacts of the last successful build.
    pub build_artifacts: Option<BuildArtifacts>,
    /// Which bounding boxes are drawn.
    pub box_visibility: BoxVisibility,
    /// Parse tree or automaton view.
    pub view_mode: ViewMode,
    /// Step-by-step simulation state.
    pub simulation: SimulationState,
    /// Validation message for the simulation input, if any.
    pub simulation_error: Option<String>,
    pub theme: AppTheme,
    /// Whether the canvas is being panned.
    pub dragging: bool,
    /// Last pointer position while panning.
    pub last_cursor_position: Option<P>,
    pub pinned_positions_ast: HashMap<u32, P>,
    pub pinned_positions_nfa: HashMap<u32, P>,
    pub pinned_positions_dfa: HashMap<u32, P>,
    pub pinned_positions_min_dfa: HashMap<u32, P>,
    /// Node currently dragged, if any.
    pub node_dragging: Option<StateId>,
    /// Last pointer position while dragging a node.
    pub last_node_cursor_position: Option<P>,
    /// Last node picked by the user.
    pub selected_node: Option<StateId>,
}

impl<P: Copy> App<P> {
    /// The pinned-position map selected by `slot`.
    pub open spec fn pins(self, slot: PinSlot) -> HashMap<u32, P> {
        match slot {
            PinSlot::Ast => self.pinned_positions_ast,
            PinSlot::Nfa => self.pinned_positions_nfa,
            PinSlot::Dfa => self.pinned_positions_dfa,
            PinSlot::MinDfa => self.pinned_positions_min_dfa,
        }
    }

    /// The initial state: empty input, automaton view, every box shown,
    /// nothing built, pinned or dragged.
    pub fn new() -> (r: Self)
        ensures
            r.input@ == Seq::<char>::empty(),
            r.error is None,
            r.build_artifacts is None,
            forall|k: BoxKind| #[trigger] r.box_visibility.shows(k),
            r.view_mode == ViewMode::Nfa,
            r.theme == AppTheme::Dark,
            r.simulation.input@ == Seq::<char>::empty(),
            r.simulation.cursor == 0,
            r.simulation.target == SimulationTarget::Nfa,
            r.simulation.trace_view() is None,
            r.simulation_error is None,
            !r.dragging,
            r.last_cursor_position is None,
            r.pinned_positions_ast@ == Map::<u32, P>::empty(),
            r.pinned_positions_nfa@ == Map::<u32, P>::empty(),
            r.pinned_positions_dfa@ == Map::<u32, P>::empty(),
            r.pinned_positions_min_dfa@ == Map::<u32, P>::empty(),
            r.node_dragging is None,
            r.last_node_cursor_position is None,
            r.selected_node is None,
    {
        App {
            input: String::new(),
            error: None,
            build_artifacts: None,
            box_visibility: BoxVisibility::all_visible(),
            view_mode: ViewMode::Nfa,
            simulation: SimulationState::new(),
            simulation_error: None,
            theme: AppTheme::Dark,
            dragging: false,
            last_cursor_position: None,
            pinned_positions_ast: HashMap::new(),
            pinned_positions_nfa: HashMap::new(),
            pinned_positions_dfa: HashMap::new(),
            pinned_positions_min_dfa: HashMap::new(),
            node_dragging: None,
            last_node_cursor_position: None,
            selected_node: None,
        }
    }

    /// Checks the simulation input against the regex alphabet: `None` without
    /// artifacts, for an empty input, or when every symbol is in the alphabet;
    /// otherwise a message listing the other symbols in increasing order.
    pub fn validate_simulation_input(&self) -> (r: Option<String>)
        ensures
            r is None <==> (match self.build_artifacts {
                None => true,
                Some(a) => self.simulation.input@.len() == 0 || forall|c: char|
                    #[trigger] self.simulation.input@.contains(c) ==> a.alphabet@.contains(c),
            }),
            r matches Some(m) ==> (self.build_artifacts matches Some(a) && exists|syms: Seq<char>|
                invalid_symbols_ok(self.simulation.input@, a.alphabet@, syms) && syms.len() > 0
                    && m@ == invalid_input_message(syms)),
    {
        let artifacts = match &self.build_artifacts {
            None => { return None; },
            Some(a) => a,
        };
        let input = self.simulation.input.as_str();
        let input_chars = chars_of(input);
        if input_chars.len() == 0 {
            return None;
        }
        let invalid = invalid_symbols(input, &artifacts.alphabet);
        if invalid.len() == 0 {
            proof {
                assert forall|c: char| #[trigger] self.simulation.input@.contains(c) implies artifacts.alphabet@.contains(c) by {
                    if !artifacts.alphabet@.contains(c) {
                        assert(invalid@.contains(c));
                    }
                }
            }
            return None;
        }
        let mut message = String::new();
        proof {
            reveal_strlit("Input contains symbol(s) outside the regex alphabet: ");
        }
        push_str(&mut message, "Input contains symbol(s) outside the regex alphabet: ");
        let joined = crate::graph::join_quoted_string(&invalid);
        let joined_chars = chars_of(joined.as_str());
        push_chars(&mut message, &joined_chars);
        proof {
            let c = invalid@[0];
            assert(invalid@.contains(c));
            assert(self.simulation.input@.contains(c) && !artifacts.alphabet@.contains(c));
            assert(self.simulation.input@.len() > 0);
            assert(message@ =~= invalid_input_message(invalid@));
            assert(invalid_symbols_ok(self.simulation.input@, artifacts.alphabet@, invalid@));
        }
        Some(message)
    }
}

/// The trace that rebuilding stores for `target`: the NFA trace, or the trace
/// of the cached (minimised) DFA when every table lookup its run on `input`
/// makes is in bounds, and no trace otherwise.
pub open spec fn expected_trace(a: BuildArtifacts, target: SimulationTarget, input: Seq<char>, t: Option<Seq<crate::simulation::SimulationStep>>) -> bool {
    match target {
        SimulationTarget::Nfa => t matches Some(st) && is_nfa_trace(a.nfa, input, st),
        SimulationTarget::Dfa => match a.dfa {
            Some(d) => if dfa_reads_in_bounds(d, a.alphabet@, input) {
                t matches Some(st) && is_dfa_trace(d, a.alphabet@, input, st)
            } else {
                t is None
            },
            None => t is None,
        },
        SimulationTarget::MinDfa => match a.min_dfa {
            Some(d) => if dfa_reads_in_bounds(d, a.alphabet@, input) {
                t matches Some(st) && is_dfa_trace(d, a.alphabet@, input, st)
            } else {
                t is None
            },
            None => t is None,
        },
    }
}


/// The stored trace `t` is that of the automaton the target names: the NFA
/// for the NFA target, the determinised automaton for the DFA target and the
/// minimised one for the minimised target; a DFA target whose automaton is
/// not cached has no trace.
pub open spec fn runs_target_automaton(a: BuildArtifacts, target: SimulationTarget, input: Seq<char>, t: Option<Seq<crate::simulation::SimulationStep>>) -> bool {
    &&& target == SimulationTarget::Nfa ==> (t matches Some(st) && is_nfa_trace(a.nfa, input, st))
    &&& target == SimulationTarget::Dfa ==> runs_dfa(a.dfa, a.alphabet@, input, t)
    &&& target == SimulationTarget::MinDfa ==> runs_dfa(a.min_dfa, a.alphabet@, input, t)
}

/// `t` is the trace of the cached automaton `d` on `input` (when its table
/// lookups stay in bounds), and there is none when `d` is not cached.
pub open spec fn runs_dfa(d: Option<Dfa>, alphabet: Seq<char>, input: Seq<char>, t: Option<Seq<crate::simulation::SimulationStep>>) -> bool {
    match d {
        None => t is None,
        Some(m) => dfa_reads_in_bounds(m, alphabet, input) ==> (t matches Some(st) && is_dfa_trace(m, alphabet, input, st)),
    }
}

/// Law: the trace a rebuild stores runs the automaton the target names;
/// the minimised target never runs the determinised automaton, nor the
/// reverse.
pub proof fn lemma_trace_runs_target_automaton(a: BuildArtifacts, target: SimulationTarget, input: Seq<char>, t: Option<Seq<crate::simulation::SimulationStep>>)
    requires
        expected_trace(a, target, input, t),
    ensures
        runs_target_automaton(a, target, input, t),
{
}

/// The simulation input of `pre` contains only alphabet symbols (or nothing
/// is built, or the input is empty).
pub open spec fn input_valid<P>(pre: App<P>) -> bool {
    match pre.build_artifacts {
        None => true,
        Some(a) => pre.simulation.input@.len() == 0 || forall|c: char|
            #[trigger] pre.simulation.input@.contains(c) ==> a.alphabet@.contains(c),
    }
}

/// `post` is `pre` after revalidating the simulation input and rebuilding
/// its trace: an invalid input records its message and drops the trace; a
/// valid one clears the message and stores the expected trace with the
/// cursor clamped to it. Nothing else changes.
pub open spec fn refreshed<P>(pre: App<P>, post: App<P>) -> bool {
    &&& !input_valid(pre) ==> post.simulation_error is Some && post.simulation.trace_view() is None
        && post.simulation.cursor == 0
    &&& input_valid(pre) ==> post.simulation_error is None && match pre.build_artifacts {
        None => post.simulation.trace_view() is None && post.simulation.cursor == 0,
        Some(a) => expected_trace(a, pre.simulation.target, pre.simulation.input@, post.simulation.trace_view())
            && post.simulation.cursor == SimulationState::clamped(pre.simulation.cursor, post.simulation.step_total()),
    }
    &&& post.simulation_error matches Some(m) ==> (pre.build_artifacts matches Some(a) && exists|syms: Seq<char>|
        invalid_symbols_ok(pre.simulation.input@, a.alphabet@, syms) && syms.len() > 0 && m@ == invalid_input_message(syms))
    &&& post.simulation.input == pre.simulation.input
    &&& post.simulation.target == pre.simulation.target
    &&& post == (App { simulation: post.simulation, simulation_error: post.simulation_error, ..pre })
}

impl<P: Copy> App<P> {
    /// Recomputes the trace for the current target unless the input is
    /// invalid; the cursor is clamped to the new trace.
    pub fn rebuild_simulation_trace(&mut self)
        ensures
            old(self).simulation_error is Some ==> final(self).simulation.trace_view() == old(self).simulation.trace_view()
                && final(self).simulation.cursor == old(self).simulation.cursor,
            old(self).simulation_error is None ==> match old(self).build_artifacts {
                None => final(self).simulation.trace_view() is None && final(self).simulation.cursor == 0,
                Some(a) => expected_trace(a, old(self).simulation.target, old(self).simulation.input@, final(self).simulation.trace_view())
                    && final(self).simulation.cursor == SimulationState::clamped(old(self).simulation.cursor, final(self).simulation.step_total()),
            },
            final(self).simulation.input == old(self).simulation.input,
            final(self).simulation.target == old(self).simulation.target,
            *final(self) == (App { simulation: final(self).simulation, ..*old(self) }),
            old(self).simulation_error is None && old(self).build_artifacts is Some ==> runs_target_automaton(
                old(self).build_artifacts->0,
                old(self).simulation.target,
                old(self).simulation.input@,
                final(self).simulation.trace_view(),
            ),
    {
        if self.simulation_error.is_some() {
            return;
        }
        let trace: Option<SimulationTrace> = match &self.build_artifacts {
            None => None,
            Some(artifacts) => {
                let input = self.simulation.input.as_str();
                match self.simulation.target {
                    SimulationTarget::Nfa => Some(build_nfa_trace(&artifacts.nfa, input)),
                    SimulationTarget::Dfa => match &artifacts.dfa {
                        Some(d) => if dfa_input_in_bounds(d, artifacts.alphabet.as_slice(), input) {
                            Some(build_dfa_trace(d, artifacts.alphabet.as_slice(), input))
                        } else {
                            None
                        },
                        None => None,
                    },
                    SimulationTarget::MinDfa => match &artifacts.min_dfa {
                        Some(d) => if dfa_input_in_bounds(d, artifacts.alphabet.as_slice(), input) {
                            Some(build_dfa_trace(d, artifacts.alphabet.as_slice(), input))
                        } else {
                            None
                        },
                        None => None,
                    },
                }
            },
        };
        match trace {
            Some(t) => self.simulation.set_trace(Some(t)),
            None => self.simulation.clear_trace(),
        }
        proof {
            if old(self).build_artifacts is Some {
                lemma_trace_runs_target_automaton(
                    old(self).build_artifacts->0,
                    old(self).simulation.target,
                    old(self).simulation.input@,
                    self.simulation.trace_view(),
                );
            }
        }
    }

    /// Validates the simulation input: on failure records the message and
    /// drops the trace, otherwise clears the message and rebuilds the trace.
    pub fn refresh_simulation_trace(&mut self)
        ensures
            refreshed(*old(self), *final(self)),
    {
        match self.validate_simulation_input() {
            Some(error) => {
                self.simulation_error = Some(error);
                self.simulation.clear_trace();
            },
            None => {
                self.simulation_error = None;
                self.rebuild_simulation_trace();
            },
        }
    }
}

/// `post` is `pre` after installing a build result (see `App::apply_build_result`).
pub open spec fn build_applied<P>(pre: App<P>, post: App<P>, result: Result<BuildArtifacts, String>) -> bool {
    &&& match result {
        Ok(a) => {
            let prepared = App {
                build_artifacts: Some(a),
                error: None,
                simulation: SimulationState { cursor: 0, ..pre.simulation },
                ..pre
            };
            post.build_artifacts == Some(a) && post.error is None && refreshed(prepared, post)
        },
        Err(msg) => {
            &&& post.build_artifacts is None
            &&& post.error matches Some(e) && e@ == "Build error: "@ + msg@
            &&& post.simulation.trace_view() is None
            &&& post.simulation.cursor == 0
            &&& post.simulation_error is None
        },
    }
    &&& post.simulation.input == pre.simulation.input
    &&& post.simulation.target == pre.simulation.target
    &&& post == (App {
        build_artifacts: post.build_artifacts,
        error: post.error,
        simulation: post.simulation,
        simulation_error: post.simulation_error,
        ..pre
    })
}

/// `pre` with the simulation input replaced and the cursor at 0.
pub open spec fn with_sim_input<P>(pre: App<P>, input: String) -> App<P> {
    App { simulation: SimulationState { input, cursor: 0, ..pre.simulation }, ..pre }
}

/// `pre` with the cursor at 0.
pub open spec fn with_cursor_reset<P>(pre: App<P>) -> App<P> {
    App { simulation: SimulationState { cursor: 0, ..pre.simulation }, ..pre }
}

/// `pre` with a new simulation target and the cursor at 0.
pub open spec fn with_target<P>(pre: App<P>, target: SimulationTarget) -> App<P> {
    App { simulation: SimulationState { target, cursor: 0, ..pre.simulation }, ..pre }
}

/// `post` is `pre` after selecting `target` (see `App::handle_simulation_target_changed`).
pub open spec fn target_selected<P>(pre: App<P>, post: App<P>, target: SimulationTarget) -> bool {
    if pre.simulation.target == target {
        post == pre
    } else {
        refreshed(with_target(pre, target), post)
    }
}

/// The simulation target chosen by a selector button other than the tree.
pub open spec fn pane_target(mode: RightPaneMode) -> SimulationTarget {
    match mode {
        RightPaneMode::Dfa => SimulationTarget::Dfa,
        RightPaneMode::MinDfa => SimulationTarget::MinDfa,
        _ => SimulationTarget::Nfa,
    }
}

/// The simulation target a selector button switches to, if it switches one.
pub fn target_of_pane(mode: RightPaneMode) -> (r: Option<SimulationTarget>)
    ensures
        mode == RightPaneMode::Ast ==> r is None,
        mode != RightPaneMode::Ast ==> r == Some(pane_target(mode)),
{
    match mode {
        RightPaneMode::Ast => None,
        RightPaneMode::Nfa => Some(SimulationTarget::Nfa),
        RightPaneMode::Dfa => Some(SimulationTarget::Dfa),
        RightPaneMode::MinDfa => Some(SimulationTarget::MinDfa),
    }
}

/// `post` is `pre` after pressing the selector button `mode`.
pub open spec fn pane_selected<P>(pre: App<P>, post: App<P>, mode: RightPaneMode) -> bool {
    if mode == RightPaneMode::Ast {
        post == App { view_mode: ViewMode::Ast, ..pre }
    } else {
        target_selected(App { view_mode: ViewMode::Nfa, ..pre }, post, pane_target(mode))
    }
}

impl<P: Copy> App<P> {
    /// Installs the result of building the regex: on success the artifacts,
    /// no error, the cursor back at 0 and a refreshed trace; on failure the
    /// message "Build error: ..." and no artifacts, trace or input error.
    pub fn apply_build_result(&mut self, result: Result<BuildArtifacts, String>)
        ensures
            build_applied(*old(self), *final(self), result),
    {
        match result {
            Ok(artifacts) => {
                self.build_artifacts = Some(artifacts);
                self.error = None;
                self.simulation.reset_cursor();
                self.refresh_simulation_trace();
            },
            Err(msg) => {
                let mut text = String::new();
                proof {
                    reveal_strlit("Build error: ");
                }
                push_str(&mut text, "Build error: ");
                let cs = chars_of(msg.as_str());
                push_chars(&mut text, &cs);
                self.error = Some(text);
                self.build_artifacts = None;
                self.simulation.clear_trace();
                self.simulation_error = None;
            },
        }
    }

    /// Stores a new simulation input, moves the cursor back to 0 and
    /// refreshes the trace; ignored while nothing is built.
    pub fn handle_simulation_input_changed(&mut self, input: String)
        ensures
            old(self).build_artifacts is None ==> *final(self) == *old(self),
            old(self).build_artifacts is Some ==> refreshed(with_sim_input(*old(self), input), *final(self)),
    {
        if self.build_artifacts.is_none() {
            return;
        }
        self.simulation.input = input;
        self.simulation.reset_cursor();
        self.refresh_simulation_trace();
    }

    /// Steps the simulation forward when possible.
    pub fn handle_simulation_step_forward(&mut self)
        ensures
            *final(self) == (App { simulation: old(self).simulation.moved_forward(), ..*old(self) }),
            final(self).simulation.cursor == (if old(self).simulation.trace_view() is Some
                && old(self).simulation.cursor + 1 < old(self).simulation.step_total() {
                old(self).simulation.cursor + 1
            } else {
                old(self).simulation.cursor as int
            }),
            final(self).simulation.trace_view() == old(self).simulation.trace_view(),
            final(self).simulation_error == old(self).simulation_error,
    {
        self.simulation.step_forward();
    }

    /// Steps the simulation backward when possible.
    pub fn handle_simulation_step_backward(&mut self)
        ensures
            *final(self) == (App { simulation: old(self).simulation.moved_backward(), ..*old(self) }),
            final(self).simulation.cursor == (if old(self).simulation.cursor > 0 {
                old(self).simulation.cursor - 1
            } else {
                0
            }),
            final(self).simulation.trace_view() == old(self).simulation.trace_view(),
            final(self).simulation_error == old(self).simulation_error,
    {
        self.simulation.step_backward();
    }

    /// Moves the cursor back to the initial step and refreshes the trace.
    pub fn handle_simulation_reset(&mut self)
        ensures
            refreshed(with_cursor_reset(*old(self)), *final(self)),
    {
        self.simulation.reset_cursor();
        self.refresh_simulation_trace();
    }

    /// Switches the simulated automaton; a new target moves the cursor back
    /// to 0 and refreshes the trace, the current one changes nothing.
    pub fn handle_simulation_target_changed(&mut self, target: SimulationTarget)
        ensures
            target_selected(*old(self), *final(self), target),
    {
        if self.simulation.target == target {
            return;
        }
        self.simulation.target = target;
        self.simulation.reset_cursor();
        self.refresh_simulation_trace();
    }

    /// Handles the bottom-right selector: the parse tree, or the automaton
    /// view with the chosen automaton as simulation target.
    pub fn handle_right_pane_mode(&mut self, mode: RightPaneMode)
        ensures
            pane_selected(*old(self), *final(self), mode),
    {
        match mode {
            RightPaneMode::Ast => {
                self.view_mode = ViewMode::Ast;
            },
            RightPaneMode::Nfa => {
                self.view_mode = ViewMode::Nfa;
                self.handle_simulation_target_changed(SimulationTarget::Nfa);
            },
            RightPaneMode::Dfa => {
                self.view_mode = ViewMode::Nfa;
                self.handle_simulation_target_changed(SimulationTarget::Dfa);
            },
            RightPaneMode::MinDfa => {
                self.view_mode = ViewMode::Nfa;
                self.handle_simulation_target_changed(SimulationTarget::MinDfa);
            },
        }
    }

    /// Flips the visibility of one kind of bounding box.
    pub fn handle_toggle_box(&mut self, kind: BoxKind)
        ensures
            *final(self) == (App { box_visibility: old(self).box_visibility.toggled(kind), ..*old(self) }),
    {
        self.box_visibility.toggle(kind);
    }
}

/// Only the pin map of `slot` changed between `pre` and `post`, and it maps
/// `id` to `pos` on top of its old entries.
pub open spec fn pinned_in<P: Copy>(pre: App<P>, post: App<P>, slot: PinSlot, id: StateId, pos: P) -> bool {
    &&& post.pins(slot)@ == pre.pins(slot)@.insert(id, pos)
    &&& forall|other: PinSlot| other != slot ==> #[trigger] post.pins(other) == pre.pins(other)
}

/// `post` maps `id` to `pos` in the pinned-position map the current view
/// draws (the tree's in the tree view; in the automaton view the NFA's, the
/// determinised DFA's or the minimised DFA's, after the simulation target)
/// and keeps the other three maps as they were.
pub open spec fn pinned_in_drawn_map<P: Copy>(pre: App<P>, post: App<P>, id: StateId, pos: P) -> bool {
    let ast = pre.view_mode == ViewMode::Ast;
    let nfa = !ast && pre.simulation.target == SimulationTarget::Nfa;
    let dfa = !ast && pre.simulation.target == SimulationTarget::Dfa;
    let min = !ast && pre.simulation.target == SimulationTarget::MinDfa;
    &&& post.pinned_positions_ast@ == (if ast { pre.pinned_positions_ast@.insert(id, pos) } else { pre.pinned_positions_ast@ })
    &&& post.pinned_positions_nfa@ == (if nfa { pre.pinned_positions_nfa@.insert(id, pos) } else { pre.pinned_positions_nfa@ })
    &&& post.pinned_positions_dfa@ == (if dfa { pre.pinned_positions_dfa@.insert(id, pos) } else { pre.pinned_positions_dfa@ })
    &&& post.pinned_positions_min_dfa@ == (if min {
        pre.pinned_positions_min_dfa@.insert(id, pos)
    } else {
        pre.pinned_positions_min_dfa@
    })
}

/// Law: a node drag pins the node in the map of the view being drawn and in
/// no other: a DFA drag never touches the minimised DFA's map, and so on.
pub proof fn lemma_drag_pins_drawn_map<P: Copy>(pre: App<P>, post: App<P>, id: StateId, pos: P)
    requires
        pinned_in(pre, post, pin_slot_of(pre.view_mode, pre.simulation.target), id, pos),
    ensures
        pinned_in_drawn_map(pre, post, id, pos),
{
    let slot = pin_slot_of(pre.view_mode, pre.simulation.target);
    assert(post.pins(PinSlot::Ast) == pre.pins(PinSlot::Ast) || slot == PinSlot::Ast);
    assert(post.pins(PinSlot::Nfa) == pre.pins(PinSlot::Nfa) || slot == PinSlot::Nfa);
    assert(post.pins(PinSlot::Dfa) == pre.pins(PinSlot::Dfa) || slot == PinSlot::Dfa);
    assert(post.pins(PinSlot::MinDfa) == pre.pins(PinSlot::MinDfa) || slot == PinSlot::MinDfa);
}

/// `post` differs from `pre` at most in the pin maps and the node-drag fields.
pub open spec fn only_pins_and_drag_changed<P>(pre: App<P>, post: App<P>) -> bool {
    post == (App {
        pinned_positions_ast: post.pinned_positions_ast,
        pinned_positions_nfa: post.pinned_positions_nfa,
        pinned_positions_dfa: post.pinned_positions_dfa,
        pinned_positions_min_dfa: post.pinned_positions_min_dfa,
        node_dragging: post.node_dragging,
        last_node_cursor_position: post.last_node_cursor_position,
        selected_node: post.selected_node,
        ..pre
    })
}

impl<P: Copy> App<P> {
    fn pin_at(&mut self, id: StateId, pos: P)
        ensures
            pinned_in(*old(self), *final(self), pin_slot_of(old(self).view_mode, old(self).simulation.target), id, pos),
            final(self).node_dragging == old(self).node_dragging,
            final(self).last_node_cursor_position == old(self).last_node_cursor_position,
            final(self).selected_node == old(self).selected_node,
            only_pins_and_drag_changed(*old(self), *final(self)),
    {
        if self.view_mode == ViewMode::Ast {
            self.pinned_positions_ast.insert(id, pos);
        } else {
            match self.simulation.target {
                SimulationTarget::Nfa => {
                    self.pinned_positions_nfa.insert(id, pos);
                },
                SimulationTarget::Dfa => {
                    self.pinned_positions_dfa.insert(id, pos);
                },
                SimulationTarget::MinDfa => {
                    self.pinned_positions_min_dfa.insert(id, pos);
                },
            }
        }
    }

    /// Starts dragging node `id` and pins it at `pos` in the map of the
    /// current view, so that a single press-and-move drags it.
    pub fn handle_node_drag_start(&mut self, id: StateId, pos: P)
        ensures
            final(self).node_dragging == Some(id),
            final(self).last_node_cursor_position == Some(pos),
            final(self).selected_node == Some(id),
            pinned_in(*old(self), *final(self), pin_slot_of(old(self).view_mode, old(self).simulation.target), id, pos),
            pinned_in_drawn_map(*old(self), *final(self), id, pos),
            only_pins_and_drag_changed(*old(self), *final(self)),
    {
        self.node_dragging = Some(id);
        self.last_node_cursor_position = Some(pos);
        self.selected_node = Some(id);
        self.pin_at(id, pos);
        proof {
            lemma_drag_pins_drawn_map(*old(self), *self, id, pos);
        }
    }

    /// Moves the dragged node `id` to `pos`; ignored unless `id` is being dragged.
    pub fn handle_node_drag(&mut self, id: StateId, pos: P)
        ensures
            old(self).node_dragging != Some(id) ==> *final(self) == *old(self),
            old(self).node_dragging == Some(id) ==> {
                &&& pinned_in(*old(self), *final(self), pin_slot_of(old(self).view_mode, old(self).simulation.target), id, pos)
                &&& final(self).node_dragging == Some(id)
                &&& final(self).last_node_cursor_position == Some(pos)
                &&& final(self).selected_node == old(self).selected_node
                &&& pinned_in_drawn_map(*old(self), *final(self), id, pos)
            },
            only_pins_and_drag_changed(*old(self), *final(self)),
    {
        if self.node_dragging == Some(id) {
            self.pin_at(id, pos);
            let ghost mid = *self;
            self.last_node_cursor_position = Some(pos);
            assert(forall|other: PinSlot| #[trigger] self.pins(other) == mid.pins(other));
            proof {
                lemma_drag_pins_drawn_map(*old(self), *self, id, pos);
            }
        }
    }

    /// Drops the dragged node `id` at `pos` and ends the drag; ignored unless
    /// `id` is being dragged.
    pub fn handle_node_drag_end(&mut self, id: StateId, pos: P)
        ensures
            old(self).node_dragging != Some(id) ==> *final(self) == *old(self),
            old(self).node_dragging == Some(id) ==> {
                &&& pinned_in(*old(self), *final(self), pin_slot_of(old(self).view_mode, old(self).simulation.target), id, pos)
                &&& final(self).node_dragging is None
                &&& final(self).last_node_cursor_position is None
                &&& final(self).selected_node == old(self).selected_node
                &&& pinned_in_drawn_map(*old(self), *final(self), id, pos)
            },
            only_pins_and_drag_changed(*old(self), *final(self)),
    {
        if self.node_dragging == Some(id) {
            self.pin_at(id, pos);
            let ghost mid = *self;
            self.node_dragging = None;
            self.last_node_cursor_position = None;
            assert(forall|other: PinSlot| #[trigger] self.pins(other) == mid.pins(other));
            proof {
                lemma_drag_pins_drawn_map(*old(self), *self, id, pos);
            }
        }
    }

    /// Starts panning at `pos`.
    pub fn handle_start_pan(&mut self, pos: P)
        ensures
            *final(self) == (App { dragging: true, last_cursor_position: Some(pos), ..*old(self) }),
    {
        self.dragging = true;
        self.last_cursor_position = Some(pos);
    }

    /// Records a pointer move while panning and returns the previous pointer
    /// position, from which the caller offsets the canvas; returns `None` and
    /// changes nothing when no pan is in progress.
    pub fn handle_pan(&mut self, pos: P) -> (r: Option<P>)
        ensures
            (old(self).dragging && old(self).last_cursor_position is Some) ==> r == old(self).last_cursor_position
                && *final(self) == (App { last_cursor_position: Some(pos), ..*old(self) }),
            !(old(self).dragging && old(self).last_cursor_position is Some) ==> r is None && *final(self) == *old(self),
    {
        if self.dragging {
            match self.last_cursor_position {
                Some(last) => {
                    self.last_cursor_position = Some(pos);
                    return Some(last);
                },
                None => {},
            }
        }
        None
    }

    /// Ends the current pan.
    pub fn handle_end_pan(&mut self)
        ensures
            *final(self) == (App { dragging: false, last_cursor_position: None, ..*old(self) }),
    {
        self.dragging = false;
        self.last_cursor_position = None;
    }

    /// Returns the view to its automatic layout: no pan in progress, no
    /// pinned node in any view, no drag and no selection.
    pub fn handle_reset_view(&mut self)
        ensures
            !final(self).dragging,
            final(self).last_cursor_position is None,
            final(self).pinned_positions_ast@ == Map::<u32, P>::empty(),
            final(self).pinned_positions_nfa@ == Map::<u32, P>::empty(),
            final(self).pinned_positions_dfa@ == Map::<u32, P>::empty(),
            final(self).pinned_positions_min_dfa@ == Map::<u32, P>::empty(),
            final(self).node_dragging is None,
            final(self).last_node_cursor_position is None,
            final(self).selected_node is None,
            *final(self) == (App {
                dragging: false,
                last_cursor_position: None,
                pinned_positions_ast: final(self).pinned_positions_ast,
                pinned_positions_nfa: final(self).pinned_positions_nfa,
                pinned_positions_dfa: final(self).pinned_positions_dfa,
                pinned_positions_min_dfa: final(self).pinned_positions_min_dfa,
                node_dragging: None,
                last_node_cursor_position: None,
                selected_node: None,
                ..*old(self)
            }),
    {
        self.dragging = false;
        self.last_cursor_position = None;
        self.pinned_positions_ast.clear();
        self.pinned_positions_nfa.clear();
        self.pinned_positions_dfa.clear();
        self.pinned_positions_min_dfa.clear();
        self.node_dragging = None;
        self.last_node_cursor_position = None;
        self.selected_node = None;
    }
}

} // verus!
