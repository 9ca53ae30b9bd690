use vstd::prelude::*;

use crate::automaton::StateId;
use crate::dfa_layout::id_leq;
use crate::simulation::{SimulationState, SimulationStep, SimulationTarget};
use crate::state::App;
use crate::sets::set_members;
use crate::text::{decimal, push_char, push_decimal, push_quoted, push_str, quoted};

verus! {

broadcast use vstd::seq_lib::group_to_multiset_ensures;

/// Style of a line of the simulation panel.
#[derive(Debug, Clone, Copy, PartialEq, Eq, Structural)]
pub enum TextClass {
    Primary,
    Secondary,
    Error,
    Success,
}

/// `Consumed: 'c'`, or `Consumed: –` for the initial step.
pub open spec fn consumed_text(c: Option<char>) -> Seq<char> {
    match c {
        Some(ch) => "Consumed: "@ + quoted(ch),
        None => "Consumed: –"@,
    }
}

/// `Step i / m • Consumed: … • Accepting: Yes|No`, where `m` is the last
/// step index of a trace of `total` steps.
pub open spec fn summary_text(step: SimulationStep, total: nat) -> Seq<char> {
    let last = if total == 0 { 0 } else { (total - 1) as nat };
    "Step "@ + decimal(step.index as nat) + " / "@ + decimal(last) + " • "@ + consumed_text(step.consumed) + " • "@
        + (if step.accepted { "Accepting: Yes"@ } else { "Accepting: No"@ })
}

/// Law: the step line ends with "Accepting: Yes" when the step accepts and
/// with "Accepting: No" when it does not, whatever the step's index.
pub proof fn lemma_step_line_verdict(step: SimulationStep, total: nat)
    ensures
        step.accepted ==> summary_text(step, total).len() >= 14 && summary_text(step, total).skip(
            summary_text(step, total).len() - 14,
        ) == "Accepting: Yes"@,
        !step.accepted ==> summary_text(step, total).len() >= 13 && summary_text(step, total).skip(
            summary_text(step, total).len() - 13,
        ) == "Accepting: No"@,
{
    reveal_strlit("Accepting: Yes");
    reveal_strlit("Accepting: No");
    let last = if total == 0 { 0 } else { (total - 1) as nat };
    let head = "Step "@ + decimal(step.index as nat) + " / "@ + decimal(last) + " • "@ + consumed_text(step.consumed) + " • "@;
    let tail = if step.accepted { "Accepting: Yes"@ } else { "Accepting: No"@ };
    assert(summary_text(step, total) == head + tail);
    assert((head + tail).skip(head.len() as int) =~= tail);
}

/// The identifiers of `s` in decimal, separated by `, `.
pub open spec fn joined_ids(s: Seq<StateId>) -> Seq<char>
    decreases s.len(),
{
    if s.len() == 0 {
        Seq::empty()
    } else if s.len() == 1 {
        decimal(s[0] as nat)
    } else {
        joined_ids(s.drop_last()) + ", "@ + decimal(s.last() as nat)
    }
}

/// Name of the simulated automaton.
pub open spec fn target_name(t: SimulationTarget) -> Seq<char> {
    match t {
        SimulationTarget::Nfa => "NFA"@,
        SimulationTarget::Dfa => "DFA"@,
        SimulationTarget::MinDfa => "Min DFA"@,
    }
}

/// `Active <automaton> states: {1, 4}` with the states in increasing order,
/// or `∅` when there are none.
pub open spec fn active_text(t: SimulationTarget, states: Seq<StateId>) -> Seq<char> {
    let sorted = states.sort_by(id_leq());
    "Active "@ + target_name(t) + " states: "@ + (if states.len() == 0 {
        "∅"@
    } else {
        "{"@ + joined_ids(sorted) + "}"@
    })
}

/// `q` lists the states of `s`, each once.
pub open spec fn lists_states(q: Seq<StateId>, s: Set<StateId>) -> bool {
    q.no_duplicates() && q.to_set() == s
}

/// `text` is the active-states line for the states `s`: `active_text` of a
/// listing of them (any listing gives the same text, as it is sorted).
pub open spec fn is_active_line(t: SimulationTarget, s: Set<StateId>, text: Seq<char>) -> bool {
    exists|q: Seq<StateId>| #[trigger] lists_states(q, s) && text == active_text(t, q)
}

fn push_target_name(s: &mut String, t: SimulationTarget)
    ensures
        final(s)@ == old(s)@ + target_name(t),
{
    match t {
        SimulationTarget::Nfa => push_str(s, "NFA"),
        SimulationTarget::Dfa => push_str(s, "DFA"),
        SimulationTarget::MinDfa => push_str(s, "Min DFA"),
    }
}

/// Appends the identifiers of `ids` in decimal, separated by `, `.
fn push_joined(s: &mut String, ids: &Vec<StateId>)
    ensures
        final(s)@ == old(s)@ + joined_ids(ids@),
{
    let mut i: usize = 0;
    while i < ids.len()
        invariant
            i <= ids@.len(),
            s@ == old(s)@ + joined_ids(ids@.take(i as int)),
        decreases ids.len() - i,
    {
        let ghost before = s@;
        assert(ids@.take(i + 1).drop_last() =~= ids@.take(i as int));
        assert(ids@.take(i + 1).last() == ids@[i as int]);
        if i > 0 {
            push_str(s, ", ");
        }
        push_decimal(s, ids[i] as u64);
        proof {
            if i == 0 {
                assert(joined_ids(ids@.take(1)) == decimal(ids@[0] as nat));
                assert(s@ =~= old(s)@ + joined_ids(ids@.take(1)));
            } else {
                assert(s@ =~= old(s)@ + joined_ids(ids@.take(i + 1)));
            }
        }
        i = i + 1;
    }
    assert(ids@.take(ids@.len() as int) =~= ids@);
}

/// The states of `v` in increasing order.
fn sorted_states(v: &Vec<StateId>) -> (r: Vec<StateId>)
    ensures
        r@ == v@.sort_by(id_leq()),
{
    let sorted = crate::layout::sort_ids(v);
    proof {
        crate::dfa_layout::lemma_id_leq_total();
        v@.lemma_sort_by_ensures(id_leq());
        assert(vstd::relations::sorted_by(sorted@, id_leq())) by {
            assert forall|a: int, b: int| 0 <= a < b < sorted@.len() implies #[trigger] (id_leq())(sorted@[a], sorted@[b]) by {}
        }
        vstd::seq_lib::lemma_sorted_unique(sorted@, v@.sort_by(id_leq()), id_leq());
    }
    sorted
}

impl SimulationState {
    /// The step line of the current step, if the cursor is on one.
    pub fn summary_line(&self) -> (r: Option<String>)
        ensures
            r is Some <==> (self.trace_view() is Some && self.cursor < self.step_total()),
            r matches Some(text) ==> text@ == summary_text(self.trace_view()->0[self.cursor as int], self.step_total()),
    {
        let step = match self.current_step() {
            Some(st) => st,
            None => {
                return None;
            },
        };
        let total = match self.step_count() {
            Some(n) => n,
            None => {
                return None;
            },
        };
        let last: usize = if total == 0 { 0 } else { total - 1 };
        let mut s = String::new();
        push_str(&mut s, "Step ");
        push_decimal(&mut s, step.index as u64);
        push_str(&mut s, " / ");
        push_decimal(&mut s, last as u64);
        push_str(&mut s, " • ");
        match step.consumed {
            Some(ch) => {
                push_str(&mut s, "Consumed: ");
                push_quoted(&mut s, ch);
            },
            None => {
                push_str(&mut s, "Consumed: –");
            },
        }
        push_str(&mut s, " • ");
        if step.accepted {
            push_str(&mut s, "Accepting: Yes");
        } else {
            push_str(&mut s, "Accepting: No");
        }
        proof {
            assert(s@ =~= summary_text(*step, self.step_total()));
        }
        Some(s)
    }

    /// The line listing the active states of the current step, if the cursor is on one.
    pub fn active_states_line(&self) -> (r: Option<String>)
        ensures
            r is Some <==> (self.trace_view() is Some && self.cursor < self.step_total()),
            r matches Some(text) ==> is_active_line(self.target, self.trace_view()->0[self.cursor as int].active_states@, text@),
    {
        let step = match self.current_step() {
            Some(st) => st,
            None => {
                return None;
            },
        };
        let members = set_members(&step.active_states);
        let states = sorted_states(&members);
        let mut s = String::new();
        push_str(&mut s, "Active ");
        push_target_name(&mut s, self.target);
        push_str(&mut s, " states: ");
        if members.len() == 0 {
            push_str(&mut s, "∅");
        } else {
            push_str(&mut s, "{");
            push_joined(&mut s, &states);
            push_str(&mut s, "}");
        }
        proof {
            assert(s@ =~= active_text(self.target, members@));
            assert(lists_states(members@, step.active_states@));
        }
        Some(s)
    }

    /// The cursor is on the last step and that step accepts.
    pub fn acceptance_hint(&self) -> (r: bool)
        ensures
            r == (self.trace_view() is Some && self.cursor + 1 == self.step_total()
                && self.trace_view()->0[self.cursor as int].accepted),
    {
        let step = match self.current_step() {
            Some(st) => st,
            None => {
                return false;
            },
        };
        let total = match self.step_count() {
            Some(n) => n,
            None => {
                return false;
            },
        };
        if self.is_current_rejection() {
            return false;
        }
        total > 0 && self.cursor == total - 1 && step.accepted
    }

    /// The lines under the step controls: the step line, the active states,
    /// then a verdict once the last step is reached.
    pub fn summary_messages(&self) -> (r: Vec<(String, TextClass)>)
        ensures
            r@.len() == (if self.trace_view() is Some && self.cursor < self.step_total() {
                if self.cursor + 1 == self.step_total() { 3int } else { 2int }
            } else {
                0int
            }),
            r@.len() >= 2 ==> r@[0].0@ == summary_text(self.trace_view()->0[self.cursor as int], self.step_total())
                && r@[0].1 == TextClass::Secondary
                && is_active_line(self.target, self.trace_view()->0[self.cursor as int].active_states@, r@[1].0@)
                && r@[1].1 == TextClass::Secondary,
            r@.len() == 3 && self.trace_view()->0[self.cursor as int].accepted ==> r@[2].0@ == "Input string is accepted."@
                && r@[2].1 == TextClass::Success,
            r@.len() == 3 && !self.trace_view()->0[self.cursor as int].accepted ==> r@[2].0@ == "Input string is not accepted."@
                && r@[2].1 == TextClass::Error,
    {
        let mut out: Vec<(String, TextClass)> = Vec::new();
        match self.summary_line() {
            Some(t) => out.push((t, TextClass::Secondary)),
            None => {},
        }
        match self.active_states_line() {
            Some(t) => out.push((t, TextClass::Secondary)),
            None => {},
        }
        if self.is_current_rejection() {
            let mut t = String::new();
            push_str(&mut t, "Input string is not accepted.");
            out.push((t, TextClass::Error));
        } else if self.acceptance_hint() {
            let mut t = String::new();
            push_str(&mut t, "Input string is accepted.");
            out.push((t, TextClass::Success));
        }
        out
    }
}

impl<P> App<P> {
    /// The status shown beside the simulation heading.
    pub fn simulation_status(&self) -> (r: (&'static str, TextClass))
        ensures
            self.build_artifacts is None ==> r.0@ == "Regex required"@ && r.1 == TextClass::Secondary,
            self.build_artifacts is Some && self.simulation_error is Some ==> r.0@ == "Input error"@ && r.1 == TextClass::Error,
            self.build_artifacts is Some && self.simulation_error is None ==> r.0@ == "Ready"@ && r.1 == TextClass::Success,
    {
        if self.build_artifacts.is_none() {
            ("Regex required", TextClass::Secondary)
        } else if self.simulation_error.is_some() {
            ("Input error", TextClass::Error)
        } else {
            ("Ready", TextClass::Success)
        }
    }
}


/// Which cached automaton the visualisation draws for a DFA target.
#[derive(Debug, Clone, Copy, PartialEq, Eq, Structural)]
pub enum DrawnDfa {
    Determinized,
    Minimized,
    /// Neither automaton is built; the pane shows a notice instead.
    Missing,
}

/// The automaton drawn for `target` (a DFA target): the requested one when
/// it is built, otherwise the other one, otherwise none. The NFA target
/// falls under the determinised case.
pub fn drawn_dfa(target: SimulationTarget, has_dfa: bool, has_min_dfa: bool) -> (r: DrawnDfa)
    ensures
        target == SimulationTarget::MinDfa ==> r == (if has_min_dfa {
            DrawnDfa::Minimized
        } else if has_dfa {
            DrawnDfa::Determinized
        } else {
            DrawnDfa::Missing
        }),
        target != SimulationTarget::MinDfa ==> r == (if has_dfa {
            DrawnDfa::Determinized
        } else if has_min_dfa {
            DrawnDfa::Minimized
        } else {
            DrawnDfa::Missing
        }),
{
    match target {
        SimulationTarget::MinDfa => if has_min_dfa {
            DrawnDfa::Minimized
        } else if has_dfa {
            DrawnDfa::Determinized
        } else {
            DrawnDfa::Missing
        },
        _ => if has_dfa {
            DrawnDfa::Determinized
        } else if has_min_dfa {
            DrawnDfa::Minimized
        } else {
            DrawnDfa::Missing
        },
    }
}

/// The notice shown when no automaton can be drawn for `target`.
pub fn missing_dfa_notice(target: SimulationTarget) -> (r: &'static str)
    ensures
        target == SimulationTarget::MinDfa ==> r@ == "Minimized DFA is not available"@,
        target != SimulationTarget::MinDfa ==> r@ == "Determinized DFA is not available"@,
{
    match target {
        SimulationTarget::MinDfa => "Minimized DFA is not available",
        _ => "Determinized DFA is not available",
    }
}

/// For each of `len` input characters whether the error mark sits on it,
/// and whether the mark sits past the end (at position `len`).
pub fn error_marks(len: usize, at: Option<usize>) -> (r: (Vec<bool>, bool))
    ensures
        r.0@.len() == len,
        forall|i: int| 0 <= i < len ==> #[trigger] r.0@[i] == (at == Some(i as usize)),
        r.1 == (at == Some(len)),
{
    let mut marks: Vec<bool> = Vec::new();
    let mut i: usize = 0;
    while i < len
        invariant
            i <= len,
            marks@.len() == i,
            forall|q: int| 0 <= q < i ==> #[trigger] marks@[q] == (at == Some(q as usize)),
        decreases len - i,
    {
        let on = match at {
            Some(p) => p == i,
            None => false,
        };
        marks.push(on);
        i = i + 1;
    }
    let end = match at {
        Some(p) => p == len,
        None => false,
    };
    (marks, end)
}

impl<P> App<P> {
    /// Which step buttons are enabled, as (previous, reset, next): none
    /// without a built expression or with an invalid input; otherwise reset,
    /// previous when the cursor can move back and next when it can move on.
    pub fn step_buttons(&self) -> (r: (bool, bool, bool))
        ensures
            r.1 == (self.build_artifacts is Some && self.simulation_error is None),
            r.0 == (r.1 && self.simulation.cursor > 0),
            r.2 == (r.1 && self.simulation.trace_view() is Some
                && self.simulation.cursor + 1 < self.simulation.step_total()),
    {
        let enabled = self.build_artifacts.is_some() && self.simulation_error.is_none();
        (
            enabled && self.simulation.can_step_backward(),
            enabled,
            enabled && self.simulation.can_step_forward(),
        )
    }
}

} // verus!
