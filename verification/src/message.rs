use vstd::prelude::*;

use crate::automaton::BoxKind;

verus! {

/// Available visualization modes.
#[derive(Debug, Clone, Copy, PartialEq, Eq, Structural)]
pub enum ViewMode {
    /// Show the abstract syntax tree.
    Ast,
    /// Show the automaton.
    Nfa,
}

impl ViewMode {
    /// Human-readable label of the mode.
    pub fn label(self) -> (r: &'static str)
        ensures
            self == ViewMode::Ast ==> r@ == "Parse Tree"@,
            self == ViewMode::Nfa ==> r@ == "NFA"@,
    {
        match self {
            ViewMode::Ast => "Parse Tree",
            ViewMode::Nfa => "NFA",
        }
    }
}

/// Bottom-right selector: the parse tree or one of the three automata.
#[derive(Debug, Clone, Copy, PartialEq, Eq, Structural)]
pub enum RightPaneMode {
    Ast,
    Nfa,
    Dfa,
    MinDfa,
}

/// Messages originating from the regex input controls.
#[derive(Debug, Clone)]
pub enum InputMessage {
    /// The regex input text changed.
    Changed(String),
}

/// Messages emitted by the simulation control panel.
#[derive(Debug, Clone)]
pub enum SimulationMessage {
    /// The simulation input string changed.
    InputChanged(String),
    /// Advance to the next step, if any.
    StepForward,
    /// Move back to the previous step, if any.
    StepBackward,
    /// Return to the initial step.
    Reset,
}

/// Content shown in each pane of the two-pane layout.
#[derive(Debug, Clone, Copy, PartialEq, Eq, Structural)]
pub enum PaneContent {
    Controls,
    Visualization,
}

/// Style classes of buttons.
#[derive(Debug, Clone, Copy, PartialEq, Eq, Structural)]
pub enum ButtonClass {
    Primary,
    Secondary,
    Danger,
}

/// Style classes of containers.
#[derive(Debug, Clone, Copy, PartialEq, Eq, Structural)]
pub enum ContainerClass {
    Default,
    Rounded,
    RoundedLarge,
    /// Semi-transparent background.
    GlassEffect,
}

/// Style classes of scrollables.
#[derive(Debug, Clone, Copy, PartialEq, Eq, Structural)]
pub enum ScrollableClass {
    Default,
}

/// Style classes of text inputs.
#[derive(Debug, Clone, Copy, PartialEq, Eq, Structural)]
pub enum TextInputClass {
    Default,
    Invalid,
}

/// Colour themes of the application.
#[derive(Debug, Clone, Copy, PartialEq, Eq, Hash, Structural)]
pub enum AppTheme {
    Dark,
}

/// Human-readable name of a bounding-box kind.
pub fn box_kind_label(kind: BoxKind) -> (r: &'static str)
    ensures
        r@ == box_kind_name(kind),
{
    proof {
        reveal_strlit("Literal");
        reveal_strlit("Concat");
        reveal_strlit("Alternation");
        reveal_strlit("Star");
        reveal_strlit("Plus");
        reveal_strlit("Optional");
    }
    match kind {
        BoxKind::Literal => "Literal",
        BoxKind::Concat => "Concat",
        BoxKind::Alternation => "Alternation",
        BoxKind::KleeneStar => "Star",
        BoxKind::KleenePlus => "Plus",
        BoxKind::Optional => "Optional",
    }
}

/// Name of each bounding-box kind.
pub open spec fn box_kind_name(kind: BoxKind) -> Seq<char> {
    match kind {
        BoxKind::Literal => seq!['L', 'i', 't', 'e', 'r', 'a', 'l'],
        BoxKind::Concat => seq!['C', 'o', 'n', 'c', 'a', 't'],
        BoxKind::Alternation => seq!['A', 'l', 't', 'e', 'r', 'n', 'a', 't', 'i', 'o', 'n'],
        BoxKind::KleeneStar => seq!['S', 't', 'a', 'r'],
        BoxKind::KleenePlus => seq!['P', 'l', 'u', 's'],
        BoxKind::Optional => seq!['O', 'p', 't', 'i', 'o', 'n', 'a', 'l'],
    }
}

} // verus!
