use vstd::prelude::*;

use crate::automaton::{Ast, BoundingBox, BoxId, BoxKind, Dfa, EdgeLabel, Nfa, StateId, Transition, transitions_from};
use crate::highlight::EdgeHighlight;
use crate::highlight::{Highlights, StateHighlight, style_of};
use crate::message::{box_kind_label, box_kind_name};
use crate::pins::pinned_at;
use std::collections::HashMap;
use crate::text::{decimal, push_char, push_quoted, quoted, u32_to_decimal};

verus! {



/// How an edge is drawn between its endpoints.
#[derive(Debug, Clone, Copy, PartialEq, Eq, Structural)]
pub enum EdgeCurve {
    /// Straight segment.
    Straight,
    /// Bent downward (bypass of a star, or one of two opposite edges).
    CurveDown,
    /// Bent upward (loop back of a star).
    CurveUp,
    /// Self-loop.
    Loop,
}

/// A renderable state or tree node. `P` is the type of pinned positions.
#[derive(Debug)]
pub struct GraphNode<P> {
    pub id: StateId,
    pub label: String,
    pub is_start: bool,
    pub is_accept: bool,
    pub box_id: Option<BoxId>,
    pub highlight: Option<StateHighlight>,
    pub is_pinned: bool,
    pub manual_position: Option<P>,
}

impl<P> GraphNode<P> {
    /// A node with no highlight and no pinned position.
    pub fn new(id: StateId, label: String, is_start: bool, is_accept: bool, box_id: Option<BoxId>) -> (r: Self)
        ensures
            r.id == id,
            r.label == label,
            r.is_start == is_start,
            r.is_accept == is_accept,
            r.box_id == box_id,
            r.highlight is None,
            !r.is_pinned,
            r.manual_position is None,
    {
        GraphNode { id, label, is_start, is_accept, box_id, highlight: None, is_pinned: false, manual_position: None }
    }

    /// The same node with `highlight` applied.
    pub fn with_highlight(self, highlight: Option<StateHighlight>) -> (r: Self)
        ensures
            r == (GraphNode { highlight, ..self }),
    {
        GraphNode { highlight, ..self }
    }
}

/// A renderable transition or tree edge.
#[derive(Debug)]
pub struct GraphEdge {
    pub from: StateId,
    pub to: StateId,
    pub label: String,
    pub curve: EdgeCurve,
    pub is_active: bool,
}

impl GraphEdge {
    /// A straight, inactive edge.
    pub fn new(from: StateId, to: StateId, label: String) -> (r: Self)
        ensures
            r == (GraphEdge { from, to, label, curve: EdgeCurve::Straight, is_active: false }),
    {
        GraphEdge { from, to, label, curve: EdgeCurve::Straight, is_active: false }
    }

    /// An inactive edge drawn with `curve`.
    pub fn with_curve(from: StateId, to: StateId, label: String, curve: EdgeCurve) -> (r: Self)
        ensures
            r == (GraphEdge { from, to, label, curve, is_active: false }),
    {
        GraphEdge { from, to, label, curve, is_active: false }
    }

    /// The same edge marked active or inactive.
    pub fn with_active(self, is_active: bool) -> (r: Self)
        ensures
            r == (GraphEdge { is_active, ..self }),
    {
        GraphEdge { is_active, ..self }
    }
}

/// Metadata of a bounding box grouping states.
#[derive(Debug)]
pub struct GraphBox {
    pub id: BoxId,
    pub kind: BoxKind,
    pub parent: Option<BoxId>,
    pub states: Vec<StateId>,
}

impl GraphBox {
    /// Human-readable label of the box kind.
    pub fn label(&self) -> (r: &'static str)
        ensures
            r@ == box_kind_name(self.kind),
    {
        box_kind_label(self.kind)
    }

    /// Copies the metadata of a bounding box.
    pub fn from_bounding_box(b: &BoundingBox) -> (r: Self)
        ensures
            r.id == b.id,
            r.kind == b.kind,
            r.parent == b.parent,
            r.states@ == b.states@,
    {
        GraphBox { id: b.id, kind: b.kind, parent: b.parent, states: copy_states(&b.states) }
    }
}

fn copy_states(v: &Vec<StateId>) -> (r: Vec<StateId>)
    ensures
        r@ == v@,
{
    let mut out: Vec<StateId> = Vec::new();
    let mut i: usize = 0;
    while i < v.len()
        invariant
            i <= v.len(),
            out@ == v@.take(i as int),
        decreases v.len() - i,
    {
        out.push(v[i]);
        i = i + 1;
        assert(out@ =~= v@.take(i as int));
    }
    assert(v@.take(v.len() as int) =~= v@);
    out
}

/// The bounding boxes of `nfa`, as graph metadata, in order.
pub fn nfa_boxes(nfa: &Nfa) -> (r: Vec<GraphBox>)
    ensures
        r@.len() == nfa.boxes@.len(),
        forall|i: int| 0 <= i < r@.len() ==> {
            &&& (#[trigger] r@[i]).id == nfa.boxes@[i].id
            &&& r@[i].kind == nfa.boxes@[i].kind
            &&& r@[i].parent == nfa.boxes@[i].parent
            &&& r@[i].states@ == nfa.boxes@[i].states@
        },
{
    let mut out: Vec<GraphBox> = Vec::new();
    let mut i: usize = 0;
    while i < nfa.boxes.len()
        invariant
            i <= nfa.boxes@.len(),
            out@.len() == i,
            forall|j: int| 0 <= j < i ==> {
                &&& (#[trigger] out@[j]).id == nfa.boxes@[j].id
                &&& out@[j].kind == nfa.boxes@[j].kind
                &&& out@[j].parent == nfa.boxes@[j].parent
                &&& out@[j].states@ == nfa.boxes@[j].states@
            },
        decreases nfa.boxes.len() - i,
    {
        out.push(GraphBox::from_bounding_box(&nfa.boxes[i]));
        i = i + 1;
    }
    out
}

// ---------------------------------------------------------------------------
// Edge curvature of NFA transitions
// ---------------------------------------------------------------------------

/// The target of the first epsilon transition in `ts` that does not lead to `accept`.
pub open spec fn first_eps_other(ts: Seq<Transition>, accept: StateId) -> Option<StateId>
    decreases ts.len(),
{
    if ts.len() == 0 {
        None
    } else if ts[0].label == EdgeLabel::Eps && ts[0].to != accept {
        Some(ts[0].to)
    } else {
        first_eps_other(ts.drop_first(), accept)
    }
}

/// Whether a box kind is a unary operator (star, plus, optional).
pub open spec fn is_unary_kind(k: BoxKind) -> bool {
    k == BoxKind::KleeneStar || k == BoxKind::KleenePlus || k == BoxKind::Optional
}

/// A later record of `boxes` has the same identifier as record `i`, which
/// it replaces when the boxes are looked up by identifier.
pub open spec fn box_shadowed(boxes: Seq<BoundingBox>, i: int) -> bool {
    exists|j: int| i < j < boxes.len() && (#[trigger] boxes[j]).id == boxes[i].id
}

/// The curve decided by the unary boxes `nfa.boxes[i..]` for the epsilon edge
/// `from -> to`: the bypass of such a box bends down, the loop from an inner
/// accepting state back to the inner start bends up; the first box that
/// decides wins, a record replaced by a later one with the same identifier
/// is passed over, and an edge no box decides is straight.
pub open spec fn curve_scan(nfa: Nfa, from: StateId, to: StateId, i: nat) -> EdgeCurve
    decreases nfa.boxes@.len() - i,
{
    if i >= nfa.boxes@.len() {
        EdgeCurve::Straight
    } else {
        let b = nfa.boxes@[i as int];
        if box_shadowed(nfa.boxes@, i as int) || !is_unary_kind(b.kind) || b.states@.len() != 2 {
            curve_scan(nfa, from, to, i + 1)
        } else {
            let star_start = b.states@[0];
            let star_accept = b.states@[1];
            if from == star_start && to == star_accept {
                EdgeCurve::CurveDown
            } else {
                match first_eps_other(transitions_from(nfa.edges@, star_start), star_accept) {
                    Some(inner_start) => if to == inner_start && from != star_start && nfa.has_edge(
                        from,
                        EdgeLabel::Eps,
                        star_accept,
                    ) {
                        EdgeCurve::CurveUp
                    } else {
                        curve_scan(nfa, from, to, i + 1)
                    },
                    None => curve_scan(nfa, from, to, i + 1),
                }
            }
        }
    }
}

/// The curve of the NFA transition `from --label--> to`: symbol transitions
/// are straight, epsilon transitions follow `curve_scan`.
pub open spec fn edge_curve(nfa: Nfa, from: StateId, to: StateId, label: EdgeLabel) -> EdgeCurve {
    if label != EdgeLabel::Eps {
        EdgeCurve::Straight
    } else {
        curve_scan(nfa, from, to, 0)
    }
}

/// The epsilon edge `from -> to` leads from an inner accepting state of box
/// `b` back to its inner start: the loop that a star or plus box bends up.
pub open spec fn loops_back_in(nfa: Nfa, b: BoundingBox, from: StateId, to: StateId) -> bool {
    &&& b.states@.len() == 2
    &&& from != b.states@[0]
    &&& first_eps_other(transitions_from(nfa.edges@, b.states@[0]), b.states@[1]) == Some(to)
    &&& nfa.has_edge(from, EdgeLabel::Eps, b.states@[1])
}

proof fn lemma_bypass_scan(nfa: Nfa, k: int, j: int)
    requires
        0 <= j <= k < nfa.boxes@.len(),
        !box_shadowed(nfa.boxes@, k),
        nfa.boxes@[k].kind == BoxKind::KleeneStar || nfa.boxes@[k].kind == BoxKind::KleenePlus
            || nfa.boxes@[k].kind == BoxKind::Optional,
        nfa.boxes@[k].states@.len() == 2,
        forall|i: int| 0 <= i < nfa.boxes@.len() ==> !#[trigger] loops_back_in(
            nfa,
            nfa.boxes@[i],
            nfa.boxes@[k].states@[0],
            nfa.boxes@[k].states@[1],
        ),
    ensures
        curve_scan(nfa, nfa.boxes@[k].states@[0], nfa.boxes@[k].states@[1], j as nat) == EdgeCurve::CurveDown,
    decreases k - j,
{
    let s = nfa.boxes@[k].states@[0];
    let t = nfa.boxes@[k].states@[1];
    if j < k {
        lemma_bypass_scan(nfa, k, j + 1);
        assert(!loops_back_in(nfa, nfa.boxes@[j], s, t));
    }
}

/// Law: the epsilon edge from the start to the accepting state of a star,
/// plus or optional box (the bypass around its inner fragment) bends down,
/// unless the box record is replaced by a later one with the same
/// identifier or the edge is also the loop back of some box.
pub proof fn lemma_bypass_bends_down(nfa: Nfa, k: int)
    requires
        0 <= k < nfa.boxes@.len(),
        !box_shadowed(nfa.boxes@, k),
        nfa.boxes@[k].kind == BoxKind::KleeneStar || nfa.boxes@[k].kind == BoxKind::KleenePlus
            || nfa.boxes@[k].kind == BoxKind::Optional,
        nfa.boxes@[k].states@.len() == 2,
        forall|i: int| 0 <= i < nfa.boxes@.len() ==> !#[trigger] loops_back_in(
            nfa,
            nfa.boxes@[i],
            nfa.boxes@[k].states@[0],
            nfa.boxes@[k].states@[1],
        ),
    ensures
        edge_curve(nfa, nfa.boxes@[k].states@[0], nfa.boxes@[k].states@[1], EdgeLabel::Eps) == EdgeCurve::CurveDown,
{
    lemma_bypass_scan(nfa, k, 0);
}

/// No box has `from -> to` as its bypass (start to accepting state).
pub open spec fn no_box_bypass(nfa: Nfa, from: StateId, to: StateId) -> bool {
    forall|i: int| #![trigger nfa.boxes@[i]] 0 <= i < nfa.boxes@.len()
        ==> !(nfa.boxes@[i].states@.len() == 2 && from == nfa.boxes@[i].states@[0] && to == nfa.boxes@[i].states@[1])
}

proof fn lemma_loop_back_scan(nfa: Nfa, from: StateId, to: StateId, k: int, j: int)
    requires
        0 <= j <= k < nfa.boxes@.len(),
        !box_shadowed(nfa.boxes@, k),
        nfa.boxes@[k].kind == BoxKind::KleeneStar || nfa.boxes@[k].kind == BoxKind::KleenePlus
            || nfa.boxes@[k].kind == BoxKind::Optional,
        loops_back_in(nfa, nfa.boxes@[k], from, to),
        no_box_bypass(nfa, from, to),
    ensures
        curve_scan(nfa, from, to, j as nat) == EdgeCurve::CurveUp,
    decreases k - j,
{
    if j < k {
        lemma_loop_back_scan(nfa, from, to, k, j + 1);
        let b = nfa.boxes@[j];
        assert(!(b.states@.len() == 2 && from == b.states@[0] && to == b.states@[1]));
    } else {
        let b = nfa.boxes@[k];
        assert(!(b.states@.len() == 2 && from == b.states@[0] && to == b.states@[1]));
    }
}

/// Law: the epsilon edge from an inner accepting state of a star, plus or
/// optional box back to its inner start bends up, unless the box record is
/// replaced by a later one with the same identifier or the edge is also the
/// bypass of some box.
pub proof fn lemma_loop_back_bends_up(nfa: Nfa, from: StateId, to: StateId, k: int)
    requires
        0 <= k < nfa.boxes@.len(),
        !box_shadowed(nfa.boxes@, k),
        nfa.boxes@[k].kind == BoxKind::KleeneStar || nfa.boxes@[k].kind == BoxKind::KleenePlus
            || nfa.boxes@[k].kind == BoxKind::Optional,
        loops_back_in(nfa, nfa.boxes@[k], from, to),
        no_box_bypass(nfa, from, to),
    ensures
        edge_curve(nfa, from, to, EdgeLabel::Eps) == EdgeCurve::CurveUp,
{
    lemma_loop_back_scan(nfa, from, to, k, 0);
}

/// No box has `from -> to` as its bypass (start to accepting state) or as
/// its loop back.
pub open spec fn no_box_decides(nfa: Nfa, from: StateId, to: StateId) -> bool {
    forall|i: int| #![trigger nfa.boxes@[i]] 0 <= i < nfa.boxes@.len() ==> {
        &&& !(nfa.boxes@[i].states@.len() == 2 && from == nfa.boxes@[i].states@[0] && to == nfa.boxes@[i].states@[1])
        &&& !loops_back_in(nfa, nfa.boxes@[i], from, to)
    }
}

/// Law: an epsilon edge that no box bypasses and no box loops back along is
/// straight, and a symbol edge is always straight.
pub proof fn lemma_undecided_edges_straight(nfa: Nfa, from: StateId, to: StateId, label: EdgeLabel)
    requires
        label == EdgeLabel::Eps ==> no_box_decides(nfa, from, to),
    ensures
        edge_curve(nfa, from, to, label) == EdgeCurve::Straight,
{
    if label == EdgeLabel::Eps {
        lemma_undecided_scan(nfa, from, to, 0);
    }
}

proof fn lemma_undecided_scan(nfa: Nfa, from: StateId, to: StateId, j: nat)
    requires
        no_box_decides(nfa, from, to),
    ensures
        curve_scan(nfa, from, to, j) == EdgeCurve::Straight,
    decreases nfa.boxes@.len() - j,
{
    if j < nfa.boxes@.len() {
        let b = nfa.boxes@[j as int];
        assert(!loops_back_in(nfa, b, from, to));
        lemma_undecided_scan(nfa, from, to, j + 1);
    }
}

fn first_eps_other_exec(ts: &Vec<Transition>, accept: StateId) -> (r: Option<StateId>)
    ensures
        r == first_eps_other(ts@, accept),
{
    let mut i: usize = 0;
    assert(ts@.skip(0) =~= ts@);
    while i < ts.len()
        invariant
            i <= ts@.len(),
            first_eps_other(ts@, accept) == first_eps_other(ts@.skip(i as int), accept),
        decreases ts.len() - i,
    {
        assert(ts@.skip(i as int).drop_first() =~= ts@.skip(i + 1));
        if ts[i].label.is_eps() && ts[i].to != accept {
            return Some(ts[i].to);
        }
        i = i + 1;
    }
    None
}

fn has_eps_to(ts: &Vec<Transition>, target: StateId) -> (r: bool)
    ensures
        r == ts@.contains(Transition { label: EdgeLabel::Eps, to: target }),
{
    let mut i: usize = 0;
    while i < ts.len()
        invariant
            i <= ts@.len(),
            forall|j: int| 0 <= j < i ==> ts@[j] != (Transition { label: EdgeLabel::Eps, to: target }),
        decreases ts.len() - i,
    {
        if ts[i].to == target && ts[i].label.is_eps() {
            return true;
        }
        i = i + 1;
    }
    false
}

fn is_box_shadowed(boxes: &Vec<BoundingBox>, i: usize) -> (r: bool)
    requires
        i < boxes@.len(),
    ensures
        r == box_shadowed(boxes@, i as int),
{
    let len = boxes.len();
    let mut j: usize = i + 1;
    while j < len
        invariant
            len == boxes@.len(),
            i < j <= boxes@.len(),
            forall|k: int| i < k < j ==> (#[trigger] boxes@[k]).id != boxes@[i as int].id,
        decreases boxes.len() - j,
    {
        if boxes[j].id == boxes[i].id {
            assert(i < j < boxes@.len() && boxes@[j as int].id == boxes@[i as int].id);
            return true;
        }
        j = j + 1;
    }
    false
}

/// Decides how the NFA transition `from --label--> to` is drawn (see `edge_curve`).
pub fn determine_edge_curve(from: StateId, to: StateId, label: EdgeLabel, nfa: &Nfa) -> (r: EdgeCurve)
    ensures
        r == edge_curve(*nfa, from, to, label),
{
    if !label.is_eps() {
        return EdgeCurve::Straight;
    }
    let mut i: usize = 0;
    while i < nfa.boxes.len()
        invariant
            i <= nfa.boxes@.len(),
            label == EdgeLabel::Eps,
            edge_curve(*nfa, from, to, label) == curve_scan(*nfa, from, to, i as nat),
        decreases nfa.boxes.len() - i,
    {
        let b = &nfa.boxes[i];
        let shadowed = is_box_shadowed(&nfa.boxes, i);
        let unary = match b.kind {
            BoxKind::KleeneStar => true,
            BoxKind::KleenePlus => true,
            BoxKind::Optional => true,
            _ => false,
        };
        if !shadowed && unary && b.states.len() == 2 {
            let star_start = b.states[0];
            let star_accept = b.states[1];
            if from == star_start && to == star_accept {
                return EdgeCurve::CurveDown;
            }
            let start_ts = nfa.transitions(star_start);
            match first_eps_other_exec(&start_ts, star_accept) {
                Some(inner_start) => {
                    if to == inner_start && from != star_start {
                        let from_ts = nfa.transitions(from);
                        let from_is_inner_accept = has_eps_to(&from_ts, star_accept);
                        proof {
                            crate::automaton::lemma_transitions_from(nfa.edges@, from);
                        }
                        if from_is_inner_accept {
                            return EdgeCurve::CurveUp;
                        }
                    }
                },
                None => {},
            }
        }
        i = i + 1;
    }
    EdgeCurve::Straight
}

// ---------------------------------------------------------------------------
// NFA as a graph
// ---------------------------------------------------------------------------

/// Abstract value of a graph edge.
pub struct EdgeView {
    pub from: StateId,
    pub to: StateId,
    pub label: Seq<char>,
    pub curve: EdgeCurve,
    pub is_active: bool,
}

impl View for GraphEdge {
    type V = EdgeView;

    open spec fn view(&self) -> EdgeView {
        EdgeView { from: self.from, to: self.to, label: self.label@, curve: self.curve, is_active: self.is_active }
    }
}

/// Text shown on an automaton transition: epsilon, or the quoted symbol.
pub open spec fn label_text(label: EdgeLabel) -> Seq<char> {
    match label {
        EdgeLabel::Eps => seq!['\u{03B5}'],
        EdgeLabel::Sym(c) => quoted(c),
    }
}

fn label_string(label: EdgeLabel) -> (r: String)
    ensures
        r@ == label_text(label),
{
    let mut s = String::new();
    match label {
        EdgeLabel::Eps => {
            push_char(&mut s, '\u{03B5}');
            assert(s@ =~= seq!['\u{03B5}']);
        },
        EdgeLabel::Sym(c) => {
            push_quoted(&mut s, c);
            assert(s@ =~= quoted(c));
        },
    }
    s
}

/// The rendered edge of the NFA transition `from --t.label--> t.to`.
pub open spec fn nfa_edge_view(nfa: Nfa, hl: Highlights, from: StateId, t: Transition) -> EdgeView {
    EdgeView {
        from,
        to: t.to,
        label: label_text(t.label),
        curve: edge_curve(nfa, from, t.to, t.label),
        is_active: hl.edges@.contains(crate::highlight::EdgeHighlight { from, to: t.to, label: t.label }),
    }
}

/// The rendered edges of the NFA: for each of the first `k` states in order,
/// its transitions in order.
pub open spec fn nfa_graph_edges(nfa: Nfa, hl: Highlights, k: nat) -> Seq<EdgeView>
    decreases k,
{
    if k == 0 {
        Seq::empty()
    } else {
        let from = nfa.states@[k - 1].id;
        nfa_graph_edges(nfa, hl, (k - 1) as nat) + transitions_from(nfa.edges@, from).map_values(
            |t: Transition| nfa_edge_view(nfa, hl, from, t),
        )
    }
}

/// The rendered edges of the NFA, with curves and simulation highlights.
pub fn nfa_build_edges(nfa: &Nfa, highlights: &Highlights) -> (r: Vec<GraphEdge>)
    ensures
        r@.map_values(|e: GraphEdge| e@) == nfa_graph_edges(*nfa, *highlights, nfa.states@.len()),
{
    let mut out: Vec<GraphEdge> = Vec::new();
    let mut i: usize = 0;
    while i < nfa.states.len()
        invariant
            i <= nfa.states@.len(),
            out@.map_values(|e: GraphEdge| e@) == nfa_graph_edges(*nfa, *highlights, i as nat),
        decreases nfa.states.len() - i,
    {
        let from = nfa.states[i].id;
        let ts = nfa.transitions(from);
        let ghost base = out@.map_values(|e: GraphEdge| e@);
        let ghost mapped = ts@.map_values(|t: Transition| nfa_edge_view(*nfa, *highlights, from, t));
        let mut j: usize = 0;
        while j < ts.len()
            invariant
                j <= ts@.len(),
                ts@ == transitions_from(nfa.edges@, from),
                mapped == ts@.map_values(|t: Transition| nfa_edge_view(*nfa, *highlights, from, t)),
                out@.map_values(|e: GraphEdge| e@) == base + mapped.take(j as int),
            decreases ts.len() - j,
        {
            let t = ts[j];
            let label = label_string(t.label);
            let curve = determine_edge_curve(from, t.to, t.label, nfa);
            let is_active = highlights.is_edge_active(from, t.to, t.label);
            let ghost before = out@;
            out.push(GraphEdge::with_curve(from, t.to, label, curve).with_active(is_active));
            j = j + 1;
            proof {
                assert(out@.map_values(|e: GraphEdge| e@) =~= before.map_values(|e: GraphEdge| e@).push(
                    out@[out@.len() - 1]@,
                ));
                assert(mapped.take(j as int) =~= mapped.take(j - 1).push(mapped[j - 1]));
                assert(out@.map_values(|e: GraphEdge| e@) =~= base + mapped.take(j as int));
            }
        }
        assert(mapped.take(ts@.len() as int) =~= mapped);
        i = i + 1;
    }
    out
}

/// The rendered nodes of the NFA states, in order, with highlights and pins.
pub fn nfa_build_nodes<P: Copy>(nfa: &Nfa, highlights: &Highlights, pinned: &HashMap<u32, P>) -> (r: Vec<GraphNode<P>>)
    ensures
        r@.len() == nfa.states@.len(),
        forall|i: int| 0 <= i < r@.len() ==> {
            let id = nfa.states@[i].id;
            &&& (#[trigger] r@[i]).id == id
            &&& r@[i].label@ == decimal(id as nat)
            &&& r@[i].is_start == (nfa.start == id)
            &&& r@[i].is_accept == nfa.is_accept(id)
            &&& r@[i].box_id == nfa.states@[i].box_id
            &&& r@[i].highlight == style_of(highlights.states@, id)
            &&& r@[i].is_pinned == pinned@.contains_key(id)
            &&& r@[i].manual_position == (if pinned@.contains_key(id) { Some(pinned@[id]) } else { None })
        },
{
    let mut out: Vec<GraphNode<P>> = Vec::new();
    let mut i: usize = 0;
    while i < nfa.states.len()
        invariant
            i <= nfa.states@.len(),
            out@.len() == i,
            forall|k: int| 0 <= k < i ==> {
                let id = nfa.states@[k].id;
                &&& (#[trigger] out@[k]).id == id
                &&& out@[k].label@ == decimal(id as nat)
                &&& out@[k].is_start == (nfa.start == id)
                &&& out@[k].is_accept == nfa.is_accept(id)
                &&& out@[k].box_id == nfa.states@[k].box_id
                &&& out@[k].highlight == style_of(highlights.states@, id)
                &&& out@[k].is_pinned == pinned@.contains_key(id)
                &&& out@[k].manual_position == (if pinned@.contains_key(id) { Some(pinned@[id]) } else { None })
            },
        decreases nfa.states.len() - i,
    {
        let st = nfa.states[i];
        let highlight = highlights.state_style(st.id);
        let mut node = GraphNode::new(
            st.id,
            u32_to_decimal(st.id),
            nfa.start == st.id,
            nfa.accepts_state(st.id),
            st.box_id,
        ).with_highlight(highlight);
        match pinned_at(pinned, st.id) {
            Some(pos) => {
                node.manual_position = Some(pos);
                node.is_pinned = true;
            },
            None => {},
        }
        out.push(node);
        i = i + 1;
    }
    out
}

// ---------------------------------------------------------------------------
// DFA as a graph
// ---------------------------------------------------------------------------

/// Row `si` of the table (the row of the `si`-th listed state) moves on the
/// `k`-th symbol to `to`.
pub open spec fn dfa_cell(dfa: Dfa, si: int, k: int, to: StateId) -> bool {
    dfa.trans@[si]@[k] == Some(to)
}

/// The DFA moves from `from` to `to` on symbol `c`.
pub open spec fn dfa_move(dfa: Dfa, alphabet: Seq<char>, from: StateId, to: StateId, c: char) -> bool {
    exists|si: int, k: int|
        0 <= si < dfa.states@.len() && 0 <= k < alphabet.len() && dfa.states@[si] == from && alphabet[k] == c
            && #[trigger] dfa_cell(dfa, si, k, to)
}

/// Some symbol moves the DFA from `from` to `to`.
pub open spec fn dfa_pair(dfa: Dfa, alphabet: Seq<char>, from: StateId, to: StateId) -> bool {
    exists|c: char| #[trigger] dfa_move(dfa, alphabet, from, to, c)
}

/// The characters of `s` are strictly increasing.
pub open spec fn strictly_sorted(s: Seq<char>) -> bool {
    forall|i: int, j: int| 0 <= i < j < s.len() ==> s[i] < s[j]
}

/// The quoted characters of `cs`, separated by `", "`.
pub open spec fn join_quoted(cs: Seq<char>) -> Seq<char>
    decreases cs.len(),
{
    if cs.len() == 0 {
        Seq::empty()
    } else if cs.len() == 1 {
        quoted(cs[0])
    } else {
        join_quoted(cs.drop_last()) + seq![',', ' '] + quoted(cs.last())
    }
}

/// A rendered DFA edge: the transitions between one ordered pair of states,
/// labelled with their symbols in increasing order, each once; a self-loop,
/// bent down when the opposite pair also has an edge, else straight; active
/// when one of its symbols was just taken.
pub open spec fn dfa_edge_ok(dfa: Dfa, alphabet: Seq<char>, hl: Highlights, e: EdgeView) -> bool {
    &&& dfa_pair(dfa, alphabet, e.from, e.to)
    &&& exists|syms: Seq<char>|
        strictly_sorted(syms) && (forall|c: char| #[trigger] syms.contains(c) <==> dfa_move(dfa, alphabet, e.from, e.to, c))
            && e.label == join_quoted(syms)
    &&& e.curve == (if e.from == e.to {
        EdgeCurve::Loop
    } else if dfa_pair(dfa, alphabet, e.to, e.from) {
        EdgeCurve::CurveDown
    } else {
        EdgeCurve::Straight
    })
    &&& e.is_active == (exists|c: char|
        #[trigger] dfa_move(dfa, alphabet, e.from, e.to, c) && hl.edges@.contains(
            EdgeHighlight { from: e.from, to: e.to, label: EdgeLabel::Sym(c) },
        ))
}

/// Inserts `c` into the strictly increasing `v` unless it is present.
pub fn insert_sorted(v: &mut Vec<char>, c: char)
    requires
        strictly_sorted(old(v)@),
    ensures
        strictly_sorted(final(v)@),
        forall|x: char| #[trigger] final(v)@.contains(x) <==> old(v)@.contains(x) || x == c,
{
    let mut p: usize = 0;
    loop
        invariant
            p <= v@.len(),
            v@ == old(v)@,
            forall|q: int| 0 <= q < p ==> v@[q] < c,
        ensures
            p <= v@.len(),
            v@ == old(v)@,
            forall|q: int| 0 <= q < p ==> v@[q] < c,
            p < v@.len() ==> v@[p as int] >= c,
        decreases v.len() - p,
    {
        if p >= v.len() {
            break;
        }
        if v[p] >= c {
            break;
        }
        p = p + 1;
    }
    if p < v.len() && v[p] == c {
        return;
    }
    proof {
        if p < v@.len() {
            assert(v@[p as int] > c);
        }
    }
    v.insert(p, c);
    proof {
        assert forall|x: char| #[trigger] v@.contains(x) <==> old(v)@.contains(x) || x == c by {
            if v@.contains(x) {
                let q = choose|q: int| 0 <= q < v@.len() && v@[q] == x;
                if q < p {
                    assert(old(v)@[q] == x);
                } else if q > p {
                    assert(old(v)@[q - 1] == x);
                }
            }
            if old(v)@.contains(x) {
                let q = choose|q: int| 0 <= q < old(v)@.len() && old(v)@[q] == x;
                if q < p {
                    assert(v@[q] == x);
                } else {
                    assert(v@[q + 1] == x);
                }
            }
            if x == c {
                assert(v@[p as int] == c);
            }
        }
    }
}

/// The quoted characters of `cs` separated by `", "`.
pub fn join_quoted_string(cs: &Vec<char>) -> (r: String)
    ensures
        r@ == join_quoted(cs@),
{
    let mut s = String::new();
    let mut i: usize = 0;
    while i < cs.len()
        invariant
            i <= cs@.len(),
            s@ == join_quoted(cs@.take(i as int)),
        decreases cs.len() - i,
    {
        let ghost prev = cs@.take(i as int);
        assert(cs@.take(i + 1).drop_last() =~= prev);
        if i > 0 {
            push_char(&mut s, ',');
            push_char(&mut s, ' ');
        }
        push_quoted(&mut s, cs[i]);
        i = i + 1;
        proof {
            let cur = cs@.take(i as int);
            if i == 1 {
                assert(prev =~= Seq::<char>::empty());
                assert(s@ =~= quoted(cur[0]));
            } else {
                assert(cur.last() == cs@[i - 1]);
                assert(s@ =~= join_quoted(prev) + seq![',', ' '] + quoted(cur.last()));
            }
        }
    }
    assert(cs@.take(cs@.len() as int) =~= cs@);
    s
}

/// One transition of a DFA table: `from --sym--> to`.
#[derive(Clone, Copy, PartialEq, Eq, Structural)]
struct Move {
    from: StateId,
    to: StateId,
    sym: char,
}

spec fn seen(mv: Seq<Move>, f: StateId, t: StateId, c: char, n: int) -> bool {
    exists|q: int| 0 <= q < n && #[trigger] mv[q] == (Move { from: f, to: t, sym: c })
}

proof fn lemma_table_step(dfa: Dfa, alpha: Seq<char>, pre: Seq<Move>, m: Move, i: int, j: int)
    requires
        0 <= i < dfa.states@.len(),
        0 <= j < alpha.len(),
        m == (Move { from: dfa.states@[i], to: m.to, sym: alpha[j] }),
        dfa_cell(dfa, i, j, m.to),
        forall|q: int| 0 <= q < pre.len() ==> dfa_move(dfa, alpha, (#[trigger] pre[q]).from, pre[q].to, pre[q].sym),
        forall|si: int, k: int, t: StateId|
            ((0 <= si < i && 0 <= k < alpha.len()) || (si == i && 0 <= k < j)) && #[trigger] dfa_cell(dfa, si, k, t)
                ==> pre.contains(Move { from: dfa.states@[si], to: t, sym: alpha[k] }),
    ensures
        forall|q: int| 0 <= q < pre.push(m).len() ==> dfa_move(dfa, alpha, (#[trigger] pre.push(m)[q]).from, pre.push(m)[q].to, pre.push(m)[q].sym),
        forall|si: int, k: int, t: StateId|
            ((0 <= si < i && 0 <= k < alpha.len()) || (si == i && 0 <= k < j + 1)) && #[trigger] dfa_cell(dfa, si, k, t)
                ==> pre.push(m).contains(Move { from: dfa.states@[si], to: t, sym: alpha[k] }),
{
    let post = pre.push(m);
    assert(dfa_move(dfa, alpha, m.from, m.to, m.sym));
    assert forall|q: int| 0 <= q < post.len() implies dfa_move(dfa, alpha, (#[trigger] post[q]).from, post[q].to, post[q].sym) by {
        if q < pre.len() {
            assert(post[q] == pre[q]);
        }
    }
    assert forall|si: int, k: int, t: StateId|
        ((0 <= si < i && 0 <= k < alpha.len()) || (si == i && 0 <= k < j + 1)) && #[trigger] dfa_cell(dfa, si, k, t)
            implies post.contains(Move { from: dfa.states@[si], to: t, sym: alpha[k] }) by {
        if si == i && k == j {
            assert(post[pre.len() as int] == m);
        } else {
            let q = choose|q: int| 0 <= q < pre.len() && pre[q] == (Move { from: dfa.states@[si], to: t, sym: alpha[k] });
            assert(post[q] == pre[q]);
        }
    }
}

/// The transitions of the table, row by row, symbol by symbol.
fn table_moves(dfa: &Dfa, alphabet: &[char]) -> (r: Vec<Move>)
    requires
        dfa.trans@.len() >= dfa.states@.len(),
        forall|si: int| 0 <= si < dfa.states@.len() ==> #[trigger] dfa.trans@[si]@.len() >= alphabet@.len(),
    ensures
        forall|f: StateId, t: StateId, c: char|
            #[trigger] dfa_move(*dfa, alphabet@, f, t, c) <==> r@.contains(Move { from: f, to: t, sym: c }),
{
    let ghost alpha = alphabet@;
    let mut out: Vec<Move> = Vec::new();
    let mut i: usize = 0;
    while i < dfa.states.len()
        invariant
            i <= dfa.states@.len(),
            alpha == alphabet@,
            dfa.trans@.len() >= dfa.states@.len(),
            forall|si: int| 0 <= si < dfa.states@.len() ==> #[trigger] dfa.trans@[si]@.len() >= alpha.len(),
            forall|q: int| 0 <= q < out@.len() ==> dfa_move(*dfa, alpha, (#[trigger] out@[q]).from, out@[q].to, out@[q].sym),
            forall|si: int, k: int, t: StateId|
                0 <= si < i && 0 <= k < alpha.len() && #[trigger] dfa_cell(*dfa, si, k, t)
                    ==> out@.contains(Move { from: dfa.states@[si], to: t, sym: alpha[k] }),
        decreases dfa.states.len() - i,
    {
        let from = dfa.states[i];
        let row = &dfa.trans[i];
        let mut j: usize = 0;
        while j < alphabet.len()
            invariant
                i < dfa.states@.len(),
                j <= alpha.len(),
                alpha == alphabet@,
                from == dfa.states@[i as int],
                dfa.trans@.len() >= dfa.states@.len(),
                *row == dfa.trans@[i as int],
                row@.len() >= alpha.len(),
                forall|q: int| 0 <= q < out@.len() ==> dfa_move(*dfa, alpha, (#[trigger] out@[q]).from, out@[q].to, out@[q].sym),
                forall|si: int, k: int, t: StateId|
                    ((0 <= si < i && 0 <= k < alpha.len()) || (si == i && 0 <= k < j)) && #[trigger] dfa_cell(*dfa, si, k, t)
                        ==> out@.contains(Move { from: dfa.states@[si], to: t, sym: alpha[k] }),
            decreases alphabet.len() - j,
        {
            match row[j] {
                Some(to) => {
                    let m = Move { from, to, sym: alphabet[j] };
                    proof {
                        assert(dfa_cell(*dfa, i as int, j as int, to));
                        assert(dfa_move(*dfa, alpha, from, to, alphabet[j as int]));
                    }
                    let ghost pre_push = out@;
                    out.push(m);
                    proof {
                        lemma_table_step(*dfa, alpha, pre_push, m, i as int, j as int);
                    }
                },
                None => {},
            }
            j = j + 1;
        }
        i = i + 1;
    }
    proof {
        assert forall|f: StateId, t: StateId, c: char|
            #[trigger] dfa_move(*dfa, alpha, f, t, c) <==> out@.contains(Move { from: f, to: t, sym: c }) by {
            if dfa_move(*dfa, alpha, f, t, c) {
                let (si, k) = choose|si: int, k: int|
                    0 <= si < dfa.states@.len() && 0 <= k < alpha.len() && dfa.states@[si] == f && alpha[k] == c
                        && #[trigger] dfa_cell(*dfa, si, k, t);
                assert(dfa_cell(*dfa, si, k, t));
            }
            if out@.contains(Move { from: f, to: t, sym: c }) {
                let q = choose|q: int| 0 <= q < out@.len() && out@[q] == (Move { from: f, to: t, sym: c });
                assert(dfa_move(*dfa, alpha, out@[q].from, out@[q].to, out@[q].sym));
            }
        }
    }
    out
}

spec fn pair_of(mv: Seq<Move>, f: StateId, t: StateId) -> bool {
    exists|q: int| 0 <= q < mv.len() && (#[trigger] mv[q]).from == f && mv[q].to == t
}

/// The distinct (from, to) pairs of `mv`, in order of first occurrence.
fn distinct_pairs(mv: &Vec<Move>) -> (r: Vec<(StateId, StateId)>)
    ensures
        r@.no_duplicates(),
        forall|f: StateId, t: StateId| #[trigger] r@.contains((f, t)) <==> pair_of(mv@, f, t),
{
    let mut out: Vec<(StateId, StateId)> = Vec::new();
    let mut q: usize = 0;
    while q < mv.len()
        invariant
            q <= mv@.len(),
            out@.no_duplicates(),
            forall|f: StateId, t: StateId| #[trigger] out@.contains((f, t)) <==> pair_of(mv@.take(q as int), f, t),
        decreases mv.len() - q,
    {
        let m = mv[q];
        let mut found = false;
        let mut a: usize = 0;
        while a < out.len()
            invariant
                a <= out@.len(),
                !found ==> forall|b: int| 0 <= b < a ==> out@[b] != (m.from, m.to),
                found ==> out@.contains((m.from, m.to)),
            decreases out.len() - a,
        {
            if out[a].0 == m.from && out[a].1 == m.to {
                found = true;
            }
            a = a + 1;
        }
        let ghost before = out@;
        if !found {
            out.push((m.from, m.to));
        }
        proof {
            lemma_pairs_step(mv@, before, out@, q as int, found);
        }
        q = q + 1;
    }
    assert(mv@.take(mv@.len() as int) =~= mv@);
    out
}

proof fn lemma_pairs_step(mv: Seq<Move>, before: Seq<(StateId, StateId)>, after: Seq<(StateId, StateId)>, q: int, found: bool)
    requires
        0 <= q < mv.len(),
        before.no_duplicates(),
        forall|f: StateId, t: StateId| #[trigger] before.contains((f, t)) <==> pair_of(mv.take(q), f, t),
        found ==> before.contains((mv[q].from, mv[q].to)) && after == before,
        !found ==> !before.contains((mv[q].from, mv[q].to)) && after == before.push((mv[q].from, mv[q].to)),
    ensures
        after.no_duplicates(),
        forall|f: StateId, t: StateId| #[trigger] after.contains((f, t)) <==> pair_of(mv.take(q + 1), f, t),
{
    let m = mv[q];
    let pre = mv.take(q);
    let cur = mv.take(q + 1);
    assert(cur =~= pre.push(m));
    assert forall|f: StateId, t: StateId| #[trigger] after.contains((f, t)) <==> pair_of(cur, f, t) by {
        if pair_of(cur, f, t) {
            let k = choose|k: int| 0 <= k < cur.len() && (#[trigger] cur[k]).from == f && cur[k].to == t;
            if k < q {
                assert(pre[k] == cur[k]);
                assert(pair_of(pre, f, t));
                assert(before.contains((f, t)));
                if !found {
                    let b = choose|b: int| 0 <= b < before.len() && before[b] == (f, t);
                    assert(after[b] == before[b]);
                }
            } else {
                if !found {
                    assert(after[before.len() as int] == (f, t));
                }
            }
        }
        if after.contains((f, t)) {
            let b = choose|b: int| 0 <= b < after.len() && after[b] == (f, t);
            if b < before.len() {
                assert(before[b] == after[b]);
                assert(before.contains((f, t)));
                let k = choose|k: int| 0 <= k < pre.len() && (#[trigger] pre[k]).from == f && pre[k].to == t;
                assert(cur[k] == pre[k]);
            } else {
                assert(cur[q] == m);
            }
        }
    }
    if !found {
        assert forall|a: int, b: int| 0 <= a < b < after.len() implies after[a] != after[b] by {
            if b == before.len() {
                assert(before.contains(after[a]));
            } else {
                assert(before[a] != before[b]);
            }
        }
    }
}

/// The symbols moving `f` to `t`, strictly increasing.
fn pair_symbols(mv: &Vec<Move>, f: StateId, t: StateId) -> (r: Vec<char>)
    ensures
        strictly_sorted(r@),
        forall|c: char| #[trigger] r@.contains(c) <==> mv@.contains(Move { from: f, to: t, sym: c }),
{
    let mut out: Vec<char> = Vec::new();
    let mut q: usize = 0;
    while q < mv.len()
        invariant
            q <= mv@.len(),
            strictly_sorted(out@),
            forall|c: char| #[trigger] out@.contains(c) <==> mv@.take(q as int).contains(Move { from: f, to: t, sym: c }),
        decreases mv.len() - q,
    {
        let m = mv[q];
        let ghost before = out@;
        if m.from == f && m.to == t {
            insert_sorted(&mut out, m.sym);
        }
        proof {
            let pre = mv@.take(q as int);
            let cur = mv@.take(q + 1);
            assert(cur =~= pre.push(m));
            assert forall|c: char| #[trigger] out@.contains(c) <==> cur.contains(Move { from: f, to: t, sym: c }) by {
                let mc = Move { from: f, to: t, sym: c };
                if cur.contains(mc) {
                    let k = choose|k: int| 0 <= k < cur.len() && cur[k] == mc;
                    if k < q {
                        assert(pre[k] == mc);
                        assert(before.contains(c));
                    }
                }
                if pre.contains(mc) {
                    let k = choose|k: int| 0 <= k < pre.len() && pre[k] == mc;
                    assert(cur[k] == mc);
                }
                if out@.contains(c) && !before.contains(c) {
                    assert(m == mc);
                    assert(cur[q as int] == mc);
                }
            }
        }
        q = q + 1;
    }
    assert(mv@.take(mv@.len() as int) =~= mv@);
    out
}

/// Whether some move `f --c--> t` of `mv` was taken in the highlighted step.
fn pair_active(mv: &Vec<Move>, f: StateId, t: StateId, hl: &Highlights) -> (r: bool)
    ensures
        r == (exists|c: char|
            #[trigger] mv@.contains(Move { from: f, to: t, sym: c }) && hl.edges@.contains(
                EdgeHighlight { from: f, to: t, label: EdgeLabel::Sym(c) },
            )),
{
    let mut q: usize = 0;
    while q < mv.len()
        invariant
            q <= mv@.len(),
            forall|k: int|
                0 <= k < q && (#[trigger] mv@[k]).from == f && mv@[k].to == t ==> !hl.edges@.contains(
                    EdgeHighlight { from: f, to: t, label: EdgeLabel::Sym(mv@[k].sym) },
                ),
        decreases mv.len() - q,
    {
        let m = mv[q];
        if m.from == f && m.to == t && hl.is_edge_active(f, t, EdgeLabel::Sym(m.sym)) {
            proof {
                assert(mv@[q as int] == (Move { from: f, to: t, sym: m.sym }));
                assert(mv@.contains(Move { from: f, to: t, sym: m.sym }));
            }
            return true;
        }
        q = q + 1;
    }
    proof {
        assert forall|c: char|
            !(#[trigger] mv@.contains(Move { from: f, to: t, sym: c }) && hl.edges@.contains(
                EdgeHighlight { from: f, to: t, label: EdgeLabel::Sym(c) },
            )) by {
            if mv@.contains(Move { from: f, to: t, sym: c }) {
                let k = choose|k: int| 0 <= k < mv@.len() && mv@[k] == (Move { from: f, to: t, sym: c });
                assert(mv@[k].from == f);
            }
        }
    }
    false
}

fn contains_pair(v: &Vec<(StateId, StateId)>, p: (StateId, StateId)) -> (r: bool)
    ensures
        r == v@.contains(p),
{
    let mut i: usize = 0;
    while i < v.len()
        invariant
            i <= v@.len(),
            forall|j: int| 0 <= j < i ==> v@[j] != p,
        decreases v.len() - i,
    {
        if v[i].0 == p.0 && v[i].1 == p.1 {
            return true;
        }
        i = i + 1;
    }
    false
}

/// The rendered DFA edges: one per ordered pair of states joined by a
/// transition (see `dfa_edge_ok`), each pair once and every pair present.
pub fn dfa_build_edges(dfa: &Dfa, alphabet: &[char], highlights: &Highlights) -> (r: Vec<GraphEdge>)
    requires
        dfa.trans@.len() >= dfa.states@.len(),
        forall|si: int| 0 <= si < dfa.states@.len() ==> #[trigger] dfa.trans@[si]@.len() >= alphabet@.len(),
    ensures
        forall|i: int| 0 <= i < r@.len() ==> dfa_edge_ok(*dfa, alphabet@, *highlights, (#[trigger] r@[i])@),
        forall|i: int, j: int| 0 <= i < j < r@.len() ==> !(r@[i].from == r@[j].from && r@[i].to == r@[j].to),
        forall|f: StateId, t: StateId|
            #[trigger] dfa_pair(*dfa, alphabet@, f, t) ==> exists|i: int| 0 <= i < r@.len() && r@[i].from == f && r@[i].to == t,
{
    let mv = table_moves(dfa, alphabet);
    let pairs = distinct_pairs(&mv);
    let mut out: Vec<GraphEdge> = Vec::new();
    let mut i: usize = 0;
    proof {
        assert forall|f: StateId, t: StateId| pair_of(mv@, f, t) <==> #[trigger] dfa_pair(*dfa, alphabet@, f, t) by {
            if pair_of(mv@, f, t) {
                let q = choose|q: int| 0 <= q < mv@.len() && (#[trigger] mv@[q]).from == f && mv@[q].to == t;
                assert(mv@.contains(Move { from: f, to: t, sym: mv@[q].sym }));
                assert(dfa_move(*dfa, alphabet@, f, t, mv@[q].sym));
            }
            if dfa_pair(*dfa, alphabet@, f, t) {
                let c = choose|c: char| #[trigger] dfa_move(*dfa, alphabet@, f, t, c);
                assert(mv@.contains(Move { from: f, to: t, sym: c }));
                let q = choose|q: int| 0 <= q < mv@.len() && mv@[q] == (Move { from: f, to: t, sym: c });
                assert(mv@[q].from == f);
            }
        }
    }
    while i < pairs.len()
        invariant
            i <= pairs@.len(),
            out@.len() == i,
            pairs@.no_duplicates(),
            forall|f: StateId, t: StateId| #[trigger] pairs@.contains((f, t)) <==> dfa_pair(*dfa, alphabet@, f, t),
            forall|f: StateId, t: StateId, c: char|
                #[trigger] dfa_move(*dfa, alphabet@, f, t, c) <==> mv@.contains(Move { from: f, to: t, sym: c }),
            forall|k: int| 0 <= k < i ==> (#[trigger] out@[k]).from == pairs@[k].0 && out@[k].to == pairs@[k].1,
            forall|k: int| 0 <= k < i ==> dfa_edge_ok(*dfa, alphabet@, *highlights, (#[trigger] out@[k])@),
        decreases pairs.len() - i,
    {
        let (f, t) = pairs[i];
        let syms = pair_symbols(&mv, f, t);
        let label = join_quoted_string(&syms);
        let curve = if f == t {
            EdgeCurve::Loop
        } else if contains_pair(&pairs, (t, f)) {
            EdgeCurve::CurveDown
        } else {
            EdgeCurve::Straight
        };
        let active = pair_active(&mv, f, t, highlights);
        let e = GraphEdge::with_curve(f, t, label, curve).with_active(active);
        proof {
            assert(pairs@.contains((f, t)));
            assert(dfa_pair(*dfa, alphabet@, f, t));
            assert(forall|c: char| #[trigger] syms@.contains(c) <==> dfa_move(*dfa, alphabet@, f, t, c));
            assert(e@.label == join_quoted(syms@));
            assert(pairs@.contains((t, f)) == dfa_pair(*dfa, alphabet@, t, f));
            let hl = *highlights;
            if active {
                let c = choose|c: char|
                    #[trigger] mv@.contains(Move { from: f, to: t, sym: c }) && hl.edges@.contains(
                        EdgeHighlight { from: f, to: t, label: EdgeLabel::Sym(c) });
                assert(dfa_move(*dfa, alphabet@, f, t, c));
            } else {
                assert forall|c: char| !(#[trigger] dfa_move(*dfa, alphabet@, f, t, c) && hl.edges@.contains(
                    EdgeHighlight { from: f, to: t, label: EdgeLabel::Sym(c) })) by {
                    if dfa_move(*dfa, alphabet@, f, t, c) {
                        assert(mv@.contains(Move { from: f, to: t, sym: c }));
                    }
                }
            }
            assert(dfa_edge_ok(*dfa, alphabet@, *highlights, e@));
        }
        out.push(e);
        i = i + 1;
    }
    proof {
        assert forall|a: int, b: int| 0 <= a < b < out@.len() implies !(out@[a].from == out@[b].from && out@[a].to == out@[b].to) by {
            assert(pairs@[a] != pairs@[b]);
        }
        assert forall|f: StateId, t: StateId|
            #[trigger] dfa_pair(*dfa, alphabet@, f, t) implies exists|k: int| 0 <= k < out@.len() && out@[k].from == f && out@[k].to == t by {
            assert(pairs@.contains((f, t)));
            let k = choose|k: int| 0 <= k < pairs@.len() && pairs@[k] == (f, t);
            assert(out@[k].from == f && out@[k].to == t);
        }
    }
    out
}

/// The rendered nodes of the DFA states, in order, with highlights and pins.
pub fn dfa_build_nodes<P: Copy>(dfa: &Dfa, highlights: &Highlights, pinned: &HashMap<u32, P>) -> (r: Vec<GraphNode<P>>)
    ensures
        r@.len() == dfa.states@.len(),
        forall|i: int| 0 <= i < r@.len() ==> {
            let id = dfa.states@[i];
            &&& (#[trigger] r@[i]).id == id
            &&& r@[i].label@ == decimal(id as nat)
            &&& r@[i].is_start == (dfa.start == id)
            &&& r@[i].is_accept == dfa.is_accept(id)
            &&& r@[i].box_id is None
            &&& r@[i].highlight == style_of(highlights.states@, id)
            &&& r@[i].is_pinned == pinned@.contains_key(id)
            &&& r@[i].manual_position == (if pinned@.contains_key(id) { Some(pinned@[id]) } else { None })
        },
{
    let mut out: Vec<GraphNode<P>> = Vec::new();
    let mut i: usize = 0;
    while i < dfa.states.len()
        invariant
            i <= dfa.states@.len(),
            out@.len() == i,
            forall|k: int| 0 <= k < i ==> {
                let id = dfa.states@[k];
                &&& (#[trigger] out@[k]).id == id
                &&& out@[k].label@ == decimal(id as nat)
                &&& out@[k].is_start == (dfa.start == id)
                &&& out@[k].is_accept == dfa.is_accept(id)
                &&& out@[k].box_id is None
                &&& out@[k].highlight == style_of(highlights.states@, id)
                &&& out@[k].is_pinned == pinned@.contains_key(id)
                &&& out@[k].manual_position == (if pinned@.contains_key(id) { Some(pinned@[id]) } else { None })
            },
        decreases dfa.states.len() - i,
    {
        let id = dfa.states[i];
        let highlight = highlights.state_style(id);
        let mut node = GraphNode::new(id, u32_to_decimal(id), dfa.start == id, dfa.accepts_state(id), None)
            .with_highlight(highlight);
        match pinned_at(pinned, id) {
            Some(pos) => {
                node.manual_position = Some(pos);
                node.is_pinned = true;
            },
            None => {},
        }
        out.push(node);
        i = i + 1;
    }
    out
}

// ---------------------------------------------------------------------------
// Syntax tree as a graph
// ---------------------------------------------------------------------------

/// Label of a tree node: the quoted character of an atom, or the operator.
pub open spec fn ast_label(a: Ast) -> Seq<char> {
    match a {
        Ast::Atom(c) => quoted(c),
        Ast::Concat(_, _) => seq!['\u{00B7}'],
        Ast::Alt(_, _) => seq!['+'],
        Ast::Star(_) => seq!['*'],
        Ast::Epsilon => seq!['\u{03B5}'],
        Ast::Opt(_) => seq!['?'],
    }
}

/// Node labels in preorder (node, then left subtree, then right subtree).
pub open spec fn preorder_labels(a: Ast) -> Seq<Seq<char>>
    decreases a,
{
    match a {
        Ast::Atom(_) => seq![ast_label(a)],
        Ast::Epsilon => seq![ast_label(a)],
        Ast::Concat(l, r) => seq![ast_label(a)] + preorder_labels(*l) + preorder_labels(*r),
        Ast::Alt(l, r) => seq![ast_label(a)] + preorder_labels(*l) + preorder_labels(*r),
        Ast::Star(c) => seq![ast_label(a)] + preorder_labels(*c),
        Ast::Opt(c) => seq![ast_label(a)] + preorder_labels(*c),
    }
}

/// Tree edges when the root is numbered `base` and nodes are numbered in
/// preorder: children's edges first, then the edges from the node to its
/// children ("L" and "R" for binary operators, unlabelled for unary ones).
pub open spec fn tree_edges(a: Ast, base: int) -> Seq<EdgeView>
    decreases a,
{
    match a {
        Ast::Atom(_) => Seq::empty(),
        Ast::Epsilon => Seq::empty(),
        Ast::Concat(l, r) => tree_edges(*l, base + 1) + tree_edges(*r, base + 1 + l.size()) + seq![
            tree_edge(base, base + 1, seq!['L']),
            tree_edge(base, base + 1 + l.size(), seq!['R']),
        ],
        Ast::Alt(l, r) => tree_edges(*l, base + 1) + tree_edges(*r, base + 1 + l.size()) + seq![
            tree_edge(base, base + 1, seq!['L']),
            tree_edge(base, base + 1 + l.size(), seq!['R']),
        ],
        Ast::Star(c) => tree_edges(*c, base + 1) + seq![tree_edge(base, base + 1, Seq::empty())],
        Ast::Opt(c) => tree_edges(*c, base + 1) + seq![tree_edge(base, base + 1, Seq::empty())],
    }
}

/// A straight, inactive tree edge.
pub open spec fn tree_edge(from: int, to: int, label: Seq<char>) -> EdgeView {
    EdgeView { from: from as StateId, to: to as StateId, label, curve: EdgeCurve::Straight, is_active: false }
}

/// Law: a tree of `n` nodes has `n` preorder labels and `n - 1` edges, and
/// every edge joins a node to a later node of the same numbering range.
pub proof fn lemma_tree_shape(a: Ast, base: int)
    requires
        0 <= base,
        base + a.size() <= u32::MAX,
    ensures
        preorder_labels(a).len() == a.size(),
        tree_edges(a, base).len() + 1 == a.size(),
        forall|i: int| 0 <= i < tree_edges(a, base).len() ==> {
            let e = #[trigger] tree_edges(a, base)[i];
            &&& base <= e.from < e.to < base + a.size()
        },
    decreases a,
{
    match a {
        Ast::Atom(_) => {},
        Ast::Epsilon => {},
        Ast::Concat(l, r) => {
            lemma_tree_shape(*l, base + 1);
            lemma_tree_shape(*r, base + 1 + l.size());
            lemma_binary_edges(a, *l, *r, base);
        },
        Ast::Alt(l, r) => {
            lemma_tree_shape(*l, base + 1);
            lemma_tree_shape(*r, base + 1 + l.size());
            lemma_binary_edges(a, *l, *r, base);
        },
        Ast::Star(c) => {
            lemma_tree_shape(*c, base + 1);
            lemma_unary_edges(a, *c, base);
        },
        Ast::Opt(c) => {
            lemma_tree_shape(*c, base + 1);
            lemma_unary_edges(a, *c, base);
        },
    }
}

proof fn lemma_binary_edges(a: Ast, l: Ast, r: Ast, base: int)
    requires
        0 <= base,
        a.size() == 1 + l.size() + r.size(),
        base + a.size() <= u32::MAX,
        tree_edges(a, base) == tree_edges(l, base + 1) + tree_edges(r, base + 1 + l.size()) + seq![
            tree_edge(base, base + 1, seq!['L']),
            tree_edge(base, base + 1 + l.size(), seq!['R']),
        ],
        tree_edges(l, base + 1).len() + 1 == l.size(),
        tree_edges(r, base + 1 + l.size()).len() + 1 == r.size(),
        forall|i: int| 0 <= i < tree_edges(l, base + 1).len() ==> {
            let e = #[trigger] tree_edges(l, base + 1)[i];
            &&& base + 1 <= e.from < e.to < base + 1 + l.size()
        },
        forall|i: int| 0 <= i < tree_edges(r, base + 1 + l.size()).len() ==> {
            let e = #[trigger] tree_edges(r, base + 1 + l.size())[i];
            &&& base + 1 + l.size() <= e.from < e.to < base + 1 + l.size() + r.size()
        },
    ensures
        tree_edges(a, base).len() + 1 == a.size(),
        forall|i: int| 0 <= i < tree_edges(a, base).len() ==> {
            let e = #[trigger] tree_edges(a, base)[i];
            &&& base <= e.from < e.to < base + a.size()
        },
{
    let le = tree_edges(l, base + 1);
    let re = tree_edges(r, base + 1 + l.size());
    let all = tree_edges(a, base);
    assert forall|i: int| 0 <= i < all.len() implies {
        let e = #[trigger] all[i];
        &&& base <= e.from < e.to < base + a.size()
    } by {
        if i < le.len() {
            assert(all[i] == le[i]);
        } else if i < le.len() + re.len() {
            assert(all[i] == re[i - le.len()]);
        }
    }
}

proof fn lemma_unary_edges(a: Ast, c: Ast, base: int)
    requires
        0 <= base,
        a.size() == 1 + c.size(),
        base + a.size() <= u32::MAX,
        tree_edges(a, base) == tree_edges(c, base + 1) + seq![tree_edge(base, base + 1, Seq::empty())],
        tree_edges(c, base + 1).len() + 1 == c.size(),
        forall|i: int| 0 <= i < tree_edges(c, base + 1).len() ==> {
            let e = #[trigger] tree_edges(c, base + 1)[i];
            &&& base + 1 <= e.from < e.to < base + 1 + c.size()
        },
    ensures
        tree_edges(a, base).len() + 1 == a.size(),
        forall|i: int| 0 <= i < tree_edges(a, base).len() ==> {
            let e = #[trigger] tree_edges(a, base)[i];
            &&& base <= e.from < e.to < base + a.size()
        },
{
    let ce = tree_edges(c, base + 1);
    let all = tree_edges(a, base);
    assert forall|i: int| 0 <= i < all.len() implies {
        let e = #[trigger] all[i];
        &&& base <= e.from < e.to < base + a.size()
    } by {
        if i < ce.len() {
            assert(all[i] == ce[i]);
        }
    }
}

proof fn lemma_size_pos(a: Ast)
    ensures
        a.size() >= 1,
    decreases a,
{
}

/// The subtree at preorder position `i` of `a` (`a` itself at position 0).
#[verifier::opaque]
pub open spec fn subtree_at(a: Ast, i: int) -> Ast
    decreases a,
{
    if i <= 0 {
        a
    } else {
        match a {
            Ast::Concat(l, r) => if i - 1 < l.size() {
                subtree_at(*l, i - 1)
            } else {
                subtree_at(*r, i - 1 - l.size())
            },
            Ast::Alt(l, r) => if i - 1 < l.size() {
                subtree_at(*l, i - 1)
            } else {
                subtree_at(*r, i - 1 - l.size())
            },
            Ast::Star(c) => subtree_at(*c, i - 1),
            Ast::Opt(c) => subtree_at(*c, i - 1),
            _ => a,
        }
    }
}

/// The edges from node `id`, the root of `t` in preorder numbering, to its
/// children: "L" and "R" edges to the operands of a binary operator, one
/// unlabelled edge to the operand of a unary one, none from a leaf.
pub open spec fn child_edges(t: Ast, id: int) -> Seq<EdgeView> {
    match t {
        Ast::Concat(l, _) => seq![tree_edge(id, id + 1, seq!['L']), tree_edge(id, id + 1 + l.size(), seq!['R'])],
        Ast::Alt(l, _) => seq![tree_edge(id, id + 1, seq!['L']), tree_edge(id, id + 1 + l.size(), seq!['R'])],
        Ast::Star(_) => seq![tree_edge(id, id + 1, Seq::empty())],
        Ast::Opt(_) => seq![tree_edge(id, id + 1, Seq::empty())],
        _ => Seq::empty(),
    }
}

/// The edge leaves node `id`.
pub open spec fn leaves_from(id: int) -> spec_fn(EdgeView) -> bool {
    |e: EdgeView| e.from == id
}

/// The edge enters node `id`.
pub open spec fn enters(id: int) -> spec_fn(EdgeView) -> bool {
    |e: EdgeView| e.to == id
}

proof fn lemma_filter_none(s: Seq<EdgeView>, p: spec_fn(EdgeView) -> bool)
    requires
        forall|i: int| 0 <= i < s.len() ==> !p(#[trigger] s[i]),
    ensures
        s.filter(p) == Seq::<EdgeView>::empty(),
{
    broadcast use vstd::seq_lib::group_filter_ensures;
    if s.filter(p).len() > 0 {
        let x = s.filter(p)[0];
        assert(s.filter(p).contains(x));
        s.lemma_filter_contains_rev(p, x);
        let i = choose|i: int| 0 <= i < s.len() && s[i] == x;
        assert(p(x));
    }
    assert(s.filter(p) =~= Seq::<EdgeView>::empty());
}

proof fn lemma_filter_single(x: EdgeView, p: spec_fn(EdgeView) -> bool)
    ensures
        seq![x].filter(p) == (if p(x) { seq![x] } else { Seq::<EdgeView>::empty() }),
{
    reveal_with_fuel(Seq::filter, 2);
    assert(seq![x].drop_last() =~= Seq::<EdgeView>::empty());
    if p(x) {
        assert(Seq::<EdgeView>::empty().push(x) =~= seq![x]);
    }
}

proof fn lemma_filter_pair(x: EdgeView, y: EdgeView, p: spec_fn(EdgeView) -> bool)
    ensures
        seq![x, y].filter(p) == (if p(x) { seq![x] } else { Seq::<EdgeView>::empty() }) + (if p(y) { seq![y] } else {
            Seq::<EdgeView>::empty()
        }),
{
    assert(seq![x, y] =~= seq![x] + seq![y]);
    Seq::filter_distributes_over_add(seq![x], seq![y], p);
    lemma_filter_single(x, p);
    lemma_filter_single(y, p);
}

/// Filtering `a + b + c` where only `c` (or only `b`, or only `a`) can hold
/// kept edges.
proof fn lemma_filter_three(a: Seq<EdgeView>, b: Seq<EdgeView>, c: Seq<EdgeView>, p: spec_fn(EdgeView) -> bool)
    ensures
        (a + b + c).filter(p) == a.filter(p) + b.filter(p) + c.filter(p),
{
    Seq::filter_distributes_over_add(a + b, c, p);
    Seq::filter_distributes_over_add(a, b, p);
}

/// Filtering `a + b + c` when nothing of `a` and `b` is kept.
proof fn lemma_keep_third(a: Seq<EdgeView>, b: Seq<EdgeView>, c: Seq<EdgeView>, p: spec_fn(EdgeView) -> bool)
    requires
        forall|i: int| 0 <= i < a.len() ==> !p(#[trigger] a[i]),
        forall|i: int| 0 <= i < b.len() ==> !p(#[trigger] b[i]),
    ensures
        (a + b + c).filter(p) == c.filter(p),
{
    lemma_filter_three(a, b, c, p);
    lemma_filter_none(a, p);
    lemma_filter_none(b, p);
    assert(Seq::<EdgeView>::empty() + Seq::<EdgeView>::empty() + c.filter(p) =~= c.filter(p));
}

/// Filtering `a + b + c` when nothing of `b` and `c` is kept.
proof fn lemma_keep_first(a: Seq<EdgeView>, b: Seq<EdgeView>, c: Seq<EdgeView>, p: spec_fn(EdgeView) -> bool)
    requires
        forall|i: int| 0 <= i < b.len() ==> !p(#[trigger] b[i]),
        forall|i: int| 0 <= i < c.len() ==> !p(#[trigger] c[i]),
    ensures
        (a + b + c).filter(p) == a.filter(p),
{
    lemma_filter_three(a, b, c, p);
    lemma_filter_none(b, p);
    lemma_filter_none(c, p);
    assert(a.filter(p) + Seq::<EdgeView>::empty() + Seq::<EdgeView>::empty() =~= a.filter(p));
}

/// Filtering `a + b + c` when nothing of `a` and `c` is kept.
proof fn lemma_keep_second(a: Seq<EdgeView>, b: Seq<EdgeView>, c: Seq<EdgeView>, p: spec_fn(EdgeView) -> bool)
    requires
        forall|i: int| 0 <= i < a.len() ==> !p(#[trigger] a[i]),
        forall|i: int| 0 <= i < c.len() ==> !p(#[trigger] c[i]),
    ensures
        (a + b + c).filter(p) == b.filter(p),
{
    lemma_filter_three(a, b, c, p);
    lemma_filter_none(a, p);
    lemma_filter_none(c, p);
    assert(Seq::<EdgeView>::empty() + b.filter(p) + Seq::<EdgeView>::empty() =~= b.filter(p));
}

/// The edges leaving node `x` of the tree numbered from `base` are the ones
/// to the children of the subtree rooted there.
proof fn lemma_children_at(a: Ast, base: int, x: int)
    requires
        0 <= base,
        base + a.size() <= u32::MAX,
        base <= x < base + a.size(),
    ensures
        tree_edges(a, base).filter(leaves_from(x)) == child_edges(subtree_at(a, x - base), x),
    decreases a.size(), 1int,
{
    reveal(subtree_at);
    lemma_tree_shape(a, base);
    let p = leaves_from(x);
    match a {
        Ast::Atom(_) => {
            lemma_filter_none(tree_edges(a, base), p);
        },
        Ast::Epsilon => {
            lemma_filter_none(tree_edges(a, base), p);
        },
        Ast::Concat(l, r) => {
            lemma_binary_children(a, *l, *r, base, x);
        },
        Ast::Alt(l, r) => {
            lemma_binary_children(a, *l, *r, base, x);
        },
        Ast::Star(c) => {
            lemma_unary_children(a, *c, base, x);
        },
        Ast::Opt(c) => {
            lemma_unary_children(a, *c, base, x);
        },
    }
}

proof fn lemma_binary_children(a: Ast, l: Ast, r: Ast, base: int, x: int)
    requires
        0 <= base,
        a.size() == 1 + l.size() + r.size(),
        base + a.size() <= u32::MAX,
        base <= x < base + a.size(),
        tree_edges(a, base) == tree_edges(l, base + 1) + tree_edges(r, base + 1 + l.size()) + seq![
            tree_edge(base, base + 1, seq!['L']),
            tree_edge(base, base + 1 + l.size(), seq!['R']),
        ],
        child_edges(subtree_at(a, 0), base) == seq![
            tree_edge(base, base + 1, seq!['L']),
            tree_edge(base, base + 1 + l.size(), seq!['R']),
        ],
        forall|i: int| 1 <= i < 1 + l.size() ==> #[trigger] subtree_at(a, i) == subtree_at(l, i - 1),
        forall|i: int| 1 + l.size() <= i ==> #[trigger] subtree_at(a, i) == subtree_at(r, i - 1 - l.size()),
    ensures
        tree_edges(a, base).filter(leaves_from(x)) == child_edges(subtree_at(a, x - base), x),
    decreases a.size(), 0int,
{
    let p = leaves_from(x);
    let el = tree_edges(l, base + 1);
    let er = tree_edges(r, base + 1 + l.size());
    let pl = tree_edge(base, base + 1, seq!['L']);
    let pr = tree_edge(base, base + 1 + l.size(), seq!['R']);
    let c = seq![pl, pr];
    lemma_tree_shape(l, base + 1);
    lemma_tree_shape(r, base + 1 + l.size());
    if x == base {
        lemma_keep_third(el, er, c, p);
        lemma_filter_pair(pl, pr, p);
        assert(seq![pl] + seq![pr] =~= c);
    } else if x < base + 1 + l.size() {
        lemma_keep_first(el, er, c, p);
        lemma_children_at(l, base + 1, x);
    } else {
        lemma_keep_second(el, er, c, p);
        lemma_children_at(r, base + 1 + l.size(), x);
    }
}

proof fn lemma_unary_children(a: Ast, c: Ast, base: int, x: int)
    requires
        0 <= base,
        a.size() == 1 + c.size(),
        base + a.size() <= u32::MAX,
        base <= x < base + a.size(),
        tree_edges(a, base) == tree_edges(c, base + 1) + seq![tree_edge(base, base + 1, Seq::empty())],
        child_edges(subtree_at(a, 0), base) == seq![tree_edge(base, base + 1, Seq::empty())],
        forall|i: int| 1 <= i ==> #[trigger] subtree_at(a, i) == subtree_at(c, i - 1),
    ensures
        tree_edges(a, base).filter(leaves_from(x)) == child_edges(subtree_at(a, x - base), x),
    decreases a.size(), 0int,
{
    let p = leaves_from(x);
    let ec = tree_edges(c, base + 1);
    let pc = tree_edge(base, base + 1, Seq::empty());
    let e0 = Seq::<EdgeView>::empty();
    assert(e0 + ec + seq![pc] =~= tree_edges(a, base));
    lemma_tree_shape(c, base + 1);
    if x == base {
        lemma_keep_third(e0, ec, seq![pc], p);
        lemma_filter_single(pc, p);
    } else {
        lemma_keep_second(e0, ec, seq![pc], p);
        lemma_children_at(c, base + 1, x);
    }
}

/// The number of edges entering node `x` of the tree numbered from `base`:
/// none for the root, one for every other node.
proof fn lemma_parent_count(a: Ast, base: int, x: int)
    requires
        0 <= base,
        base + a.size() <= u32::MAX,
        base <= x < base + a.size(),
    ensures
        tree_edges(a, base).filter(enters(x)).len() == (if x == base { 0int } else { 1int }),
    decreases a,
{
    lemma_tree_shape(a, base);
    let p = enters(x);
    match a {
        Ast::Atom(_) => {
            lemma_filter_none(tree_edges(a, base), p);
        },
        Ast::Epsilon => {
            lemma_filter_none(tree_edges(a, base), p);
        },
        Ast::Concat(l, r) => {
            lemma_binary_parents(a, *l, *r, base, x);
        },
        Ast::Alt(l, r) => {
            lemma_binary_parents(a, *l, *r, base, x);
        },
        Ast::Star(c) => {
            lemma_unary_parents(a, *c, base, x);
        },
        Ast::Opt(c) => {
            lemma_unary_parents(a, *c, base, x);
        },
    }
}

proof fn lemma_binary_parents(a: Ast, l: Ast, r: Ast, base: int, x: int)
    requires
        0 <= base,
        base + a.size() <= u32::MAX,
        base <= x < base + a.size(),
        a == Ast::Concat(Box::new(l), Box::new(r)) || a == Ast::Alt(Box::new(l), Box::new(r)),
    ensures
        tree_edges(a, base).filter(enters(x)).len() == (if x == base { 0int } else { 1int }),
    decreases a, 0int,
{
    let p = enters(x);
    let el = tree_edges(l, base + 1);
    let er = tree_edges(r, base + 1 + l.size());
    let pl = tree_edge(base, base + 1, seq!['L']);
    let pr = tree_edge(base, base + 1 + l.size(), seq!['R']);
    assert(tree_edges(a, base) == el + er + seq![pl, pr]);
    lemma_tree_shape(l, base + 1);
    lemma_tree_shape(r, base + 1 + l.size());
    lemma_size_pos(l);
    lemma_size_pos(r);
    Seq::filter_distributes_over_add(el + er, seq![pl, pr], p);
    Seq::filter_distributes_over_add(el, er, p);
    lemma_filter_pair(pl, pr, p);
    if base < x < base + 1 + l.size() {
        lemma_parent_count(l, base + 1, x);
    } else {
        lemma_filter_none(el, p);
    }
    if base + 1 + l.size() <= x {
        lemma_parent_count(r, base + 1 + l.size(), x);
    } else {
        lemma_filter_none(er, p);
    }
}

proof fn lemma_unary_parents(a: Ast, c: Ast, base: int, x: int)
    requires
        0 <= base,
        base + a.size() <= u32::MAX,
        base <= x < base + a.size(),
        a == Ast::Star(Box::new(c)) || a == Ast::Opt(Box::new(c)),
    ensures
        tree_edges(a, base).filter(enters(x)).len() == (if x == base { 0int } else { 1int }),
    decreases a, 0int,
{
    let p = enters(x);
    let ec = tree_edges(c, base + 1);
    let pc = tree_edge(base, base + 1, Seq::empty());
    assert(tree_edges(a, base) == ec + seq![pc]);
    lemma_tree_shape(c, base + 1);
    Seq::filter_distributes_over_add(ec, seq![pc], p);
    lemma_filter_single(pc, p);
    if base < x {
        lemma_parent_count(c, base + 1, x);
    } else {
        lemma_filter_none(ec, p);
    }
}

/// Law: the edges of a syntax tree numbered in preorder from `base` form the
/// tree itself. The root has no parent and every other node exactly one;
/// the edges leaving each node are exactly those to its children: "L" to the
/// left and "R" to the right operand of a concatenation or alternation, one
/// unlabelled edge to the operand of a star or option, none from an atom or
/// the empty word.
pub proof fn lemma_tree_parents_children(a: Ast, base: int)
    requires
        0 <= base,
        base + a.size() <= u32::MAX,
    ensures
        forall|x: int| base <= x < base + a.size() ==> #[trigger] tree_edges(a, base).filter(enters(x)).len() == (if x == base {
            0int
        } else {
            1int
        }),
        forall|x: int| base <= x < base + a.size() ==> #[trigger] tree_edges(a, base).filter(leaves_from(x)) == child_edges(
            subtree_at(a, x - base),
            x,
        ),
{
    assert forall|x: int| base <= x < base + a.size() implies #[trigger] tree_edges(a, base).filter(enters(x)).len() == (if x == base {
        0int
    } else {
        1int
    }) by {
        lemma_parent_count(a, base, x);
    }
    assert forall|x: int| base <= x < base + a.size() implies #[trigger] tree_edges(a, base).filter(leaves_from(x)) == child_edges(
        subtree_at(a, x - base),
        x,
    ) by {
        lemma_children_at(a, base, x);
    }
}

// ---------------------------------------------------------------------------
// Columns of the tree drawing
// ---------------------------------------------------------------------------

/// Column slots a subtree takes: one for each node that is not a star or an
/// option (those sit above their operand).
pub open spec fn tree_width(a: Ast) -> nat
    decreases a,
{
    match a {
        Ast::Atom(_) => 1,
        Ast::Epsilon => 1,
        Ast::Concat(l, r) => tree_width(*l) + 1 + tree_width(*r),
        Ast::Alt(l, r) => tree_width(*l) + 1 + tree_width(*r),
        Ast::Star(c) => tree_width(*c),
        Ast::Opt(c) => tree_width(*c),
    }
}

/// Column of the root of `a` when its subtree starts at column `base`.
pub open spec fn root_column(a: Ast, base: int) -> int
    decreases a,
{
    match a {
        Ast::Atom(_) => base,
        Ast::Epsilon => base,
        Ast::Concat(l, _) => base + tree_width(*l),
        Ast::Alt(l, _) => base + tree_width(*l),
        Ast::Star(c) => root_column(*c, base),
        Ast::Opt(c) => root_column(*c, base),
    }
}

/// The columns of the nodes of `a` in preorder, its subtree starting at
/// column `base`: the left operand's columns come first, then the
/// operator's, then the right operand's; a star or an option stands in the
/// column of its operand.
pub open spec fn tree_columns(a: Ast, base: int) -> Seq<int>
    decreases a,
{
    match a {
        Ast::Atom(_) => seq![base],
        Ast::Epsilon => seq![base],
        Ast::Concat(l, r) => seq![base + tree_width(*l)] + tree_columns(*l, base) + tree_columns(
            *r,
            base + tree_width(*l) + 1,
        ),
        Ast::Alt(l, r) => seq![base + tree_width(*l)] + tree_columns(*l, base) + tree_columns(
            *r,
            base + tree_width(*l) + 1,
        ),
        Ast::Star(c) => seq![root_column(*c, base)] + tree_columns(*c, base),
        Ast::Opt(c) => seq![root_column(*c, base)] + tree_columns(*c, base),
    }
}

/// Basic facts: one column per node, the first is the root's, all lie in
/// the subtree's slots, and there are at least one and at most as many
/// slots as nodes.
proof fn lemma_columns_basic(a: Ast, base: int)
    ensures
        tree_columns(a, base).len() == a.size(),
        tree_columns(a, base)[0] == root_column(a, base),
        1 <= tree_width(a) <= a.size(),
        base <= root_column(a, base) < base + tree_width(a),
        forall|i: int| 0 <= i < a.size() ==> base <= #[trigger] tree_columns(a, base)[i] < base + tree_width(a),
    decreases a,
{
    match a {
        Ast::Atom(_) => {},
        Ast::Epsilon => {},
        Ast::Concat(l, r) => {
            lemma_columns_binary_basic(a, *l, *r, base);
        },
        Ast::Alt(l, r) => {
            lemma_columns_binary_basic(a, *l, *r, base);
        },
        Ast::Star(c) => {
            lemma_columns_unary_basic(a, *c, base);
        },
        Ast::Opt(c) => {
            lemma_columns_unary_basic(a, *c, base);
        },
    }
}

proof fn lemma_columns_binary_basic(a: Ast, l: Ast, r: Ast, base: int)
    requires
        a == Ast::Concat(Box::new(l), Box::new(r)) || a == Ast::Alt(Box::new(l), Box::new(r)),
    ensures
        tree_columns(a, base).len() == a.size(),
        tree_columns(a, base)[0] == root_column(a, base),
        1 <= tree_width(a) <= a.size(),
        base <= root_column(a, base) < base + tree_width(a),
        forall|i: int| 0 <= i < a.size() ==> base <= #[trigger] tree_columns(a, base)[i] < base + tree_width(a),
    decreases a, 0int,
{
    let wl = tree_width(l);
    let cl = tree_columns(l, base);
    let cr = tree_columns(r, base + wl + 1);
    lemma_columns_basic(l, base);
    lemma_columns_basic(r, base + wl + 1);
    let c = tree_columns(a, base);
    assert(c == seq![base + wl] + cl + cr);
    assert forall|i: int| 0 <= i < a.size() implies base <= #[trigger] c[i] < base + tree_width(a) by {
        if i == 0 {
        } else if i < 1 + l.size() {
            assert(c[i] == cl[i - 1]);
        } else {
            assert(c[i] == cr[i - 1 - l.size()]);
        }
    }
}

proof fn lemma_columns_unary_basic(a: Ast, c: Ast, base: int)
    requires
        a == Ast::Star(Box::new(c)) || a == Ast::Opt(Box::new(c)),
    ensures
        tree_columns(a, base).len() == a.size(),
        tree_columns(a, base)[0] == root_column(a, base),
        1 <= tree_width(a) <= a.size(),
        base <= root_column(a, base) < base + tree_width(a),
        forall|i: int| 0 <= i < a.size() ==> base <= #[trigger] tree_columns(a, base)[i] < base + tree_width(a),
    decreases a, 0int,
{
    let cc = tree_columns(c, base);
    lemma_columns_basic(c, base);
    let col = tree_columns(a, base);
    assert(col == seq![root_column(c, base)] + cc);
    assert forall|i: int| 0 <= i < a.size() implies base <= #[trigger] col[i] < base + tree_width(a) by {
        if i > 0 {
            assert(col[i] == cc[i - 1]);
        }
    }
}

/// Edge `e` of a tree whose nodes are numbered from `nb` and whose columns
/// are `c` goes to a smaller column when it leads to a left operand, to a
/// larger one when it leads to a right operand, and keeps the column when it
/// leads to the operand of a star or an option.
pub open spec fn columns_follow(e: EdgeView, c: Seq<int>, nb: int) -> bool {
    &&& e.label == seq!['L'] ==> c[e.to - nb] < c[e.from - nb]
    &&& e.label == seq!['R'] ==> c[e.from - nb] < c[e.to - nb]
    &&& e.label.len() == 0 ==> c[e.from - nb] == c[e.to - nb]
}

/// Law: in the tree drawing, a left operand stands left of its operator and
/// a right operand right of it; a star or an option stands above its
/// operand. Stated for the edges of a tree numbered in preorder from `nb`,
/// with columns counted from `cb`.
pub proof fn lemma_columns_follow_children(a: Ast, nb: int, cb: int)
    requires
        0 <= nb,
        nb + a.size() <= u32::MAX,
    ensures
        forall|k: int| 0 <= k < tree_edges(a, nb).len() ==> columns_follow(#[trigger] tree_edges(a, nb)[k], tree_columns(a, cb), nb),
    decreases a,
{
    match a {
        Ast::Atom(_) => {},
        Ast::Epsilon => {},
        Ast::Concat(l, r) => {
            lemma_columns_follow_binary(a, *l, *r, nb, cb);
        },
        Ast::Alt(l, r) => {
            lemma_columns_follow_binary(a, *l, *r, nb, cb);
        },
        Ast::Star(c) => {
            lemma_columns_follow_unary(a, *c, nb, cb);
        },
        Ast::Opt(c) => {
            lemma_columns_follow_unary(a, *c, nb, cb);
        },
    }
}

proof fn lemma_columns_follow_binary(a: Ast, l: Ast, r: Ast, nb: int, cb: int)
    requires
        0 <= nb,
        nb + a.size() <= u32::MAX,
        a == Ast::Concat(Box::new(l), Box::new(r)) || a == Ast::Alt(Box::new(l), Box::new(r)),
    ensures
        forall|k: int| 0 <= k < tree_edges(a, nb).len() ==> columns_follow(#[trigger] tree_edges(a, nb)[k], tree_columns(a, cb), nb),
    decreases a, 0int,
{
    let wl = tree_width(l);
    let el = tree_edges(l, nb + 1);
    let er = tree_edges(r, nb + 1 + l.size());
    let pl = tree_edge(nb, nb + 1, seq!['L']);
    let pr = tree_edge(nb, nb + 1 + l.size(), seq!['R']);
    let cl = tree_columns(l, cb);
    let cr = tree_columns(r, cb + wl + 1);
    let all = tree_edges(a, nb);
    let c = tree_columns(a, cb);
    assert(all == el + er + seq![pl, pr]);
    assert(c == seq![cb + wl] + cl + cr);
    lemma_columns_basic(l, cb);
    lemma_columns_basic(r, cb + wl + 1);
    lemma_tree_shape(l, nb + 1);
    lemma_tree_shape(r, nb + 1 + l.size());
    lemma_columns_follow_children(l, nb + 1, cb);
    lemma_columns_follow_children(r, nb + 1 + l.size(), cb + wl + 1);
    assert(seq!['L'][0] != seq!['R'][0]);
    assert forall|k: int| 0 <= k < all.len() implies columns_follow(#[trigger] all[k], c, nb) by {
        if k < el.len() {
            let e = el[k];
            assert(all[k] == e);
            assert(columns_follow(e, cl, nb + 1));
            assert(c[e.from - nb] == cl[e.from - (nb + 1)]);
            assert(c[e.to - nb] == cl[e.to - (nb + 1)]);
        } else if k < el.len() + er.len() {
            let e = er[k - el.len()];
            assert(all[k] == e);
            assert(columns_follow(e, cr, nb + 1 + l.size()));
            assert(c[e.from - nb] == cr[e.from - (nb + 1 + l.size())]);
            assert(c[e.to - nb] == cr[e.to - (nb + 1 + l.size())]);
        } else if k == el.len() + er.len() {
            assert(all[k] == pl);
            assert(c[1] == cl[0]);
        } else {
            assert(all[k] == pr);
            assert(c[1 + l.size() as int] == cr[0]);
        }
    }
}

proof fn lemma_columns_follow_unary(a: Ast, ch: Ast, nb: int, cb: int)
    requires
        0 <= nb,
        nb + a.size() <= u32::MAX,
        a == Ast::Star(Box::new(ch)) || a == Ast::Opt(Box::new(ch)),
    ensures
        forall|k: int| 0 <= k < tree_edges(a, nb).len() ==> columns_follow(#[trigger] tree_edges(a, nb)[k], tree_columns(a, cb), nb),
    decreases a, 0int,
{
    let ec = tree_edges(ch, nb + 1);
    let pc = tree_edge(nb, nb + 1, Seq::empty());
    let cc = tree_columns(ch, cb);
    let all = tree_edges(a, nb);
    let c = tree_columns(a, cb);
    assert(all == ec + seq![pc]);
    assert(c == seq![root_column(ch, cb)] + cc);
    lemma_columns_basic(ch, cb);
    lemma_tree_shape(ch, nb + 1);
    lemma_columns_follow_children(ch, nb + 1, cb);
    assert forall|k: int| 0 <= k < all.len() implies columns_follow(#[trigger] all[k], c, nb) by {
        if k < ec.len() {
            let e = ec[k];
            assert(all[k] == e);
            assert(columns_follow(e, cc, nb + 1));
            assert(c[e.from - nb] == cc[e.from - (nb + 1)]);
            assert(c[e.to - nb] == cc[e.to - (nb + 1)]);
        } else {
            assert(all[k] == pc);
            assert(c[1] == cc[0]);
            assert(pc.label.len() == 0);
        }
    }
}

/// A list of columns as integers.
pub open spec fn column_ints(s: Seq<u32>) -> Seq<int> {
    s.map_values(|c: u32| c as int)
}

fn append_columns(out: &mut Vec<u32>, more: &Vec<u32>)
    ensures
        final(out)@ == old(out)@ + more@,
{
    let mut i: usize = 0;
    while i < more.len()
        invariant
            i <= more@.len(),
            out@ == old(out)@ + more@.take(i as int),
        decreases more.len() - i,
    {
        out.push(more[i]);
        i = i + 1;
        assert(out@ =~= old(out)@ + more@.take(i as int));
    }
    assert(more@.take(more@.len() as int) =~= more@);
}

/// Appends the columns of the nodes of `ast` in preorder (see
/// `tree_columns`), its subtree starting at column `base`; returns the
/// number of slots it takes.
pub fn collect_columns(ast: &Ast, base: u32, out: &mut Vec<u32>) -> (w: u32)
    requires
        base + ast.size() <= u32::MAX,
    ensures
        w == tree_width(*ast),
        column_ints(final(out)@) == column_ints(old(out)@) + tree_columns(*ast, base as int),
    decreases ast,
{
    proof {
        lemma_columns_basic(*ast, base as int);
    }
    let ghost o0 = out@;
    match ast {
        Ast::Atom(_) | Ast::Epsilon => {
            out.push(base);
            assert(column_ints(out@) =~= column_ints(o0) + tree_columns(*ast, base as int));
            1
        },
        Ast::Concat(l, r) | Ast::Alt(l, r) => {
            proof {
                lemma_columns_basic(**l, base as int);
            }
            let mut left: Vec<u32> = Vec::new();
            let wl = collect_columns(l, base, &mut left);
            out.push(base + wl);
            append_columns(out, &left);
            let ghost o1 = out@;
            let wr = collect_columns(r, base + wl + 1, out);
            proof {
                assert(column_ints(Seq::<u32>::empty()) =~= Seq::<int>::empty());
                assert(column_ints(left@) =~= tree_columns(**l, base as int));
                assert(column_ints(o1) =~= column_ints(o0) + seq![(base + wl) as int] + column_ints(left@));
                assert(column_ints(out@) =~= column_ints(o0) + tree_columns(*ast, base as int));
            }
            wl + 1 + wr
        },
        Ast::Star(c) | Ast::Opt(c) => {
            proof {
                lemma_columns_basic(**c, base as int);
            }
            let mut inner: Vec<u32> = Vec::new();
            let wc = collect_columns(c, base, &mut inner);
            proof {
                assert(column_ints(Seq::<u32>::empty()) =~= Seq::<int>::empty());
                assert(column_ints(inner@) =~= tree_columns(**c, base as int));
                assert(column_ints(inner@)[0] == inner@[0] as int);
            }
            out.push(inner[0]);
            append_columns(out, &inner);
            assert(column_ints(out@) =~= column_ints(o0) + tree_columns(*ast, base as int));
            wc
        },
    }
}

/// The expected tree node number `id` with label `label`.
pub open spec fn tree_node_ok<P: Copy>(n: GraphNode<P>, id: int, label: Seq<char>, pinned: HashMap<u32, P>) -> bool
    recommends
        0 <= id <= u32::MAX,
{
    &&& n.id == id as StateId
    &&& n.label@ == label
    &&& !n.is_start
    &&& !n.is_accept
    &&& n.box_id is None
    &&& n.highlight is None
    &&& n.is_pinned == pinned@.contains_key(id as u32)
    &&& n.manual_position == (if pinned@.contains_key(id as u32) { Some(pinned@[id as u32]) } else { None })
}

fn ast_label_string(a: &Ast) -> (r: String)
    ensures
        r@ == ast_label(*a),
{
    let mut s = String::new();
    match a {
        Ast::Atom(c) => {
            push_quoted(&mut s, *c);
        },
        Ast::Concat(_, _) => {
            push_char(&mut s, '\u{00B7}');
        },
        Ast::Alt(_, _) => {
            push_char(&mut s, '+');
        },
        Ast::Star(_) => {
            push_char(&mut s, '*');
        },
        Ast::Epsilon => {
            push_char(&mut s, '\u{03B5}');
        },
        Ast::Opt(_) => {
            push_char(&mut s, '?');
        },
    }
    assert(s@ =~= ast_label(*a));
    s
}

/// Appends the nodes of `ast` in preorder, numbering them from `*next_id`.
pub fn collect_nodes<P: Copy>(ast: &Ast, nodes: &mut Vec<GraphNode<P>>, next_id: &mut u32, pinned: &HashMap<u32, P>)
    requires
        *old(next_id) + ast.size() <= u32::MAX,
    ensures
        *final(next_id) == *old(next_id) + ast.size(),
        final(nodes)@.len() == old(nodes)@.len() + ast.size(),
        forall|i: int| 0 <= i < old(nodes)@.len() ==> #[trigger] final(nodes)@[i] == old(nodes)@[i],
        forall|k: int| 0 <= k < ast.size() ==> tree_node_ok(
            #[trigger] final(nodes)@[old(nodes)@.len() + k],
            *old(next_id) + k,
            preorder_labels(*ast)[k],
            *pinned,
        ),
    decreases ast,
{
    proof {
        lemma_tree_shape(*ast, *old(next_id) as int);
    }
    let id = *next_id;
    *next_id = *next_id + 1;
    let label = ast_label_string(ast);
    let mut node: GraphNode<P> = GraphNode::new(id, label, false, false, None);
    match pinned_at(pinned, id) {
        Some(pos) => {
            node.manual_position = Some(pos);
            node.is_pinned = true;
        },
        None => {},
    }
    let ghost start_len = old(nodes)@.len();
    let ghost base = *old(next_id) as int;
    nodes.push(node);
    proof {
        assert(tree_node_ok(nodes@[start_len as int], base, ast_label(*ast), *pinned));
    }
    match ast {
        Ast::Atom(_) => {},
        Ast::Epsilon => {},
        Ast::Concat(left, right) => {
            proof {
                lemma_tree_shape(**left, base + 1);
                lemma_tree_shape(**right, base + 1 + left.size());
            }
            let ghost n0 = nodes@;
            collect_nodes(left, nodes, next_id, pinned);
            let ghost n1 = nodes@;
            collect_nodes(right, nodes, next_id, pinned);
            proof {
                lemma_binary_nodes(*ast, **left, **right, n0, n1, nodes@, start_len as int, base, *pinned);
            }
        },
        Ast::Alt(left, right) => {
            proof {
                lemma_tree_shape(**left, base + 1);
                lemma_tree_shape(**right, base + 1 + left.size());
            }
            let ghost n0 = nodes@;
            collect_nodes(left, nodes, next_id, pinned);
            let ghost n1 = nodes@;
            collect_nodes(right, nodes, next_id, pinned);
            proof {
                lemma_binary_nodes(*ast, **left, **right, n0, n1, nodes@, start_len as int, base, *pinned);
            }
        },
        Ast::Star(inner) => {
            let ghost n0 = nodes@;
            collect_nodes(inner, nodes, next_id, pinned);
            proof {
                lemma_unary_nodes(*ast, **inner, n0, nodes@, start_len as int, base, *pinned);
            }
        },
        Ast::Opt(inner) => {
            let ghost n0 = nodes@;
            collect_nodes(inner, nodes, next_id, pinned);
            proof {
                lemma_unary_nodes(*ast, **inner, n0, nodes@, start_len as int, base, *pinned);
            }
        },
    }
}

proof fn lemma_binary_nodes<P: Copy>(
    a: Ast,
    l: Ast,
    r: Ast,
    n0: Seq<GraphNode<P>>,
    n1: Seq<GraphNode<P>>,
    n2: Seq<GraphNode<P>>,
    start: int,
    base: int,
    pinned: HashMap<u32, P>,
)
    requires
        0 <= start,
        a.size() == 1 + l.size() + r.size(),
        preorder_labels(a) == seq![ast_label(a)] + preorder_labels(l) + preorder_labels(r),
        preorder_labels(l).len() == l.size(),
        preorder_labels(r).len() == r.size(),
        n0.len() == start + 1,
        tree_node_ok(n0[start], base, ast_label(a), pinned),
        n1.len() == n0.len() + l.size(),
        forall|i: int| 0 <= i < n0.len() ==> #[trigger] n1[i] == n0[i],
        forall|k: int| 0 <= k < l.size() ==> tree_node_ok(#[trigger] n1[n0.len() + k], base + 1 + k, preorder_labels(l)[k], pinned),
        n2.len() == n1.len() + r.size(),
        forall|i: int| 0 <= i < n1.len() ==> #[trigger] n2[i] == n1[i],
        forall|k: int| 0 <= k < r.size() ==> tree_node_ok(#[trigger] n2[n1.len() + k], base + 1 + l.size() + k, preorder_labels(r)[k], pinned),
    ensures
        forall|k: int| 0 <= k < a.size() ==> tree_node_ok(#[trigger] n2[start + k], base + k, preorder_labels(a)[k], pinned),
{
    let labels = preorder_labels(a);
    assert forall|k: int| 0 <= k < a.size() implies tree_node_ok(#[trigger] n2[start + k], base + k, labels[k], pinned) by {
        if k == 0 {
            assert(n2[start] == n1[start]);
        } else if k < 1 + l.size() {
            assert(labels[k] == preorder_labels(l)[k - 1]);
            assert(n2[start + k] == n1[n0.len() + (k - 1)]);
        } else {
            assert(labels[k] == preorder_labels(r)[k - 1 - l.size()]);
            assert(n2[start + k] == n2[n1.len() + (k - 1 - l.size())]);
        }
    }
}

proof fn lemma_unary_nodes<P: Copy>(
    a: Ast,
    c: Ast,
    n0: Seq<GraphNode<P>>,
    n1: Seq<GraphNode<P>>,
    start: int,
    base: int,
    pinned: HashMap<u32, P>,
)
    requires
        0 <= start,
        a.size() == 1 + c.size(),
        preorder_labels(a) == seq![ast_label(a)] + preorder_labels(c),
        preorder_labels(c).len() == c.size(),
        n0.len() == start + 1,
        tree_node_ok(n0[start], base, ast_label(a), pinned),
        n1.len() == n0.len() + c.size(),
        forall|i: int| 0 <= i < n0.len() ==> #[trigger] n1[i] == n0[i],
        forall|k: int| 0 <= k < c.size() ==> tree_node_ok(#[trigger] n1[n0.len() + k], base + 1 + k, preorder_labels(c)[k], pinned),
    ensures
        forall|k: int| 0 <= k < a.size() ==> tree_node_ok(#[trigger] n1[start + k], base + k, preorder_labels(a)[k], pinned),
{
    let labels = preorder_labels(a);
    assert forall|k: int| 0 <= k < a.size() implies tree_node_ok(#[trigger] n1[start + k], base + k, labels[k], pinned) by {
        if k == 0 {
            assert(n1[start] == n0[start]);
        } else {
            assert(labels[k] == preorder_labels(c)[k - 1]);
            assert(n1[start + k] == n1[n0.len() + (k - 1)]);
        }
    }
}

/// Appends the edges of `ast` (see `tree_edges`), numbering nodes from
/// `*next_id` as `collect_nodes` does; returns the number of the root.
pub fn collect_edges(ast: &Ast, edges: &mut Vec<GraphEdge>, next_id: &mut u32) -> (r: u32)
    requires
        *old(next_id) + ast.size() <= u32::MAX,
    ensures
        r == *old(next_id),
        *final(next_id) == *old(next_id) + ast.size(),
        final(edges)@.map_values(|e: GraphEdge| e@) == old(edges)@.map_values(|e: GraphEdge| e@) + tree_edges(
            *ast,
            *old(next_id) as int,
        ),
    decreases ast,
{
    proof {
        lemma_tree_shape(*ast, *old(next_id) as int);
    }
    let current_id = *next_id;
    *next_id = *next_id + 1;
    let ghost base = current_id as int;
    let ghost e0 = edges@.map_values(|e: GraphEdge| e@);
    match ast {
        Ast::Atom(_) => {
            assert(edges@.map_values(|e: GraphEdge| e@) =~= e0 + tree_edges(*ast, base));
        },
        Ast::Epsilon => {
            assert(edges@.map_values(|e: GraphEdge| e@) =~= e0 + tree_edges(*ast, base));
        },
        Ast::Concat(left, right) => {
            proof {
                lemma_tree_shape(**left, base + 1);
            }
            let left_id = collect_edges(left, edges, next_id);
            let right_id = collect_edges(right, edges, next_id);
            let ghost e2 = edges@.map_values(|e: GraphEdge| e@);
            edges.push(GraphEdge::new(current_id, left_id, label_of_char('L')));
            edges.push(GraphEdge::new(current_id, right_id, label_of_char('R')));
            proof {
                assert(edges@.map_values(|e: GraphEdge| e@) =~= e2.push(tree_edge(base, base + 1, seq!['L'])).push(
                    tree_edge(base, base + 1 + left.size(), seq!['R']),
                ));
                assert(edges@.map_values(|e: GraphEdge| e@) =~= e0 + tree_edges(*ast, base));
            }
        },
        Ast::Alt(left, right) => {
            proof {
                lemma_tree_shape(**left, base + 1);
            }
            let left_id = collect_edges(left, edges, next_id);
            let right_id = collect_edges(right, edges, next_id);
            let ghost e2 = edges@.map_values(|e: GraphEdge| e@);
            edges.push(GraphEdge::new(current_id, left_id, label_of_char('L')));
            edges.push(GraphEdge::new(current_id, right_id, label_of_char('R')));
            proof {
                assert(edges@.map_values(|e: GraphEdge| e@) =~= e2.push(tree_edge(base, base + 1, seq!['L'])).push(
                    tree_edge(base, base + 1 + left.size(), seq!['R']),
                ));
                assert(edges@.map_values(|e: GraphEdge| e@) =~= e0 + tree_edges(*ast, base));
            }
        },
        Ast::Star(inner) => {
            let child_id = collect_edges(inner, edges, next_id);
            let ghost e1 = edges@.map_values(|e: GraphEdge| e@);
            edges.push(GraphEdge::new(current_id, child_id, String::new()));
            proof {
                assert(edges@.map_values(|e: GraphEdge| e@) =~= e1.push(tree_edge(base, base + 1, Seq::empty())));
                assert(edges@.map_values(|e: GraphEdge| e@) =~= e0 + tree_edges(*ast, base));
            }
        },
        Ast::Opt(inner) => {
            let child_id = collect_edges(inner, edges, next_id);
            let ghost e1 = edges@.map_values(|e: GraphEdge| e@);
            edges.push(GraphEdge::new(current_id, child_id, String::new()));
            proof {
                assert(edges@.map_values(|e: GraphEdge| e@) =~= e1.push(tree_edge(base, base + 1, Seq::empty())));
                assert(edges@.map_values(|e: GraphEdge| e@) =~= e0 + tree_edges(*ast, base));
            }
        },
    }
    current_id
}

fn label_of_char(c: char) -> (r: String)
    ensures
        r@ == seq![c],
{
    let mut s = String::new();
    push_char(&mut s, c);
    assert(s@ =~= seq![c]);
    s
}

/// A syntax tree viewed as a graph, with user-pinned node positions.
pub struct AstGraph<'a, P> {
    pub ast: &'a Ast,
    pub pinned: &'a HashMap<u32, P>,
}

impl<'a, P: Copy> AstGraph<'a, P> {
    /// Wraps a tree and its pinned positions.
    pub fn new(ast: &'a Ast, pinned: &'a HashMap<u32, P>) -> (r: Self)
        ensures
            r.ast == ast,
            r.pinned == pinned,
    {
        AstGraph { ast, pinned }
    }

    /// The tree nodes in preorder, numbered from 0.
    pub fn nodes(&self) -> (r: Vec<GraphNode<P>>)
        requires
            self.ast.size() <= u32::MAX,
        ensures
            r@.len() == self.ast.size(),
            forall|k: int| 0 <= k < self.ast.size() ==> tree_node_ok(#[trigger] r@[k], k, preorder_labels(*self.ast)[k], *self.pinned),
    {
        let mut nodes: Vec<GraphNode<P>> = Vec::new();
        let mut next_id: u32 = 0;
        collect_nodes(self.ast, &mut nodes, &mut next_id, self.pinned);
        proof {
            assert forall|k: int| 0 <= k < self.ast.size() implies tree_node_ok(#[trigger] nodes@[k], k, preorder_labels(*self.ast)[k], *self.pinned) by {
                assert(nodes@[0 + k] == nodes@[k]);
            }
        }
        nodes
    }

    /// The parent-to-child edges, numbered as `nodes` numbers the nodes.
    pub fn edges(&self) -> (r: Vec<GraphEdge>)
        requires
            self.ast.size() <= u32::MAX,
        ensures
            r@.map_values(|e: GraphEdge| e@) == tree_edges(*self.ast, 0),
    {
        let mut edges: Vec<GraphEdge> = Vec::new();
        let mut next_id: u32 = 0;
        let _root = collect_edges(self.ast, &mut edges, &mut next_id);
        assert(Seq::<GraphEdge>::empty().map_values(|e: GraphEdge| e@) =~= Seq::<EdgeView>::empty());
        assert(edges@.map_values(|e: GraphEdge| e@) =~= tree_edges(*self.ast, 0));
        edges
    }

    /// The column of each node (numbered as `nodes` numbers them) in the tree
    /// drawing: see `tree_columns` and `lemma_columns_follow_children`.
    pub fn columns(&self) -> (r: Vec<u32>)
        requires
            self.ast.size() <= u32::MAX,
        ensures
            column_ints(r@) == tree_columns(*self.ast, 0),
    {
        let mut out: Vec<u32> = Vec::new();
        let _width = collect_columns(self.ast, 0, &mut out);
        assert(column_ints(Seq::<u32>::empty()) =~= Seq::<int>::empty());
        assert(column_ints(out@) =~= tree_columns(*self.ast, 0));
        out
    }

    /// Syntax trees have no bounding boxes.
    pub fn boxes(&self) -> (r: Vec<GraphBox>)
        ensures
            r@.len() == 0,
    {
        Vec::new()
    }
}

/// An NFA with the highlights of the current simulation step and pinned positions.
pub struct VisualNfa<'a, P> {
    pub nfa: &'a Nfa,
    pub highlights: Highlights,
    pub pinned: &'a HashMap<u32, P>,
}

impl<'a, P: Copy> VisualNfa<'a, P> {
    /// Wraps an NFA for rendering.
    pub fn new(nfa: &'a Nfa, highlights: Highlights, pinned: &'a HashMap<u32, P>) -> (r: Self)
        ensures
            r.nfa == nfa,
            r.highlights == highlights,
            r.pinned == pinned,
    {
        VisualNfa { nfa, highlights, pinned }
    }

    /// The rendered states (see `nfa_build_nodes`).
    pub fn nodes(&self) -> (r: Vec<GraphNode<P>>)
        ensures
            r@.len() == self.nfa.states@.len(),
            forall|i: int| 0 <= i < r@.len() ==> {
                let id = self.nfa.states@[i].id;
                &&& (#[trigger] r@[i]).id == id
                &&& r@[i].label@ == decimal(id as nat)
                &&& r@[i].is_start == (self.nfa.start == id)
                &&& r@[i].is_accept == self.nfa.is_accept(id)
                &&& r@[i].box_id == self.nfa.states@[i].box_id
                &&& r@[i].highlight == style_of(self.highlights.states@, id)
                &&& r@[i].is_pinned == self.pinned@.contains_key(id)
                &&& r@[i].manual_position == (if self.pinned@.contains_key(id) {
                    Some(self.pinned@[id])
                } else {
                    None
                })
            },
    {
        nfa_build_nodes(self.nfa, &self.highlights, self.pinned)
    }

    /// The rendered transitions (see `nfa_build_edges`).
    pub fn edges(&self) -> (r: Vec<GraphEdge>)
        ensures
            r@.map_values(|e: GraphEdge| e@) == nfa_graph_edges(*self.nfa, self.highlights, self.nfa.states@.len()),
    {
        nfa_build_edges(self.nfa, &self.highlights)
    }

    /// The bounding boxes of the NFA.
    pub fn boxes(&self) -> (r: Vec<GraphBox>)
        ensures
            r@.len() == self.nfa.boxes@.len(),
            forall|i: int| 0 <= i < r@.len() ==> {
                &&& (#[trigger] r@[i]).id == self.nfa.boxes@[i].id
                &&& r@[i].kind == self.nfa.boxes@[i].kind
                &&& r@[i].parent == self.nfa.boxes@[i].parent
                &&& r@[i].states@ == self.nfa.boxes@[i].states@
            },
    {
        nfa_boxes(self.nfa)
    }
}

/// A DFA with its alphabet, the highlights of the current simulation step and pinned positions.
pub struct VisualDfa<'a, P> {
    pub dfa: &'a Dfa,
    pub alphabet: &'a [char],
    pub highlights: Highlights,
    pub pinned: &'a HashMap<u32, P>,
}

impl<'a, P: Copy> VisualDfa<'a, P> {
    /// Wraps a DFA for rendering.
    pub fn new(dfa: &'a Dfa, alphabet: &'a [char], highlights: Highlights, pinned: &'a HashMap<u32, P>) -> (r: Self)
        ensures
            r.dfa == dfa,
            r.alphabet == alphabet,
            r.highlights == highlights,
            r.pinned == pinned,
    {
        VisualDfa { dfa, alphabet, highlights, pinned }
    }

    /// The rendered states (see `dfa_build_nodes`).
    pub fn nodes(&self) -> (r: Vec<GraphNode<P>>)
        ensures
            r@.len() == self.dfa.states@.len(),
            forall|i: int| 0 <= i < r@.len() ==> {
                let id = self.dfa.states@[i];
                &&& (#[trigger] r@[i]).id == id
                &&& r@[i].label@ == decimal(id as nat)
                &&& r@[i].is_start == (self.dfa.start == id)
                &&& r@[i].is_accept == self.dfa.is_accept(id)
                &&& r@[i].box_id is None
                &&& r@[i].highlight == style_of(self.highlights.states@, id)
                &&& r@[i].is_pinned == self.pinned@.contains_key(id)
                &&& r@[i].manual_position == (if self.pinned@.contains_key(id) {
                    Some(self.pinned@[id])
                } else {
                    None
                })
            },
    {
        dfa_build_nodes(self.dfa, &self.highlights, self.pinned)
    }

    /// The rendered transitions, grouped per pair of states (see `dfa_build_edges`).
    pub fn edges(&self) -> (r: Vec<GraphEdge>)
        requires
            self.dfa.trans@.len() >= self.dfa.states@.len(),
            forall|si: int| 0 <= si < self.dfa.states@.len() ==> #[trigger] self.dfa.trans@[si]@.len() >= self.alphabet@.len(),
        ensures
            forall|i: int| 0 <= i < r@.len() ==> dfa_edge_ok(*self.dfa, self.alphabet@, self.highlights, (#[trigger] r@[i])@),
            forall|i: int, j: int| 0 <= i < j < r@.len() ==> !(r@[i].from == r@[j].from && r@[i].to == r@[j].to),
            forall|f: StateId, t: StateId|
                #[trigger] dfa_pair(*self.dfa, self.alphabet@, f, t) ==> exists|i: int|
                    0 <= i < r@.len() && r@[i].from == f && r@[i].to == t,
    {
        dfa_build_edges(self.dfa, self.alphabet, &self.highlights)
    }

    /// DFAs have no bounding boxes.
    pub fn boxes(&self) -> (r: Vec<GraphBox>)
        ensures
            r@.len() == 0,
    {
        Vec::new()
    }
}

} // verus!
