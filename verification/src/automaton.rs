use vstd::prelude::*;

verus! {

/// Identifier of an automaton state.
pub type StateId = u32;

/// Identifier of a bounding box grouping the states of one regex operator.
pub type BoxId = u32;

/// Label of a transition: an epsilon move or a concrete input symbol.
#[derive(Debug, Clone, Copy, PartialEq, Eq, Hash, Structural)]
pub enum EdgeLabel {
    Eps,
    Sym(char),
}

impl EdgeLabel {
    /// Returns whether the label is the input symbol `c`.
    pub fn is_sym(&self, c: char) -> (r: bool)
        ensures
            r == (*self == EdgeLabel::Sym(c)),
    {
        match self {
            EdgeLabel::Eps => false,
            EdgeLabel::Sym(d) => *d == c,
        }
    }

    /// Returns whether the label is an epsilon move.
    pub fn is_eps(&self) -> (r: bool)
        ensures
            r == (*self == EdgeLabel::Eps),
    {
        match self {
            EdgeLabel::Eps => true,
            EdgeLabel::Sym(_) => false,
        }
    }
}

/// The regex operator that produced a bounding box.
#[derive(Debug, Clone, Copy, PartialEq, Eq, Hash, Structural)]
pub enum BoxKind {
    Literal,
    Concat,
    Alternation,
    KleeneStar,
    KleenePlus,
    Optional,
}

/// An outgoing transition of a state.
#[derive(Debug, Clone, Copy, PartialEq, Eq, Structural)]
pub struct Transition {
    pub label: EdgeLabel,
    pub to: StateId,
}

/// A transition of an NFA, with its source state.
#[derive(Debug, Clone, Copy, PartialEq, Eq, Structural)]
pub struct NfaEdge {
    pub from: StateId,
    pub label: EdgeLabel,
    pub to: StateId,
}

/// A state of an NFA together with the bounding box that created it.
#[derive(Debug, Clone, Copy, PartialEq, Eq, Structural)]
pub struct NfaState {
    pub id: StateId,
    pub box_id: Option<BoxId>,
}

/// A group of states created while compiling one regex operator.
#[derive(Debug, Clone)]
pub struct BoundingBox {
    pub id: BoxId,
    pub kind: BoxKind,
    pub parent: Option<BoxId>,
    pub states: Vec<StateId>,
}

/// A non-deterministic finite automaton with epsilon moves.
#[derive(Debug, Clone)]
pub struct Nfa {
    pub states: Vec<NfaState>,
    pub start: StateId,
    pub accepts: Vec<StateId>,
    pub edges: Vec<NfaEdge>,
    pub boxes: Vec<BoundingBox>,
}

/// The transitions leaving `s`, in the order in which `edges` lists them.
pub open spec fn transitions_from(edges: Seq<NfaEdge>, s: StateId) -> Seq<Transition>
    decreases edges.len(),
{
    if edges.len() == 0 {
        Seq::empty()
    } else {
        let prev = transitions_from(edges.drop_last(), s);
        let e = edges.last();
        if e.from == s {
            prev.push(Transition { label: e.label, to: e.to })
        } else {
            prev
        }
    }
}

/// Every transition listed by `transitions_from` is an edge of the list, and
/// every edge leaving `s` is listed.
pub proof fn lemma_transitions_from(edges: Seq<NfaEdge>, s: StateId)
    ensures
        forall|t: Transition|
            transitions_from(edges, s).contains(t) <==> edges.contains(
                NfaEdge { from: s, label: t.label, to: t.to },
            ),
    decreases edges.len(),
{
    if edges.len() > 0 {
        lemma_transitions_from(edges.drop_last(), s);
        let prev = transitions_from(edges.drop_last(), s);
        let e = edges.last();
        assert forall|t: Transition|
            transitions_from(edges, s).contains(t) <==> edges.contains(
                NfaEdge { from: s, label: t.label, to: t.to },
            ) by {
            let ne = NfaEdge { from: s, label: t.label, to: t.to };
            if edges.contains(ne) {
                let k = choose|k: int| 0 <= k < edges.len() && edges[k] == ne;
                if k < edges.len() - 1 {
                    assert(edges.drop_last()[k] == ne);
                    assert(edges.drop_last().contains(ne));
                    assert(prev.contains(t));
                    let m = choose|m: int| 0 <= m < prev.len() && prev[m] == t;
                    if e.from == s {
                        assert(prev.push(Transition { label: e.label, to: e.to })[m] == t);
                    }
                } else {
                    assert(e == ne);
                    assert(transitions_from(edges, s) == prev.push(t));
                    assert(prev.push(t)[prev.len() as int] == t);
                }
            }
            if transitions_from(edges, s).contains(t) {
                let k = choose|k: int|
                    0 <= k < transitions_from(edges, s).len() && transitions_from(edges, s)[k]
                        == t;
                if e.from == s && k == prev.len() {
                    assert(edges[edges.len() - 1] == ne);
                } else {
                    assert(prev[k] == t);
                    assert(prev.contains(t));
                    let j = choose|j: int|
                        0 <= j < edges.drop_last().len() && edges.drop_last()[j] == ne;
                    assert(edges[j] == ne);
                }
            }
        }
    }
}

impl Nfa {
    /// Whether the NFA has a transition `from --label--> to`.
    pub open spec fn has_edge(self, from: StateId, label: EdgeLabel, to: StateId) -> bool {
        self.edges@.contains(NfaEdge { from, label, to })
    }

    /// Whether `s` is an accepting state.
    pub open spec fn is_accept(self, s: StateId) -> bool {
        self.accepts@.contains(s)
    }

    /// The transitions leaving `state`, in edge-list order.
    pub fn transitions(&self, state: StateId) -> (r: Vec<Transition>)
        ensures
            r@ == transitions_from(self.edges@, state),
    {
        let mut r: Vec<Transition> = Vec::new();
        let mut i: usize = 0;
        while i < self.edges.len()
            invariant
                i <= self.edges.len(),
                r@ == transitions_from(self.edges@.take(i as int), state),
            decreases self.edges.len() - i,
        {
            assert(self.edges@.take(i + 1).drop_last() =~= self.edges@.take(i as int));
            let e = self.edges[i];
            if e.from == state {
                r.push(Transition { label: e.label, to: e.to });
            }
            i = i + 1;
        }
        assert(self.edges@.take(self.edges.len() as int) =~= self.edges@);
        r
    }

    /// Whether `s` is an accepting state.
    pub fn accepts_state(&self, s: StateId) -> (r: bool)
        ensures
            r == self.is_accept(s),
    {
        crate::sets::contains_id(&self.accepts, s)
    }
}

/// A deterministic automaton over an indexed alphabet. `trans[s][k]` is the
/// successor of state `s` on the `k`-th alphabet symbol, if any.
#[derive(Debug, Clone)]
pub struct Dfa {
    pub states: Vec<StateId>,
    pub start: StateId,
    pub accepts: Vec<StateId>,
    pub trans: Vec<Vec<Option<StateId>>>,
}

impl Dfa {
    /// Whether `s` is an accepting state.
    pub open spec fn is_accept(self, s: StateId) -> bool {
        self.accepts@.contains(s)
    }

    /// Whether `s` is an accepting state.
    pub fn accepts_state(&self, s: StateId) -> (r: bool)
        ensures
            r == self.is_accept(s),
    {
        crate::sets::contains_id(&self.accepts, s)
    }
}

/// Abstract syntax tree of a regular expression.
#[derive(Debug)]
pub enum Ast {
    Atom(char),
    Concat(Box<Ast>, Box<Ast>),
    Alt(Box<Ast>, Box<Ast>),
    Star(Box<Ast>),
    Opt(Box<Ast>),
    Epsilon,
}

impl Ast {
    /// Number of nodes of the tree.
    pub open spec fn size(self) -> nat
        decreases self,
    {
        match self {
            Ast::Atom(_) => 1,
            Ast::Epsilon => 1,
            Ast::Concat(l, r) => 1 + l.size() + r.size(),
            Ast::Alt(l, r) => 1 + l.size() + r.size(),
            Ast::Star(c) => 1 + c.size(),
            Ast::Opt(c) => 1 + c.size(),
        }
    }
}

impl Ast {
    /// The number of nodes of the tree, or `None` when it exceeds `u32::MAX`.
    pub fn node_count(&self) -> (r: Option<u32>)
        ensures
            r matches Some(n) ==> n as nat == self.size(),
            r is None ==> self.size() > u32::MAX,
        decreases self,
    {
        match self {
            Ast::Atom(_) => Some(1),
            Ast::Epsilon => Some(1),
            Ast::Concat(l, r) => Self::pair_count(l.node_count(), r.node_count()),
            Ast::Alt(l, r) => Self::pair_count(l.node_count(), r.node_count()),
            Ast::Star(c) => match c.node_count() {
                Some(a) => if a < u32::MAX { Some(a + 1) } else { None },
                None => None,
            },
            Ast::Opt(c) => match c.node_count() {
                Some(a) => if a < u32::MAX { Some(a + 1) } else { None },
                None => None,
            },
        }
    }

    fn pair_count(a: Option<u32>, b: Option<u32>) -> (r: Option<u32>)
        ensures
            (a matches Some(x) && b matches Some(y) && x + y + 1 <= u32::MAX) ==> r == Some((a->0 + b->0 + 1) as u32),
            !(a matches Some(x) && b matches Some(y) && x + y + 1 <= u32::MAX) ==> r is None,
    {
        match (a, b) {
            (Some(x), Some(y)) => if (x as u64) + (y as u64) + 1 <= u32::MAX as u64 {
                Some(x + y + 1)
            } else {
                None
            },
            _ => None,
        }
    }
}

} // verus!
