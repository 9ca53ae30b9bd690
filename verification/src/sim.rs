use vstd::prelude::*;

use crate::automaton::{EdgeLabel, Nfa, NfaEdge, StateId};
use crate::sets::{contains_id, insert_id, lemma_unique_within_len};

verus! {

/// `p` is a non-empty walk through the NFA that follows epsilon moves only.
pub open spec fn eps_path(nfa: Nfa, p: Seq<StateId>) -> bool {
    &&& p.len() >= 1
    &&& forall|i: int| 0 <= i < p.len() - 1 ==> #[trigger] nfa.has_edge(p[i], EdgeLabel::Eps, p[i + 1])
}

/// `t` can be reached from some state of `from` by epsilon moves alone.
pub open spec fn eps_reachable(nfa: Nfa, from: Set<StateId>, t: StateId) -> bool {
    exists|p: Seq<StateId>| #[trigger] eps_path(nfa, p) && from.contains(p[0]) && p.last() == t
}

/// The epsilon closure of a set of states.
pub open spec fn eps_closure_set(nfa: Nfa, from: Set<StateId>) -> Set<StateId> {
    Set::new(|t: StateId| eps_reachable(nfa, from, t))
}

/// The states reached from `from` by one transition labelled `c`.
pub open spec fn move_set(nfa: Nfa, from: Set<StateId>, c: char) -> Set<StateId> {
    Set::new(|t: StateId| exists|s: StateId| from.contains(s) && #[trigger] nfa.has_edge(s, EdgeLabel::Sym(c), t))
}

/// A set that contains `from` and is closed under epsilon moves contains the
/// whole epsilon closure of `from`.
pub proof fn lemma_closed_contains_closure(nfa: Nfa, from: Set<StateId>, r: Set<StateId>)
    requires
        from.subset_of(r),
        forall|s: StateId, t: StateId| r.contains(s) && #[trigger] nfa.has_edge(s, EdgeLabel::Eps, t) ==> r.contains(t),
    ensures
        eps_closure_set(nfa, from).subset_of(r),
{
    assert forall|t: StateId| eps_closure_set(nfa, from).contains(t) implies r.contains(t) by {
        let p = choose|p: Seq<StateId>| #[trigger] eps_path(nfa, p) && from.contains(p[0]) && p.last() == t;
        lemma_path_within(nfa, p, r, (p.len() - 1) as nat);
    }
}

proof fn lemma_path_within(nfa: Nfa, p: Seq<StateId>, r: Set<StateId>, k: nat)
    requires
        eps_path(nfa, p),
        r.contains(p[0]),
        k < p.len(),
        forall|s: StateId, t: StateId| r.contains(s) && #[trigger] nfa.has_edge(s, EdgeLabel::Eps, t) ==> r.contains(t),
    ensures
        r.contains(p[k as int]),
    decreases k,
{
    if k > 0 {
        lemma_path_within(nfa, p, r, (k - 1) as nat);
        assert(nfa.has_edge(p[k - 1], EdgeLabel::Eps, p[(k - 1) + 1]));
    }
}

/// Extending an epsilon walk by one epsilon move keeps `t` reachable.
proof fn lemma_reach_step(nfa: Nfa, from: Set<StateId>, s: StateId, t: StateId)
    requires
        eps_reachable(nfa, from, s),
        nfa.has_edge(s, EdgeLabel::Eps, t),
    ensures
        eps_reachable(nfa, from, t),
{
    let p = choose|p: Seq<StateId>| #[trigger] eps_path(nfa, p) && from.contains(p[0]) && p.last() == s;
    let q = p.push(t);
    assert forall|i: int| 0 <= i < q.len() - 1 implies #[trigger] nfa.has_edge(q[i], EdgeLabel::Eps, q[i + 1]) by {
        if i < p.len() - 1 {
            assert(nfa.has_edge(p[i], EdgeLabel::Eps, p[i + 1]));
        }
    }
    assert(eps_path(nfa, q));
    assert(q[0] == p[0]);
}

proof fn lemma_reach_self(nfa: Nfa, from: Set<StateId>, s: StateId)
    requires
        from.contains(s),
    ensures
        eps_reachable(nfa, from, s),
{
    let p = seq![s];
    assert(eps_path(nfa, p));
}

/// Law: the epsilon closure contains the states it starts from.
pub proof fn lemma_closure_contains(nfa: Nfa, from: Set<StateId>)
    ensures
        from.subset_of(eps_closure_set(nfa, from)),
{
    assert forall|s: StateId| from.contains(s) implies eps_closure_set(nfa, from).contains(s) by {
        lemma_reach_self(nfa, from, s);
    }
}

/// Law: the epsilon closure is closed under epsilon moves.
pub proof fn lemma_closure_closed(nfa: Nfa, from: Set<StateId>, s: StateId, t: StateId)
    requires
        eps_closure_set(nfa, from).contains(s),
        nfa.has_edge(s, EdgeLabel::Eps, t),
    ensures
        eps_closure_set(nfa, from).contains(t),
{
    lemma_reach_step(nfa, from, s, t);
}

/// Law: taking the epsilon closure twice gives the same set as taking it once.
pub proof fn lemma_closure_idempotent(nfa: Nfa, from: Set<StateId>)
    ensures
        eps_closure_set(nfa, eps_closure_set(nfa, from)) == eps_closure_set(nfa, from),
{
    let once = eps_closure_set(nfa, from);
    lemma_closure_contains(nfa, once);
    assert forall|s: StateId, t: StateId| once.contains(s) && #[trigger] nfa.has_edge(s, EdgeLabel::Eps, t) implies once.contains(t) by {
        lemma_reach_step(nfa, from, s, t);
    }
    lemma_closed_contains_closure(nfa, once, once);
    assert(eps_closure_set(nfa, once) =~= once);
}

/// Computes the epsilon closure of `states`: every state reachable from one of
/// them through epsilon moves, each listed once.
pub fn epsilon_closure(states: &Vec<StateId>, nfa: &Nfa) -> (r: Vec<StateId>)
    ensures
        r@.no_duplicates(),
        r@.to_set() == eps_closure_set(*nfa, states@.to_set()),
{
    let ghost from = states@.to_set();
    let ghost targets: Seq<StateId> = nfa.edges@.map_values(|e: NfaEdge| e.to);
    let ghost universe: Seq<StateId> = states@ + targets;
    let mut visited: Vec<StateId> = Vec::new();
    let mut k: usize = 0;
    while k < states.len()
        invariant
            k <= states.len(),
            from == states@.to_set(),
            universe == states@ + targets,
            visited@.no_duplicates(),
            forall|x: StateId| visited@.contains(x) <==> states@.take(k as int).contains(x),
        decreases states.len() - k,
    {
        let x = states[k];
        insert_id(&mut visited, x);
        proof {
            let t0 = states@.take(k as int);
            let t1 = states@.take(k + 1);
            assert(t1 =~= t0.push(x));
            assert forall|y: StateId| visited@.contains(y) <==> t1.contains(y) by {
                assert(visited@.to_set().contains(y) == visited@.contains(y));
                if t0.contains(y) {
                    let j = choose|j: int| 0 <= j < t0.len() && t0[j] == y;
                    assert(t1[j] == y);
                }
                if t1.contains(y) {
                    let j = choose|j: int| 0 <= j < t1.len() && t1[j] == y;
                    if j < k {
                        assert(t0[j] == y);
                    }
                }
                assert(t1[k as int] == x);
            }
        }
        k = k + 1;
    }
    assert(states@.take(states.len() as int) =~= states@);
    proof {
        assert forall|x: StateId| #[trigger] visited@.contains(x) implies eps_reachable(*nfa, from, x) && universe.contains(x) by {
            let j = choose|j: int| 0 <= j < states@.len() && states@[j] == x;
            assert(from.contains(x));
            lemma_reach_self(*nfa, from, x);
            assert(universe[j] == x);
        }
    }
    let mut i: usize = 0;
    while i < visited.len()
        invariant
            i <= visited.len(),
            from == states@.to_set(),
            universe == states@ + targets,
            targets == nfa.edges@.map_values(|e: NfaEdge| e.to),
            visited@.no_duplicates(),
            forall|x: StateId| from.contains(x) ==> visited@.contains(x),
            forall|x: StateId| #[trigger] visited@.contains(x) ==> eps_reachable(*nfa, from, x),
            forall|x: StateId| #[trigger] visited@.contains(x) ==> universe.contains(x),
            forall|j: int, t: StateId|
                0 <= j < i && #[trigger] nfa.has_edge(visited@[j], EdgeLabel::Eps, t) ==> visited@.contains(t),
        decreases universe.len() - i,
    {
        proof {
            lemma_unique_within_len(visited@, universe);
        }
        let s = visited[i];
        let mut e: usize = 0;
        while e < nfa.edges.len()
            invariant
                e <= nfa.edges.len(),
                i < visited.len(),
                s == visited@[i as int],
                from == states@.to_set(),
                universe == states@ + targets,
                targets == nfa.edges@.map_values(|e: NfaEdge| e.to),
                visited@.no_duplicates(),
                forall|x: StateId| from.contains(x) ==> visited@.contains(x),
                forall|x: StateId| #[trigger] visited@.contains(x) ==> eps_reachable(*nfa, from, x),
                forall|x: StateId| #[trigger] visited@.contains(x) ==> universe.contains(x),
                forall|j: int, t: StateId|
                    0 <= j < i && #[trigger] nfa.has_edge(visited@[j], EdgeLabel::Eps, t) ==> visited@.contains(t),
                forall|m: int|
                    0 <= m < e && (#[trigger] nfa.edges@[m]).from == s && nfa.edges@[m].label == EdgeLabel::Eps
                        ==> visited@.contains(nfa.edges@[m].to),
            decreases nfa.edges.len() - e,
        {
            let edge = nfa.edges[e];
            if edge.from == s && edge.label.is_eps() {
                let ghost before = visited@;
                proof {
                    assert(visited@.contains(s));
                    assert(nfa.edges@.contains(edge));
                    assert(nfa.has_edge(s, EdgeLabel::Eps, edge.to));
                    lemma_reach_step(*nfa, from, s, edge.to);
                    assert(targets[e as int] == edge.to);
                    assert(universe[states@.len() + e] == edge.to);
                }
                insert_id(&mut visited, edge.to);
                proof {
                    assert forall|x: StateId| #[trigger] visited@.contains(x) implies before.contains(x) || x == edge.to by {
                        assert(visited@.to_set().contains(x));
                    }
                    assert forall|x: StateId| before.contains(x) implies visited@.contains(x) by {
                        assert(before.to_set().contains(x));
                        assert(visited@.to_set().contains(x));
                    }
                    assert(visited@.to_set().contains(edge.to));
                    assert forall|j: int| 0 <= j < before.len() implies visited@[j] == before[j] by {
                        if !before.contains(edge.to) {
                            assert(visited@ == before.push(edge.to));
                        }
                    }
                }
            }
            e = e + 1;
        }
        proof {
            assert forall|j: int, t: StateId|
                0 <= j < i + 1 && #[trigger] nfa.has_edge(visited@[j], EdgeLabel::Eps, t) implies visited@.contains(t) by {
                if j == i {
                    let ne = NfaEdge { from: s, label: EdgeLabel::Eps, to: t };
                    let m = choose|m: int| 0 <= m < nfa.edges@.len() && nfa.edges@[m] == ne;
                    assert(nfa.edges@[m].from == s);
                }
            }
        }
        i = i + 1;
    }
    proof {
        let r = visited@.to_set();
        assert(from.subset_of(r));
        assert forall|s: StateId, t: StateId| r.contains(s) && #[trigger] nfa.has_edge(s, EdgeLabel::Eps, t) implies r.contains(t) by {
            let j = choose|j: int| 0 <= j < visited@.len() && visited@[j] == s;
            assert(nfa.has_edge(visited@[j], EdgeLabel::Eps, t));
        }
        lemma_closed_contains_closure(*nfa, from, r);
        assert(visited@.to_set() =~= eps_closure_set(*nfa, from));
    }
    visited
}

/// The states reached from `states` by one transition labelled `c`, each listed once.
pub fn move_on(states: &Vec<StateId>, c: char, nfa: &Nfa) -> (r: Vec<StateId>)
    ensures
        r@.no_duplicates(),
        r@.to_set() == move_set(*nfa, states@.to_set(), c),
{
    let ghost from = states@.to_set();
    let mut out: Vec<StateId> = Vec::new();
    let mut i: usize = 0;
    while i < states.len()
        invariant
            i <= states.len(),
            from == states@.to_set(),
            out@.no_duplicates(),
            forall|t: StateId| #[trigger] out@.contains(t) ==> move_set(*nfa, from, c).contains(t),
            forall|j: int, t: StateId|
                0 <= j < i && #[trigger] nfa.has_edge(states@[j], EdgeLabel::Sym(c), t) ==> out@.contains(t),
        decreases states.len() - i,
    {
        let s = states[i];
        let mut e: usize = 0;
        while e < nfa.edges.len()
            invariant
                e <= nfa.edges.len(),
                i < states.len(),
                s == states@[i as int],
                from == states@.to_set(),
                out@.no_duplicates(),
                forall|t: StateId| #[trigger] out@.contains(t) ==> move_set(*nfa, from, c).contains(t),
                forall|j: int, t: StateId|
                    0 <= j < i && #[trigger] nfa.has_edge(states@[j], EdgeLabel::Sym(c), t) ==> out@.contains(t),
                forall|m: int|
                    0 <= m < e && (#[trigger] nfa.edges@[m]).from == s && nfa.edges@[m].label == EdgeLabel::Sym(c)
                        ==> out@.contains(nfa.edges@[m].to),
            decreases nfa.edges.len() - e,
        {
            let edge = nfa.edges[e];
            if edge.from == s && edge.label.is_sym(c) {
                let ghost before = out@;
                proof {
                    assert(nfa.edges@.contains(edge));
                    assert(from.contains(s));
                    assert(nfa.has_edge(s, EdgeLabel::Sym(c), edge.to));
                    assert(move_set(*nfa, from, c).contains(edge.to));
                }
                insert_id(&mut out, edge.to);
                proof {
                    assert forall|x: StateId| #[trigger] out@.contains(x) implies before.contains(x) || x == edge.to by {
                        assert(out@.to_set().contains(x));
                    }
                    assert forall|x: StateId| before.contains(x) implies out@.contains(x) by {
                        assert(before.to_set().contains(x));
                        assert(out@.to_set().contains(x));
                    }
                    assert(out@.to_set().contains(edge.to));
                }
            }
            e = e + 1;
        }
        proof {
            assert forall|j: int, t: StateId|
                0 <= j < i + 1 && #[trigger] nfa.has_edge(states@[j], EdgeLabel::Sym(c), t) implies out@.contains(t) by {
                if j == i {
                    let ne = NfaEdge { from: s, label: EdgeLabel::Sym(c), to: t };
                    let m = choose|m: int| 0 <= m < nfa.edges@.len() && nfa.edges@[m] == ne;
                    assert(nfa.edges@[m].from == s);
                }
            }
        }
        i = i + 1;
    }
    proof {
        assert forall|t: StateId| move_set(*nfa, from, c).contains(t) implies out@.contains(t) by {
            let s = choose|s: StateId| from.contains(s) && #[trigger] nfa.has_edge(s, EdgeLabel::Sym(c), t);
            let j = choose|j: int| 0 <= j < states@.len() && states@[j] == s;
            assert(nfa.has_edge(states@[j], EdgeLabel::Sym(c), t));
        }
        assert(out@.to_set() =~= move_set(*nfa, from, c));
    }
    out
}

} // verus!
