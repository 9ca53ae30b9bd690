use vstd::prelude::*;

use crate::automaton::StateId;
use crate::graph::{GraphEdge, GraphNode};

verus! {

broadcast use vstd::seq_lib::group_to_multiset_ensures;

// ---------------------------------------------------------------------------
// Walks and breadth-first levels
// ---------------------------------------------------------------------------

/// There is a walk of `n` edges from `s` to `x` through states outside `blocked`.
pub open spec fn walk(edges: Seq<GraphEdge>, blocked: Set<StateId>, s: StateId, x: StateId, n: nat) -> bool
    decreases n,
{
    if n == 0 {
        x == s && !blocked.contains(s)
    } else {
        !blocked.contains(x) && exists|k: int|
            0 <= k < edges.len() && (#[trigger] edges[k]).to == x && walk(edges, blocked, s, edges[k].from, (n - 1) as nat)
    }
}

/// `x` can be reached from `s` through states outside `blocked`.
pub open spec fn reaches(edges: Seq<GraphEdge>, blocked: Set<StateId>, s: StateId, x: StateId) -> bool {
    exists|n: nat| #[trigger] walk(edges, blocked, s, x, n)
}

/// `n` is the length of a shortest walk from `s` to `x` outside `blocked`.
pub open spec fn is_distance(edges: Seq<GraphEdge>, blocked: Set<StateId>, s: StateId, x: StateId, n: nat) -> bool {
    walk(edges, blocked, s, x, n) && forall|m: nat| m < n ==> !#[trigger] walk(edges, blocked, s, x, m)
}

/// Length of a shortest walk from `s` to `x` outside `blocked`.
pub open spec fn distance(edges: Seq<GraphEdge>, blocked: Set<StateId>, s: StateId, x: StateId) -> nat {
    choose|n: nat| is_distance(edges, blocked, s, x, n)
}

/// The levels a breadth-first search from `s` gives, starting at `offset`
/// and never entering `blocked`: each reachable state sits `offset` plus its
/// distance from `s`.
pub open spec fn bfs_levels(edges: Seq<GraphEdge>, blocked: Set<StateId>, s: StateId, offset: nat) -> Map<StateId, nat> {
    Map::new(|x: StateId| reaches(edges, blocked, s, x), |x: StateId| offset + distance(edges, blocked, s, x))
}

/// The states of a list of (state, level) entries.
pub open spec fn entry_ids(order: Seq<(StateId, usize)>) -> Seq<StateId> {
    order.map_values(|e: (StateId, usize)| e.0)
}

/// The levels recorded by a list of (state, level) entries with distinct states.
pub open spec fn level_map(order: Seq<(StateId, usize)>) -> Map<StateId, nat> {
    Map::new(
        |x: StateId| entry_ids(order).contains(x),
        |x: StateId| order[choose|i: int| 0 <= i < order.len() && order[i].0 == x].1 as nat,
    )
}

/// Position of `x` among the entries, if it has one.
pub(crate) fn find_entry(order: &Vec<(StateId, usize)>, x: StateId) -> (r: Option<usize>)
    ensures
        r is None ==> !entry_ids(order@).contains(x),
        r matches Some(i) ==> i < order@.len() && order@[i as int].0 == x,
{
    let mut i: usize = 0;
    while i < order.len()
        invariant
            i <= order@.len(),
            forall|j: int| 0 <= j < i ==> order@[j].0 != x,
        decreases order.len() - i,
    {
        if order[i].0 == x {
            return Some(i);
        }
        i = i + 1;
    }
    proof {
        if entry_ids(order@).contains(x) {
            let j = choose|j: int| 0 <= j < entry_ids(order@).len() && entry_ids(order@)[j] == x;
            assert(order@[j].0 == x);
        }
    }
    None
}

/// State `x` sits at a new entry (index at least `base`) with a level of at most `bound`.
spec fn placed_within(order: Seq<(StateId, usize)>, base: int, x: StateId, bound: int) -> bool {
    exists|j: int| base <= j < order.len() && (#[trigger] order[j]).0 == x && order[j].1 <= bound
}

/// The first `upto` edges leaving the state of entry `i` lead to placed states,
/// and those outside `blocked` at most one level below it.
spec fn edges_settled(
    edges: Seq<GraphEdge>,
    blocked: Set<StateId>,
    order: Seq<(StateId, usize)>,
    base: int,
    i: int,
    upto: int,
) -> bool {
    forall|k: int| 0 <= k < upto && (#[trigger] edges[k]).from == order[i].0 ==> {
        &&& entry_ids(order).contains(edges[k].to)
        &&& !blocked.contains(edges[k].to) ==> placed_within(order, base, edges[k].to, order[i].1 + 1)
    }
}

/// The targets of the edges, with `s` in front.
pub(crate) open spec fn endpoints(edges: Seq<GraphEdge>, s: StateId) -> Seq<StateId> {
    seq![s] + edges.map_values(|e: GraphEdge| e.to)
}

/// Breadth-first search invariant over the entries from `base` on, with
/// entries before `head` processed.
spec fn bfs_inv(
    edges: Seq<GraphEdge>,
    blocked: Set<StateId>,
    start: StateId,
    offset: int,
    order: Seq<(StateId, usize)>,
    base: int,
    head: int,
) -> bool {
    &&& 0 <= base < order.len()
    &&& base <= head <= order.len()
    &&& entry_ids(order).no_duplicates()
    &&& forall|i: int| 0 <= i < order.len() ==> (#[trigger] order[i]).1 <= i
    &&& order[base].0 == start && order[base].1 == offset
    &&& forall|i: int| 0 <= i < base ==> blocked.contains((#[trigger] order[i]).0)
    &&& forall|i: int| base <= i < order.len() ==> offset <= (#[trigger] order[i]).1
        && walk(edges, blocked, start, order[i].0, (order[i].1 - offset) as nat)
    &&& forall|i: int, j: int| base <= i <= j < order.len() ==> order[i].1 <= order[j].1
    &&& head < order.len() ==> forall|i: int| base <= i < order.len() ==> (#[trigger] order[i]).1 <= order[head].1 + 1
    &&& forall|i: int| base <= i < head ==> #[trigger] edges_settled(edges, blocked, order, base, i, edges.len() as int)
    &&& forall|i: int| base <= i < order.len() ==> endpoints(edges, start).contains((#[trigger] order[i]).0)
}

proof fn lemma_settled_grow(
    edges: Seq<GraphEdge>,
    blocked: Set<StateId>,
    order: Seq<(StateId, usize)>,
    e: (StateId, usize),
    base: int,
    i: int,
    upto: int,
)
    requires
        0 <= base <= i < order.len(),
        edges_settled(edges, blocked, order, base, i, upto),
    ensures
        edges_settled(edges, blocked, order.push(e), base, i, upto),
{
    let o2 = order.push(e);
    assert forall|k: int| 0 <= k < upto && (#[trigger] edges[k]).from == o2[i].0 implies {
        &&& entry_ids(o2).contains(edges[k].to)
        &&& !blocked.contains(edges[k].to) ==> placed_within(o2, base, edges[k].to, o2[i].1 + 1)
    } by {
        assert(o2[i] == order[i]);
        let t = edges[k].to;
        let a = choose|a: int| 0 <= a < entry_ids(order).len() && entry_ids(order)[a] == t;
        assert(entry_ids(o2)[a] == t);
        if !blocked.contains(t) {
            let j = choose|j: int| base <= j < order.len() && (#[trigger] order[j]).0 == t && order[j].1 <= order[i].1 + 1;
            assert(o2[j] == order[j]);
        }
    }
}

/// Every state reachable in `n` steps has been placed at a level of at most `offset + n`.
proof fn lemma_bfs_complete(
    edges: Seq<GraphEdge>,
    blocked: Set<StateId>,
    start: StateId,
    offset: int,
    order: Seq<(StateId, usize)>,
    base: int,
    x: StateId,
    n: nat,
)
    requires
        bfs_inv(edges, blocked, start, offset, order, base, order.len() as int),
        walk(edges, blocked, start, x, n),
    ensures
        placed_within(order, base, x, offset + n),
    decreases n,
{
    if n == 0 {
        assert(order[base].0 == x);
        assert(placed_within(order, base, x, offset + n));
    } else {
        let k = choose|k: int| 0 <= k < edges.len() && (#[trigger] edges[k]).to == x
            && walk(edges, blocked, start, edges[k].from, (n - 1) as nat);
        let p = edges[k].from;
        lemma_bfs_complete(edges, blocked, start, offset, order, base, p, (n - 1) as nat);
        let j = choose|j: int| base <= j < order.len() && (#[trigger] order[j]).0 == p && order[j].1 <= offset + n - 1;
        assert(edges_settled(edges, blocked, order, base, j, edges.len() as int));
        assert(edges[k].from == order[j].0);
        assert(!blocked.contains(x));
        assert(placed_within(order, base, x, order[j].1 + 1));
        let j2 = choose|j2: int| base <= j2 < order.len() && (#[trigger] order[j2]).0 == x && order[j2].1 <= order[j].1 + 1;
        assert(order[j2].1 <= offset + n);
    }
}

/// Appends to `order` the states that a breadth-first search from `start`
/// reaches without entering the states already listed, each with its level.
pub(crate) fn bfs_append(order: &mut Vec<(StateId, usize)>, start: StateId, offset: usize, edges: &Vec<GraphEdge>)
    requires
        entry_ids(old(order)@).no_duplicates(),
        !entry_ids(old(order)@).contains(start),
        offset <= old(order)@.len(),
        forall|i: int| 0 <= i < old(order)@.len() ==> (#[trigger] old(order)@[i]).1 <= i,
    ensures
        final(order)@.len() > old(order)@.len(),
        final(order)@.subrange(0, old(order)@.len() as int) == old(order)@,
        final(order)@[old(order)@.len() as int] == (start, offset),
        entry_ids(final(order)@).no_duplicates(),
        forall|i: int| 0 <= i < final(order)@.len() ==> (#[trigger] final(order)@[i]).1 <= i,
        level_map(final(order)@.skip(old(order)@.len() as int))
            == bfs_levels(edges@, entry_ids(old(order)@).to_set(), start, offset as nat),
{
    let ghost before = order@;
    let ghost blocked = entry_ids(before).to_set();
    let ghost off = offset as int;
    let base: usize = order.len();
    order.push((start, offset));
    proof {
        let o = order@;
        assert(o.subrange(0, base as int) =~= before);
        assert forall|i: int| 0 <= i < base implies blocked.contains((#[trigger] o[i]).0) by {
            assert(o[i] == before[i]);
            assert(entry_ids(before)[i] == o[i].0);
        }
        assert forall|a: int, b: int| 0 <= a < o.len() && 0 <= b < o.len() && a != b
            implies entry_ids(o)[a] != entry_ids(o)[b] by {
            if a < base && b < base {
                assert(entry_ids(before)[a] == entry_ids(o)[a]);
                assert(entry_ids(before)[b] == entry_ids(o)[b]);
            } else if a < base {
                assert(entry_ids(before)[a] == entry_ids(o)[a]);
            } else if b < base {
                assert(entry_ids(before)[b] == entry_ids(o)[b]);
            }
        }
        assert(!blocked.contains(start));
        assert(walk(edges@, blocked, start, start, 0));
        assert(endpoints(edges@, start)[0] == start);
    }
    let mut head: usize = base;
    while head < order.len()
        invariant
            bfs_inv(edges@, blocked, start, off, order@, base as int, head as int),
            order@.subrange(0, base as int) == before,
            blocked == entry_ids(before).to_set(),
            base == before.len(),
            off == offset,
            order@.len() <= base + edges@.len() + 1,
        decreases base + edges@.len() + 1 - head,
    {
        let cur = order[head].0;
        let lvl = order[head].1;
        let mut k: usize = 0;
        while k < edges.len()
            invariant
                bfs_inv(edges@, blocked, start, off, order@, base as int, head as int),
                head < order@.len(),
                order@[head as int] == (cur, lvl),
                order@.subrange(0, base as int) == before,
                blocked == entry_ids(before).to_set(),
                base == before.len(),
                off == offset,
                order@.len() <= base + edges@.len() + 1,
                k <= edges@.len(),
                edges_settled(edges@, blocked, order@, base as int, head as int, k as int),
            decreases edges.len() - k,
        {
            if edges[k].from == cur {
                let next = edges[k].to;
                match find_entry(order, next) {
                    Some(j) => {
                        proof {
                            lemma_settle_known(edges@, blocked, start, off, order@, base as int, head as int, k as int, j as int);
                        }
                    },
                    None => {
                        let ghost o1 = order@;
                        let len_now: usize = order.len();
                        assert(lvl <= head && head < len_now);
                        order.push((next, lvl + 1));
                        proof {
                            lemma_settle_new(edges@, blocked, start, off, o1, base as int, head as int, k as int, before);
                        }
                    },
                }
            } else {
                proof {
                    assert forall|q: int| 0 <= q < k + 1 && (#[trigger] edges@[q]).from == order@[head as int].0 implies {
                        &&& entry_ids(order@).contains(edges@[q].to)
                        &&& !blocked.contains(edges@[q].to) ==> placed_within(order@, base as int, edges@[q].to, order@[head as int].1 + 1)
                    } by {
                        assert(q < k);
                    }
                }
            }
            k = k + 1;
        }
        proof {
            let o = order@;
            let h = head as int;
            assert forall|i: int| base <= i < h + 1 implies #[trigger] edges_settled(edges@, blocked, o, base as int, i, edges@.len() as int) by {
                if i < h {
                    assert(edges_settled(edges@, blocked, o, base as int, i, edges@.len() as int));
                }
            }
            if h + 1 < o.len() {
                assert(o[h].1 <= o[h + 1].1);
            }
        }
        head = head + 1;
    }
    proof {
        lemma_bfs_levels(edges@, blocked, start, off, order@, base as int);
    }
}

/// Processing an edge to a state that is already listed keeps the search invariant.
proof fn lemma_settle_known(
    edges: Seq<GraphEdge>,
    blocked: Set<StateId>,
    start: StateId,
    offset: int,
    order: Seq<(StateId, usize)>,
    base: int,
    head: int,
    k: int,
    j: int,
)
    requires
        bfs_inv(edges, blocked, start, offset, order, base, head),
        head < order.len(),
        0 <= k < edges.len(),
        edges[k].from == order[head].0,
        0 <= j < order.len(),
        order[j].0 == edges[k].to,
        edges_settled(edges, blocked, order, base, head, k),
    ensures
        edges_settled(edges, blocked, order, base, head, k + 1),
{
    assert(entry_ids(order)[j] == edges[k].to);
    if !blocked.contains(edges[k].to) {
        if j < base {
            assert(blocked.contains(order[j].0));
        }
        assert(order[j].1 <= order[head].1 + 1);
        assert(placed_within(order, base, edges[k].to, order[head].1 + 1));
    }
    assert forall|q: int| 0 <= q < k + 1 && (#[trigger] edges[q]).from == order[head].0 implies {
        &&& entry_ids(order).contains(edges[q].to)
        &&& !blocked.contains(edges[q].to) ==> placed_within(order, base, edges[q].to, order[head].1 + 1)
    } by {
        if q < k {
        } else {
            assert(q == k);
        }
    }
}

/// Listing a new state one level below the head keeps the search invariant.
proof fn lemma_settle_new(
    edges: Seq<GraphEdge>,
    blocked: Set<StateId>,
    start: StateId,
    offset: int,
    order: Seq<(StateId, usize)>,
    base: int,
    head: int,
    k: int,
    before: Seq<(StateId, usize)>,
)
    requires
        bfs_inv(edges, blocked, start, offset, order, base, head),
        head < order.len(),
        0 <= k < edges.len(),
        edges[k].from == order[head].0,
        !entry_ids(order).contains(edges[k].to),
        edges_settled(edges, blocked, order, base, head, k),
        order.subrange(0, base) == before,
        blocked == entry_ids(before).to_set(),
        base == before.len(),
        order.len() <= base + edges.len() + 1,
        order[head].1 < usize::MAX,
    ensures
        ({
            let o2 = order.push((edges[k].to, (order[head].1 + 1) as usize));
            &&& bfs_inv(edges, blocked, start, offset, o2, base, head)
            &&& edges_settled(edges, blocked, o2, base, head, k + 1)
            &&& o2.subrange(0, base) == before
            &&& o2.len() <= base + edges.len() + 1
        }),
{
    let t = edges[k].to;
    let l = (order[head].1 + 1) as usize;
    let o2 = order.push((t, l));
    let n = order.len() as int;
    assert(o2[n] == (t, l));
    assert forall|i: int| 0 <= i < n implies o2[i] == order[i] by {}
    // t is not blocked: blocked states are all listed.
    assert(!blocked.contains(t)) by {
        if blocked.contains(t) {
            let a = choose|a: int| 0 <= a < entry_ids(before).len() && entry_ids(before)[a] == t;
            assert(order[a] == before[a]);
            assert(entry_ids(order)[a] == t);
        }
    }
    // distinct states
    assert forall|a: int, b: int| 0 <= a < o2.len() && 0 <= b < o2.len() && a != b
        implies entry_ids(o2)[a] != entry_ids(o2)[b] by {
        if a < n && b < n {
            assert(entry_ids(order)[a] == entry_ids(o2)[a]);
            assert(entry_ids(order)[b] == entry_ids(o2)[b]);
        } else if a < n {
            assert(entry_ids(order)[a] == entry_ids(o2)[a]);
        } else if b < n {
            assert(entry_ids(order)[b] == entry_ids(o2)[b]);
        }
    }
    // levels bounded by positions
    assert forall|i: int| 0 <= i < o2.len() implies (#[trigger] o2[i]).1 <= i by {
        if i < n {
            assert(order[i].1 <= i);
        }
    }
    // the walk to the new state
    let p = order[head].0;
    assert(walk(edges, blocked, start, p, (order[head].1 - offset) as nat));
    assert(walk(edges, blocked, start, t, (l - offset) as nat)) by {
        assert(((l - offset) as nat - 1) as nat == (order[head].1 - offset) as nat);
    }
    assert forall|i: int| base <= i < o2.len() implies offset <= (#[trigger] o2[i]).1
        && walk(edges, blocked, start, o2[i].0, (o2[i].1 - offset) as nat) by {
        if i < n {
            assert(o2[i] == order[i]);
        }
    }
    // monotone levels
    assert forall|i: int, j: int| base <= i <= j < o2.len() implies o2[i].1 <= o2[j].1 by {
        if j == n && i < n {
            assert(order[i].1 <= order[head].1 + 1);
        }
    }
    assert forall|i: int| base <= i < o2.len() implies (#[trigger] o2[i]).1 <= o2[head].1 + 1 by {
        if i < n {
            assert(order[i].1 <= order[head].1 + 1);
        }
    }
    // processed entries stay settled
    assert forall|i: int| base <= i < head implies #[trigger] edges_settled(edges, blocked, o2, base, i, edges.len() as int) by {
        assert(edges_settled(edges, blocked, order, base, i, edges.len() as int));
        lemma_settled_grow(edges, blocked, order, (t, l), base, i, edges.len() as int);
    }
    lemma_settled_grow(edges, blocked, order, (t, l), base, head, k);
    assert(entry_ids(o2)[n] == t);
    assert(placed_within(o2, base, t, o2[head].1 + 1));
    assert forall|q: int| 0 <= q < k + 1 && (#[trigger] edges[q]).from == o2[head].0 implies {
        &&& entry_ids(o2).contains(edges[q].to)
        &&& !blocked.contains(edges[q].to) ==> placed_within(o2, base, edges[q].to, o2[head].1 + 1)
    } by {
        if q == k {
        }
    }
    // endpoints
    assert(endpoints(edges, start)[k + 1] == t);
    assert forall|i: int| base <= i < o2.len() implies endpoints(edges, start).contains((#[trigger] o2[i]).0) by {
        if i < n {
            assert(o2[i] == order[i]);
        }
    }
    // size bound: new states are distinct endpoints
    let fresh = entry_ids(o2).skip(base);
    assert(fresh.no_duplicates()) by {
        assert forall|a: int, b: int| 0 <= a < fresh.len() && 0 <= b < fresh.len() && a != b implies fresh[a] != fresh[b] by {
            assert(fresh[a] == entry_ids(o2)[a + base]);
            assert(fresh[b] == entry_ids(o2)[b + base]);
        }
    }
    assert forall|x: StateId| fresh.contains(x) implies endpoints(edges, start).contains(x) by {
        let a = choose|a: int| 0 <= a < fresh.len() && fresh[a] == x;
        assert(o2[a + base].0 == x);
    }
    crate::sets::lemma_unique_within_len(fresh, endpoints(edges, start));
    assert(o2.subrange(0, base) =~= order.subrange(0, base));
}

/// When the search is done, its entries give the breadth-first levels.
proof fn lemma_bfs_levels(
    edges: Seq<GraphEdge>,
    blocked: Set<StateId>,
    start: StateId,
    offset: int,
    order: Seq<(StateId, usize)>,
    base: int,
)
    requires
        bfs_inv(edges, blocked, start, offset, order, base, order.len() as int),
        offset >= 0,
    ensures
        level_map(order.skip(base)) == bfs_levels(edges, blocked, start, offset as nat),
{
    let fresh = order.skip(base);
    let lm = level_map(fresh);
    let bl = bfs_levels(edges, blocked, start, offset as nat);
    assert forall|x: StateId| lm.dom().contains(x) <==> bl.dom().contains(x) by {
        if lm.dom().contains(x) {
            let a = choose|a: int| 0 <= a < entry_ids(fresh).len() && entry_ids(fresh)[a] == x;
            assert(order[a + base] == fresh[a]);
            assert(walk(edges, blocked, start, x, (order[a + base].1 - offset) as nat));
        }
        if bl.dom().contains(x) {
            let n = choose|n: nat| #[trigger] walk(edges, blocked, start, x, n);
            lemma_bfs_complete(edges, blocked, start, offset, order, base, x, n);
            let j = choose|j: int| base <= j < order.len() && (#[trigger] order[j]).0 == x && order[j].1 <= offset + n;
            assert(fresh[j - base] == order[j]);
            assert(entry_ids(fresh)[j - base] == x);
        }
    }
    assert forall|x: StateId| #[trigger] lm.dom().contains(x) implies lm[x] == bl[x] by {
        let i = choose|i: int| 0 <= i < fresh.len() && fresh[i].0 == x;
        let j = i + base;
        assert(order[j] == fresh[i]);
        let l = (order[j].1 - offset) as nat;
        assert(walk(edges, blocked, start, x, l));
        assert forall|m: nat| m < l implies !#[trigger] walk(edges, blocked, start, x, m) by {
            if walk(edges, blocked, start, x, m) {
                lemma_bfs_complete(edges, blocked, start, offset, order, base, x, m);
                let j2 = choose|j2: int| base <= j2 < order.len() && (#[trigger] order[j2]).0 == x && order[j2].1 <= offset + m;
                assert(entry_ids(order)[j2] == x && entry_ids(order)[j] == x);
            }
        }
        assert(is_distance(edges, blocked, start, x, l));
        let d = distance(edges, blocked, start, x);
        assert(is_distance(edges, blocked, start, x, d));
        if d < l {
        } else if l < d {
            assert(!walk(edges, blocked, start, x, l));
        }
        assert(d == l);
    }
    assert(lm =~= bl);
}

// ---------------------------------------------------------------------------
// Levels of every state
// ---------------------------------------------------------------------------

/// The state of the first node marked as start, if any.
pub open spec fn first_start<P>(nodes: Seq<GraphNode<P>>) -> Option<StateId>
    decreases nodes.len(),
{
    if nodes.len() == 0 {
        None
    } else if nodes[0].is_start {
        Some(nodes[0].id)
    } else {
        first_start(nodes.drop_first())
    }
}

/// The states of the nodes, in order.
pub open spec fn node_ids<P>(nodes: Seq<GraphNode<P>>) -> Seq<StateId> {
    nodes.map_values(|n: GraphNode<P>| n.id)
}

/// `v` is the highest level in `m`.
pub open spec fn is_top_level(m: Map<StateId, nat>, v: nat) -> bool {
    &&& exists|x: StateId| #[trigger] m.dom().contains(x) && m[x] == v
    &&& forall|x: StateId| #[trigger] m.dom().contains(x) ==> m[x] <= v
}

/// The level after the highest one in `m`, or 0 when `m` is empty.
pub open spec fn next_offset(m: Map<StateId, nat>) -> nat {
    if exists|v: nat| is_top_level(m, v) {
        (choose|v: nat| is_top_level(m, v)) + 1
    } else {
        0
    }
}

/// Order of state identifiers.
pub open spec fn id_leq() -> spec_fn(StateId, StateId) -> bool {
    |a: StateId, b: StateId| a <= b
}

/// Starts a new search from each state of `rest` in turn that has no level
/// yet, placing it after the highest level so far and never entering states
/// that already have one.
pub open spec fn extend_levels(edges: Seq<GraphEdge>, m: Map<StateId, nat>, rest: Seq<StateId>) -> Map<StateId, nat>
    decreases rest.len(),
{
    if rest.len() == 0 {
        m
    } else {
        let s = rest[0];
        let m2 = if m.dom().contains(s) {
            m
        } else {
            m.union_prefer_right(bfs_levels(edges, m.dom(), s, next_offset(m)))
        };
        extend_levels(edges, m2, rest.drop_first())
    }
}

/// The column of each state in the layered drawing of a DFA: breadth-first
/// levels from the first start state, then, for the states not reached, in
/// increasing order of identifier, further searches placed to the right.
pub open spec fn layer_levels<P>(nodes: Seq<GraphNode<P>>, edges: Seq<GraphEdge>) -> Map<StateId, nat> {
    let m0 = match first_start(nodes) {
        Some(s) => bfs_levels(edges, Set::empty(), s, 0),
        None => Map::empty(),
    };
    let rest = node_ids(nodes).filter(|x: StateId| !m0.dom().contains(x)).sort_by(id_leq());
    extend_levels(edges, m0, rest)
}

proof fn lemma_bfs_avoids(edges: Seq<GraphEdge>, blocked: Set<StateId>, s: StateId, offset: nat, x: StateId)
    requires
        blocked.contains(x),
    ensures
        !bfs_levels(edges, blocked, s, offset).dom().contains(x),
{
    if reaches(edges, blocked, s, x) {
        let n = choose|n: nat| #[trigger] walk(edges, blocked, s, x, n);
        assert(walk(edges, blocked, s, x, n));
    }
}

pub(crate) proof fn lemma_bfs_source(edges: Seq<GraphEdge>, blocked: Set<StateId>, s: StateId, offset: nat)
    requires
        !blocked.contains(s),
    ensures
        bfs_levels(edges, blocked, s, offset).dom().contains(s),
        bfs_levels(edges, blocked, s, offset)[s] == offset,
{
    assert(walk(edges, blocked, s, s, 0));
    assert(is_distance(edges, blocked, s, s, 0));
    let d = distance(edges, blocked, s, s);
    assert(is_distance(edges, blocked, s, s, d));
    if d > 0 {
        assert(!walk(edges, blocked, s, s, 0));
    }
}

proof fn lemma_extend_keeps(edges: Seq<GraphEdge>, m: Map<StateId, nat>, rest: Seq<StateId>, x: StateId)
    requires
        m.dom().contains(x),
    ensures
        extend_levels(edges, m, rest).dom().contains(x),
        extend_levels(edges, m, rest)[x] == m[x],
    decreases rest.len(),
{
    if rest.len() > 0 {
        let s = rest[0];
        if !m.dom().contains(s) {
            lemma_bfs_avoids(edges, m.dom(), s, next_offset(m), x);
        }
        let m2 = if m.dom().contains(s) {
            m
        } else {
            m.union_prefer_right(bfs_levels(edges, m.dom(), s, next_offset(m)))
        };
        lemma_extend_keeps(edges, m2, rest.drop_first(), x);
    }
}

proof fn lemma_extend_covers(edges: Seq<GraphEdge>, m: Map<StateId, nat>, rest: Seq<StateId>, i: int)
    requires
        0 <= i < rest.len(),
    ensures
        extend_levels(edges, m, rest).dom().contains(rest[i]),
    decreases rest.len(),
{
    let s = rest[0];
    if !m.dom().contains(s) {
        lemma_bfs_source(edges, m.dom(), s, next_offset(m));
    }
    let m2 = if m.dom().contains(s) {
        m
    } else {
        m.union_prefer_right(bfs_levels(edges, m.dom(), s, next_offset(m)))
    };
    if i == 0 {
        lemma_extend_keeps(edges, m2, rest.drop_first(), s);
    } else {
        assert(rest.drop_first()[i - 1] == rest[i]);
        lemma_extend_covers(edges, m2, rest.drop_first(), i - 1);
    }
}

/// A walk of `n` steps can be shortened to a shortest one.
proof fn lemma_shortest_exists(edges: Seq<GraphEdge>, blocked: Set<StateId>, s: StateId, x: StateId, n: nat)
    requires
        walk(edges, blocked, s, x, n),
    ensures
        is_distance(edges, blocked, s, x, distance(edges, blocked, s, x)),
        distance(edges, blocked, s, x) <= n,
    decreases n,
{
    if exists|m: nat| m < n && #[trigger] walk(edges, blocked, s, x, m) {
        let m = choose|m: nat| m < n && #[trigger] walk(edges, blocked, s, x, m);
        lemma_shortest_exists(edges, blocked, s, x, m);
    } else {
        assert(is_distance(edges, blocked, s, x, n));
        let d = distance(edges, blocked, s, x);
        assert(is_distance(edges, blocked, s, x, d));
        if d > n {
            assert(!walk(edges, blocked, s, x, n));
        }
    }
}

/// Law: an edge leaving a state of a breadth-first search leads to a state
/// of the same search, at most one level further on.
pub proof fn lemma_bfs_edge_step(edges: Seq<GraphEdge>, s: StateId, offset: nat, k: int)
    requires
        0 <= k < edges.len(),
        bfs_levels(edges, Set::empty(), s, offset).dom().contains(edges[k].from),
    ensures
        bfs_levels(edges, Set::empty(), s, offset).dom().contains(edges[k].to),
        bfs_levels(edges, Set::empty(), s, offset)[edges[k].to] <= bfs_levels(edges, Set::empty(), s, offset)[edges[k].from] + 1,
{
    let x = edges[k].from;
    let y = edges[k].to;
    let n = choose|n: nat| #[trigger] walk(edges, Set::empty(), s, x, n);
    lemma_shortest_exists(edges, Set::empty(), s, x, n);
    let d = distance(edges, Set::empty(), s, x);
    assert(walk(edges, Set::empty(), s, y, d + 1));
    assert(reaches(edges, Set::empty(), s, y));
    lemma_shortest_exists(edges, Set::empty(), s, y, d + 1);
}

/// Law: the first start state is drawn in the leftmost column, at level 0.
pub proof fn lemma_start_level_zero<P>(nodes: Seq<GraphNode<P>>, edges: Seq<GraphEdge>)
    requires
        first_start(nodes) is Some,
    ensures
        layer_levels(nodes, edges).dom().contains(first_start(nodes)->0),
        layer_levels(nodes, edges)[first_start(nodes)->0] == 0,
{
    let s = first_start(nodes)->0;
    let m0 = bfs_levels(edges, Set::empty(), s, 0);
    lemma_bfs_source(edges, Set::empty(), s, 0);
    let rest = node_ids(nodes).filter(|x: StateId| !m0.dom().contains(x)).sort_by(id_leq());
    lemma_extend_keeps(edges, m0, rest, s);
}

/// Law: every node gets a level, so every state of the drawing has a column.
pub proof fn lemma_every_node_leveled<P>(nodes: Seq<GraphNode<P>>, edges: Seq<GraphEdge>, i: int)
    requires
        0 <= i < nodes.len(),
    ensures
        layer_levels(nodes, edges).dom().contains(nodes[i].id),
{
    let m0 = match first_start(nodes) {
        Some(s) => bfs_levels(edges, Set::empty(), s, 0),
        None => Map::<StateId, nat>::empty(),
    };
    let pred = |x: StateId| !m0.dom().contains(x);
    let ids = node_ids(nodes);
    let filtered = ids.filter(pred);
    let rest = filtered.sort_by(id_leq());
    let x = nodes[i].id;
    assert(ids[i] == x);
    if m0.dom().contains(x) {
        lemma_extend_keeps(edges, m0, rest, x);
    } else {
        ids.lemma_filter_contains(pred, i);
        assert(filtered.contains(x));
        lemma_id_leq_total();
        filtered.lemma_sort_by_ensures(id_leq());
        assert(filtered.to_multiset().count(x) > 0);
        assert(rest.to_multiset().count(x) > 0);
        assert(rest.contains(x));
        let j = choose|j: int| 0 <= j < rest.len() && rest[j] == x;
        lemma_extend_covers(edges, m0, rest, j);
    }
}

proof fn lemma_level_map_at(order: Seq<(StateId, usize)>, i: int)
    requires
        entry_ids(order).no_duplicates(),
        0 <= i < order.len(),
    ensures
        level_map(order).dom().contains(order[i].0),
        level_map(order)[order[i].0] == order[i].1,
{
    assert(entry_ids(order)[i] == order[i].0);
    let j = choose|j: int| 0 <= j < order.len() && order[j].0 == order[i].0;
    assert(entry_ids(order)[j] == entry_ids(order)[i]);
}

proof fn lemma_level_map_append(order: Seq<(StateId, usize)>, base: int)
    requires
        entry_ids(order).no_duplicates(),
        0 <= base <= order.len(),
    ensures
        level_map(order) == level_map(order.subrange(0, base)).union_prefer_right(level_map(order.skip(base))),
        level_map(order.subrange(0, base)).dom() == entry_ids(order.subrange(0, base)).to_set(),
{
    let pre = order.subrange(0, base);
    let post = order.skip(base);
    assert(entry_ids(pre).no_duplicates()) by {
        assert forall|a: int, b: int| 0 <= a < pre.len() && 0 <= b < pre.len() && a != b implies entry_ids(pre)[a] != entry_ids(pre)[b] by {
            assert(entry_ids(order)[a] == entry_ids(pre)[a]);
            assert(entry_ids(order)[b] == entry_ids(pre)[b]);
        }
    }
    assert(entry_ids(post).no_duplicates()) by {
        assert forall|a: int, b: int| 0 <= a < post.len() && 0 <= b < post.len() && a != b implies entry_ids(post)[a] != entry_ids(post)[b] by {
            assert(entry_ids(order)[a + base] == entry_ids(post)[a]);
            assert(entry_ids(order)[b + base] == entry_ids(post)[b]);
        }
    }
    let u = level_map(pre).union_prefer_right(level_map(post));
    assert forall|x: StateId| level_map(order).dom().contains(x) <==> u.dom().contains(x) by {
        if level_map(order).dom().contains(x) {
            let i = choose|i: int| 0 <= i < entry_ids(order).len() && entry_ids(order)[i] == x;
            if i < base {
                assert(entry_ids(pre)[i] == x);
            } else {
                assert(entry_ids(post)[i - base] == x);
            }
        }
        if level_map(pre).dom().contains(x) {
            let i = choose|i: int| 0 <= i < entry_ids(pre).len() && entry_ids(pre)[i] == x;
            assert(entry_ids(order)[i] == x);
        }
        if level_map(post).dom().contains(x) {
            let i = choose|i: int| 0 <= i < entry_ids(post).len() && entry_ids(post)[i] == x;
            assert(entry_ids(order)[i + base] == x);
        }
    }
    assert forall|x: StateId| #[trigger] level_map(order).dom().contains(x) implies level_map(order)[x] == u[x] by {
        let i = choose|i: int| 0 <= i < entry_ids(order).len() && entry_ids(order)[i] == x;
        lemma_level_map_at(order, i);
        if i < base {
            lemma_level_map_at(pre, i);
            if level_map(post).dom().contains(x) {
                let j = choose|j: int| 0 <= j < entry_ids(post).len() && entry_ids(post)[j] == x;
                assert(entry_ids(order)[j + base] == x);
            }
        } else {
            lemma_level_map_at(post, i - base);
        }
    }
    assert(level_map(order) =~= u);
    assert(level_map(pre).dom() =~= entry_ids(pre).to_set());
}

/// The level after the highest recorded one, or 0 when nothing is recorded.
fn following_level(order: &Vec<(StateId, usize)>) -> (r: usize)
    requires
        entry_ids(order@).no_duplicates(),
        forall|i: int| 0 <= i < order@.len() ==> (#[trigger] order@[i]).1 <= i,
    ensures
        r as nat == next_offset(level_map(order@)),
        r <= order@.len(),
{
    let m = Ghost(level_map(order@));
    if order.len() == 0 {
        proof {
            assert forall|v: nat| !is_top_level(m@, v) by {
                if is_top_level(m@, v) {
                    let x = choose|x: StateId| #[trigger] m@.dom().contains(x) && m@[x] == v;
                    let i = choose|i: int| 0 <= i < entry_ids(order@).len() && entry_ids(order@)[i] == x;
                }
            }
        }
        return 0;
    }
    let mut best: usize = order[0].1;
    let mut at: usize = 0;
    let mut i: usize = 1;
    while i < order.len()
        invariant
            1 <= i <= order@.len(),
            at < i,
            best == order@[at as int].1,
            forall|j: int| 0 <= j < i ==> (#[trigger] order@[j]).1 <= best,
            forall|j: int| 0 <= j < order@.len() ==> (#[trigger] order@[j]).1 <= j,
        decreases order.len() - i,
    {
        if order[i].1 > best {
            best = order[i].1;
            at = i;
        }
        i = i + 1;
    }
    proof {
        lemma_level_map_at(order@, at as int);
        assert forall|x: StateId| #[trigger] m@.dom().contains(x) implies m@[x] <= best by {
            let j = choose|j: int| 0 <= j < entry_ids(order@).len() && entry_ids(order@)[j] == x;
            lemma_level_map_at(order@, j);
        }
        assert(is_top_level(m@, best as nat));
        let v = choose|v: nat| is_top_level(m@, v);
        let x = choose|x: StateId| #[trigger] m@.dom().contains(x) && m@[x] == v;
        assert(m@[x] <= best);
        assert(m@[order@[at as int].0] <= v);
        assert(v == best);
    }
    best + 1
}

pub proof fn lemma_id_leq_total()
    ensures
        vstd::relations::total_ordering(id_leq()),
{
    let r = id_leq();
    assert forall|x: StateId| #[trigger] r(x, x) by {}
    assert forall|x: StateId, y: StateId| #[trigger] r(x, y) && #[trigger] r(y, x) implies x == y by {}
    assert forall|x: StateId, y: StateId, z: StateId| #[trigger] r(x, y) && #[trigger] r(y, z) implies r(x, z) by {}
    assert forall|x: StateId, y: StateId| #[trigger] r(x, y) || #[trigger] r(y, x) by {}
}

/// The level of every state in the layered drawing of a DFA, as (state,
/// level) entries with distinct states.
pub fn assign_levels<P>(nodes: &Vec<GraphNode<P>>, edges: &Vec<GraphEdge>) -> (r: Vec<(StateId, usize)>)
    ensures
        entry_ids(r@).no_duplicates(),
        level_map(r@) == layer_levels(nodes@, edges@),
{
    let mut order: Vec<(StateId, usize)> = Vec::new();
    // The first start state.
    let mut i: usize = 0;
    let mut start: Option<StateId> = None;
    assert(nodes@.skip(0) =~= nodes@);
    while i < nodes.len()
        invariant_except_break
            start is None,
        invariant
            i <= nodes@.len(),
            first_start(nodes@) == first_start(nodes@.skip(i as int)),
        ensures
            start == first_start(nodes@),
        decreases nodes.len() - i,
    {
        assert(nodes@.skip(i as int).drop_first() =~= nodes@.skip(i + 1));
        if nodes[i].is_start {
            start = Some(nodes[i].id);
            break;
        }
        i = i + 1;
    }
    match start {
        Some(s) => {
            proof {
                assert(entry_ids(order@) =~= Seq::<StateId>::empty());
            }
            bfs_append(&mut order, s, 0, edges);
            proof {
                assert(entry_ids(Seq::<(StateId, usize)>::empty()).to_set() =~= Set::<StateId>::empty());
                assert(order@.skip(0) =~= order@);
            }
        },
        None => {
            proof {
                assert(level_map(order@) =~= Map::<StateId, nat>::empty());
            }
        },
    }
    let ghost m0 = level_map(order@);
    assert(m0 == match first_start(nodes@) {
        Some(s) => bfs_levels(edges@, Set::empty(), s, 0),
        None => Map::<StateId, nat>::empty(),
    });
    // The states still without a level, in node order.
    let ghost pred = |x: StateId| !m0.dom().contains(x);
    let mut rest: Vec<StateId> = Vec::new();
    let mut j: usize = 0;
    proof {
        reveal(Seq::filter);
        assert(node_ids(nodes@).take(0).len() == 0);
        assert(rest@ =~= node_ids(nodes@).take(0).filter(pred));
    }
    while j < nodes.len()
        invariant
            j <= nodes@.len(),
            m0 == level_map(order@),
            entry_ids(order@).no_duplicates(),
            pred == (|x: StateId| !m0.dom().contains(x)),
            rest@ == node_ids(nodes@).take(j as int).filter(pred),
        decreases nodes.len() - j,
    {
        assert(node_ids(nodes@).take(j + 1).drop_last() =~= node_ids(nodes@).take(j as int));
        assert(node_ids(nodes@).take(j + 1).last() == nodes@[j as int].id);
        proof {
            reveal(Seq::filter);
        }
        let id = nodes[j].id;
        match find_entry(&order, id) {
            Some(q) => {
                proof {
                    lemma_level_map_at(order@, q as int);
                }
            },
            None => {
                rest.push(id);
            },
        }
        j = j + 1;
    }
    assert(node_ids(nodes@).take(nodes@.len() as int) =~= node_ids(nodes@));
    let sorted = crate::layout::sort_ids(&rest);
    proof {
        lemma_id_leq_total();
        rest@.lemma_sort_by_ensures(id_leq());
        assert(vstd::relations::sorted_by(sorted@, id_leq())) by {
            assert forall|a: int, b: int| 0 <= a < b < sorted@.len() implies #[trigger] (id_leq())(sorted@[a], sorted@[b]) by {}
        }
        vstd::seq_lib::lemma_sorted_unique(sorted@, rest@.sort_by(id_leq()), id_leq());
        let m0s = match first_start(nodes@) {
            Some(s) => bfs_levels(edges@, Set::empty(), s, 0),
            None => Map::<StateId, nat>::empty(),
        };
        assert(m0 == m0s);
        assert(pred =~= (|x: StateId| !m0s.dom().contains(x)));
        assert(rest@ == node_ids(nodes@).filter(|x: StateId| !m0s.dom().contains(x)));
        assert(sorted@.skip(0) =~= sorted@);
    }
    // One more search from each state still without a level.
    let mut t: usize = 0;
    while t < sorted.len()
        invariant
            t <= sorted@.len(),
            entry_ids(order@).no_duplicates(),
            forall|q: int| 0 <= q < order@.len() ==> (#[trigger] order@[q]).1 <= q,
            extend_levels(edges@, level_map(order@), sorted@.skip(t as int)) == layer_levels(nodes@, edges@),
        decreases sorted.len() - t,
    {
        let s = sorted[t];
        let ghost m = level_map(order@);
        assert(sorted@.skip(t as int)[0] == s);
        assert(sorted@.skip(t as int).drop_first() =~= sorted@.skip(t + 1));
        match find_entry(&order, s) {
            Some(q) => {
                proof {
                    lemma_level_map_at(order@, q as int);
                }
            },
            None => {
                let offset = following_level(&order);
                let ghost before = order@;
                bfs_append(&mut order, s, offset, edges);
                proof {
                    lemma_level_map_append(order@, before.len() as int);
                    assert(m.dom() =~= entry_ids(before).to_set());
                }
            },
        }
        t = t + 1;
    }
    proof {
        assert(sorted@.skip(sorted@.len() as int) =~= Seq::<StateId>::empty());
    }
    order
}

// ---------------------------------------------------------------------------
// Columns of the layered drawing
// ---------------------------------------------------------------------------

/// The level of state `x` in `m`, 0 for a state without one.
pub open spec fn node_level(m: Map<StateId, nat>, x: StateId) -> nat {
    if m.dom().contains(x) {
        m[x]
    } else {
        0
    }
}

/// The states of `ids` at level `l`, in order.
pub open spec fn layer_of(ids: Seq<StateId>, m: Map<StateId, nat>, l: nat) -> Seq<StateId>
    decreases ids.len(),
{
    if ids.len() == 0 {
        Seq::empty()
    } else {
        let prev = layer_of(ids.drop_last(), m, l);
        if node_level(m, ids.last()) == l {
            prev.push(ids.last())
        } else {
            prev
        }
    }
}

proof fn lemma_layer_empty(ids: Seq<StateId>, m: Map<StateId, nat>, l: nat)
    requires
        forall|i: int| 0 <= i < ids.len() ==> node_level(m, #[trigger] ids[i]) != l,
    ensures
        layer_of(ids, m, l) == Seq::<StateId>::empty(),
    decreases ids.len(),
{
    if ids.len() > 0 {
        assert(ids.last() == ids[ids.len() - 1]);
        lemma_layer_empty(ids.drop_last(), m, l);
    }
}

/// Some column of `cols` is for level `l`.
pub open spec fn has_column(cols: Seq<(usize, Vec<StateId>)>, l: nat) -> bool {
    exists|c: int| 0 <= c < cols.len() && (#[trigger] cols[c]).0 == l
}

/// The level of state `x` among the entries, 0 when it has none.
pub(crate) fn level_of_state(levels: &Vec<(StateId, usize)>, x: StateId) -> (r: usize)
    requires
        entry_ids(levels@).no_duplicates(),
    ensures
        r as nat == node_level(level_map(levels@), x),
{
    match find_entry(levels, x) {
        Some(q) => {
            proof {
                lemma_level_map_at(levels@, q as int);
            }
            levels[q].1
        },
        None => 0,
    }
}

/// The columns of the layered drawing of a DFA, left to right: each level
/// that some node has, in increasing order, with the states of the nodes at
/// that level (as often as nodes list them) in increasing order.
pub fn layer_columns<P>(nodes: &Vec<GraphNode<P>>, levels: &Vec<(StateId, usize)>) -> (r: Vec<(usize, Vec<StateId>)>)
    requires
        entry_ids(levels@).no_duplicates(),
    ensures
        forall|a: int, b: int| 0 <= a < b < r@.len() ==> r@[a].0 < r@[b].0,
        forall|c: int| 0 <= c < r@.len() ==> {
            &&& (#[trigger] r@[c]).1@.len() > 0
            &&& crate::layout::sorted_ids(r@[c].1@)
            &&& r@[c].1@.to_multiset() == layer_of(node_ids(nodes@), level_map(levels@), r@[c].0 as nat).to_multiset()
        },
        forall|i: int| 0 <= i < nodes@.len() ==> has_column(r@, node_level(level_map(levels@), #[trigger] nodes@[i].id)),
{
    let ghost m = level_map(levels@);
    let ghost ids = node_ids(nodes@);
    let mut keys: Vec<usize> = Vec::new();
    let mut members: Vec<Vec<StateId>> = Vec::new();
    let mut i: usize = 0;
    while i < nodes.len()
        invariant
            i <= nodes@.len(),
            m == level_map(levels@),
            ids == node_ids(nodes@),
            entry_ids(levels@).no_duplicates(),
            keys@.len() == members@.len(),
            forall|a: int, b: int| 0 <= a < b < keys@.len() ==> keys@[a] < keys@[b],
            forall|c: int| 0 <= c < keys@.len() ==> (#[trigger] members@[c])@ == layer_of(ids.take(i as int), m, keys@[c] as nat)
                && members@[c]@.len() > 0,
            forall|q: int| 0 <= q < i ==> exists|c: int| 0 <= c < keys@.len() && (#[trigger] keys@[c]) == node_level(m, #[trigger] ids[q]),
        decreases nodes.len() - i,
    {
        let id = nodes[i].id;
        let l = level_of_state(levels, id);
        let ghost pre = ids.take(i as int);
        let ghost post = ids.take(i + 1);
        assert(post.drop_last() =~= pre);
        assert(post.last() == id);
        assert(ids[i as int] == id);
        let mut p: usize = 0;
        while p < keys.len() && keys[p] < l
            invariant
                p <= keys@.len(),
                forall|c: int| 0 <= c < p ==> keys@[c] < l,
            decreases keys.len() - p,
        {
            p = p + 1;
        }
        if p < keys.len() && keys[p] == l {
            let ghost ks = keys@;
            let ghost ms = members@;
            let mut col = members.remove(p);
            col.push(id);
            members.insert(p, col);
            proof {
                assert forall|c: int| 0 <= c < keys@.len() implies (#[trigger] members@[c])@ == layer_of(post, m, keys@[c] as nat)
                    && members@[c]@.len() > 0 by {
                    if c != p {
                        assert(members@[c] == ms[c]);
                    }
                }
                assert forall|q: int| 0 <= q < i + 1 implies exists|c: int| 0 <= c < keys@.len() && (#[trigger] keys@[c]) == node_level(m, #[trigger] ids[q]) by {
                    if q == i {
                        assert(keys@[p as int] == node_level(m, ids[q]));
                    }
                }
            }
        } else {
            let ghost ks = keys@;
            let ghost ms = members@;
            proof {
                assert forall|q: int| 0 <= q < pre.len() implies node_level(m, #[trigger] pre[q]) != l by {
                    assert(pre[q] == ids[q]);
                    let c = choose|c: int| 0 <= c < ks.len() && (#[trigger] ks[c]) == node_level(m, ids[q]);
                    if ks[c] == l {
                        if c < p {
                        } else if c > p {
                            assert(ks[p as int] < ks[c]);
                        }
                    }
                }
                lemma_layer_empty(pre, m, l as nat);
            }
            keys.insert(p, l);
            let mut fresh: Vec<StateId> = Vec::new();
            fresh.push(id);
            members.insert(p, fresh);
            proof {
                assert forall|a: int, b: int| 0 <= a < b < keys@.len() implies keys@[a] < keys@[b] by {
                    if b < p {
                        assert(keys@[a] == ks[a] && keys@[b] == ks[b]);
                    } else if b == p {
                        assert(keys@[a] == ks[a]);
                    } else if a < p {
                        assert(keys@[a] == ks[a] && keys@[b] == ks[b - 1]);
                    } else if a == p {
                        assert(keys@[b] == ks[b - 1]);
                        if b - 1 > p {
                            assert(ks[p as int] < ks[b - 1]);
                        }
                    } else {
                        assert(keys@[a] == ks[a - 1] && keys@[b] == ks[b - 1]);
                    }
                }
                assert forall|c: int| 0 <= c < keys@.len() implies (#[trigger] members@[c])@ == layer_of(post, m, keys@[c] as nat)
                    && members@[c]@.len() > 0 by {
                    if c < p {
                        assert(members@[c] == ms[c] && keys@[c] == ks[c]);
                    } else if c > p {
                        assert(members@[c] == ms[c - 1] && keys@[c] == ks[c - 1]);
                    } else {
                        assert(members@[c]@ =~= seq![id]);
                    }
                }
                assert forall|q: int| 0 <= q < i + 1 implies exists|c: int| 0 <= c < keys@.len() && (#[trigger] keys@[c]) == node_level(m, #[trigger] ids[q]) by {
                    if q == i {
                        assert(keys@[p as int] == node_level(m, ids[q]));
                    } else {
                        let c = choose|c: int| 0 <= c < ks.len() && (#[trigger] ks[c]) == node_level(m, ids[q]);
                        if c < p {
                            assert(keys@[c] == ks[c]);
                        } else {
                            assert(keys@[c + 1] == ks[c]);
                        }
                    }
                }
            }
        }
        i = i + 1;
    }
    assert(ids.take(nodes@.len() as int) =~= ids);
    let mut out: Vec<(usize, Vec<StateId>)> = Vec::new();
    let mut c: usize = 0;
    while c < keys.len()
        invariant
            c <= keys@.len(),
            keys@.len() == members@.len(),
            out@.len() == c,
            forall|q: int| 0 <= q < c ==> (#[trigger] out@[q]).0 == keys@[q]
                && crate::layout::sorted_ids(out@[q].1@)
                && out@[q].1@.to_multiset() == members@[q]@.to_multiset()
                && out@[q].1@.len() > 0,
            forall|q: int| 0 <= q < keys@.len() ==> (#[trigger] members@[q])@.len() > 0,
        decreases keys.len() - c,
    {
        let sorted = crate::layout::sort_ids(&members[c]);
        proof {
            assert(members@[c as int]@.to_multiset().len() > 0);
        }
        out.push((keys[c], sorted));
        proof {
            assert(out@[c as int].1@.to_multiset().len() > 0);
        }
        c = c + 1;
    }
    proof {
        assert forall|i: int| 0 <= i < nodes@.len() implies has_column(out@, node_level(level_map(levels@), #[trigger] nodes@[i].id)) by {
            assert(ids[i] == nodes@[i].id);
            let c = choose|c: int| 0 <= c < keys@.len() && (#[trigger] keys@[c]) == node_level(m, ids[i]);
            assert(out@[c].0 == keys@[c]);
        }
    }
    out
}

} // verus!
