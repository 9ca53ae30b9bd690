use vstd::prelude::*;

use crate::automaton::StateId;
use crate::dfa_layout::{
    bfs_append, bfs_levels, distance, entry_ids, is_distance, layer_of, lemma_bfs_source, level_map, node_ids, node_level,
    reaches, walk,
};
use crate::graph::{GraphEdge, GraphNode};

verus! {

// ---------------------------------------------------------------------------
// Root of a tree drawing
// ---------------------------------------------------------------------------

/// Some edge ends at `x`.
pub open spec fn has_incoming(edges: Seq<GraphEdge>, x: StateId) -> bool {
    exists|k: int| 0 <= k < edges.len() && (#[trigger] edges[k]).to == x
}

/// The first of `ids` that no edge ends at.
pub open spec fn first_without_incoming(ids: Seq<StateId>, edges: Seq<GraphEdge>) -> Option<StateId>
    decreases ids.len(),
{
    if ids.len() == 0 {
        None
    } else if !has_incoming(edges, ids[0]) {
        Some(ids[0])
    } else {
        first_without_incoming(ids.drop_first(), edges)
    }
}

/// The root of the tree drawing: the first node that no edge ends at, or
/// the first node when every node has an incoming edge.
pub open spec fn tree_root(ids: Seq<StateId>, edges: Seq<GraphEdge>) -> StateId
    recommends
        ids.len() > 0,
{
    match first_without_incoming(ids, edges) {
        Some(x) => x,
        None => ids[0],
    }
}

fn is_target(edges: &Vec<GraphEdge>, x: StateId) -> (r: bool)
    ensures
        r == has_incoming(edges@, x),
{
    let mut k: usize = 0;
    while k < edges.len()
        invariant
            k <= edges@.len(),
            forall|q: int| 0 <= q < k ==> (#[trigger] edges@[q]).to != x,
        decreases edges.len() - k,
    {
        if edges[k].to == x {
            return true;
        }
        k = k + 1;
    }
    false
}

/// The root of the tree drawing of `nodes` (which must not be empty).
pub fn find_tree_root<P>(nodes: &Vec<GraphNode<P>>, edges: &Vec<GraphEdge>) -> (r: StateId)
    requires
        nodes@.len() > 0,
    ensures
        r == tree_root(node_ids(nodes@), edges@),
{
    let ghost ids = node_ids(nodes@);
    let mut i: usize = 0;
    assert(ids.skip(0) =~= ids);
    while i < nodes.len()
        invariant
            i <= nodes@.len(),
            ids == node_ids(nodes@),
            first_without_incoming(ids, edges@) == first_without_incoming(ids.skip(i as int), edges@),
        decreases nodes.len() - i,
    {
        assert(ids.skip(i as int).drop_first() =~= ids.skip(i + 1));
        assert(ids.skip(i as int)[0] == nodes@[i as int].id);
        if !is_target(edges, nodes[i].id) {
            return nodes[i].id;
        }
        i = i + 1;
    }
    assert(ids.skip(i as int).len() == 0);
    nodes[0].id
}

// ---------------------------------------------------------------------------
// Depths and rows of the tree drawing
// ---------------------------------------------------------------------------

/// The depth of every state of the tree drawing of `nodes`, as (state, depth)
/// entries with distinct states: empty when there are no nodes, otherwise
/// exactly the states reachable from the root, each at its distance from the
/// root (the root first, at depth 0).
pub fn assign_depths<P>(nodes: &Vec<GraphNode<P>>, edges: &Vec<GraphEdge>) -> (r: Vec<(StateId, usize)>)
    ensures
        entry_ids(r@).no_duplicates(),
        nodes@.len() == 0 ==> r@.len() == 0,
        nodes@.len() > 0 ==> {
            &&& r@.len() > 0
            &&& r@[0] == (tree_root(node_ids(nodes@), edges@), 0usize)
            &&& level_map(r@) == bfs_levels(edges@, Set::empty(), tree_root(node_ids(nodes@), edges@), 0)
        },
{
    let mut order: Vec<(StateId, usize)> = Vec::new();
    if nodes.len() == 0 {
        return order;
    }
    let root = find_tree_root(nodes, edges);
    proof {
        assert(entry_ids(order@) =~= Seq::<StateId>::empty());
    }
    bfs_append(&mut order, root, 0, edges);
    proof {
        assert(entry_ids(Seq::<(StateId, usize)>::empty()).to_set() =~= Set::<StateId>::empty());
        assert(order@.skip(0) =~= order@);
        lemma_bfs_source(edges@, Set::empty(), root, 0);
    }
    order
}

/// For each node, in order: its depth, its position among the nodes of that
/// depth, and how many nodes share that depth. A node whose state has no
/// recorded depth counts as depth 0.
pub fn tree_rows<P>(nodes: &Vec<GraphNode<P>>, depths: &Vec<(StateId, usize)>) -> (r: Vec<(usize, usize, usize)>)
    requires
        entry_ids(depths@).no_duplicates(),
    ensures
        r@.len() == nodes@.len(),
        forall|i: int| 0 <= i < r@.len() ==> {
            &&& (#[trigger] r@[i]).0 as nat == node_level(level_map(depths@), nodes@[i].id)
            &&& r@[i].1 == layer_of(node_ids(nodes@).take(i), level_map(depths@), r@[i].0 as nat).len()
            &&& r@[i].2 == layer_of(node_ids(nodes@), level_map(depths@), r@[i].0 as nat).len()
        },
{
    let ghost m = level_map(depths@);
    let ghost ids = node_ids(nodes@);
    let mut lv: Vec<usize> = Vec::new();
    let mut i: usize = 0;
    while i < nodes.len()
        invariant
            i <= nodes@.len(),
            lv@.len() == i,
            m == level_map(depths@),
            entry_ids(depths@).no_duplicates(),
            forall|q: int| 0 <= q < i ==> (#[trigger] lv@[q]) as nat == node_level(m, nodes@[q].id),
        decreases nodes.len() - i,
    {
        let d = crate::dfa_layout::level_of_state(depths, nodes[i].id);
        lv.push(d);
        i = i + 1;
    }
    let mut out: Vec<(usize, usize, usize)> = Vec::new();
    let mut a: usize = 0;
    while a < nodes.len()
        invariant
            a <= nodes@.len(),
            lv@.len() == nodes@.len(),
            out@.len() == a,
            ids == node_ids(nodes@),
            forall|q: int| 0 <= q < nodes@.len() ==> (#[trigger] lv@[q]) as nat == node_level(m, nodes@[q].id),
            forall|q: int| 0 <= q < a ==> {
                &&& (#[trigger] out@[q]).0 as nat == node_level(m, nodes@[q].id)
                &&& out@[q].1 == layer_of(ids.take(q), m, out@[q].0 as nat).len()
                &&& out@[q].2 == layer_of(ids, m, out@[q].0 as nat).len()
            },
        decreases nodes.len() - a,
    {
        let d = lv[a];
        let mut before: usize = 0;
        let mut total: usize = 0;
        let mut b: usize = 0;
        while b < nodes.len()
            invariant
                a < nodes@.len(),
                b <= nodes@.len(),
                lv@.len() == nodes@.len(),
                ids == node_ids(nodes@),
                forall|q: int| 0 <= q < nodes@.len() ==> (#[trigger] lv@[q]) as nat == node_level(m, nodes@[q].id),
                total == layer_of(ids.take(b as int), m, d as nat).len(),
                before == layer_of(ids.take(if b <= a { b as int } else { a as int }), m, d as nat).len(),
                total <= b,
            decreases nodes.len() - b,
        {
            assert(ids.take(b + 1).drop_last() =~= ids.take(b as int));
            assert(ids.take(b + 1).last() == nodes@[b as int].id);
            if lv[b] == d {
                total = total + 1;
                if b < a {
                    before = before + 1;
                }
            }
            b = b + 1;
        }
        assert(ids.take(nodes@.len() as int) =~= ids);
        out.push((d, before, total));
        a = a + 1;
    }
    out
}

/// Each state has at most one parent: edges ending at the same state start at the same state.
pub open spec fn single_parent(edges: Seq<GraphEdge>) -> bool {
    forall|a: int, b: int| 0 <= a < edges.len() && 0 <= b < edges.len() && (#[trigger] edges[a]).to == (#[trigger] edges[b]).to
        ==> edges[a].from == edges[b].from
}

proof fn lemma_walk_unique(root: StateId, edges: Seq<GraphEdge>, x: StateId, n: nat, m: nat)
    requires
        single_parent(edges),
        !has_incoming(edges, root),
        walk(edges, Set::empty(), root, x, n),
        walk(edges, Set::empty(), root, x, m),
    ensures
        n == m,
    decreases n,
{
    if n == 0 {
        if m > 0 {
            let k = choose|k: int| 0 <= k < edges.len() && (#[trigger] edges[k]).to == x
                && walk(edges, Set::empty(), root, edges[k].from, (m - 1) as nat);
            assert(edges[k].to == root);
        }
    } else {
        let k = choose|k: int| 0 <= k < edges.len() && (#[trigger] edges[k]).to == x
            && walk(edges, Set::empty(), root, edges[k].from, (n - 1) as nat);
        if m == 0 {
            assert(edges[k].to == root);
        } else {
            let k2 = choose|k2: int| 0 <= k2 < edges.len() && (#[trigger] edges[k2]).to == x
                && walk(edges, Set::empty(), root, edges[k2].from, (m - 1) as nat);
            assert(edges[k].from == edges[k2].from);
            lemma_walk_unique(root, edges, edges[k].from, (n - 1) as nat, (m - 1) as nat);
        }
    }
}

/// Law: on a tree (no edge into the root, at most one parent per state) the
/// depth the drawing gives a state is the length of every walk from the root
/// to it.
pub proof fn lemma_tree_depth_is_walk_length(root: StateId, edges: Seq<GraphEdge>, x: StateId, n: nat)
    requires
        !has_incoming(edges, root),
        single_parent(edges),
        walk(edges, Set::empty(), root, x, n),
    ensures
        bfs_levels(edges, Set::empty(), root, 0).dom().contains(x),
        bfs_levels(edges, Set::empty(), root, 0)[x] == n,
{
    assert(reaches(edges, Set::empty(), root, x));
    assert forall|m: nat| m < n implies !#[trigger] walk(edges, Set::empty(), root, x, m) by {
        if walk(edges, Set::empty(), root, x, m) {
            lemma_walk_unique(root, edges, x, n, m);
        }
    }
    assert(is_distance(edges, Set::empty(), root, x, n));
    let d = distance(edges, Set::empty(), root, x);
    assert(is_distance(edges, Set::empty(), root, x, d));
    lemma_walk_unique(root, edges, x, n, d);
}

/// Law: the root of the tree drawing is at depth 0.
pub proof fn lemma_root_depth_zero(root: StateId, edges: Seq<GraphEdge>)
    ensures
        bfs_levels(edges, Set::empty(), root, 0).dom().contains(root),
        bfs_levels(edges, Set::empty(), root, 0)[root] == 0,
{
    lemma_bfs_source(edges, Set::empty(), root, 0);
}

proof fn lemma_layer_step(ids: Seq<StateId>, m: Map<StateId, nat>, l: nat, i: int)
    requires
        0 <= i < ids.len(),
    ensures
        layer_of(ids.take(i + 1), m, l).len() == layer_of(ids.take(i), m, l).len() + (if node_level(m, ids[i]) == l {
            1int
        } else {
            0int
        }),
{
    assert(ids.take(i + 1).drop_last() =~= ids.take(i));
    assert(ids.take(i + 1).last() == ids[i]);
}

proof fn lemma_layer_grows(ids: Seq<StateId>, m: Map<StateId, nat>, l: nat, i: int, j: int)
    requires
        0 <= i <= j <= ids.len(),
    ensures
        layer_of(ids.take(i), m, l).len() <= layer_of(ids.take(j), m, l).len(),
    decreases j - i,
{
    if i < j {
        lemma_layer_grows(ids, m, l, i, j - 1);
        lemma_layer_step(ids, m, l, j - 1);
    }
}

/// Law: a row of the tree drawing keeps node order. Of two nodes at the same
/// depth, the earlier one has fewer nodes of that depth before it (so it is
/// drawn further left), and every node's position is below the size of its
/// row. With nodes in preorder, the left operand of an operator therefore
/// sits left of its right operand.
pub proof fn lemma_row_keeps_node_order(ids: Seq<StateId>, m: Map<StateId, nat>, i: int, j: int)
    requires
        0 <= i < j < ids.len(),
        node_level(m, ids[i]) == node_level(m, ids[j]),
    ensures
        layer_of(ids.take(i), m, node_level(m, ids[i])).len() < layer_of(ids.take(j), m, node_level(m, ids[j])).len(),
        layer_of(ids.take(j), m, node_level(m, ids[j])).len() < layer_of(ids, m, node_level(m, ids[j])).len(),
{
    let l = node_level(m, ids[i]);
    lemma_layer_step(ids, m, l, i);
    lemma_layer_grows(ids, m, l, i + 1, j);
    lemma_layer_step(ids, m, l, j);
    lemma_layer_grows(ids, m, l, j + 1, ids.len() as int);
    assert(ids.take(ids.len() as int) =~= ids);
}

} // verus!
