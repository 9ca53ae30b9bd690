use regviz::automaton::{Ast, BoxKind};
use regviz::dfa_layout::{assign_levels, layer_columns};
use regviz::graph::{AstGraph, GraphBox, GraphEdge, GraphNode};
use std::collections::HashMap;
use regviz::layout::{
    box_children, box_color_bytes, box_depth, box_parent, box_roots, drawing_order, sort_ids, successors,
    unplaced_states, DfaLayoutStrategy, NfaLayoutStrategy, TreeLayoutStrategy,
};
use regviz::tree_layout::{assign_depths, find_tree_root, tree_rows};
use regviz::visibility::BoxVisibility;

type Pos = (f32, f32);

fn node(id: u32, is_start: bool) -> GraphNode<Pos> {
    GraphNode::new(id, id.to_string(), is_start, false, None)
}

fn edge(from: u32, to: u32) -> GraphEdge {
    GraphEdge::new(from, to, String::new())
}

fn gbox(id: u32, kind: BoxKind, parent: Option<u32>) -> GraphBox {
    GraphBox { id, kind, parent, states: Vec::new() }
}

/// Boxes of `(a+b)*`: star 2 at the root, alternation 1 inside it, literals 3 and 4 inside that.
fn star_of_alt_boxes() -> Vec<GraphBox> {
    vec![
        gbox(1, BoxKind::Alternation, Some(2)),
        gbox(2, BoxKind::KleeneStar, None),
        gbox(3, BoxKind::Literal, Some(1)),
        gbox(4, BoxKind::Literal, Some(1)),
    ]
}

#[test]
fn box_colors_follow_the_mix() {
    assert_eq!(box_color_bytes(0), (174, 68, 125));
    assert_eq!(box_color_bytes(1), (213, 75, 253));
    assert_eq!(box_color_bytes(7), (75, 113, 48));
}

#[test]
fn box_colors_are_stable() {
    assert_eq!(box_color_bytes(42), box_color_bytes(42));
    assert_ne!(box_color_bytes(0), box_color_bytes(1));
}

#[test]
fn sort_ids_orders_and_keeps_duplicates() {
    assert_eq!(sort_ids(&vec![5, 1, 4, 1, 3]), vec![1, 1, 3, 4, 5]);
    assert_eq!(sort_ids(&Vec::new()), Vec::<u32>::new());
}

#[test]
fn successors_are_sorted_and_distinct() {
    let edges = vec![edge(0, 3), edge(1, 2), edge(0, 1), edge(0, 3), edge(2, 0)];
    assert_eq!(successors(&edges, 0), vec![1, 3]);
    assert_eq!(successors(&edges, 5), Vec::<u32>::new());
}

#[test]
fn box_hierarchy_parents_roots_children() {
    let boxes = star_of_alt_boxes();
    assert_eq!(box_parent(&boxes, 1), Some(2));
    assert_eq!(box_parent(&boxes, 2), None);
    assert_eq!(box_parent(&boxes, 9), None);
    assert_eq!(box_roots(&boxes), vec![2]);
    assert_eq!(box_children(&boxes, 1), vec![3, 4]);
    assert_eq!(box_children(&boxes, 2), vec![1]);
    assert_eq!(box_children(&boxes, 3), Vec::<u32>::new());
}

#[test]
fn later_box_record_replaces_earlier_one() {
    let boxes = vec![gbox(1, BoxKind::Literal, Some(7)), gbox(1, BoxKind::Literal, None)];
    assert_eq!(box_parent(&boxes, 1), None);
    assert_eq!(box_roots(&boxes), vec![1]);
}

#[test]
fn box_depths_count_parent_links() {
    let boxes = star_of_alt_boxes();
    assert_eq!(box_depth(&boxes, 2), 0);
    assert_eq!(box_depth(&boxes, 1), 1);
    assert_eq!(box_depth(&boxes, 3), 2);
    assert_eq!(box_depth(&boxes, 4), 2);
    assert_eq!(box_depth(&boxes, 99), 0);
}

#[test]
fn deeper_boxes_are_drawn_first() {
    let boxes = star_of_alt_boxes();
    let all = BoxVisibility::all_visible();
    assert_eq!(drawing_order(&boxes, &all), vec![3, 4, 1, 2]);
}

#[test]
fn hidden_kinds_are_not_drawn() {
    let boxes = star_of_alt_boxes();
    let mut vis = BoxVisibility::all_visible();
    vis.toggle(BoxKind::Literal);
    assert_eq!(drawing_order(&boxes, &vis), vec![1, 2]);
    assert_eq!(NfaLayoutStrategy.box_order(&boxes, &vis), vec![1, 2]);
}

#[test]
fn every_child_box_precedes_its_parent() {
    let boxes = star_of_alt_boxes();
    let order = drawing_order(&boxes, &BoxVisibility::all_visible());
    for b in &boxes {
        if let Some(p) = b.parent {
            let ci = order.iter().position(|x| *x == b.id).unwrap();
            let pi = order.iter().position(|x| *x == p).unwrap();
            assert!(ci < pi);
        }
    }
}

#[test]
fn unplaced_states_keep_first_occurrence() {
    let nodes = vec![node(3, false), node(1, false), node(3, false), node(2, false), node(5, false)];
    assert_eq!(unplaced_states(&nodes, &vec![2]), vec![3, 1, 5]);
    assert_eq!(unplaced_states(&nodes, &vec![1, 2, 3, 5]), Vec::<u32>::new());
}

/// Nodes 0..=5 with start 0; 4 and 5 form a cycle that 0 does not reach.
fn layered_graph() -> (Vec<GraphNode<Pos>>, Vec<GraphEdge>) {
    let nodes = vec![node(0, true), node(1, false), node(2, false), node(3, false), node(4, false), node(5, false)];
    let edges = vec![edge(1, 2), edge(0, 1), edge(2, 3), edge(0, 2), edge(4, 5), edge(5, 4)];
    (nodes, edges)
}

fn level_of(levels: &[(u32, usize)], id: u32) -> Option<usize> {
    levels.iter().find(|e| e.0 == id).map(|e| e.1)
}

#[test]
fn bfs_levels_are_shortest_distances() {
    let (nodes, edges) = layered_graph();
    let levels = assign_levels(&nodes, &edges);
    assert_eq!(level_of(&levels, 0), Some(0));
    assert_eq!(level_of(&levels, 1), Some(1));
    assert_eq!(level_of(&levels, 2), Some(1));
    assert_eq!(level_of(&levels, 3), Some(2));
}

#[test]
fn unreached_states_start_new_columns_to_the_right() {
    let (nodes, edges) = layered_graph();
    let levels = assign_levels(&nodes, &edges);
    assert_eq!(level_of(&levels, 4), Some(3));
    assert_eq!(level_of(&levels, 5), Some(4));
    assert_eq!(levels.len(), 6);
}

#[test]
fn columns_group_states_by_level() {
    let (nodes, edges) = layered_graph();
    let levels = assign_levels(&nodes, &edges);
    let cols = layer_columns(&nodes, &levels);
    assert_eq!(
        cols,
        vec![(0, vec![0]), (1, vec![1, 2]), (2, vec![3]), (3, vec![4]), (4, vec![5])]
    );
    assert_eq!(DfaLayoutStrategy.columns(&nodes, &edges), cols);
}

#[test]
fn without_a_start_state_the_smallest_state_leads() {
    let nodes = vec![node(7, false), node(2, false), node(4, false)];
    let edges = vec![edge(2, 7)];
    let levels = assign_levels(&nodes, &edges);
    assert_eq!(level_of(&levels, 2), Some(0));
    assert_eq!(level_of(&levels, 7), Some(1));
    assert_eq!(level_of(&levels, 4), Some(2));
    assert_eq!(layer_columns(&nodes, &levels), vec![(0, vec![2]), (1, vec![7]), (2, vec![4])]);
}

#[test]
fn empty_graph_has_no_columns() {
    let nodes: Vec<GraphNode<Pos>> = Vec::new();
    let levels = assign_levels(&nodes, &Vec::new());
    assert!(levels.is_empty());
    assert!(layer_columns(&nodes, &levels).is_empty());
}

/// `(a+b)*`
fn star_alt() -> Ast {
    Ast::Star(Box::new(Ast::Alt(Box::new(Ast::Atom('a')), Box::new(Ast::Atom('b')))))
}

#[test]
fn tree_root_is_first_node_without_incoming_edge() {
    let nodes = vec![node(1, false), node(0, false), node(2, false)];
    let edges = vec![edge(0, 1), edge(1, 2)];
    assert_eq!(find_tree_root(&nodes, &edges), 0);
    let cyclic = vec![edge(0, 1), edge(1, 2), edge(2, 0)];
    assert_eq!(find_tree_root(&nodes, &cyclic), 1);
}

#[test]
fn breadth_first_depths_take_the_shortest_route() {
    let nodes = vec![node(0, false), node(1, false), node(2, false)];
    let edges = vec![edge(0, 1), edge(0, 2), edge(2, 1)];
    assert_eq!(assign_depths(&nodes, &edges), vec![(0, 0), (1, 1), (2, 1)]);
}

#[test]
fn breadth_first_depths_in_search_order() {
    let nodes = vec![node(0, false), node(1, false), node(2, false), node(3, false)];
    let edges = vec![edge(1, 2), edge(1, 3), edge(0, 1)];
    assert_eq!(assign_depths(&nodes, &edges), vec![(0, 0), (1, 1), (2, 2), (3, 2)]);
}

#[test]
fn ast_rows_place_siblings_side_by_side() {
    let ast = star_alt();
    let pins: HashMap<u32, Pos> = HashMap::new();
    let graph = AstGraph::new(&ast, &pins);
    let nodes = graph.nodes();
    let edges = graph.edges();
    let depths = assign_depths(&nodes, &edges);
    let rows = tree_rows(&nodes, &depths);
    assert_eq!(rows, vec![(0, 0, 1), (1, 0, 1), (2, 0, 2), (2, 1, 2)]);
    let (d2, r2) = TreeLayoutStrategy.rows(&nodes, &edges);
    assert_eq!(d2, depths);
    assert_eq!(r2, rows);
}

#[test]
fn tree_depth_is_distance_from_root() {
    // A chain 0 -> 1 -> 2 -> 3 plus a branch 1 -> 4.
    let nodes = vec![node(0, false), node(1, false), node(2, false), node(3, false), node(4, false)];
    let edges = vec![edge(0, 1), edge(1, 2), edge(2, 3), edge(1, 4)];
    let depths = assign_depths(&nodes, &edges);
    assert_eq!(level_of(&depths, 0), Some(0));
    assert_eq!(level_of(&depths, 1), Some(1));
    assert_eq!(level_of(&depths, 2), Some(2));
    assert_eq!(level_of(&depths, 3), Some(3));
    assert_eq!(level_of(&depths, 4), Some(2));
}

#[test]
fn unreached_tree_nodes_count_as_depth_zero() {
    let nodes = vec![node(0, false), node(9, false)];
    let edges = vec![edge(9, 9)];
    let depths = assign_depths(&nodes, &edges);
    assert_eq!(depths, vec![(0, 0)]);
    assert_eq!(tree_rows(&nodes, &depths), vec![(0, 0, 2), (0, 1, 2)]);
}

#[test]
fn no_nodes_no_depths() {
    let nodes: Vec<GraphNode<Pos>> = Vec::new();
    assert!(assign_depths(&nodes, &Vec::new()).is_empty());
}
