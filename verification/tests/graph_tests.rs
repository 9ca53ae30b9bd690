use regviz::automaton::{Ast, BoundingBox, BoxKind, Dfa, EdgeLabel, Nfa, NfaEdge, NfaState};
use regviz::graph::{
    determine_edge_curve, insert_sorted, join_quoted_string, AstGraph, EdgeCurve, GraphEdge, VisualDfa, VisualNfa,
};
use regviz::highlight::{EdgeHighlight, Highlights, StateHighlight};
use std::collections::{HashMap, HashSet};
use regviz::message::{box_kind_label, ViewMode};
use regviz::text::{u32_to_decimal, usize_to_decimal};

type Pos = (f32, f32);

fn e(from: u32, label: EdgeLabel, to: u32) -> NfaEdge {
    NfaEdge { from, label, to }
}

/// Thompson NFA of `a*` with its star box: 0 -e-> 1 -a-> 2 -e-> 3, loop 2 -e-> 1, bypass 0 -e-> 3.
fn star_nfa() -> Nfa {
    Nfa {
        states: (0..4).map(|id| NfaState { id, box_id: Some(0) }).collect(),
        start: 0,
        accepts: vec![3],
        edges: vec![
            e(0, EdgeLabel::Eps, 1),
            e(1, EdgeLabel::Sym('a'), 2),
            e(2, EdgeLabel::Eps, 1),
            e(2, EdgeLabel::Eps, 3),
            e(0, EdgeLabel::Eps, 3),
        ],
        boxes: vec![BoundingBox { id: 0, kind: BoxKind::KleeneStar, parent: None, states: vec![0, 3] }],
    }
}

fn find<'a>(edges: &'a [GraphEdge], from: u32, to: u32) -> &'a GraphEdge {
    edges.iter().find(|x| x.from == from && x.to == to).unwrap()
}

#[test]
fn star_bypass_bends_down_and_loop_bends_up() {
    let nfa = star_nfa();
    assert_eq!(determine_edge_curve(0, 3, EdgeLabel::Eps, &nfa), EdgeCurve::CurveDown);
    assert_eq!(determine_edge_curve(2, 1, EdgeLabel::Eps, &nfa), EdgeCurve::CurveUp);
    assert_eq!(determine_edge_curve(0, 1, EdgeLabel::Eps, &nfa), EdgeCurve::Straight);
    assert_eq!(determine_edge_curve(1, 2, EdgeLabel::Sym('a'), &nfa), EdgeCurve::Straight);
}

#[test]
fn replaced_box_record_decides_nothing() {
    let mut nfa = star_nfa();
    nfa.boxes.push(BoundingBox { id: 0, kind: BoxKind::Concat, parent: None, states: vec![0, 3] });
    assert_eq!(determine_edge_curve(0, 3, EdgeLabel::Eps, &nfa), EdgeCurve::Straight);
    assert_eq!(determine_edge_curve(2, 1, EdgeLabel::Eps, &nfa), EdgeCurve::Straight);
    nfa.boxes.push(BoundingBox { id: 0, kind: BoxKind::KleeneStar, parent: None, states: vec![0, 3] });
    assert_eq!(determine_edge_curve(0, 3, EdgeLabel::Eps, &nfa), EdgeCurve::CurveDown);
}

#[test]
fn nfa_edges_carry_symbol_and_epsilon_labels() {
    let nfa = star_nfa();
    let pins: HashMap<u32, Pos> = HashMap::new();
    let g = VisualNfa::new(&nfa, Highlights::empty(), &pins);
    let edges = g.edges();
    assert_eq!(edges.len(), 5);
    assert_eq!(find(&edges, 1, 2).label, "'a'");
    assert_eq!(find(&edges, 0, 1).label, "\u{03B5}");
    assert_eq!(find(&edges, 0, 3).curve, EdgeCurve::CurveDown);
    assert_eq!(find(&edges, 2, 1).curve, EdgeCurve::CurveUp);
    // edges come state by state, each state's transitions in order
    let order: Vec<(u32, u32)> = edges.iter().map(|x| (x.from, x.to)).collect();
    assert_eq!(order, vec![(0, 1), (0, 3), (1, 2), (2, 1), (2, 3)]);
}

#[test]
fn nfa_highlighted_edge_is_active() {
    let nfa = star_nfa();
    let pins: HashMap<u32, Pos> = HashMap::new();
    let hl = Highlights::from_sets(&HashSet::from([2]), vec![EdgeHighlight::new(1, 2, EdgeLabel::Sym('a'))]);
    let g = VisualNfa::new(&nfa, hl, &pins);
    let edges = g.edges();
    assert!(find(&edges, 1, 2).is_active);
    assert!(!find(&edges, 0, 1).is_active);
    let nodes = g.nodes();
    assert_eq!(nodes[2].highlight, Some(StateHighlight::Active));
    assert_eq!(nodes[0].highlight, None);
    assert!(nodes[0].is_start);
    assert!(nodes[3].is_accept);
    assert_eq!(nodes[3].label, "3");
}

#[test]
fn nfa_boxes_are_copied() {
    let nfa = star_nfa();
    let pins: HashMap<u32, Pos> = HashMap::new();
    let g = VisualNfa::new(&nfa, Highlights::empty(), &pins);
    let boxes = g.boxes();
    assert_eq!(boxes.len(), 1);
    assert_eq!(boxes[0].kind, BoxKind::KleeneStar);
    assert_eq!(boxes[0].states, vec![0, 3]);
    assert_eq!(boxes[0].label(), "Star");
}

#[test]
fn pinned_nodes_keep_their_position() {
    let nfa = star_nfa();
    let mut pins: HashMap<u32, Pos> = HashMap::new();
    pins.insert(1, (10.0, 20.0));
    let g = VisualNfa::new(&nfa, Highlights::empty(), &pins);
    let nodes = g.nodes();
    assert!(nodes[1].is_pinned);
    assert_eq!(nodes[1].manual_position, Some((10.0, 20.0)));
    assert!(!nodes[0].is_pinned);
    assert_eq!(nodes[0].manual_position, None);
}

/// Two states over {a, b}: 0 -a,b-> 1, 1 -a-> 1.
fn small_dfa() -> Dfa {
    Dfa {
        states: vec![0, 1],
        start: 0,
        accepts: vec![1],
        trans: vec![vec![Some(1), Some(1)], vec![Some(1), None]],
    }
}

#[test]
fn dfa_edges_group_symbols_per_pair() {
    let dfa = small_dfa();
    let alphabet = ['a', 'b'];
    let pins: HashMap<u32, Pos> = HashMap::new();
    let g = VisualDfa::new(&dfa, &alphabet, Highlights::empty(), &pins);
    let edges = g.edges();
    assert_eq!(edges.len(), 2);
    let fwd = find(&edges, 0, 1);
    assert_eq!(fwd.label, "'a', 'b'");
    assert_eq!(fwd.curve, EdgeCurve::Straight);
    let selfloop = find(&edges, 1, 1);
    assert_eq!(selfloop.label, "'a'");
    assert_eq!(selfloop.curve, EdgeCurve::Loop);
    assert!(g.boxes().is_empty());
}

#[test]
fn dfa_edges_ignore_entries_past_the_alphabet() {
    let dfa = Dfa { states: vec![0], start: 0, accepts: vec![], trans: vec![vec![Some(0), Some(7), Some(9)]] };
    let alphabet = ['a'];
    let pins: HashMap<u32, Pos> = HashMap::new();
    let g = VisualDfa::new(&dfa, &alphabet, Highlights::empty(), &pins);
    let edges = g.edges();
    assert_eq!(edges.len(), 1);
    assert_eq!(find(&edges, 0, 0).label, "'a'");
}

#[test]
fn dfa_opposite_edges_bend() {
    let dfa = Dfa { states: vec![0, 1], start: 0, accepts: vec![], trans: vec![vec![Some(1)], vec![Some(0)]] };
    let alphabet = ['x'];
    let pins: HashMap<u32, Pos> = HashMap::new();
    let g = VisualDfa::new(&dfa, &alphabet, Highlights::empty(), &pins);
    let edges = g.edges();
    assert_eq!(find(&edges, 0, 1).curve, EdgeCurve::CurveDown);
    assert_eq!(find(&edges, 1, 0).curve, EdgeCurve::CurveDown);
}

#[test]
fn dfa_active_edge_follows_highlight() {
    let dfa = small_dfa();
    let alphabet = ['a', 'b'];
    let pins: HashMap<u32, Pos> = HashMap::new();
    let hl = Highlights::from_sets(&HashSet::from([1]), vec![EdgeHighlight::new(0, 1, EdgeLabel::Sym('b'))]);
    let g = VisualDfa::new(&dfa, &alphabet, hl, &pins);
    let edges = g.edges();
    assert!(find(&edges, 0, 1).is_active);
    assert!(!find(&edges, 1, 1).is_active);
    let nodes = g.nodes();
    assert_eq!(nodes[1].highlight, Some(StateHighlight::Active));
    assert!(nodes[0].is_start && !nodes[0].is_accept);
    assert!(nodes[1].is_accept);
}

/// `(a+b)*`
fn star_alt() -> Ast {
    Ast::Star(Box::new(Ast::Alt(Box::new(Ast::Atom('a')), Box::new(Ast::Atom('b')))))
}

#[test]
fn ast_nodes_in_preorder() {
    let ast = star_alt();
    let pins: HashMap<u32, Pos> = HashMap::new();
    let g = AstGraph::new(&ast, &pins);
    let labels: Vec<String> = g.nodes().into_iter().map(|n| n.label).collect();
    assert_eq!(labels, vec!["*", "+", "'a'", "'b'"]);
    let ids: Vec<u32> = g.nodes().iter().map(|n| n.id).collect();
    assert_eq!(ids, vec![0, 1, 2, 3]);
}

#[test]
fn ast_edges_label_binary_children() {
    let ast = star_alt();
    let pins: HashMap<u32, Pos> = HashMap::new();
    let g = AstGraph::new(&ast, &pins);
    let edges: Vec<(u32, u32, String)> = g.edges().into_iter().map(|x| (x.from, x.to, x.label)).collect();
    assert_eq!(
        edges,
        vec![(1, 2, "L".to_string()), (1, 3, "R".to_string()), (0, 1, String::new())]
    );
    assert!(g.boxes().is_empty());
}

#[test]
fn ast_tree_shape_counts() {
    // a·(b?) ε : Concat(Atom a, Concat(Opt(Atom b), Epsilon))
    let ast = Ast::Concat(
        Box::new(Ast::Atom('a')),
        Box::new(Ast::Concat(Box::new(Ast::Opt(Box::new(Ast::Atom('b')))), Box::new(Ast::Epsilon))),
    );
    let pins: HashMap<u32, Pos> = HashMap::new();
    let g = AstGraph::new(&ast, &pins);
    let nodes = g.nodes();
    let edges = g.edges();
    assert_eq!(nodes.len(), 6);
    assert_eq!(edges.len(), 5);
    let labels: Vec<String> = nodes.into_iter().map(|n| n.label).collect();
    assert_eq!(labels, vec!["\u{00B7}", "'a'", "\u{00B7}", "?", "'b'", "\u{03B5}"]);
}

#[test]
fn ast_every_node_but_the_root_has_one_parent() {
    let ast = Ast::Concat(
        Box::new(Ast::Atom('a')),
        Box::new(Ast::Concat(Box::new(Ast::Opt(Box::new(Ast::Atom('b')))), Box::new(Ast::Epsilon))),
    );
    let pins: HashMap<u32, Pos> = HashMap::new();
    let g = AstGraph::new(&ast, &pins);
    let edges = g.edges();
    for id in 0u32..6 {
        let parents = edges.iter().filter(|e| e.to == id).count();
        assert_eq!(parents, if id == 0 { 0 } else { 1 });
    }
    let out = |id: u32| -> Vec<(u32, String)> {
        edges.iter().filter(|e| e.from == id).map(|e| (e.to, e.label.clone())).collect()
    };
    assert_eq!(out(0), vec![(1, "L".to_string()), (2, "R".to_string())]);
    assert!(out(1).is_empty());
    assert_eq!(out(2), vec![(3, "L".to_string()), (5, "R".to_string())]);
    assert_eq!(out(3), vec![(4, String::new())]);
    assert!(out(4).is_empty());
    assert!(out(5).is_empty());
}

#[test]
fn insert_sorted_keeps_strict_order() {
    let mut v = vec!['b', 'd'];
    insert_sorted(&mut v, 'c');
    insert_sorted(&mut v, 'a');
    insert_sorted(&mut v, 'd');
    assert_eq!(v, vec!['a', 'b', 'c', 'd']);
}

#[test]
fn join_quoted_separates_with_commas() {
    assert_eq!(join_quoted_string(&vec!['x', 'y', 'z']), "'x', 'y', 'z'");
    assert_eq!(join_quoted_string(&vec!['q']), "'q'");
    assert_eq!(join_quoted_string(&Vec::new()), "");
}

#[test]
fn decimals_print_like_to_string() {
    assert_eq!(u32_to_decimal(0), "0");
    assert_eq!(u32_to_decimal(10), "10");
    assert_eq!(u32_to_decimal(4294967295), "4294967295");
    assert_eq!(usize_to_decimal(907), "907");
}

#[test]
fn view_mode_labels() {
    assert_eq!(ViewMode::Ast.label(), "Parse Tree");
    assert_eq!(ViewMode::Nfa.label(), "NFA");
}

#[test]
fn box_kind_labels() {
    assert_eq!(box_kind_label(BoxKind::Literal), "Literal");
    assert_eq!(box_kind_label(BoxKind::Alternation), "Alternation");
    assert_eq!(box_kind_label(BoxKind::Optional), "Optional");
}

#[test]
fn ast_columns_put_left_operands_left_and_right_operands_right() {
    let ast = star_alt();
    let pins: HashMap<u32, Pos> = HashMap::new();
    let g = AstGraph::new(&ast, &pins);
    assert_eq!(g.columns(), vec![1, 1, 0, 2]);
    let ast = Ast::Concat(
        Box::new(Ast::Atom('a')),
        Box::new(Ast::Concat(Box::new(Ast::Opt(Box::new(Ast::Atom('b')))), Box::new(Ast::Epsilon))),
    );
    let g = AstGraph::new(&ast, &pins);
    let cols = g.columns();
    assert_eq!(cols, vec![1, 0, 3, 2, 2, 4]);
    for e in g.edges() {
        let (from, to) = (cols[e.from as usize], cols[e.to as usize]);
        match e.label.as_str() {
            "L" => assert!(to < from),
            "R" => assert!(from < to),
            _ => assert_eq!(from, to),
        }
    }
}
