use codegraph::graph::{CodeGraph, EdgeKind, SymbolKind, SymbolNode};
use codegraph::traverse::{collect_edges_by_kind, parse_direction, trace, Direction};
use petgraph::graph::NodeIndex;

fn make_symbol(name: &str) -> SymbolNode {
    SymbolNode {
        name: name.into(),
        kind: SymbolKind::Function,
        file_path: "test.ts".into(),
        line: 1,
        module: "test".into(),
    }
}

fn all_edges() -> Vec<EdgeKind> {
    vec![EdgeKind::Calls]
}

/// A linear chain: a -> b -> c -> d
fn build_chain() -> (CodeGraph, Vec<NodeIndex>) {
    let mut cg = CodeGraph::new();
    let a = cg.add_symbol(make_symbol("a"));
    let b = cg.add_symbol(make_symbol("b"));
    let c = cg.add_symbol(make_symbol("c"));
    let d = cg.add_symbol(make_symbol("d"));
    cg.add_call(a, b);
    cg.add_call(b, c);
    cg.add_call(c, d);
    (cg, vec![a, b, c, d])
}

#[test]
fn default_depth_2_both_directions() {
    let (cg, nodes) = build_chain();
    let b = nodes[1];

    let result = trace(&cg, b, 2, &Direction::Both, &all_edges());

    assert_eq!(result.node_indices.len(), 4);
    assert!(result.node_indices.contains(&nodes[0]));
    assert!(result.node_indices.contains(&nodes[1]));
    assert!(result.node_indices.contains(&nodes[2]));
    assert!(result.node_indices.contains(&nodes[3]));
}

#[test]
fn depth_1_limits_reach() {
    let (cg, nodes) = build_chain();
    let b = nodes[1];

    let result = trace(&cg, b, 1, &Direction::Both, &all_edges());

    assert_eq!(result.node_indices.len(), 3);
    assert!(result.node_indices.contains(&nodes[0]));
    assert!(result.node_indices.contains(&nodes[1]));
    assert!(result.node_indices.contains(&nodes[2]));
    assert!(!result.node_indices.contains(&nodes[3]));
}

#[test]
fn depth_3_reaches_all() {
    let (cg, nodes) = build_chain();
    let a = nodes[0];

    let result = trace(&cg, a, 3, &Direction::Out, &all_edges());

    assert_eq!(result.node_indices.len(), 4);
}

#[test]
fn direction_out_only_callees() {
    let (cg, nodes) = build_chain();
    let b = nodes[1];

    let result = trace(&cg, b, 2, &Direction::Out, &all_edges());

    assert!(result.node_indices.contains(&nodes[1]));
    assert!(result.node_indices.contains(&nodes[2]));
    assert!(result.node_indices.contains(&nodes[3]));
    assert!(!result.node_indices.contains(&nodes[0]));
}

#[test]
fn direction_in_only_callers() {
    let (cg, nodes) = build_chain();
    let c = nodes[2];

    let result = trace(&cg, c, 2, &Direction::In, &all_edges());

    assert!(result.node_indices.contains(&nodes[2]));
    assert!(result.node_indices.contains(&nodes[1]));
    assert!(result.node_indices.contains(&nodes[0]));
    assert!(!result.node_indices.contains(&nodes[3]));
}

#[test]
fn empty_edge_filter_returns_only_start() {
    let (cg, nodes) = build_chain();
    let b = nodes[1];

    let empty_filter: Vec<EdgeKind> = Vec::new();
    let result = trace(&cg, b, 2, &Direction::Both, &empty_filter);

    assert_eq!(result.node_indices.len(), 1);
    assert!(result.node_indices.contains(&b));
    assert!(result.edge_indices.is_empty());
}

#[test]
fn depth_0_returns_only_start() {
    let (cg, nodes) = build_chain();
    let b = nodes[1];

    let result = trace(&cg, b, 0, &Direction::Both, &all_edges());

    assert_eq!(result.node_indices.len(), 1);
    assert!(result.node_indices.contains(&b));
    assert!(result.edge_indices.is_empty());
}

#[test]
fn edge_indices_are_collected() {
    let (cg, nodes) = build_chain();
    let a = nodes[0];

    let result = trace(&cg, a, 2, &Direction::Out, &all_edges());

    assert_eq!(result.edge_indices.len(), 2);
}

#[test]
fn single_node_graph() {
    let mut cg = CodeGraph::new();
    let a = cg.add_symbol(make_symbol("alone"));

    let result = trace(&cg, a, 5, &Direction::Both, &all_edges());

    assert_eq!(result.node_indices.len(), 1);
    assert!(result.node_indices.contains(&a));
}

#[test]
fn diamond_graph_both_directions() {
    let mut cg = CodeGraph::new();
    let a = cg.add_symbol(make_symbol("a"));
    let b = cg.add_symbol(make_symbol("b"));
    let c = cg.add_symbol(make_symbol("c"));
    let d = cg.add_symbol(make_symbol("d"));
    cg.add_call(a, b);
    cg.add_call(a, c);
    cg.add_call(b, d);
    cg.add_call(c, d);

    let result = trace(&cg, d, 2, &Direction::In, &all_edges());

    assert_eq!(result.node_indices.len(), 4);
}

#[test]
fn trace_holds_ends_of_its_edges() {
    let (cg, nodes) = build_chain();
    let result = trace(&cg, nodes[1], 1, &Direction::Both, &all_edges());
    for e in &result.edge_indices {
        let (s, t) = cg.graph.edge_endpoints(*e).unwrap();
        assert!(result.node_indices.contains(&s));
        assert!(result.node_indices.contains(&t));
    }
    assert_eq!(result.edge_indices.len(), 2);
}

#[test]
fn filter_skips_other_kinds() {
    let (mut cg, nodes) = build_chain();
    cg.add_reference(nodes[0], nodes[3], EdgeKind::ReadsFrom);
    let calls_only = trace(&cg, nodes[0], 1, &Direction::Out, &all_edges());
    assert_eq!(calls_only.node_indices.len(), 2);
    let refs_too = trace(&cg, nodes[0], 1, &Direction::Out, &vec![EdgeKind::Calls, EdgeKind::ReadsFrom]);
    assert_eq!(refs_too.node_indices.len(), 3);
    assert!(refs_too.node_indices.contains(&nodes[3]));
}

#[test]
fn collect_edges_by_kind_keeps_matching_edges() {
    let mut cg = CodeGraph::new();
    let f1 = cg.add_file("a.ts");
    let f2 = cg.add_file("b.ts");
    let s = cg.add_symbol(make_symbol("x"));
    cg.add_import(f1, f2);
    cg.add_call(s, s);
    let imports = collect_edges_by_kind(&cg, &vec![EdgeKind::Imports, EdgeKind::Exports]);
    assert_eq!(imports.edge_indices.len(), 1);
    assert_eq!(imports.node_indices.len(), 2);
    assert!(imports.node_indices.contains(&f1));
    assert!(imports.node_indices.contains(&f2));
    let all = collect_edges_by_kind(&cg, &vec![EdgeKind::Calls, EdgeKind::Imports]);
    assert_eq!(all.edge_indices.len(), 2);
    assert_eq!(all.node_indices.len(), 3);
}

#[test]
fn directions_parse_by_name() {
    assert_eq!(parse_direction("in"), Ok(Direction::In));
    assert_eq!(parse_direction("out"), Ok(Direction::Out));
    assert_eq!(parse_direction("both"), Ok(Direction::Both));
    assert_eq!(parse_direction("up"), Err("unknown direction: up".to_string()));
    assert_eq!("out".parse::<Direction>(), Ok(Direction::Out));
}

#[test]
fn deeper_trace_holds_more() {
    let (cg, nodes) = build_chain();
    let shallow = trace(&cg, nodes[0], 1, &Direction::Out, &all_edges());
    let deep = trace(&cg, nodes[0], 2, &Direction::Out, &all_edges());
    for n in &shallow.node_indices {
        assert!(deep.node_indices.contains(n));
    }
    for e in &shallow.edge_indices {
        assert!(deep.edge_indices.contains(e));
    }
    assert_eq!((shallow.node_indices.len(), deep.node_indices.len()), (2, 3));
}

#[test]
fn both_ways_holds_each_way() {
    let (cg, nodes) = build_chain();
    let both = trace(&cg, nodes[1], 1, &Direction::Both, &all_edges());
    for dir in [Direction::In, Direction::Out] {
        let one = trace(&cg, nodes[1], 1, &dir, &all_edges());
        for n in &one.node_indices {
            assert!(both.node_indices.contains(n));
        }
        assert_eq!(one.node_indices.len(), 2);
    }
    assert_eq!(both.node_indices.len(), 3);
}
