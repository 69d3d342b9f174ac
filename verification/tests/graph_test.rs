use codegraph::graph::{parse_symbol_kind, CodeGraph, EdgeKind, NodeKind, SymbolKind, SymbolNode};

fn symbol(name: &str, kind: SymbolKind, file_path: &str, line: usize, module: &str) -> SymbolNode {
    SymbolNode {
        name: name.into(),
        kind,
        file_path: file_path.into(),
        line,
        module: module.into(),
    }
}

fn make_symbol(name: &str) -> SymbolNode {
    symbol(name, SymbolKind::Variable, "src/index.ts", 1, "index")
}

#[test]
fn test_add_symbols_and_call_edge() {
    let mut cg = CodeGraph::new();
    let a = cg.add_symbol(symbol("foo", SymbolKind::Function, "src/index.ts", 1, "index"));
    let b = cg.add_symbol(symbol("bar", SymbolKind::Function, "src/index.ts", 10, "index"));
    cg.add_call(a, b);

    assert_eq!(cg.graph.node_count(), 2);
    assert_eq!(cg.graph.edge_count(), 1);
}

#[test]
fn test_add_file_deduplicates() {
    let mut cg = CodeGraph::new();
    let f1 = cg.add_file("src/index.ts");
    let f2 = cg.add_file("src/utils.ts");
    let f1_again = cg.add_file("src/index.ts");

    assert_eq!(f1, f1_again);
    assert_ne!(f1, f2);
    assert_eq!(cg.graph.node_count(), 2);
}

#[test]
fn test_import_and_export_edges() {
    let mut cg = CodeGraph::new();
    let f1 = cg.add_file("src/index.ts");
    let f2 = cg.add_file("src/utils.ts");

    cg.add_import(f1, f2);
    cg.add_export(f2, f1);

    assert_eq!(cg.graph.node_count(), 2);
    assert_eq!(cg.graph.edge_count(), 2);

    let edges: Vec<EdgeKind> = cg.graph.edge_indices().map(|e| cg.graph[e]).collect();
    assert!(edges.contains(&EdgeKind::Imports));
    assert!(edges.contains(&EdgeKind::Exports));
}

#[test]
fn test_symbols_filters_file_nodes() {
    let mut cg = CodeGraph::new();
    cg.add_symbol(symbol("foo", SymbolKind::Function, "src/index.ts", 1, "index"));
    cg.add_file("src/index.ts");

    assert_eq!(cg.graph.node_count(), 2);
    assert_eq!(cg.symbols().len(), 1);
}

#[test]
fn test_find_symbols_by_name_ignores_file_nodes() {
    let mut cg = CodeGraph::new();
    cg.add_symbol(symbol("foo", SymbolKind::Function, "src/index.ts", 1, "index"));
    cg.add_file("foo");

    let matches = cg.find_symbols_by_name("foo");
    assert_eq!(matches.len(), 1);
}

#[test]
fn test_mixed_node_and_edge_kinds() {
    let mut cg = CodeGraph::new();
    let f1 = cg.add_file("src/index.ts");
    let f2 = cg.add_file("src/utils.ts");
    let sym = cg.add_symbol(symbol("greet", SymbolKind::Function, "src/index.ts", 1, "index"));

    cg.add_import(f1, f2);
    cg.add_call(sym, sym);

    assert_eq!(cg.graph.node_count(), 3);
    assert_eq!(cg.graph.edge_count(), 2);
}

#[test]
fn add_reference_inserts_reads_from_edge() {
    let mut cg = CodeGraph::new();
    let a = cg.add_symbol(make_symbol("x"));
    let b = cg.add_symbol(make_symbol("doStuff"));

    cg.add_reference(a, b, EdgeKind::ReadsFrom);

    assert_eq!(cg.graph.edge_count(), 1);
    let edge = &cg.graph[cg.graph.edge_indices().next().unwrap()];
    assert_eq!(*edge, EdgeKind::ReadsFrom);
}

#[test]
fn add_reference_inserts_writes_to_edge() {
    let mut cg = CodeGraph::new();
    let a = cg.add_symbol(make_symbol("init"));
    let b = cg.add_symbol(make_symbol("x"));

    cg.add_reference(a, b, EdgeKind::WritesTo);

    assert_eq!(cg.graph.edge_count(), 1);
    let edge = &cg.graph[cg.graph.edge_indices().next().unwrap()];
    assert_eq!(*edge, EdgeKind::WritesTo);
}

#[test]
fn references_of_returns_only_reference_edges() {
    let mut cg = CodeGraph::new();
    let x = cg.add_symbol(make_symbol("x"));
    let reader = cg.add_symbol(make_symbol("doStuff"));
    let writer = cg.add_symbol(make_symbol("init"));
    let caller = cg.add_symbol(make_symbol("main"));

    cg.add_reference(reader, x, EdgeKind::ReadsFrom);
    cg.add_reference(writer, x, EdgeKind::WritesTo);
    cg.add_call(caller, x);

    assert_eq!(cg.graph.edge_count(), 3);

    let refs = cg.references_of(x);
    assert_eq!(refs.len(), 2);

    let kinds: Vec<_> = refs.iter().map(|(_, k)| *k).collect();
    assert!(kinds.contains(&&EdgeKind::ReadsFrom));
    assert!(kinds.contains(&&EdgeKind::WritesTo));
}

#[test]
fn references_of_returns_empty_when_no_references() {
    let mut cg = CodeGraph::new();
    let a = cg.add_symbol(make_symbol("foo"));
    let b = cg.add_symbol(make_symbol("bar"));

    cg.add_call(a, b);

    let refs = cg.references_of(b);
    assert!(refs.is_empty());
}

#[test]
fn references_of_names_the_referencing_node() {
    let mut cg = CodeGraph::new();
    let x = cg.add_symbol(make_symbol("x"));
    let reader = cg.add_symbol(make_symbol("doStuff"));
    cg.add_reference(reader, x, EdgeKind::ReadsFrom);

    let refs = cg.references_of(x);
    assert_eq!(refs.len(), 1);
    assert_eq!(refs[0].0, reader);
    assert_eq!(*refs[0].1, EdgeKind::ReadsFrom);
}

#[test]
fn symbol_kind_names_parse_back() {
    for kind in [SymbolKind::Function, SymbolKind::Class, SymbolKind::Method, SymbolKind::Variable, SymbolKind::TypeAlias] {
        assert_eq!(parse_symbol_kind(&kind.to_string()), Ok(kind));
        assert_eq!(kind.to_string().parse::<SymbolKind>(), Ok(kind));
    }
    assert_eq!(SymbolKind::TypeAlias.to_string(), "TypeAlias");
}

#[test]
fn unknown_symbol_kind_is_refused() {
    assert_eq!(parse_symbol_kind("function"), Err("unknown symbol kind: function".to_string()));
}

#[test]
fn edge_kind_labels() {
    assert_eq!(EdgeKind::Calls.to_string(), "[call]");
    assert_eq!(EdgeKind::Imports.to_string(), "Imports");
    assert_eq!(EdgeKind::Exports.to_string(), "Exports");
    assert_eq!(EdgeKind::ReadsFrom.to_string(), "[read]");
    assert_eq!(EdgeKind::WritesTo.to_string(), "[write]");
}

#[test]
fn find_file_node_finds_only_files() {
    let mut cg = CodeGraph::new();
    cg.add_symbol(make_symbol("src/a.ts"));
    assert_eq!(cg.find_file_node("src/a.ts"), None);
    let f = cg.add_file("src/a.ts");
    assert_eq!(cg.find_file_node("src/a.ts"), Some(f));
    assert_eq!(cg.file_nodes(), vec![f]);
}

#[test]
fn node_and_edge_accessors() {
    let mut cg = CodeGraph::new();
    let a = cg.add_symbol(make_symbol("a"));
    let f = cg.add_file("src/a.ts");
    cg.add_import(f, a);
    assert_eq!(cg.node_count(), 2);
    assert_eq!(cg.edge_count(), 1);
    assert_eq!(cg.edge_at(0), (1, 0, EdgeKind::Imports));
    match cg.node_at(1) {
        NodeKind::File(file) => assert_eq!(file.file_path, "src/a.ts"),
        NodeKind::Symbol(_) => panic!("expected a file node"),
    }
}
