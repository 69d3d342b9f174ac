use codegraph::extract::{ExtractionResult, RefKind, ReferenceEntry};
use codegraph::graph::{EdgeKind, NodeKind, SymbolKind, SymbolNode};
use codegraph::index::{
    candidate_line, index_summary, listed_symbols, lookup_symbol, render_edge_filter, symbol_line,
    build_graph, trace_edge_filter, FileFacts, GraphBuilder, SymbolLookup,
};
use codegraph::resolve::ResolveResult;

fn sym(name: &str, kind: SymbolKind, file: &str, line: usize) -> SymbolNode {
    SymbolNode { name: name.into(), kind, file_path: file.into(), line, module: "m".into() }
}

fn reference(name: &str, kind: RefKind, scope: Option<&str>) -> ReferenceEntry {
    ReferenceEntry { symbol_name: name.into(), kind, file_path: "a.ts".into(), line: 1, enclosing_scope: scope.map(|s| s.to_string()) }
}

fn facts() -> ExtractionResult {
    ExtractionResult {
        symbols: vec![sym("main", SymbolKind::Function, "a.ts", 1), sym("helper", SymbolKind::Function, "a.ts", 5), sym("count", SymbolKind::Variable, "a.ts", 9)],
        calls: vec![("main".into(), "helper".into()), ("main".into(), "missing".into())],
        imports: vec!["./b".into(), "lodash".into()],
        reexports: vec!["./c".into()],
        references: vec![
            reference("count", RefKind::Write, Some("main")),
            reference("count", RefKind::Read, Some("helper")),
            reference("count", RefKind::Read, None),
        ],
    }
}

#[test]
fn builder_adds_symbols_calls_references_and_files() {
    let mut b = GraphBuilder::new();
    let f = facts();
    let imports = vec![ResolveResult::Resolved("/p/b.ts".into()), ResolveResult::External("lodash".into())];
    let reexports = vec![ResolveResult::Resolved("/p/c.ts".into())];
    b.add_file_facts(&f, "/p/a.ts", &imports, &reexports);
    assert_eq!(b.pending_counts(), (2, 3));
    let g = b.finish();

    assert_eq!(g.node_count(), 6);
    assert_eq!(g.edge_count(), 5);
    assert_eq!(g.edge_at(0), (3, 4, EdgeKind::Imports));
    assert_eq!(g.edge_at(1), (3, 5, EdgeKind::Exports));
    assert_eq!(g.edge_at(2), (0, 1, EdgeKind::Calls));
    assert_eq!(g.edge_at(3), (0, 2, EdgeKind::WritesTo));
    assert_eq!(g.edge_at(4), (1, 2, EdgeKind::ReadsFrom));
    match g.node_at(3) {
        NodeKind::File(file) => assert_eq!(file.file_path, "/p/a.ts"),
        NodeKind::Symbol(_) => panic!("expected the importing file"),
    }
}

#[test]
fn external_imports_add_no_edges() {
    let mut b = GraphBuilder::new();
    let f = ExtractionResult { symbols: vec![], calls: vec![], imports: vec!["react".into()], reexports: vec![], references: vec![] };
    b.add_file_facts(&f, "/p/a.ts", &vec![ResolveResult::External("react".into())], &vec![]);
    assert_eq!(b.graph().node_count(), 0);
    assert_eq!(b.graph().edge_count(), 0);
}

#[test]
fn names_lead_to_the_last_symbol_added() {
    let mut b = GraphBuilder::new();
    let first = ExtractionResult { symbols: vec![sym("dupe", SymbolKind::Function, "a.ts", 1), sym("user", SymbolKind::Function, "a.ts", 2)], calls: vec![], imports: vec![], reexports: vec![], references: vec![] };
    b.add_file_facts(&first, "/p/a.ts", &vec![], &vec![]);
    let second = ExtractionResult {
        symbols: vec![sym("dupe", SymbolKind::Function, "b.ts", 1)],
        calls: vec![("user".into(), "dupe".into())],
        imports: vec![],
        reexports: vec![],
        references: vec![],
    };
    b.add_file_facts(&second, "/p/b.ts", &vec![], &vec![]);
    assert_eq!(b.finish().edge_at(0), (1, 2, EdgeKind::Calls));
}

#[test]
fn file_nodes_are_shared_between_files() {
    let mut b = GraphBuilder::new();
    let f = ExtractionResult { symbols: vec![], calls: vec![], imports: vec!["./b".into()], reexports: vec![], references: vec![] };
    b.add_file_facts(&f, "/p/a.ts", &vec![ResolveResult::Resolved("/p/b.ts".into())], &vec![]);
    let g = ExtractionResult { symbols: vec![], calls: vec![], imports: vec!["./a".into()], reexports: vec![], references: vec![] };
    b.add_file_facts(&g, "/p/b.ts", &vec![ResolveResult::Resolved("/p/a.ts".into())], &vec![]);
    assert_eq!(b.graph().node_count(), 2);
    assert_eq!(b.graph().edge_at(0), (0, 1, EdgeKind::Imports));
    assert_eq!(b.graph().edge_at(1), (1, 0, EdgeKind::Imports));
}

#[test]
fn trace_kinds() {
    assert_eq!(trace_edge_filter("call"), Ok(vec![EdgeKind::Calls]));
    assert_eq!(trace_edge_filter("ref"), Ok(vec![EdgeKind::ReadsFrom, EdgeKind::WritesTo]));
    assert_eq!(trace_edge_filter("import"), Ok(vec![EdgeKind::Imports, EdgeKind::Exports]));
    assert_eq!(trace_edge_filter("all").unwrap().len(), 5);
    assert_eq!(trace_edge_filter("bogus"), Err("Unknown kind: bogus".to_string()));
}

#[test]
fn render_kinds() {
    assert_eq!(render_edge_filter("import"), Ok(vec![EdgeKind::Imports, EdgeKind::Exports]));
    assert_eq!(render_edge_filter("all"), Ok(vec![EdgeKind::Calls, EdgeKind::Imports, EdgeKind::Exports]));
    assert_eq!(render_edge_filter("call"), Err("Unknown kind: call".to_string()));
}

#[test]
fn lookup_finds_none_one_or_many() {
    let mut b = GraphBuilder::new();
    let f = ExtractionResult {
        symbols: vec![sym("a", SymbolKind::Function, "a.ts", 1), sym("b", SymbolKind::Function, "a.ts", 2), sym("b", SymbolKind::Function, "b.ts", 3)],
        calls: vec![],
        imports: vec![],
        reexports: vec![],
        references: vec![],
    };
    b.add_file_facts(&f, "/p/a.ts", &vec![], &vec![]);
    let g = b.graph();
    assert!(matches!(lookup_symbol(g, "zzz"), SymbolLookup::NotFound));
    match lookup_symbol(g, "a") {
        SymbolLookup::Found(n) => assert_eq!(n.index(), 0),
        _ => panic!("expected one match"),
    }
    match lookup_symbol(g, "b") {
        SymbolLookup::Ambiguous(v) => assert_eq!(v.iter().map(|n| n.index()).collect::<Vec<_>>(), vec![1, 2]),
        _ => panic!("expected several matches"),
    }
}

#[test]
fn summary_counts_each_kind() {
    let mut b = GraphBuilder::new();
    let f = facts();
    b.add_file_facts(&f, "/p/a.ts", &vec![ResolveResult::Resolved("/p/b.ts".into())], &vec![ResolveResult::Resolved("/p/c.ts".into())]);
    let g = b.finish();
    assert_eq!(index_summary(&g), "Indexed 3 symbols, 1 calls, 1 imports, 1 exports, 2 references");
    let empty = GraphBuilder::new();
    assert_eq!(index_summary(empty.graph()), "Indexed 0 symbols, 0 calls, 0 imports, 0 exports, 0 references");
}

#[test]
fn listing_filters_by_kind() {
    let mut b = GraphBuilder::new();
    let f = facts();
    b.add_file_facts(&f, "/p/a.ts", &vec![], &vec![]);
    let all = listed_symbols(b.graph(), None);
    assert_eq!(all, vec!["Function\tmain\ta.ts:1", "Function\thelper\ta.ts:5", "Variable\tcount\ta.ts:9"]);
    let vars = listed_symbols(b.graph(), Some(SymbolKind::Variable));
    assert_eq!(vars, vec!["Variable\tcount\ta.ts:9"]);
    assert_eq!(symbol_line(&sym("Foo", SymbolKind::Class, "x.ts", 3)), "Class\tFoo\tx.ts:3");
    assert_eq!(candidate_line(&sym("dupe", SymbolKind::Function, "b.ts", 1)), "  dupe b.ts:1");
}

#[test]
fn call_into_a_file_added_later_gets_an_edge() {
    let mut b = GraphBuilder::new();
    let caller = ExtractionResult {
        symbols: vec![sym("main", SymbolKind::Function, "main.ts", 1)],
        calls: vec![("main".into(), "greet".into())],
        imports: vec![],
        reexports: vec![],
        references: vec![reference("greeting", RefKind::Read, Some("main"))],
    };
    let callee = ExtractionResult {
        symbols: vec![sym("greet", SymbolKind::Function, "greet.ts", 1), sym("greeting", SymbolKind::Variable, "greet.ts", 2)],
        calls: vec![],
        imports: vec![],
        reexports: vec![],
        references: vec![],
    };
    b.add_file_facts(&caller, "/p/main.ts", &vec![], &vec![]);
    b.add_file_facts(&callee, "/p/greet.ts", &vec![], &vec![]);
    let g = b.finish();
    assert_eq!(g.edge_count(), 2);
    assert_eq!(g.edge_at(0), (0, 1, EdgeKind::Calls));
    assert_eq!(g.edge_at(1), (0, 2, EdgeKind::ReadsFrom));
}

fn file(path: &str, facts: ExtractionResult, imports: Vec<ResolveResult>, reexports: Vec<ResolveResult>) -> FileFacts {
    FileFacts { path: path.into(), facts, imports, reexports }
}

fn empty_facts() -> ExtractionResult {
    ExtractionResult { symbols: vec![], calls: vec![], imports: vec![], reexports: vec![], references: vec![] }
}

#[test]
fn build_links_calls_whatever_the_order_of_files() {
    let caller = || ExtractionResult {
        symbols: vec![sym("main", SymbolKind::Function, "main.ts", 1)],
        calls: vec![("main".into(), "greet".into())],
        ..empty_facts()
    };
    let callee = || ExtractionResult { symbols: vec![sym("greet", SymbolKind::Function, "greet.ts", 1)], ..empty_facts() };
    let forward = build_graph(&vec![file("/p/main.ts", caller(), vec![], vec![]), file("/p/greet.ts", callee(), vec![], vec![])]).unwrap();
    assert_eq!(forward.edge_count(), 1);
    assert_eq!(forward.edge_at(0), (0, 1, EdgeKind::Calls));
    let backward = build_graph(&vec![file("/p/greet.ts", callee(), vec![], vec![]), file("/p/main.ts", caller(), vec![], vec![])]).unwrap();
    assert_eq!(backward.edge_count(), 1);
    assert_eq!(backward.edge_at(0), (1, 0, EdgeKind::Calls));
}

#[test]
fn build_counts_one_edge_per_resolved_specifier() {
    let a = file(
        "/p/a.ts",
        ExtractionResult { imports: vec!["./b".into(), "lodash".into()], reexports: vec!["./c".into()], ..empty_facts() },
        vec![ResolveResult::Resolved("/p/b.ts".into()), ResolveResult::External("lodash".into())],
        vec![ResolveResult::Resolved("/p/c.ts".into())],
    );
    let b = file(
        "/p/b.ts",
        ExtractionResult { imports: vec!["./c".into()], ..empty_facts() },
        vec![ResolveResult::Resolved("/p/c.ts".into())],
        vec![],
    );
    let g = build_graph(&vec![a, b]).unwrap();
    assert_eq!(g.edge_count(), 3);
    assert_eq!(g.edge_at(0), (0, 1, EdgeKind::Imports));
    assert_eq!(g.edge_at(1), (0, 2, EdgeKind::Exports));
    assert_eq!(g.edge_at(2), (1, 2, EdgeKind::Imports));
    assert_eq!(g.node_count(), 3);
    assert_eq!(g.find_file_node("/p/c.ts").map(|n| n.index()), Some(2));
}

#[test]
fn build_of_no_files_is_empty() {
    let g = build_graph(&vec![]).unwrap();
    assert_eq!(g.node_count(), 0);
    assert_eq!(g.edge_count(), 0);
}
