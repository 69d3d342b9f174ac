use codegraph::parse::{language_for_extension, language_for_path, parse_file, parse_source, tree_from_walk, SourceLanguage, WalkedNode};

#[test]
fn parses_valid_typescript_file() {
    let source = "function greet(name: string): string { return name; }";
    let tree = parse_file("index.ts", source).unwrap();

    assert!(!tree.has_error);
    assert_eq!(tree.nodes[0].kind, "program");
    assert_eq!(tree.nodes[0].parent, None);
    assert_eq!(tree.nodes.len(), tree.children.len());
}

#[test]
fn parses_valid_tsx_file() {
    let tree = parse_file("app.tsx", "const App = () => <div>hello</div>;").unwrap();
    assert!(!tree.has_error);
}

#[test]
fn parses_valid_javascript_file() {
    let tree = parse_file("util.js", "function add(a, b) { return a + b; }").unwrap();
    assert!(!tree.has_error);
}

#[test]
fn parses_valid_jsx_file() {
    let tree = parse_file("button.jsx", "const Btn = () => <button>click</button>;").unwrap();
    assert!(!tree.has_error);
}

#[test]
fn returns_tree_with_errors_for_broken_syntax() {
    let tree = parse_file("broken.ts", "function greet(name: string { return }}}}}").unwrap();
    assert!(tree.has_error);
}

#[test]
fn errors_on_unsupported_extension() {
    let result = parse_file("style.css", "body { color: red; }");
    assert_eq!(result.err(), Some("unsupported file extension: .css".to_string()));
    assert_eq!(language_for_path("Makefile"), Err("unsupported file extension: .".to_string()));
}

#[test]
fn extensions_choose_grammars() {
    assert_eq!(language_for_extension("ts"), Ok(SourceLanguage::TypeScript));
    assert_eq!(language_for_extension("tsx"), Ok(SourceLanguage::Tsx));
    assert_eq!(language_for_extension("js"), Ok(SourceLanguage::JavaScript));
    assert_eq!(language_for_extension("jsx"), Ok(SourceLanguage::JavaScript));
    assert_eq!(language_for_path("a/b/c.tsx"), Ok(SourceLanguage::Tsx));
}

#[test]
fn nodes_follow_depth_first_order() {
    let source = "let x = 1;";
    let tree = parse_source(source, SourceLanguage::JavaScript).unwrap();
    let kinds: Vec<&str> = tree.nodes.iter().map(|n| n.kind.as_str()).collect();
    assert_eq!(kinds[0], "program");
    assert_eq!(kinds[1], "lexical_declaration");
    assert_eq!(kinds[2], "let");
    assert_eq!(kinds[3], "variable_declarator");
    assert_eq!(kinds[4], "identifier");
    assert_eq!(tree.children[0], vec![1]);
    assert_eq!(tree.nodes[4].field.as_deref(), Some("name"));
    assert_eq!(tree.nodes[4].parent, Some(3));
    assert_eq!((tree.nodes[4].start, tree.nodes[4].end), (4, 5));
}

#[test]
fn ranges_count_characters() {
    let source = "const ä = 'ö';";
    let tree = parse_source(source, SourceLanguage::TypeScript).unwrap();
    let name = tree.nodes.iter().find(|n| n.kind == "identifier").unwrap();
    assert_eq!((name.start, name.end), (6, 7));
    let root = &tree.nodes[0];
    assert_eq!(root.end, source.chars().count());
}

fn walked(kind: &str, field: Option<&str>, depth: usize, start: usize, end: usize, row: usize) -> WalkedNode {
    (kind.to_string(), field.map(|f| f.to_string()), depth, start, end, row)
}

#[test]
fn walk_depths_give_parents_and_children() {
    let source = "let x;";
    let walk = vec![
        walked("program", None, 0, 0, 6, 0),
        walked("lexical_declaration", None, 1, 0, 6, 0),
        walked("let", None, 2, 0, 3, 0),
        walked("variable_declarator", Some("declarator"), 2, 4, 5, 0),
        walked("identifier", Some("name"), 3, 4, 5, 0),
        walked(";", None, 2, 5, 6, 0),
    ];
    let tree = tree_from_walk(source, true, &walk).unwrap();
    assert!(tree.has_error);
    let parents: Vec<Option<usize>> = tree.nodes.iter().map(|n| n.parent).collect();
    assert_eq!(parents, vec![None, Some(0), Some(1), Some(1), Some(3), Some(1)]);
    assert_eq!(tree.children, vec![vec![1], vec![2, 3, 5], vec![], vec![4], vec![], vec![]]);
    assert_eq!(tree.nodes[4].kind, "identifier");
    assert_eq!(tree.nodes[4].field.as_deref(), Some("name"));
    assert_eq!(tree.nodes[2].field, None);
}

#[test]
fn walk_ranges_become_characters() {
    let source = "ä = 1\nb";
    let walk = vec![
        walked("program", None, 0, 0, 8, 0),
        walked("identifier", None, 1, 0, 2, 0),
        walked("identifier", None, 1, 7, 8, 1),
    ];
    let tree = tree_from_walk(source, false, &walk).unwrap();
    assert_eq!((tree.nodes[0].start, tree.nodes[0].end), (0, 7));
    assert_eq!((tree.nodes[1].start, tree.nodes[1].end), (0, 1));
    assert_eq!((tree.nodes[2].start, tree.nodes[2].end, tree.nodes[2].row), (6, 7, 1));
}

#[test]
fn walk_that_does_not_fit_is_refused() {
    assert!(tree_from_walk("ä", false, &vec![walked("program", None, 0, 0, 1, 0)]).is_none());
    assert!(tree_from_walk("ab", false, &vec![walked("program", None, 0, 0, 3, 0)]).is_none());
    assert!(tree_from_walk("ab", false, &vec![walked("program", None, 0, 2, 1, 0)]).is_none());
    assert!(tree_from_walk("ab", false, &vec![walked("program", None, 0, 0, 2, usize::MAX)]).is_none());
    assert!(tree_from_walk("ab", false, &vec![]).is_none());
    assert!(tree_from_walk("ab", false, &vec![walked("program", None, 1, 0, 2, 0)]).is_none());
    let jump = vec![walked("program", None, 0, 0, 2, 0), walked("x", None, 2, 0, 1, 0)];
    assert!(tree_from_walk("ab", false, &jump).is_none());
    let second_root = vec![walked("program", None, 0, 0, 2, 0), walked("x", None, 0, 0, 1, 0)];
    assert!(tree_from_walk("ab", false, &second_root).is_none());
    let fits = vec![walked("program", None, 0, 0, 2, 0), walked("x", None, 1, 0, 1, 0)];
    assert!(tree_from_walk("ab", false, &fits).is_some());
}

#[test]
fn parse_reports_the_walk_of_each_grammar() {
    let ts = parse_source("let x: number = 1;", SourceLanguage::TypeScript).unwrap();
    assert!(ts.nodes.iter().any(|n| n.kind == "type_annotation"));
    let js = parse_source("let x: number = 1;", SourceLanguage::JavaScript).unwrap();
    assert!(js.has_error);
    let tsx = parse_source("const a = <div/>;", SourceLanguage::Tsx).unwrap();
    assert!(!tsx.has_error);
    assert!(tsx.nodes.iter().any(|n| n.kind == "jsx_self_closing_element"));
}
