use codegraph::extract::{extract, module_name, strip_quotes, walk_node, ExtractionResult, RefKind};
use codegraph::graph::SymbolKind;
use codegraph::parse::parse_file;

fn parse_and_extract(filename: &str, source: &str) -> ExtractionResult {
    let path = format!("project/src/{filename}");
    let tree = parse_file(&path, source).unwrap();
    extract(&tree, source, &path)
}

#[test]
fn extracts_all_five_symbol_kinds() {
    let source_with_method = r#"
function greet() {}
class Foo {
    hello() {}
}
const bar = 1;
type Alias = string;
"#;

    let result = parse_and_extract("all_kinds.ts", source_with_method);

    let names: Vec<&str> = result.symbols.iter().map(|s| s.name.as_str()).collect();
    assert!(names.contains(&"greet"), "missing function greet: {:?}", names);
    assert!(names.contains(&"Foo"), "missing class Foo: {:?}", names);
    assert!(names.contains(&"hello"), "missing method hello: {:?}", names);
    assert!(names.contains(&"bar"), "missing variable bar: {:?}", names);
    assert!(names.contains(&"Alias"), "missing type alias Alias: {:?}", names);

    let greet = result.symbols.iter().find(|s| s.name == "greet").unwrap();
    assert_eq!(greet.kind, SymbolKind::Function);

    let foo = result.symbols.iter().find(|s| s.name == "Foo").unwrap();
    assert_eq!(foo.kind, SymbolKind::Class);

    let hello = result.symbols.iter().find(|s| s.name == "hello").unwrap();
    assert_eq!(hello.kind, SymbolKind::Method);

    let bar = result.symbols.iter().find(|s| s.name == "bar").unwrap();
    assert_eq!(bar.kind, SymbolKind::Variable);

    let alias = result.symbols.iter().find(|s| s.name == "Alias").unwrap();
    assert_eq!(alias.kind, SymbolKind::TypeAlias);
}

#[test]
fn extracts_correct_line_numbers() {
    let source = "function a() {}\nfunction b() {}\n";

    let result = parse_and_extract("lines.ts", source);

    let a = result.symbols.iter().find(|s| s.name == "a").unwrap();
    assert_eq!(a.line, 1);

    let b = result.symbols.iter().find(|s| s.name == "b").unwrap();
    assert_eq!(b.line, 2);
}

#[test]
fn extracts_file_path_and_module() {
    let source = "function a() {}";
    let path = "project/src/mymod.ts";
    let tree = parse_file(path, source).unwrap();

    let result = extract(&tree, source, path);

    let a = result.symbols.iter().find(|s| s.name == "a").unwrap();
    assert_eq!(a.file_path, path);
    assert_eq!(a.module, "mymod");
}

#[test]
fn extracts_call_edge() {
    let source = "function a() { b(); }";

    let result = parse_and_extract("calls.ts", source);

    assert!(
        result.calls.iter().any(|(from, to)| from == "a" && to == "b"),
        "expected call edge (a, b), got {:?}",
        result.calls
    );
}

#[test]
fn extracts_method_call() {
    let source = r#"
class Foo {
    run() {
        this.helper();
    }
    helper() {}
}
"#;

    let result = parse_and_extract("method_call.ts", source);

    assert!(
        result.calls.iter().any(|(from, to)| from == "run" && to == "helper"),
        "expected call edge (run, helper), got {:?}",
        result.calls
    );
}

#[test]
fn partial_parse_returns_partial_results() {
    let source = "function good() { b(); }\nfunction ( { }}}";

    let result = parse_and_extract("partial.ts", source);

    assert!(
        result.symbols.iter().any(|s| s.name == "good"),
        "should extract 'good' despite parse errors: {:?}",
        result.symbols
    );
}

#[test]
fn extracts_variable_from_let_declaration() {
    let source = "let x = 42;";

    let result = parse_and_extract("letvar.js", source);

    assert!(
        result.symbols.iter().any(|s| s.name == "x" && s.kind == SymbolKind::Variable),
        "expected variable x: {:?}",
        result.symbols
    );
}

#[test]
fn extracts_es_import() {
    let source = r#"import { foo } from './utils';"#;

    let result = parse_and_extract("imports.ts", source);

    assert!(
        result.imports.contains(&"./utils".to_string()),
        "expected import './utils', got {:?}",
        result.imports
    );
}

#[test]
fn extracts_require_call() {
    let source = r#"const fs = require('fs');"#;

    let result = parse_and_extract("require.js", source);

    assert!(
        result.imports.contains(&"fs".to_string()),
        "expected import 'fs', got {:?}",
        result.imports
    );
}

#[test]
fn extracts_dynamic_import() {
    let source = r#"const mod = import('./lazy');"#;

    let result = parse_and_extract("dynamic.ts", source);

    assert!(
        result.imports.contains(&"./lazy".to_string()),
        "expected import './lazy', got {:?}",
        result.imports
    );
}

#[test]
fn extracts_reexport_specifier() {
    let source = r#"export { foo } from './other';"#;

    let result = parse_and_extract("reexport.ts", source);

    assert!(
        result.reexports.contains(&"./other".to_string()),
        "expected reexport './other', got {:?}",
        result.reexports
    );
}

#[test]
fn local_export_has_no_reexport() {
    let source = r#"export function greet() {}"#;

    let result = parse_and_extract("local_export.ts", source);

    assert!(
        result.reexports.is_empty(),
        "local export should not produce reexport, got {:?}",
        result.reexports
    );
}

#[test]
fn extracts_all_import_forms() {
    let source = r#"
import { a } from './a';
const b = require('./b');
const c = import('./c');
export { d } from './d';
export default function greet() {}
"#;

    let result = parse_and_extract("all_imports.ts", source);

    assert!(result.imports.contains(&"./a".to_string()), "missing ./a: {:?}", result.imports);
    assert!(result.imports.contains(&"./b".to_string()), "missing ./b: {:?}", result.imports);
    assert!(result.imports.contains(&"./c".to_string()), "missing ./c: {:?}", result.imports);
    assert!(result.reexports.contains(&"./d".to_string()), "missing reexport ./d: {:?}", result.reexports);
    assert!(result.reexports.len() == 1, "should only have 1 reexport, got {:?}", result.reexports);
}

#[test]
fn extracts_references_with_scope() {
    let source = "let count = 0;\nfunction bump() {\n  count += 1;\n  log(count);\n}\n";

    let result = parse_and_extract("refs.ts", source);

    let writes: Vec<_> = result.references.iter().filter(|r| r.kind == RefKind::Write).collect();
    assert_eq!(writes.len(), 2, "{:?}", result.references);
    assert_eq!(writes[0].symbol_name, "count");
    assert_eq!(writes[0].enclosing_scope, None);
    assert_eq!(writes[0].line, 1);
    assert_eq!(writes[1].symbol_name, "count");
    assert_eq!(writes[1].enclosing_scope, Some("bump".to_string()));
    assert_eq!(writes[1].line, 3);

    let reads: Vec<_> = result.references.iter().filter(|r| r.kind == RefKind::Read).collect();
    assert_eq!(reads.len(), 1, "{:?}", result.references);
    assert_eq!(reads[0].symbol_name, "count");
    assert_eq!(reads[0].line, 4);
    assert_eq!(reads[0].enclosing_scope, Some("bump".to_string()));
}

#[test]
fn destructuring_writes_each_name() {
    let source = "const { a, b: c, d: [e], ...f } = obj; let [g, [h]] = arr;";

    let result = parse_and_extract("destructure.js", source);

    let writes: Vec<&str> = result
        .references
        .iter()
        .filter(|r| r.kind == RefKind::Write)
        .map(|r| r.symbol_name.as_str())
        .collect();
    // A pair binds only a plain identifier; nested array patterns bind theirs.
    assert_eq!(writes, vec!["a", "c", "g", "h"]);
    assert!(result.references.iter().any(|r| r.kind == RefKind::Read && r.symbol_name == "obj"));
}

#[test]
fn keywords_and_parameters_are_not_reads() {
    let source = "function f(p) { return undefined; }";

    let result = parse_and_extract("kw.js", source);

    assert!(result.references.iter().all(|r| r.symbol_name != "undefined"), "{:?}", result.references);
    assert!(result.references.iter().all(|r| r.symbol_name != "p"), "{:?}", result.references);
}

#[test]
fn calls_outside_functions_are_not_recorded() {
    let source = "setup();\nfunction main() { run(); }";

    let result = parse_and_extract("top.js", source);

    assert_eq!(result.calls, vec![("main".to_string(), "run".to_string())]);
}

#[test]
fn non_ascii_text_keeps_names_whole() {
    let source = "// héllo wörld\nfunction grüß() { hallo(); }";

    let result = parse_and_extract("utf8.js", source);

    assert_eq!(result.symbols.len(), 1);
    assert_eq!(result.symbols[0].name, "grüß");
    assert_eq!(result.symbols[0].line, 2);
    assert_eq!(result.calls, vec![("grüß".to_string(), "hallo".to_string())]);
}

#[test]
fn quotes_are_stripped_from_both_ends() {
    assert_eq!(strip_quotes("\"./a\""), "./a");
    assert_eq!(strip_quotes("'./b'"), "./b");
    assert_eq!(strip_quotes("\"'x'\""), "x");
    assert_eq!(strip_quotes("plain"), "plain");
}

#[test]
fn module_is_the_file_stem() {
    assert_eq!(module_name("src/lib/util.test.ts"), "util.test");
    assert_eq!(module_name("index.js"), "index");
    assert_eq!(module_name(""), "");
}

#[test]
fn every_extracted_item_carries_the_file() {
    let source = "let a = 1;\nfunction f() { a = 2; g(a); }\nclass K { m() {} }";
    let result = parse_and_extract("carry.ts", source);
    assert_eq!(result.symbols.len(), 4);
    assert!(result.symbols.iter().all(|s| s.file_path == "project/src/carry.ts" && s.module == "carry"));
    assert!(!result.references.is_empty());
    assert!(result.references.iter().all(|r| r.file_path == "project/src/carry.ts"));
}

#[test]
fn walk_node_appends_after_what_was_there() {
    let source = "function greet() { helper(); }\nimport x from './x';";
    let path = "project/src/a.ts";
    let tree = parse_file(path, source).unwrap();
    let mut symbols = Vec::new();
    let mut calls = vec![("a".to_string(), "b".to_string())];
    let mut imports = vec!["./before".to_string()];
    let mut reexports = vec!["./kept".to_string()];
    let mut references = Vec::new();
    walk_node(&tree, source, path, "a", &mut symbols, &mut calls, &mut imports, &mut reexports, &mut references);
    assert_eq!(calls, vec![("a".to_string(), "b".to_string()), ("greet".to_string(), "helper".to_string())]);
    assert_eq!(imports, vec!["./before".to_string(), "./x".to_string()]);
    assert_eq!(reexports, vec!["./kept".to_string()]);
    assert_eq!(symbols.len(), 1);
    assert_eq!(symbols[0].name, "greet");
    assert_eq!(symbols[0].module, "a");
}
