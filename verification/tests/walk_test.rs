use codegraph::walk::{is_source_file, is_walked_entry};

#[test]
fn source_files_and_walked_entries() {
    assert!(is_source_file("src/a.ts"));
    assert!(is_source_file("a.tsx"));
    assert!(is_source_file("lib/b.js"));
    assert!(is_source_file("c.jsx"));
    assert!(!is_source_file("README.md"));
    assert!(!is_source_file("style.css"));
    assert!(!is_source_file("ts"));
    assert!(is_walked_entry("src"));
    assert!(!is_walked_entry("node_modules"));
}
