use std::path::{Path, PathBuf};
use tempfile::{tempdir, Builder, NamedTempFile, TempDir};

use codegraph::resolve::{candidate_paths, is_relative_specifier, resolve_import, resolve_specifier, ResolveResult};

/// Creates an empty file named `name` in `dir`, removed when dropped.
fn touch(dir: &Path, name: &str) -> NamedTempFile {
    Builder::new().prefix(name).rand_bytes(0).tempfile_in(dir).unwrap()
}

/// Creates a directory named `name` in `dir`, removed when dropped.
fn make_dir(dir: &Path, name: &str) -> TempDir {
    Builder::new().prefix(name).rand_bytes(0).tempdir_in(dir).unwrap()
}

fn canonical(p: &Path) -> PathBuf {
    p.canonicalize().unwrap_or_else(|_| p.to_path_buf())
}

fn expected(p: &Path) -> ResolveResult {
    ResolveResult::Resolved(canonical(p).to_string_lossy().to_string())
}

/// What the file system says of each candidate path: those that are files,
/// each with its canonical path.
fn probe(specifier: &str, importer: &Path) -> Vec<(String, String)> {
    let importer = importer.to_string_lossy().to_string();
    let mut files = Vec::new();
    if let Some(cands) = candidate_paths(specifier, &importer) {
        for c in cands {
            let p = PathBuf::from(&c);
            if p.is_file() {
                files.push((c, canonical(&p).to_string_lossy().to_string()));
            }
        }
    }
    files
}

fn resolve_on_disk(specifier: &str, importer: &Path) -> ResolveResult {
    let files = probe(specifier, importer);
    resolve_specifier(specifier, &importer.to_string_lossy(), &files)
}

#[test]
fn resolves_relative_with_ts_extension() {
    let dir = tempdir().unwrap();
    let _f1 = touch(dir.path(), "foo.ts");

    let importer = dir.path().join("main.ts");
    let result = resolve_on_disk("./foo", &importer);

    assert_eq!(result, expected(&dir.path().join("foo.ts")));
}

#[test]
fn resolves_relative_with_tsx_extension() {
    let dir = tempdir().unwrap();
    let _f2 = touch(dir.path(), "component.tsx");

    let importer = dir.path().join("main.ts");
    let result = resolve_on_disk("./component", &importer);

    assert_eq!(result, expected(&dir.path().join("component.tsx")));
}

#[test]
fn resolves_relative_with_js_extension() {
    let dir = tempdir().unwrap();
    let _f3 = touch(dir.path(), "util.js");

    let importer = dir.path().join("main.ts");
    let result = resolve_on_disk("./util", &importer);

    assert_eq!(result, expected(&dir.path().join("util.js")));
}

#[test]
fn resolves_relative_with_jsx_extension() {
    let dir = tempdir().unwrap();
    let _f4 = touch(dir.path(), "widget.jsx");

    let importer = dir.path().join("main.ts");
    let result = resolve_on_disk("./widget", &importer);

    assert_eq!(result, expected(&dir.path().join("widget.jsx")));
}

#[test]
fn resolves_index_file_in_directory() {
    let dir = tempdir().unwrap();
    let bar = make_dir(dir.path(), "bar");
    let bar_dir = bar.path().to_path_buf();
    
    let _f5 = touch(&bar_dir, "index.tsx");

    let importer = dir.path().join("main.ts");
    let result = resolve_on_disk("./bar", &importer);

    assert_eq!(result, expected(&bar_dir.join("index.tsx")));
}

#[test]
fn resolves_index_ts_before_index_tsx() {
    let dir = tempdir().unwrap();
    let sub_dir = make_dir(dir.path(), "sub");
    let sub = sub_dir.path().to_path_buf();
    
    let _f6 = touch(&sub, "index.ts");
    let _f7 = touch(&sub, "index.tsx");

    let importer = dir.path().join("main.ts");
    let result = resolve_on_disk("./sub", &importer);

    assert_eq!(result, expected(&sub.join("index.ts")));
}

#[test]
fn resolves_exact_path_first() {
    let dir = tempdir().unwrap();
    let _f8 = touch(dir.path(), "foo");
    let _f9 = touch(dir.path(), "foo.ts");

    let importer = dir.path().join("main.ts");
    let result = resolve_on_disk("./foo", &importer);

    assert_eq!(result, expected(&dir.path().join("foo")));
}

#[test]
fn resolves_parent_relative_path() {
    let dir = tempdir().unwrap();
    let sub_dir = make_dir(dir.path(), "sub");
    let sub = sub_dir.path().to_path_buf();
    
    let _f10 = touch(dir.path(), "lib.ts");

    let importer = sub.join("main.ts");
    let result = resolve_on_disk("../lib", &importer);

    assert_eq!(result, expected(&dir.path().join("lib.ts")));
}

#[test]
fn bare_specifier_returns_external() {
    let dir = tempdir().unwrap();
    let importer = dir.path().join("main.ts");
    let result = resolve_on_disk("lodash", &importer);

    assert_eq!(result, ResolveResult::External("lodash".to_string()));
}

#[test]
fn scoped_package_returns_external() {
    let dir = tempdir().unwrap();
    let importer = dir.path().join("main.ts");
    let result = resolve_on_disk("@scope/pkg", &importer);

    assert_eq!(result, ResolveResult::External("@scope/pkg".to_string()));
}

#[test]
fn resolves_specifier_with_explicit_extension() {
    let dir = tempdir().unwrap();
    let _f11 = touch(dir.path(), "foo.ts");

    let importer = dir.path().join("main.ts");
    let result = resolve_on_disk("./foo.ts", &importer);

    assert_eq!(result, expected(&dir.path().join("foo.ts")));
}

#[test]
fn ts_extension_preferred_over_tsx() {
    let dir = tempdir().unwrap();
    let _f12 = touch(dir.path(), "comp.ts");
    let _f13 = touch(dir.path(), "comp.tsx");

    let importer = dir.path().join("main.ts");
    let result = resolve_on_disk("./comp", &importer);

    assert_eq!(result, expected(&dir.path().join("comp.ts")));
}

#[test]
fn missing_relative_file_is_external() {
    let files: Vec<(String, String)> = Vec::new();
    assert_eq!(resolve_specifier("./nowhere", "/p/main.ts", &files), ResolveResult::External("./nowhere".to_string()));
}

#[test]
fn candidates_come_in_order() {
    let cands = candidate_paths("./foo", "/p/src/main.ts").unwrap();
    assert_eq!(
        cands,
        vec![
            "/p/src/./foo",
            "/p/src/./foo.ts",
            "/p/src/./foo.tsx",
            "/p/src/./foo.js",
            "/p/src/./foo.jsx",
            "/p/src/./foo/index.ts",
            "/p/src/./foo/index.tsx",
            "/p/src/./foo/index.js",
            "/p/src/./foo/index.jsx",
        ]
    );
    assert_eq!(candidate_paths("./foo", "/"), None);
}

#[test]
fn first_recorded_candidate_wins() {
    let files = vec![
        ("/p/src/./foo/index.ts".to_string(), "/p/src/foo/index.ts".to_string()),
        ("/p/src/./foo.js".to_string(), "/p/src/foo.js".to_string()),
    ];
    assert_eq!(resolve_specifier("./foo", "/p/src/main.ts", &files), ResolveResult::Resolved("/p/src/foo.js".to_string()));
}

#[test]
fn relative_specifiers() {
    assert!(is_relative_specifier("./a"));
    assert!(is_relative_specifier("../a"));
    assert!(!is_relative_specifier(".a"));
    assert!(!is_relative_specifier("a/./b"));
}

#[test]
fn importer_without_directory_cannot_resolve_relative() {
    let files: Vec<(String, String)> = Vec::new();
    assert_eq!(resolve_import("./a", "/", &files), None);
    assert_eq!(resolve_import("pkg", "/", &files), Some(ResolveResult::External("pkg".to_string())));
}
