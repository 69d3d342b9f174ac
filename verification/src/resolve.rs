//! Resolution of import specifiers to source files. A relative specifier
//! names a path beside the importing file; it resolves to the first of a
//! fixed list of candidate paths that is a file. Anything else, and a
//! relative specifier with no such file, is external.
use vstd::prelude::*;
use crate::extract::text_view;
use crate::text::{has_prefix, owned, starts_with_str, str_eq};

verus! {

/// Where a specifier leads.
#[derive(Debug, PartialEq)]
pub enum ResolveResult {
    /// A source file of the project.
    Resolved(String),
    /// A package, or a path that names no file; the specifier as written.
    External(String),
}

/// A resolution as plain values: `Ok` with the file, `Err` with the
/// external specifier.
pub open spec fn resolve_view(r: ResolveResult) -> Result<Seq<char>, Seq<char>> {
    match r {
        ResolveResult::Resolved(p) => Ok(p@),
        ResolveResult::External(s) => Err(s@),
    }
}

/// The directory of a path, as `Path::parent` gives it.
pub uninterp spec fn path_parent(p: Seq<char>) -> Option<Seq<char>>;

/// A path followed by another, as `Path::join` gives it.
pub uninterp spec fn path_join(base: Seq<char>, rel: Seq<char>) -> Seq<char>;

/// `Path::parent` of `p`, as text.
#[verifier::external_body]
fn parent_of(p: &str) -> (r: Option<String>)
    ensures
        text_view(r) == path_parent(p@),
{
    std::path::Path::new(p).parent().map(|q| q.to_string_lossy().to_string())
}

/// `Path::join` of `base` and `rel`, as text.
#[verifier::external_body]
fn join_paths(base: &str, rel: &str) -> (r: String)
    ensures
        r@ == path_join(base@, rel@),
{
    std::path::Path::new(base).join(rel).to_string_lossy().to_string()
}

/// A specifier relative to the importing file: it starts with `./` or
/// `../`.
pub open spec fn is_relative(s: Seq<char>) -> bool {
    has_prefix(s, "./"@) || has_prefix(s, "../"@)
}

/// The paths a relative specifier may name, in the order they are tried:
/// the path itself, the path with each extension appended, and each index
/// file inside it as a directory.
pub open spec fn candidates_of(c: Seq<char>) -> Seq<Seq<char>> {
    seq![
        c,
        c + ".ts"@,
        c + ".tsx"@,
        c + ".js"@,
        c + ".jsx"@,
        path_join(c, "index.ts"@),
        path_join(c, "index.tsx"@),
        path_join(c, "index.js"@),
        path_join(c, "index.jsx"@),
    ]
}

/// The candidate paths for `specifier` imported from the file at
/// `importer`, or none when the importer's path has no directory.
pub open spec fn resolution_candidates(specifier: Seq<char>, importer: Seq<char>) -> Option<Seq<Seq<char>>> {
    match path_parent(importer) {
        Some(dir) => Some(candidates_of(path_join(dir, specifier))),
        None => None,
    }
}

/// Whether a specifier is relative to the importing file.
pub fn is_relative_specifier(specifier: &str) -> (r: bool)
    ensures
        r == is_relative(specifier@),
{
    starts_with_str(specifier, "./") || starts_with_str(specifier, "../")
}

/// `p` followed by `suffix`.
fn with_suffix(p: &String, suffix: &str) -> (r: String)
    ensures
        r@ == p@ + suffix@,
{
    let mut r = owned(p.as_str());
    r.append(suffix);
    r
}

/// The paths to try for `specifier` imported from the file at
/// `importer_path`, in order; `None` when that path has no directory.
pub fn candidate_paths(specifier: &str, importer_path: &str) -> (r: Option<Vec<String>>)
    ensures
        match r {
            Some(v) => resolution_candidates(specifier@, importer_path@) == Some(v@.map_values(|p: String| p@)),
            None => resolution_candidates(specifier@, importer_path@) is None,
        },
{
    let dir = match parent_of(importer_path) {
        Some(d) => d,
        None => {
            return None;
        },
    };
    let c = join_paths(dir.as_str(), specifier);
    let mut v: Vec<String> = Vec::new();
    v.push(owned(c.as_str()));
    v.push(with_suffix(&c, ".ts"));
    v.push(with_suffix(&c, ".tsx"));
    v.push(with_suffix(&c, ".js"));
    v.push(with_suffix(&c, ".jsx"));
    v.push(join_paths(c.as_str(), "index.ts"));
    v.push(join_paths(c.as_str(), "index.tsx"));
    v.push(join_paths(c.as_str(), "index.js"));
    v.push(join_paths(c.as_str(), "index.jsx"));
    assert(v@.map_values(|p: String| p@) =~= candidates_of(c@));
    Some(v)
}

/// What `files` records for path `p`: the path a file there is known
/// by, from the first entry for `p`.
pub open spec fn file_at(files: Seq<(Seq<char>, Seq<char>)>, p: Seq<char>) -> Option<Seq<char>>
    decreases files.len(),
{
    if files.len() == 0 {
        None
    } else if files[0].0 == p {
        Some(files[0].1)
    } else {
        file_at(files.drop_first(), p)
    }
}

/// The file the first of `cands` that `files` records leads to.
pub open spec fn first_file(cands: Seq<Seq<char>>, files: Seq<(Seq<char>, Seq<char>)>) -> Option<Seq<char>>
    decreases cands.len(),
{
    if cands.len() == 0 {
        None
    } else if file_at(files, cands[0]) is Some {
        file_at(files, cands[0])
    } else {
        first_file(cands.drop_first(), files)
    }
}

/// Where `specifier`, imported from the file at `importer`, leads, given
/// the paths known to be files, each with the path to report for it: a
/// specifier that is not relative is external; a relative one leads to
/// the file of its first candidate path that is one, or is external.
pub open spec fn resolution(specifier: Seq<char>, importer: Seq<char>, files: Seq<(Seq<char>, Seq<char>)>) -> Result<Seq<char>, Seq<char>> {
    if !is_relative(specifier) {
        Err(specifier)
    } else {
        match resolution_candidates(specifier, importer) {
            Some(cands) => match first_file(cands, files) {
                Some(p) => Ok(p),
                None => Err(specifier),
            },
            None => Err(specifier),
        }
    }
}

/// The pairs of paths as plain values.
pub open spec fn pairs_view(v: Seq<(String, String)>) -> Seq<(Seq<char>, Seq<char>)> {
    v.map_values(|f: (String, String)| (f.0@, f.1@))
}

/// The path a file at `p` is reported as, if `files` records one.
fn lookup_file(files: &Vec<(String, String)>, p: &str) -> (r: Option<String>)
    ensures
        text_view(r) == file_at(pairs_view(files@), p@),
{
    let ghost all = pairs_view(files@);
    assert(all.skip(0) =~= all);
    let mut k: usize = 0;
    while k < files.len()
        invariant
            all == pairs_view(files@),
            k <= files@.len(),
            file_at(all.skip(k as int), p@) == file_at(all, p@),
        decreases files.len() - k,
    {
        assert(all.skip(k as int)[0] == (files@[k as int].0@, files@[k as int].1@));
        if str_eq(files[k].0.as_str(), p) {
            return Some(files[k].1.clone());
        }
        assert(all.skip(k as int).drop_first() =~= all.skip(k + 1));
        k = k + 1;
    }
    assert(all.skip(k as int) =~= Seq::<(Seq<char>, Seq<char>)>::empty());
    None
}

/// Resolves `specifier`, imported from the file at `importer_path`:
/// external unless it is relative; then the file of the first candidate
/// path (see `candidate_paths`) that `files` records, each entry a path
/// known to be a file and the path to report for it; external when none
/// is. The importer of a relative specifier must lie in a directory.
pub fn resolve_specifier(specifier: &str, importer_path: &str, files: &Vec<(String, String)>) -> (r: ResolveResult)
    requires
        is_relative(specifier@) ==> path_parent(importer_path@) is Some,
    ensures
        resolve_view(r) == resolution(specifier@, importer_path@, pairs_view(files@)),
{
    if !is_relative_specifier(specifier) {
        return ResolveResult::External(owned(specifier));
    }
    let cands = match candidate_paths(specifier, importer_path) {
        Some(c) => c,
        None => {
            return ResolveResult::External(owned(specifier));
        },
    };
    let ghost all = cands@.map_values(|p: String| p@);
    let ghost fs = pairs_view(files@);
    assert(all.skip(0) =~= all);
    let mut k: usize = 0;
    while k < cands.len()
        invariant
            is_relative(specifier@),
            resolution_candidates(specifier@, importer_path@) == Some(all),
            all == cands@.map_values(|p: String| p@),
            fs == pairs_view(files@),
            k <= cands@.len(),
            first_file(all.skip(k as int), fs) == first_file(all, fs),
        decreases cands.len() - k,
    {
        assert(all.skip(k as int)[0] == cands@[k as int]@);
        match lookup_file(files, cands[k].as_str()) {
            Some(p) => {
                return ResolveResult::Resolved(p);
            },
            None => {},
        }
        assert(all.skip(k as int).drop_first() =~= all.skip(k + 1));
        k = k + 1;
    }
    assert(all.skip(k as int) =~= Seq::<Seq<char>>::empty());
    ResolveResult::External(owned(specifier))
}

/// Resolves `specifier` as `resolve_specifier` does, or gives `None` when
/// it is relative and the importer's path has no directory to resolve it
/// in.
pub fn resolve_import(specifier: &str, importer_path: &str, files: &Vec<(String, String)>) -> (r: Option<ResolveResult>)
    ensures
        r is None <==> (is_relative(specifier@) && path_parent(importer_path@) is None),
        r matches Some(x) ==> resolve_view(x) == resolution(specifier@, importer_path@, pairs_view(files@)),
{
    if is_relative_specifier(specifier) {
        match parent_of(importer_path) {
            Some(_) => {},
            None => {
                return None;
            },
        }
    }
    Some(resolve_specifier(specifier, importer_path, files))
}

} // verus!
