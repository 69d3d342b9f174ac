//! Syntax trees of TypeScript and JavaScript sources, parsed with
//! `tree-sitter` and held as plain values: each node's kind, its field name
//! under its parent, its parent, its children and the characters it spans.
use vstd::prelude::*;
use tree_sitter::Parser;
use crate::text::{chars_of, owned, str_eq};

verus! {

/// The grammars a source file can be parsed with.
#[derive(Clone, Copy, Debug, PartialEq, Eq, Structural)]
pub enum SourceLanguage {
    TypeScript,
    Tsx,
    JavaScript,
}

/// The grammar a file extension names: `ts`, `tsx`, or `js` and `jsx`
/// alike.
pub open spec fn language_named(ext: Seq<char>) -> Option<SourceLanguage> {
    if ext == "ts"@ {
        Some(SourceLanguage::TypeScript)
    } else if ext == "tsx"@ {
        Some(SourceLanguage::Tsx)
    } else if ext == "js"@ || ext == "jsx"@ {
        Some(SourceLanguage::JavaScript)
    } else {
        None
    }
}

/// The message for an extension no grammar is known for.
pub open spec fn unsupported_message(ext: Seq<char>) -> Seq<char> {
    "unsupported file extension: ."@ + ext
}

/// The grammar for a file extension, or an error naming it.
pub fn language_for_extension(ext: &str) -> (r: Result<SourceLanguage, String>)
    ensures
        match language_named(ext@) {
            Some(l) => r == Ok::<SourceLanguage, String>(l),
            None => r matches Err(m) && m@ == unsupported_message(ext@),
        },
{
    if str_eq(ext, "ts") {
        Ok(SourceLanguage::TypeScript)
    } else if str_eq(ext, "tsx") {
        Ok(SourceLanguage::Tsx)
    } else if str_eq(ext, "js") || str_eq(ext, "jsx") {
        Ok(SourceLanguage::JavaScript)
    } else {
        let mut m = owned("unsupported file extension: .");
        m.append(ext);
        Err(m)
    }
}

/// The number of bytes UTF-8 takes for a character.
pub open spec fn utf8_len(c: char) -> nat {
    if (c as u32) < 0x80 {
        1
    } else if (c as u32) < 0x800 {
        2
    } else if (c as u32) < 0x10000 {
        3
    } else {
        4
    }
}

/// The number of bytes UTF-8 takes for the first `k` characters of `s`.
pub open spec fn byte_offset(s: Seq<char>, k: int) -> nat
    decreases k,
{
    if k <= 0 {
        0
    } else {
        byte_offset(s, k - 1) + utf8_len(s[k - 1])
    }
}

/// Byte offsets grow with the number of characters.
pub proof fn lemma_byte_offset_increasing(s: Seq<char>, k: int, l: int)
    requires
        0 <= k < l,
    ensures
        byte_offset(s, k) < byte_offset(s, l),
    decreases l - k,
{
    if l - 1 > k {
        lemma_byte_offset_increasing(s, k, l - 1);
    }
}

/// The number of bytes UTF-8 takes for `c`.
fn char_utf8_len(c: char) -> (n: usize)
    ensures
        n == utf8_len(c),
{
    let v = c as u32;
    if v < 0x80 {
        1
    } else if v < 0x800 {
        2
    } else if v < 0x10000 {
        3
    } else {
        4
    }
}

/// The byte offset of each character boundary of `s`, from the start to
/// the end; `None` if the last does not fit in a `usize`.
fn boundary_offsets(s: &Vec<char>) -> (r: Option<Vec<usize>>)
    ensures
        r matches Some(v) ==> v@.len() == s@.len() + 1 && forall|k: int| 0 <= k <= s@.len() ==> v@[k] == byte_offset(s@, k),
        r is None <==> byte_offset(s@, s@.len() as int) > usize::MAX,
{
    let mut v: Vec<usize> = Vec::new();
    v.push(0);
    let mut total: usize = 0;
    let mut k: usize = 0;
    while k < s.len()
        invariant
            k <= s@.len(),
            v@.len() == k + 1,
            total == byte_offset(s@, k as int),
            forall|j: int| 0 <= j <= k ==> v@[j] == byte_offset(s@, j),
        decreases s.len() - k,
    {
        match total.checked_add(char_utf8_len(s[k])) {
            Some(t) => {
                total = t;
            },
            None => {
                proof {
                    if k + 1 < s@.len() {
                        lemma_byte_offset_increasing(s@, k + 1, s@.len() as int);
                    }
                }
                return None;
            },
        }
        v.push(total);
        k = k + 1;
    }
    Some(v)
}

/// The character whose boundary is at byte `b` of `s`, if there is one.
fn char_at_byte(offsets: &Vec<usize>, Ghost(s): Ghost<Seq<char>>, b: usize) -> (r: Option<usize>)
    requires
        offsets@.len() == s.len() + 1,
        forall|k: int| 0 <= k <= s.len() ==> offsets@[k] == byte_offset(s, k),
    ensures
        r matches Some(k) ==> k <= s.len() && byte_offset(s, k as int) == b,
        r is None ==> forall|k: int| 0 <= k <= s.len() ==> byte_offset(s, k) != b,
{
    let mut lo: usize = 0;
    let mut hi: usize = offsets.len();
    while lo < hi
        invariant
            offsets@.len() == s.len() + 1,
            forall|k: int| 0 <= k <= s.len() ==> offsets@[k] == byte_offset(s, k),
            lo <= hi <= offsets@.len(),
            forall|k: int| 0 <= k < lo ==> byte_offset(s, k) < b,
            forall|k: int| hi <= k <= s.len() ==> byte_offset(s, k) > b,
        decreases hi - lo,
    {
        let mid = lo + (hi - lo) / 2;
        let o = offsets[mid];
        if o == b {
            return Some(mid);
        } else if o < b {
            proof {
                assert forall|k: int| 0 <= k < mid + 1 implies byte_offset(s, k) < b by {
                    if k < mid {
                        lemma_byte_offset_increasing(s, k, mid as int);
                    }
                }
            }
            lo = mid + 1;
        } else {
            proof {
                assert forall|k: int| mid <= k <= s.len() implies byte_offset(s, k) > b by {
                    if k > mid {
                        lemma_byte_offset_increasing(s, mid as int, k);
                    }
                }
            }
            hi = mid;
        }
    }
    None
}

/// A node of a syntax tree.
pub struct SyntaxNode {
    /// The node's type, such as `function_declaration` or `identifier`.
    pub kind: String,
    /// The field under which its parent holds it, if any.
    pub field: Option<String>,
    /// Its parent; none for the root.
    pub parent: Option<usize>,
    /// The first character it spans.
    pub start: usize,
    /// The character after the last it spans.
    pub end: usize,
    /// The line it starts on, counted from zero.
    pub row: usize,
}

/// A syntax tree: its nodes in the order a depth-first walk meets them,
/// with the root first, and the children of each node in order.
pub struct SyntaxTree {
    pub nodes: Vec<SyntaxNode>,
    pub children: Vec<Vec<usize>>,
    /// Whether the parser met a syntax error anywhere.
    pub has_error: bool,
}

impl SyntaxTree {
    /// A tree over a text of `len` characters: every parent comes before
    /// its child, every child after its parent, and every node spans
    /// characters of the text.
    pub open spec fn wf(&self, len: nat) -> bool {
        &&& self.children@.len() == self.nodes@.len()
        &&& forall|i: int| 0 <= i < self.nodes@.len() ==> ((#[trigger] self.nodes@[i]).parent matches Some(p) ==> p < i)
        &&& forall|i: int| 0 <= i < self.nodes@.len() ==> (#[trigger] self.nodes@[i]).start <= self.nodes@[i].end <= len && self.nodes@[i].row < usize::MAX
        &&& forall|i: int, k: int| 0 <= i < self.children@.len() && 0 <= k < self.children@[i]@.len() ==> i < #[trigger] self.children@[i]@[k] < self.nodes@.len()
    }

    /// The nodes come depth first: every node between a node and one of
    /// its children hangs below that node. Each node's children come in
    /// increasing order, and a node lists a child exactly when the child
    /// names it as its parent.
    pub open spec fn ordered(&self) -> bool {
        &&& forall|p: int, a: int, b: int| 0 <= p < self.children@.len() && 0 <= a < b < self.children@[p]@.len() ==> #[trigger] self.children@[p]@[a] < #[trigger] self.children@[p]@[b]
        &&& forall|p: int, c: int|
            #![trigger self.children@[p]@.contains(c as usize)]
            #![trigger self.children@[p], self.nodes@[c]]
            0 <= p < self.children@.len() && 0 <= c < self.nodes@.len() ==> (self.children@[p]@.contains(c as usize) <==> self.nodes@[c].parent == Some(p as usize))
        &&& forall|j: int, k: int|
            #![trigger self.nodes@[j], self.nodes@[k]]
            0 <= k < j < self.nodes@.len() && self.nodes@[j].parent is Some && self.nodes@[j].parent.unwrap() < k ==> self.nodes@[k].parent is Some && self.nodes@[j].parent.unwrap() <= self.nodes@[k].parent.unwrap()
    }
}

/// The character of `s` whose boundary lies at byte `b`, if there is one.
pub open spec fn char_at(s: Seq<char>, b: int) -> Option<int> {
    if exists|k: int| 0 <= k <= s.len() && byte_offset(s, k) == b {
        Some(choose|k: int| 0 <= k <= s.len() && byte_offset(s, k) == b)
    } else {
        None
    }
}

/// The boundary at a byte is the one `char_at` names.
proof fn lemma_char_at(s: Seq<char>, k: int)
    requires
        0 <= k <= s.len(),
    ensures
        char_at(s, byte_offset(s, k) as int) == Some(k),
{
    let j = choose|j: int| 0 <= j <= s.len() && byte_offset(s, j) == byte_offset(s, k);
    if j < k {
        lemma_byte_offset_increasing(s, j, k);
    } else if k < j {
        lemma_byte_offset_increasing(s, k, j);
    }
}

/// A node as a walk of a tree-sitter tree reports it: its kind, the field
/// under which its parent holds it, its depth below the root, its first
/// byte, the byte after its last, and the row it starts on.
pub type WalkedNode = (String, Option<String>, usize, usize, usize, usize);

/// What a walk reports of a node, as plain values.
pub type WalkedView = (Seq<char>, Option<Seq<char>>, usize, usize, usize, usize);

/// The outcome of parsing and walking, as plain values: the grammar's
/// error, no tree, or whether the tree holds a syntax error and its nodes.
pub open spec fn walk_view(r: Result<Option<(bool, Vec<WalkedNode>)>, String>) -> Result<Option<(bool, Seq<WalkedView>)>, Seq<char>> {
    match r {
        Ok(Some((e, v))) => Ok(Some((e, v.deep_view()))),
        Ok(None) => Ok(None),
        Err(m) => Err(m@),
    }
}

/// What parsing `text` with the TypeScript grammar and walking the tree
/// gives.
pub uninterp spec fn typescript_walk(text: Seq<char>) -> Result<Option<(bool, Seq<(Seq<char>, Option<Seq<char>>, usize, usize, usize, usize)>)>, Seq<char>>;

/// What parsing `text` with the TSX grammar and walking the tree gives.
pub uninterp spec fn tsx_walk(text: Seq<char>) -> Result<Option<(bool, Seq<(Seq<char>, Option<Seq<char>>, usize, usize, usize, usize)>)>, Seq<char>>;

/// What parsing `text` with the JavaScript grammar and walking the tree
/// gives.
pub uninterp spec fn javascript_walk(text: Seq<char>) -> Result<Option<(bool, Seq<(Seq<char>, Option<Seq<char>>, usize, usize, usize, usize)>)>, Seq<char>>;

/// Parses `text` with `tree_sitter_typescript::LANGUAGE_TYPESCRIPT`
/// (`Parser::set_language`, then `Parser::parse` with no earlier tree) and
/// reports every node of the tree in the order of its descendant index
/// (`TreeCursor::goto_descendant`; depth first, root first): its kind, its
/// field name, its depth (`TreeCursor::depth`), its byte range and its
/// start row, with whether the root `has_error`. The error is the
/// `LanguageError`'s message; `None` is the parser giving no tree. The
/// contract names the outcome as a function of the text alone and does not
/// say which tree the grammar builds.
#[verifier::external_body]
fn typescript_nodes(text: &str) -> (r: Result<Option<(bool, Vec<WalkedNode>)>, String>)
    ensures
        walk_view(r) == typescript_walk(text@),
{
    let mut parser = Parser::new();
    parser.set_language(&tree_sitter_typescript::LANGUAGE_TYPESCRIPT.into()).map_err(|e| e.to_string())?;
    let tree = match parser.parse(text, None) { Some(t) => t, None => return Ok(None) };
    let mut cursor = tree.walk();
    let mut nodes = Vec::new();
    for i in 0..tree.root_node().descendant_count() {
        cursor.goto_descendant(i);
        let n = cursor.node();
        nodes.push((n.kind().to_string(), cursor.field_name().map(String::from), cursor.depth() as usize, n.start_byte(), n.end_byte(), n.start_position().row));
    }
    Ok(Some((tree.root_node().has_error(), nodes)))
}

/// As `typescript_nodes`, with `tree_sitter_typescript::LANGUAGE_TSX`.
#[verifier::external_body]
fn tsx_nodes(text: &str) -> (r: Result<Option<(bool, Vec<WalkedNode>)>, String>)
    ensures
        walk_view(r) == tsx_walk(text@),
{
    let mut parser = Parser::new();
    parser.set_language(&tree_sitter_typescript::LANGUAGE_TSX.into()).map_err(|e| e.to_string())?;
    let tree = match parser.parse(text, None) { Some(t) => t, None => return Ok(None) };
    let mut cursor = tree.walk();
    let mut nodes = Vec::new();
    for i in 0..tree.root_node().descendant_count() {
        cursor.goto_descendant(i);
        let n = cursor.node();
        nodes.push((n.kind().to_string(), cursor.field_name().map(String::from), cursor.depth() as usize, n.start_byte(), n.end_byte(), n.start_position().row));
    }
    Ok(Some((tree.root_node().has_error(), nodes)))
}

/// As `typescript_nodes`, with `tree_sitter_javascript::LANGUAGE`.
#[verifier::external_body]
fn javascript_nodes(text: &str) -> (r: Result<Option<(bool, Vec<WalkedNode>)>, String>)
    ensures
        walk_view(r) == javascript_walk(text@),
{
    let mut parser = Parser::new();
    parser.set_language(&tree_sitter_javascript::LANGUAGE.into()).map_err(|e| e.to_string())?;
    let tree = match parser.parse(text, None) { Some(t) => t, None => return Ok(None) };
    let mut cursor = tree.walk();
    let mut nodes = Vec::new();
    for i in 0..tree.root_node().descendant_count() {
        cursor.goto_descendant(i);
        let n = cursor.node();
        nodes.push((n.kind().to_string(), cursor.field_name().map(String::from), cursor.depth() as usize, n.start_byte(), n.end_byte(), n.start_position().row));
    }
    Ok(Some((tree.root_node().has_error(), nodes)))
}

/// What parsing `text` in `language` and walking the tree gives.
pub open spec fn walk_of(language: SourceLanguage, text: Seq<char>) -> Result<Option<(bool, Seq<WalkedView>)>, Seq<char>> {
    match language {
        SourceLanguage::TypeScript => typescript_walk(text),
        SourceLanguage::Tsx => tsx_walk(text),
        SourceLanguage::JavaScript => javascript_walk(text),
    }
}

/// The depths of a depth-first walk of one tree: the root first at depth
/// zero, every later node at least one deep and at most one deeper than
/// the node before it.
pub open spec fn depths_ok(walk: Seq<WalkedView>) -> bool {
    &&& walk.len() >= 1
    &&& walk[0].2 == 0
    &&& forall|j: int| 1 <= j < walk.len() ==> 1 <= #[trigger] walk[j].2 <= walk[j - 1].2 + 1
}

/// The last of the first `j` nodes of a walk at depth `d`; -1 if none is.
pub open spec fn last_at_depth(walk: Seq<WalkedView>, j: int, d: int) -> int
    decreases j,
{
    if j <= 0 {
        -1
    } else if walk[j - 1].2 == d {
        j - 1
    } else {
        last_at_depth(walk, j - 1, d)
    }
}

/// The parent of node `j` of a walk: the last node before it one level up.
pub open spec fn walk_parent(walk: Seq<WalkedView>, j: int) -> Option<int> {
    let p = last_at_depth(walk, j, walk[j].2 - 1);
    if j > 0 && p >= 0 {
        Some(p)
    } else {
        None
    }
}

/// The children of node `p` among the first `j` nodes of a walk, in walk
/// order.
pub open spec fn walk_children(walk: Seq<WalkedView>, p: int, j: int) -> Seq<usize>
    decreases j,
{
    if j <= 0 {
        Seq::empty()
    } else if walk_parent(walk, j - 1) == Some(p) {
        walk_children(walk, p, j - 1).push((j - 1) as usize)
    } else {
        walk_children(walk, p, j - 1)
    }
}

/// Whether a walked node can be read over the characters of `s`: both
/// ends of its byte range fall on character boundaries, in order, and its
/// row has a next.
pub open spec fn walked_node_fits(t: WalkedView, s: Seq<char>) -> bool {
    match (char_at(s, t.3 as int), char_at(s, t.4 as int)) {
        (Some(a), Some(b)) => a <= b && t.5 < usize::MAX,
        _ => false,
    }
}

/// Whether a walk can be read as a syntax tree over `s`: the text's bytes
/// can be counted in a `usize`, the depths are those of a depth-first
/// walk, and every node fits the text.
pub open spec fn walk_fits(walk: Seq<WalkedView>, s: Seq<char>) -> bool {
    &&& byte_offset(s, s.len() as int) <= usize::MAX
    &&& depths_ok(walk)
    &&& forall|i: int| 0 <= i < walk.len() ==> walked_node_fits(#[trigger] walk[i], s)
}

/// An optional index as an integer.
pub open spec fn opt_int(o: Option<usize>) -> Option<int> {
    match o {
        Some(p) => Some(p as int),
        None => None,
    }
}

/// `n` is the walked node `t`, held by `parent`, its byte range turned
/// into characters of `s`.
pub open spec fn node_is(n: SyntaxNode, t: WalkedView, parent: Option<int>, s: Seq<char>) -> bool {
    &&& n.kind@ == t.0
    &&& n.field.deep_view() == t.1
    &&& opt_int(n.parent) == parent
    &&& char_at(s, t.3 as int) == Some(n.start as int)
    &&& char_at(s, t.4 as int) == Some(n.end as int)
    &&& n.row == t.5
}

/// `t` is the walk read as a tree over `s`: node for node, each with the
/// parent its depth gives, and each node's children in walk order.
pub open spec fn tree_is(t: SyntaxTree, has_error: bool, walk: Seq<WalkedView>, s: Seq<char>) -> bool {
    &&& t.has_error == has_error
    &&& t.nodes@.len() == walk.len()
    &&& t.children@.len() == walk.len()
    &&& forall|i: int| 0 <= i < walk.len() ==> node_is(#[trigger] t.nodes@[i], walk[i], walk_parent(walk, i), s)
    &&& forall|p: int| 0 <= p < walk.len() ==> (#[trigger] t.children@[p])@ == walk_children(walk, p, walk.len() as int)
}

/// The last node at a depth comes before `j`.
proof fn lemma_last_at_depth(walk: Seq<WalkedView>, j: int, d: int)
    ensures
        -1 <= last_at_depth(walk, j, d) < if j > 0 { j } else { 0 },
        last_at_depth(walk, j, d) >= 0 ==> walk[last_at_depth(walk, j, d)].2 == d,
    decreases j,
{
    if j > 0 {
        lemma_last_at_depth(walk, j - 1, d);
    }
}

/// No node among the first `j` has a parent at `j` or later.
proof fn lemma_no_children_yet(walk: Seq<WalkedView>, p: int, j: int)
    requires
        j <= p,
    ensures
        walk_children(walk, p, j).len() == 0,
    decreases j,
{
    if j > 0 {
        lemma_last_at_depth(walk, j - 1, walk[j - 1].2 - 1);
        lemma_no_children_yet(walk, p, j - 1);
    }
}

/// The children of `p` among the first `j` nodes come in increasing order
/// and are exactly the nodes whose parent is `p`.
proof fn lemma_walk_children(walk: Seq<WalkedView>, p: int, j: int)
    requires
        0 <= j <= usize::MAX,
    ensures
        forall|a: int, b: int| 0 <= a < b < walk_children(walk, p, j).len() ==> walk_children(walk, p, j)[a] < walk_children(walk, p, j)[b],
        forall|k: int| 0 <= k < walk_children(walk, p, j).len() ==> walk_children(walk, p, j)[k] < j && walk_parent(walk, walk_children(walk, p, j)[k] as int) == Some(p),
        forall|c: int| 0 <= c < j && walk_parent(walk, c) == Some(p) ==> walk_children(walk, p, j).contains(c as usize),
    decreases j,
{
    if j > 0 {
        lemma_walk_children(walk, p, j - 1);
        let prev = walk_children(walk, p, j - 1);
        if walk_parent(walk, j - 1) == Some(p) {
            assert(walk_children(walk, p, j) == prev.push((j - 1) as usize));
            assert forall|c: int| 0 <= c < j && walk_parent(walk, c) == Some(p) implies walk_children(walk, p, j).contains(c as usize) by {
                if c < j - 1 {
                    let k = choose|k: int| 0 <= k < prev.len() && prev[k] == c as usize;
                    assert(walk_children(walk, p, j)[k] == c as usize);
                } else {
                    assert(walk_children(walk, p, j)[prev.len() as int] == c as usize);
                }
            }
        }
    }
}

/// One step of a walk: node `j`, at depth `d` under `parent`, joins the
/// children of its parent and becomes the last node at its depth.
proof fn lemma_walk_step(walk: Seq<WalkedView>, j: int, d: int, parent: int)
    requires
        0 < j < walk.len(),
        walk[j].2 == d,
        d >= 1,
        parent == last_at_depth(walk, j, d - 1),
        parent >= 0,
    ensures
        walk_parent(walk, j) == Some(parent),
        forall|p: int| p != parent ==> #[trigger] walk_children(walk, p, j + 1) == walk_children(walk, p, j),
        walk_children(walk, parent, j + 1) == walk_children(walk, parent, j).push(j as usize),
        forall|k: int| k != d ==> #[trigger] last_at_depth(walk, j + 1, k) == last_at_depth(walk, j, k),
        last_at_depth(walk, j + 1, d) == j,
{
}

/// Between a node at depth at most `v` and a later deeper node, the walk
/// passes depth `v`.
proof fn lemma_depth_passes(walk: Seq<WalkedView>, k: int, j: int, v: int)
    requires
        depths_ok(walk),
        0 <= k < j < walk.len(),
        walk[k].2 <= v < walk[j].2,
    ensures
        last_at_depth(walk, j, v) >= k,
    decreases j - k,
{
    assert(1 <= walk[j].2 <= walk[j - 1].2 + 1);
    if walk[j - 1].2 != v {
        lemma_depth_passes(walk, k, j - 1, v);
    }
}

/// Every node between a node and one of its children hangs below it.
proof fn lemma_between_descends(walk: Seq<WalkedView>, j: int, k: int)
    requires
        depths_ok(walk),
        0 <= k < j < walk.len(),
        walk_parent(walk, j) is Some,
        walk_parent(walk, j).unwrap() < k,
    ensures
        walk_parent(walk, k) is Some,
        walk_parent(walk, j).unwrap() <= walk_parent(walk, k).unwrap(),
{
    let p = walk_parent(walk, j).unwrap();
    let v = walk[j].2 - 1;
    lemma_last_at_depth(walk, j, v);
    if walk[k].2 <= v {
        lemma_depth_passes(walk, k, j, v);
    }
    lemma_depth_passes(walk, p, k, walk[k].2 - 1);
}

/// A tree read from a walk that fits the text is well formed over it, and
/// its children lists are ordered and agree with the parents.
proof fn lemma_tree_is_wf(t: SyntaxTree, has_error: bool, walk: Seq<WalkedView>, s: Seq<char>)
    requires
        tree_is(t, has_error, walk, s),
        walk_fits(walk, s),
        walk.len() <= usize::MAX,
    ensures
        t.wf(s.len()),
        t.ordered(),
{
    let n = walk.len() as int;
    assert forall|i: int| 0 <= i < n implies ((#[trigger] t.nodes@[i]).parent matches Some(p) ==> p < i) by {
        lemma_last_at_depth(walk, i, walk[i].2 - 1);
    }
    assert forall|i: int| 0 <= i < n implies (#[trigger] t.nodes@[i]).start <= t.nodes@[i].end <= s.len() && t.nodes@[i].row < usize::MAX by {
        assert(walked_node_fits(walk[i], s));
    }
    assert forall|i: int, k: int| 0 <= i < n && 0 <= k < t.children@[i]@.len() implies i < #[trigger] t.children@[i]@[k] < n by {
        lemma_walk_children(walk, i, n);
        let c = t.children@[i]@[k] as int;
        lemma_last_at_depth(walk, c, walk[c].2 - 1);
    }
    assert forall|p: int, a: int, b: int| 0 <= p < n && 0 <= a < b < t.children@[p]@.len() implies t.children@[p]@[a] < t.children@[p]@[b] by {
        lemma_walk_children(walk, p, n);
    }
    assert forall|j: int, k: int| 0 <= k < j < n && t.nodes@[j].parent is Some && t.nodes@[j].parent.unwrap() < k implies t.nodes@[k].parent is Some && t.nodes@[j].parent.unwrap() <= t.nodes@[k].parent.unwrap() by {
        assert(node_is(t.nodes@[j], walk[j], walk_parent(walk, j), s));
        assert(node_is(t.nodes@[k], walk[k], walk_parent(walk, k), s));
        lemma_between_descends(walk, j, k);
    }
    assert forall|p: int, c: int| 0 <= p < n && 0 <= c < n implies (t.children@[p]@.contains(c as usize) <==> t.nodes@[c].parent == Some(p as usize)) by {
        lemma_walk_children(walk, p, n);
        assert(node_is(t.nodes@[c], walk[c], walk_parent(walk, c), s));
        if t.children@[p]@.contains(c as usize) {
            let k = choose|k: int| 0 <= k < t.children@[p]@.len() && t.children@[p]@[k] == c as usize;
            assert(walk_parent(walk, t.children@[p]@[k] as int) == Some(p));
        }
    }
}

/// The node a walk reports, held by `parent`, its byte range turned into
/// characters of `s`; `None` if it does not fit the text.
fn node_from_walk(t: &WalkedNode, parent: Option<usize>, offsets: &Vec<usize>, Ghost(s): Ghost<Seq<char>>) -> (r: Option<SyntaxNode>)
    requires
        offsets@.len() == s.len() + 1,
        forall|k: int| 0 <= k <= s.len() ==> offsets@[k] == byte_offset(s, k),
    ensures
        r is Some <==> walked_node_fits(t.deep_view(), s),
        r matches Some(n) ==> node_is(n, t.deep_view(), opt_int(parent), s) && n.parent == parent,
{
    let start = match char_at_byte(offsets, Ghost(s), t.3) {
        Some(k) => {
            proof {
                lemma_char_at(s, k as int);
            }
            k
        },
        None => {
            return None;
        },
    };
    let end = match char_at_byte(offsets, Ghost(s), t.4) {
        Some(k) => {
            proof {
                lemma_char_at(s, k as int);
            }
            k
        },
        None => {
            return None;
        },
    };
    if start <= end && t.5 < usize::MAX {
        let field = match &t.1 {
            Some(f) => Some(f.clone()),
            None => None,
        };
        Some(SyntaxNode { kind: t.0.clone(), field, parent, start, end, row: t.5 })
    } else {
        None
    }
}

/// The syntax tree over `source` that a walk of its parse gives: node for
/// node in walk order, each node's parent the last node before it one
/// level up, its children in walk order, and its byte range turned into
/// characters. `None` exactly when the walk does not fit the text (see
/// `walk_fits`).
pub fn tree_from_walk(source: &str, has_error: bool, walk: &Vec<WalkedNode>) -> (r: Option<SyntaxTree>)
    ensures
        r is Some <==> walk_fits(walk.deep_view(), source@),
        r matches Some(t) ==> tree_is(t, has_error, walk.deep_view(), source@) && t.wf(source@.len()) && t.ordered(),
{
    let ghost s = source@;
    let ghost raw = walk.deep_view();
    let chars = chars_of(source);
    let offsets = match boundary_offsets(&chars) {
        Some(v) => v,
        None => {
            return None;
        },
    };
    let n = walk.len();
    if n == 0 || walk[0].2 != 0 {
        return None;
    }
    let root = match node_from_walk(&walk[0], None, &offsets, Ghost(s)) {
        Some(x) => x,
        None => {
            return None;
        },
    };
    let mut nodes: Vec<SyntaxNode> = Vec::new();
    let mut children: Vec<Vec<usize>> = Vec::new();
    let mut stack: Vec<usize> = Vec::new();
    nodes.push(root);
    children.push(Vec::new());
    stack.push(0);
    assert(walk_children(raw, 0, 1) =~= Seq::<usize>::empty()) by {
        reveal_with_fuel(walk_children, 2);
    }
    let mut j: usize = 1;
    while j < n
        invariant
            s == source@,
            raw == walk.deep_view(),
            n == walk@.len() == raw.len(),
            1 <= j <= n,
            offsets@.len() == s.len() + 1,
            forall|k: int| 0 <= k <= s.len() ==> offsets@[k] == byte_offset(s, k),
            byte_offset(s, s.len() as int) <= usize::MAX,
            raw[0].2 == 0,
            forall|i: int| 1 <= i < j ==> 1 <= #[trigger] raw[i].2 <= raw[i - 1].2 + 1,
            forall|i: int| 0 <= i < j ==> walked_node_fits(#[trigger] raw[i], s),
            nodes@.len() == j,
            children@.len() == j,
            forall|i: int| 0 <= i < j ==> node_is(#[trigger] nodes@[i], raw[i], walk_parent(raw, i), s),
            forall|p: int| 0 <= p < j ==> (#[trigger] children@[p])@ == walk_children(raw, p, j as int),
            stack@.len() == raw[j - 1].2 + 1,
            forall|k: int| 0 <= k < stack@.len() ==> #[trigger] stack@[k] == last_at_depth(raw, j as int, k) && stack@[k] < j,
        decreases n - j,
    {
        let d = walk[j].2;
        assert(raw[j as int] == walk@[j as int].deep_view());
        if d == 0 || d > stack.len() {
            assert(!depths_ok(raw)) by {
                if depths_ok(raw) {
                    assert(1 <= raw[j as int].2 <= raw[j - 1].2 + 1);
                }
            }
            return None;
        }
        let parent = stack[d - 1];
        let node = match node_from_walk(&walk[j], Some(parent), &offsets, Ghost(s)) {
            Some(x) => x,
            None => {
                assert(!walked_node_fits(raw[j as int], s));
                return None;
            },
        };
        proof {
            lemma_no_children_yet(raw, j as int, j as int);
            lemma_walk_step(raw, j as int, d as int, parent as int);
        }
        let ghost old_children = children@;
        let ghost old_stack = stack@;
        nodes.push(node);
        children.push(Vec::new());
        let mut list: Vec<usize> = Vec::new();
        children.set_and_swap(parent, &mut list);
        list.push(j);
        children.set_and_swap(parent, &mut list);
        stack.truncate(d);
        stack.push(j);
        proof {
            assert forall|p: int| 0 <= p < j + 1 implies (#[trigger] children@[p])@ == walk_children(raw, p, j + 1) by {
                if p == j {
                    assert(walk_children(raw, p, j as int) =~= Seq::<usize>::empty());
                } else if p != parent {
                    assert(children@[p] == old_children[p]);
                }
            }
            assert forall|k: int| 0 <= k < stack@.len() implies #[trigger] stack@[k] == last_at_depth(raw, j + 1, k) && stack@[k] < j + 1 by {
                if k < d {
                    assert(stack@[k] == old_stack[k]);
                }
            }
        }
        j = j + 1;
    }
    let t = SyntaxTree { nodes, children, has_error };
    proof {
        lemma_tree_is_wf(t, has_error, raw, s);
    }
    Some(t)
}

/// The extension of a path, as `Path::extension` gives it.
pub uninterp spec fn path_extension(p: Seq<char>) -> Option<Seq<char>>;

/// `Path::extension` of `p`, as text.
#[verifier::external_body]
pub(crate) fn extension_of(p: &str) -> (r: Option<String>)
    ensures
        r matches Some(e) ==> path_extension(p@) == Some(e@),
        r is None ==> path_extension(p@) is None,
{
    std::path::Path::new(p).extension().map(|e| e.to_string_lossy().to_string())
}

/// The extension of the file at `p`, empty when it has none.
pub open spec fn extension_or_empty(p: Seq<char>) -> Seq<char> {
    match path_extension(p) {
        Some(e) => e,
        None => Seq::empty(),
    }
}

/// The grammar to parse the file at `path` with, by its extension, or an
/// error naming the extension.
pub fn language_for_path(path: &str) -> (r: Result<SourceLanguage, String>)
    ensures
        match language_named(extension_or_empty(path@)) {
            Some(l) => r == Ok::<SourceLanguage, String>(l),
            None => r matches Err(m) && m@ == unsupported_message(extension_or_empty(path@)),
        },
{
    match extension_of(path) {
        Some(e) => language_for_extension(e.as_str()),
        None => {
            proof {
                reveal_strlit("");
                assert(""@ =~= Seq::<char>::empty());
            }
            language_for_extension("")
        },
    }
}

/// The syntax tree of `source` in the given grammar. It fails with the
/// grammar's error when the grammar does not suit this tree-sitter, when
/// the parser gives no tree, or when the tree cannot be read over the

/// What `parse_source` gives for `source` in `language`: the grammar's
/// error, an error when the parser gives no tree, and otherwise the tree
/// read from the walk of its parse, which succeeds exactly when the walk
/// fits the text.
pub open spec fn parsed(r: Result<SyntaxTree, String>, language: SourceLanguage, source: Seq<char>) -> bool {
    match walk_of(language, source) {
        Err(m) => r matches Err(e) && e@ == m,
        Ok(None) => r matches Err(e) && e@ == "tree-sitter parse returned None"@,
        Ok(Some((has_error, walk))) => {
            &&& (r is Ok <==> walk_fits(walk, source))
            &&& (r matches Ok(t) ==> tree_is(t, has_error, walk, source))
            &&& (r matches Err(e) ==> e@ == "tree-sitter node ranges do not fit the source text"@)
        },
    }
}

/// The syntax tree of `source` in the given grammar, syntax errors and
/// all. It fails with the grammar's error when the grammar does not suit
/// this tree-sitter, when the parser gives no tree, or when the tree cannot
/// be read over the source's characters.
pub fn parse_source(source: &str, language: SourceLanguage) -> (r: Result<SyntaxTree, String>)
    ensures
        parsed(r, language, source@),
        r matches Ok(t) ==> t.wf(source@.len()) && t.ordered(),
{
    let walked = match language {
        SourceLanguage::TypeScript => typescript_nodes(source),
        SourceLanguage::Tsx => tsx_nodes(source),
        SourceLanguage::JavaScript => javascript_nodes(source),
    };
    match walked {
        Err(m) => Err(m),
        Ok(None) => Err(owned("tree-sitter parse returned None")),
        Ok(Some((has_error, walk))) => match tree_from_walk(source, has_error, &walk) {
            Some(t) => Ok(t),
            None => Err(owned("tree-sitter node ranges do not fit the source text")),
        },
    }
}

/// The syntax tree of the file at `path` holding `source`, in the grammar
/// its extension names; the error of `language_for_path` or of
/// `parse_source` otherwise.
pub fn parse_file(path: &str, source: &str) -> (r: Result<SyntaxTree, String>)
    ensures
        match language_named(extension_or_empty(path@)) {
            None => r matches Err(m) && m@ == unsupported_message(extension_or_empty(path@)),
            Some(l) => parsed(r, l, source@),
        },
        r matches Ok(t) ==> t.wf(source@.len()) && t.ordered(),
{
    let language = language_for_path(path)?;
    parse_source(source, language)
}

} // verus!
