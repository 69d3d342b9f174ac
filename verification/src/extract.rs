//! What a source file declares and uses: its symbols, the calls between
//! functions, the modules it imports and re-exports, and the reads and
//! writes of names, read off its syntax tree in depth-first order.
use vstd::prelude::*;
use crate::graph::{SymbolKind, SymbolNode};
use crate::parse::SyntaxTree;
use crate::text::{chars_of, contains_str, has_infix, owned, push_char, str_eq, trim_char, trim_matches_char};

verus! {

/// Whether a name is read or written.
#[derive(Clone, Copy, Debug, PartialEq, Eq, Structural)]
pub enum RefKind {
    Read,
    Write,
}

/// A read or a write of a name.
#[derive(Clone, Debug, PartialEq)]
pub struct ReferenceEntry {
    pub symbol_name: String,
    pub kind: RefKind,
    pub file_path: String,
    pub line: usize,
    /// The name of the function or method the reference stands in.
    pub enclosing_scope: Option<String>,
}

/// Everything extracted from one source file.
pub struct ExtractionResult {
    pub symbols: Vec<SymbolNode>,
    /// Caller and callee names.
    pub calls: Vec<(String, String)>,
    pub imports: Vec<String>,
    pub reexports: Vec<String>,
    pub references: Vec<ReferenceEntry>,
}

/// A symbol as plain values: name, kind, file, line and module.
pub open spec fn symbol_view(s: SymbolNode) -> (Seq<char>, SymbolKind, Seq<char>, usize, Seq<char>) {
    (s.name@, s.kind, s.file_path@, s.line, s.module@)
}

/// Optional text as plain values.
pub open spec fn text_view(o: Option<String>) -> Option<Seq<char>> {
    match o {
        Some(s) => Some(s@),
        None => None,
    }
}

/// A reference as plain values: name, kind, file, line and scope.
pub open spec fn reference_view(r: ReferenceEntry) -> (Seq<char>, RefKind, Seq<char>, usize, Option<Seq<char>>) {
    (r.symbol_name@, r.kind, r.file_path@, r.line, text_view(r.enclosing_scope))
}

/// A call as plain values: caller and callee names.
pub open spec fn call_view(c: (String, String)) -> (Seq<char>, Seq<char>) {
    (c.0@, c.1@)
}

/// The parts `f(0)`, ..., `f(n - 1)` one after the other.
pub open spec fn gather<A>(n: int, f: spec_fn(int) -> Seq<A>) -> Seq<A>
    decreases n,
{
    if n <= 0 {
        Seq::empty()
    } else {
        gather(n - 1, f) + f(n - 1)
    }
}

/// The type of node `i`.
pub open spec fn kind_of(t: SyntaxTree, i: int) -> Seq<char> {
    t.nodes@[i].kind@
}

/// The characters of `s` that node `i` spans.
pub open spec fn text_of(t: SyntaxTree, s: Seq<char>, i: int) -> Seq<char> {
    s.subrange(t.nodes@[i].start as int, t.nodes@[i].end as int)
}

/// The line node `i` starts on, counted from one.
pub open spec fn line_of(t: SyntaxTree, i: int) -> usize {
    (t.nodes@[i].row + 1) as usize
}

/// The children of node `i`, in order.
pub open spec fn children_of(t: SyntaxTree, i: int) -> Seq<usize> {
    t.children@[i]@
}

/// Node `c` sits under its parent in the field `f`.
pub open spec fn in_field(t: SyntaxTree, c: int, f: Seq<char>) -> bool {
    t.nodes@[c].field matches Some(g) && g@ == f
}

/// The first of `cs` that sits in the field `f`.
pub open spec fn first_in_field(t: SyntaxTree, cs: Seq<usize>, f: Seq<char>) -> Option<int>
    decreases cs.len(),
{
    if cs.len() == 0 {
        None
    } else if in_field(t, cs[0] as int, f) {
        Some(cs[0] as int)
    } else {
        first_in_field(t, cs.drop_first(), f)
    }
}

/// The child of node `i` in the field `f`: the first one there.
pub open spec fn field_child(t: SyntaxTree, i: int, f: Seq<char>) -> Option<int> {
    first_in_field(t, children_of(t, i), f)
}

/// Whether `j` is the child of node `i` in the field `f`.
pub open spec fn is_field_child(t: SyntaxTree, i: int, f: Seq<char>, j: int) -> bool {
    field_child(t, i, f) == Some(j)
}

/// The text of the child of node `i` in the field `f`.
pub open spec fn field_text(t: SyntaxTree, s: Seq<char>, i: int, f: Seq<char>) -> Option<Seq<char>> {
    match field_child(t, i, f) {
        Some(c) => Some(text_of(t, s, c)),
        None => None,
    }
}

/// A function declaration or a method definition.
pub open spec fn is_function_like(k: Seq<char>) -> bool {
    k == "function_declaration"@ || k == "method_definition"@
}

/// The nearest function declaration or method definition above node `i`.
pub open spec fn enclosing_function(t: SyntaxTree, i: int) -> Option<int>
    decreases i,
{
    if 0 <= i < t.nodes@.len() {
        match t.nodes@[i].parent {
            Some(p) => if p < i {
                if is_function_like(kind_of(t, p as int)) {
                    Some(p as int)
                } else {
                    enclosing_function(t, p as int)
                }
            } else {
                None
            },
            None => None,
        }
    } else {
        None
    }
}

/// The name node of the function or method around node `i`.
pub open spec fn enclosing_name(t: SyntaxTree, i: int) -> Option<int> {
    match enclosing_function(t, i) {
        Some(d) => field_child(t, d, "name"@),
        None => None,
    }
}

/// The name of the function or method around node `i`.
pub open spec fn enclosing_scope(t: SyntaxTree, s: Seq<char>, i: int) -> Option<Seq<char>> {
    match enclosing_name(t, i) {
        Some(n) => Some(text_of(t, s, n)),
        None => None,
    }
}

/// Text that the grammar may parse as an identifier but names no symbol.
pub open spec fn is_keyword(w: Seq<char>) -> bool {
    w == "undefined"@ || w == "null"@ || w == "true"@ || w == "false"@ || w == "this"@ || w == "super"@
}

/// Whether identifier node `i` reads a name: not a declared name, not the
/// target of an assignment, update or destructuring, not a callee, not a
/// property key, not part of an import or a parameter, and no keyword.
pub open spec fn is_read_reference(t: SyntaxTree, s: Seq<char>, i: int) -> bool {
    match t.nodes@[i].parent {
        None => false,
        Some(p) => {
            let pk = kind_of(t, p as int);
            if pk == "function_declaration"@ || pk == "class_declaration"@ || pk == "method_definition"@ || pk == "type_alias_declaration"@ {
                !is_field_child(t, p as int, "name"@, i)
            } else if pk == "variable_declarator"@ {
                !is_field_child(t, p as int, "name"@, i)
            } else if pk == "assignment_expression"@ || pk == "augmented_assignment_expression"@ {
                !is_field_child(t, p as int, "left"@, i)
            } else if pk == "update_expression"@ {
                false
            } else if pk == "object_pattern"@ || pk == "array_pattern"@ || pk == "shorthand_property_identifier_pattern"@ {
                false
            } else if pk == "pair_pattern"@ {
                false
            } else if pk == "call_expression"@ {
                !is_field_child(t, p as int, "function"@, i)
            } else if pk == "import_specifier"@ || pk == "import_clause"@ || pk == "namespace_import"@ {
                false
            } else if pk == "member_expression"@ {
                !is_field_child(t, p as int, "property"@, i)
            } else if pk == "import"@ {
                false
            } else if pk == "formal_parameters"@ || pk == "required_parameter"@ || pk == "optional_parameter"@ {
                false
            } else {
                !is_keyword(text_of(t, s, i))
            }
        },
    }
}

/// The name a call expression calls: the callee identifier, or the
/// property of a member expression such as `this.helper`.
pub open spec fn callee_name(t: SyntaxTree, s: Seq<char>, i: int) -> Option<Seq<char>> {
    match field_child(t, i, "function"@) {
        Some(f) => if kind_of(t, f) == "identifier"@ {
            Some(text_of(t, s, f))
        } else if kind_of(t, f) == "member_expression"@ {
            field_text(t, s, f, "property"@)
        } else {
            None
        },
        None => None,
    }
}

/// Whether call expression `i` is a dynamic `import(..)` or a `require(..)`.
pub open spec fn is_import_call(t: SyntaxTree, s: Seq<char>, i: int) -> bool {
    match field_child(t, i, "function"@) {
        Some(f) => kind_of(t, f) == "import"@ || (kind_of(t, f) == "identifier"@ && text_of(t, s, f) == "require"@),
        None => false,
    }
}

/// `s` without the double quotes, then the single quotes, at either end.
pub open spec fn strip_quotes_of(s: Seq<char>) -> Seq<char> {
    trim_char(trim_char(s, '"'), '\'')
}

/// A node type of a string literal.
pub open spec fn is_string_kind(k: Seq<char>) -> bool {
    has_infix(k, "string"@)
}

/// The unquoted string literal in the field `f` of node `i`.
pub open spec fn string_field(t: SyntaxTree, s: Seq<char>, i: int, f: Seq<char>) -> Option<Seq<char>> {
    match field_child(t, i, f) {
        Some(c) => if is_string_kind(kind_of(t, c)) {
            Some(strip_quotes_of(text_of(t, s, c)))
        } else {
            None
        },
        None => None,
    }
}

/// The unquoted first string literal among `cs`.
pub open spec fn first_string(t: SyntaxTree, s: Seq<char>, cs: Seq<usize>) -> Option<Seq<char>>
    decreases cs.len(),
{
    if cs.len() == 0 {
        None
    } else if is_string_kind(kind_of(t, cs[0] as int)) {
        Some(strip_quotes_of(text_of(t, s, cs[0] as int)))
    } else {
        first_string(t, s, cs.drop_first())
    }
}

/// The unquoted first string literal among the arguments of call `i`.
pub open spec fn first_string_argument(t: SyntaxTree, s: Seq<char>, i: int) -> Option<Seq<char>> {
    match field_child(t, i, "arguments"@) {
        Some(a) => first_string(t, s, children_of(t, a)),
        None => None,
    }
}

/// An optional value as a sequence of none or one.
pub open spec fn option_seq<A>(o: Option<A>) -> Seq<A> {
    match o {
        Some(a) => seq![a],
        None => Seq::empty(),
    }
}

/// The symbol declared by node `i` under its name field, of kind `k`.
pub open spec fn named_symbol(t: SyntaxTree, s: Seq<char>, fp: Seq<char>, m: Seq<char>, i: int, k: SymbolKind) -> Seq<(Seq<char>, SymbolKind, Seq<char>, usize, Seq<char>)> {
    match field_text(t, s, i, "name"@) {
        Some(name) => seq![(name, k, fp, line_of(t, i), m)],
        None => Seq::empty(),
    }
}

/// The variable declared by child `c` of a declaration, if it is a
/// declarator with a name.
pub open spec fn declarator_symbol(t: SyntaxTree, s: Seq<char>, fp: Seq<char>, m: Seq<char>, c: int) -> Seq<(Seq<char>, SymbolKind, Seq<char>, usize, Seq<char>)> {
    if kind_of(t, c) == "variable_declarator"@ {
        named_symbol(t, s, fp, m, c, SymbolKind::Variable)
    } else {
        Seq::empty()
    }
}

/// The variables declared by the children `cs` of a declaration, by
/// position.
pub open spec fn declarator_symbols(t: SyntaxTree, s: Seq<char>, fp: Seq<char>, m: Seq<char>, cs: Seq<usize>) -> spec_fn(int) -> Seq<(Seq<char>, SymbolKind, Seq<char>, usize, Seq<char>)> {
    |j: int| declarator_symbol(t, s, fp, m, cs[j] as int)
}

/// Whether node type `k` declares variables.
pub open spec fn is_declaration(k: Seq<char>) -> bool {
    k == "lexical_declaration"@ || k == "variable_declaration"@
}

/// The symbols node `i` declares, in file `fp` of module `m`.
pub open spec fn node_symbols(t: SyntaxTree, s: Seq<char>, fp: Seq<char>, m: Seq<char>, i: int) -> Seq<(Seq<char>, SymbolKind, Seq<char>, usize, Seq<char>)> {
    let k = kind_of(t, i);
    if k == "function_declaration"@ {
        named_symbol(t, s, fp, m, i, SymbolKind::Function)
    } else if k == "class_declaration"@ {
        named_symbol(t, s, fp, m, i, SymbolKind::Class)
    } else if k == "method_definition"@ {
        named_symbol(t, s, fp, m, i, SymbolKind::Method)
    } else if is_declaration(k) {
        gather(children_of(t, i).len() as int, declarator_symbols(t, s, fp, m, children_of(t, i)))
    } else if k == "type_alias_declaration"@ {
        named_symbol(t, s, fp, m, i, SymbolKind::TypeAlias)
    } else {
        Seq::empty()
    }
}

/// Every part of a gathered sequence appears in it.
proof fn lemma_gather_holds<A>(n: int, f: spec_fn(int) -> Seq<A>, j: int, k: int)
    requires
        0 <= j < n,
        0 <= k < f(j).len(),
    ensures
        gather(n, f).contains(f(j)[k]),
    decreases n,
{
    if j < n - 1 {
        lemma_gather_holds(n - 1, f, j, k);
        let w = choose|w: int| 0 <= w < gather(n - 1, f).len() && #[trigger] gather(n - 1, f)[w] == f(j)[k];
        assert(gather(n, f)[w] == f(j)[k]);
    } else {
        assert(gather(n, f)[gather(n - 1, f).len() + k] == f(j)[k]);
    }
}

/// A `var` declaration, like a `let` or `const` one, declares a variable
/// for each of its declarators that has a name: the name, in the file and
/// module given, on the declarator's line.
pub proof fn lemma_declarations_declare_variables(t: SyntaxTree, s: Seq<char>, fp: Seq<char>, m: Seq<char>, i: int, j: int)
    requires
        kind_of(t, i) == "variable_declaration"@ || kind_of(t, i) == "lexical_declaration"@,
        0 <= j < children_of(t, i).len(),
        kind_of(t, children_of(t, i)[j] as int) == "variable_declarator"@,
        field_text(t, s, children_of(t, i)[j] as int, "name"@) is Some,
    ensures
        node_symbols(t, s, fp, m, i).contains((field_text(t, s, children_of(t, i)[j] as int, "name"@).unwrap(), SymbolKind::Variable, fp, line_of(t, children_of(t, i)[j] as int), m)),
{
    reveal_strlit("variable_declaration");
    reveal_strlit("lexical_declaration");
    reveal_strlit("function_declaration");
    reveal_strlit("class_declaration");
    reveal_strlit("method_definition");
    let kind = kind_of(t, i);
    assert(kind[0] == 'v' || kind[0] == 'l');
    assert(kind != "function_declaration"@ && kind != "class_declaration"@ && kind != "method_definition"@) by {
        assert("function_declaration"@[0] == 'f' && "class_declaration"@[0] == 'c' && "method_definition"@[0] == 'm');
    }
    let cs = children_of(t, i);
    let f = declarator_symbols(t, s, fp, m, cs);
    assert(node_symbols(t, s, fp, m, i) == gather(cs.len() as int, f));
    let c = cs[j] as int;
    assert(f(j) == named_symbol(t, s, fp, m, c, SymbolKind::Variable));
    assert(f(j)[0] == (field_text(t, s, c, "name"@).unwrap(), SymbolKind::Variable, fp, line_of(t, c), m));
    lemma_gather_holds(cs.len() as int, f, j, 0);
}

/// The call node `i` makes: the enclosing function's name and the callee,
/// when it is a call, not an import, with both names known.
pub open spec fn node_calls(t: SyntaxTree, s: Seq<char>, i: int) -> Seq<(Seq<char>, Seq<char>)> {
    if kind_of(t, i) == "call_expression"@ && !is_import_call(t, s, i) {
        match (callee_name(t, s, i), enclosing_name(t, i)) {
            (Some(callee), Some(n)) => seq![(text_of(t, s, n), callee)],
            _ => Seq::empty(),
        }
    } else {
        Seq::empty()
    }
}

/// The module node `i` imports: the source of an import statement, or the
/// first string argument of an `import(..)` or `require(..)` call.
pub open spec fn node_imports(t: SyntaxTree, s: Seq<char>, i: int) -> Seq<Seq<char>> {
    let k = kind_of(t, i);
    if k == "import_statement"@ {
        option_seq(string_field(t, s, i, "source"@))
    } else if k == "call_expression"@ && is_import_call(t, s, i) {
        option_seq(first_string_argument(t, s, i))
    } else {
        Seq::empty()
    }
}

/// The module node `i` re-exports: the source of an export statement.
pub open spec fn node_reexports(t: SyntaxTree, s: Seq<char>, i: int) -> Seq<Seq<char>> {
    if kind_of(t, i) == "export_statement"@ {
        option_seq(string_field(t, s, i, "source"@))
    } else {
        Seq::empty()
    }
}

/// A write of the name node `n` spans.
pub open spec fn write_of(t: SyntaxTree, s: Seq<char>, fp: Seq<char>, scope: Option<Seq<char>>, n: int) -> (Seq<char>, RefKind, Seq<char>, usize, Option<Seq<char>>) {
    (text_of(t, s, n), RefKind::Write, fp, line_of(t, n), scope)
}

/// The writes a destructuring pattern `p` makes, through the first `k` of
/// its children: each bound identifier, each identifier a pair binds, and
/// those of nested patterns.
pub open spec fn pattern_writes(t: SyntaxTree, s: Seq<char>, fp: Seq<char>, scope: Option<Seq<char>>, p: int, k: int) -> Seq<(Seq<char>, RefKind, Seq<char>, usize, Option<Seq<char>>)>
    decreases t.nodes@.len() - p, k,
{
    if k <= 0 || !(0 <= p < t.children@.len()) || k > children_of(t, p).len() {
        Seq::empty()
    } else {
        let c = children_of(t, p)[k - 1] as int;
        let ck = kind_of(t, c);
        pattern_writes(t, s, fp, scope, p, k - 1) + if ck == "shorthand_property_identifier_pattern"@ || ck == "identifier"@ {
            seq![write_of(t, s, fp, scope, c)]
        } else if ck == "pair_pattern"@ {
            match field_child(t, c, "value"@) {
                Some(v) => if kind_of(t, v) == "identifier"@ {
                    seq![write_of(t, s, fp, scope, v)]
                } else {
                    Seq::empty()
                },
                None => Seq::empty(),
            }
        } else if (ck == "object_pattern"@ || ck == "array_pattern"@) && p < c < t.nodes@.len() {
            pattern_writes(t, s, fp, scope, c, children_of(t, c).len() as int)
        } else {
            Seq::empty()
        }
    }
}

/// The writes that child `c` of a declaration makes through its name.
pub open spec fn declarator_writes(t: SyntaxTree, s: Seq<char>, fp: Seq<char>, scope: Option<Seq<char>>, c: int) -> Seq<(Seq<char>, RefKind, Seq<char>, usize, Option<Seq<char>>)> {
    if kind_of(t, c) == "variable_declarator"@ {
        match field_child(t, c, "name"@) {
            Some(n) => if kind_of(t, n) == "identifier"@ {
                seq![write_of(t, s, fp, scope, n)]
            } else if kind_of(t, n) == "object_pattern"@ || kind_of(t, n) == "array_pattern"@ {
                pattern_writes(t, s, fp, scope, n, children_of(t, n).len() as int)
            } else {
                Seq::empty()
            },
            None => Seq::empty(),
        }
    } else {
        Seq::empty()
    }
}

/// The writes the children `cs` of a declaration make, by position.
pub open spec fn declarators_writes(t: SyntaxTree, s: Seq<char>, fp: Seq<char>, scope: Option<Seq<char>>, cs: Seq<usize>) -> spec_fn(int) -> Seq<(Seq<char>, RefKind, Seq<char>, usize, Option<Seq<char>>)> {
    |j: int| declarator_writes(t, s, fp, scope, cs[j] as int)
}

/// The write of the identifier in the field `f` of node `i`, if it is one.
pub open spec fn field_write(t: SyntaxTree, s: Seq<char>, fp: Seq<char>, i: int, f: Seq<char>) -> Seq<(Seq<char>, RefKind, Seq<char>, usize, Option<Seq<char>>)> {
    match field_child(t, i, f) {
        Some(n) => if kind_of(t, n) == "identifier"@ {
            seq![write_of(t, s, fp, enclosing_scope(t, s, i), n)]
        } else {
            Seq::empty()
        },
        None => Seq::empty(),
    }
}

/// The reads and writes node `i` makes.
pub open spec fn node_references(t: SyntaxTree, s: Seq<char>, fp: Seq<char>, i: int) -> Seq<(Seq<char>, RefKind, Seq<char>, usize, Option<Seq<char>>)> {
    let k = kind_of(t, i);
    if is_declaration(k) {
        gather(children_of(t, i).len() as int, declarators_writes(t, s, fp, enclosing_scope(t, s, i), children_of(t, i)))
    } else if k == "assignment_expression"@ || k == "augmented_assignment_expression"@ {
        field_write(t, s, fp, i, "left"@)
    } else if k == "update_expression"@ {
        field_write(t, s, fp, i, "argument"@)
    } else if (k == "identifier"@ || k == "shorthand_property_identifier"@) && is_read_reference(t, s, i) {
        seq![(text_of(t, s, i), RefKind::Read, fp, line_of(t, i), enclosing_scope(t, s, i))]
    } else {
        Seq::empty()
    }
}

/// The name of a path's file without its extension, as `Path::file_stem`
/// gives it.
pub uninterp spec fn path_file_stem(p: Seq<char>) -> Option<Seq<char>>;

/// The module a file belongs to: its name without the extension, empty
/// when it has none.
pub open spec fn module_of(p: Seq<char>) -> Seq<char> {
    match path_file_stem(p) {
        Some(m) => m,
        None => Seq::empty(),
    }
}

/// `Path::file_stem` of `p`, as text.
#[verifier::external_body]
fn file_stem_of(p: &str) -> (r: Option<String>)
    ensures
        r matches Some(m) ==> path_file_stem(p@) == Some(m@),
        r is None ==> path_file_stem(p@) is None,
{
    std::path::Path::new(p).file_stem().map(|m| m.to_string_lossy().to_string())
}

/// The symbols of each node, by position.
pub open spec fn symbols_by_node(t: SyntaxTree, s: Seq<char>, fp: Seq<char>, m: Seq<char>) -> spec_fn(int) -> Seq<(Seq<char>, SymbolKind, Seq<char>, usize, Seq<char>)> {
    |i: int| node_symbols(t, s, fp, m, i)
}

/// The calls of each node, by position.
pub open spec fn calls_by_node(t: SyntaxTree, s: Seq<char>) -> spec_fn(int) -> Seq<(Seq<char>, Seq<char>)> {
    |i: int| node_calls(t, s, i)
}

/// The imports of each node, by position.
pub open spec fn imports_by_node(t: SyntaxTree, s: Seq<char>) -> spec_fn(int) -> Seq<Seq<char>> {
    |i: int| node_imports(t, s, i)
}

/// The re-exports of each node, by position.
pub open spec fn reexports_by_node(t: SyntaxTree, s: Seq<char>) -> spec_fn(int) -> Seq<Seq<char>> {
    |i: int| node_reexports(t, s, i)
}

/// The references of each node, by position.
pub open spec fn references_by_node(t: SyntaxTree, s: Seq<char>, fp: Seq<char>) -> spec_fn(int) -> Seq<(Seq<char>, RefKind, Seq<char>, usize, Option<Seq<char>>)> {
    |i: int| node_references(t, s, fp, i)
}

/// The module of the file at `p`: its name without the extension.
pub fn module_name(p: &str) -> (r: String)
    ensures
        r@ == module_of(p@),
{
    match file_stem_of(p) {
        Some(m) => m,
        None => String::new(),
    }
}

/// `s` without the double quotes at either end, then without the single
/// quotes at either end.
pub fn strip_quotes(s: &str) -> (r: String)
    ensures
        r@ == strip_quotes_of(s@),
{
    let a = trim_matches_char(s, '"');
    trim_matches_char(a.as_str(), '\'')
}

/// Whether node `i` is of type `k`.
fn kind_is(t: &SyntaxTree, i: usize, k: &str) -> (r: bool)
    requires
        i < t.nodes@.len(),
    ensures
        r == (kind_of(*t, i as int) == k@),
{
    str_eq(t.nodes[i].kind.as_str(), k)
}

/// The characters of `src` that node `i` spans.
fn node_text(t: &SyntaxTree, src: &Vec<char>, i: usize) -> (r: String)
    requires
        t.wf(src@.len()),
        i < t.nodes@.len(),
    ensures
        r@ == text_of(*t, src@, i as int),
{
    let start = t.nodes[i].start;
    let end = t.nodes[i].end;
    let mut r = String::new();
    let mut k = start;
    while k < end
        invariant
            t.nodes@[i as int].start == start,
            t.nodes@[i as int].end == end,
            start <= k <= end <= src@.len(),
            r@ == src@.subrange(start as int, k as int),
        decreases end - k,
    {
        push_char(&mut r, src[k]);
        assert(src@.subrange(start as int, k + 1) =~= src@.subrange(start as int, k as int).push(src@[k as int]));
        k = k + 1;
    }
    r
}

/// The child of node `i` in the field `f`.
fn field_child_of(t: &SyntaxTree, len: Ghost<nat>, i: usize, f: &str) -> (r: Option<usize>)
    requires
        t.wf(len@),
        i < t.nodes@.len(),
    ensures
        match r {
            Some(c) => field_child(*t, i as int, f@) == Some(c as int) && i < c < t.nodes@.len(),
            None => field_child(*t, i as int, f@) is None,
        },
{
    let cs = &t.children[i];
    let ghost all = cs@;
    assert(all.skip(0) =~= all);
    let mut k: usize = 0;
    while k < cs.len()
        invariant
            t.wf(len@),
            i < t.nodes@.len(),
            cs@ == all,
            all == children_of(*t, i as int),
            k <= all.len(),
            first_in_field(*t, all.skip(k as int), f@) == field_child(*t, i as int, f@),
        decreases cs.len() - k,
    {
        let c = cs[k];
        assert(all.skip(k as int)[0] == c);
        let here = match &t.nodes[c].field {
            Some(g) => str_eq(g.as_str(), f),
            None => false,
        };
        if here {
            return Some(c);
        }
        assert(all.skip(k as int).drop_first() =~= all.skip(k + 1));
        k = k + 1;
    }
    assert(all.skip(k as int) =~= Seq::<usize>::empty());
    None
}

/// The nearest function declaration or method definition above node `i`.
fn enclosing_function_of(t: &SyntaxTree, len: Ghost<nat>, i: usize) -> (r: Option<usize>)
    requires
        t.wf(len@),
        i < t.nodes@.len(),
    ensures
        match r {
            Some(d) => enclosing_function(*t, i as int) == Some(d as int) && d < t.nodes@.len(),
            None => enclosing_function(*t, i as int) is None,
        },
{
    let mut cur = i;
    loop
        invariant
            t.wf(len@),
            cur < t.nodes@.len(),
            enclosing_function(*t, cur as int) == enclosing_function(*t, i as int),
        decreases cur,
    {
        match t.nodes[cur].parent {
            Some(p) => {
                let here = kind_is(t, p, "function_declaration") || kind_is(t, p, "method_definition");
                if here {
                    return Some(p);
                }
                cur = p;
            },
            None => {
                return None;
            },
        }
    }
}

/// The name node of the function or method around node `i`.
fn enclosing_name_of(t: &SyntaxTree, len: Ghost<nat>, i: usize) -> (r: Option<usize>)
    requires
        t.wf(len@),
        i < t.nodes@.len(),
    ensures
        match r {
            Some(n) => enclosing_name(*t, i as int) == Some(n as int) && n < t.nodes@.len(),
            None => enclosing_name(*t, i as int) is None,
        },
{
    match enclosing_function_of(t, len, i) {
        Some(d) => field_child_of(t, len, d, "name"),
        None => None,
    }
}

/// The name of the function or method around node `i`.
fn enclosing_scope_of(t: &SyntaxTree, src: &Vec<char>, i: usize) -> (r: Option<String>)
    requires
        t.wf(src@.len()),
        i < t.nodes@.len(),
    ensures
        text_view(r) == enclosing_scope(*t, src@, i as int),
{
    match enclosing_name_of(t, Ghost(src@.len()), i) {
        Some(n) => Some(node_text(t, src, n)),
        None => None,
    }
}

/// Whether node `j` is the child of node `p` in the field `f`.
fn is_field_child_of(t: &SyntaxTree, len: Ghost<nat>, p: usize, f: &str, j: usize) -> (r: bool)
    requires
        t.wf(len@),
        p < t.nodes@.len(),
    ensures
        r == is_field_child(*t, p as int, f@, j as int),
{
    match field_child_of(t, len, p, f) {
        Some(c) => c == j,
        None => false,
    }
}

/// Whether identifier node `i` reads a name.
fn is_read_reference_of(t: &SyntaxTree, src: &Vec<char>, i: usize) -> (r: bool)
    requires
        t.wf(src@.len()),
        i < t.nodes@.len(),
    ensures
        r == is_read_reference(*t, src@, i as int),
{
    let len = Ghost(src@.len());
    let p = match t.nodes[i].parent {
        Some(p) => p,
        None => {
            return false;
        },
    };
    if kind_is(t, p, "function_declaration") || kind_is(t, p, "class_declaration") || kind_is(t, p, "method_definition") || kind_is(t, p, "type_alias_declaration") {
        !is_field_child_of(t, len, p, "name", i)
    } else if kind_is(t, p, "variable_declarator") {
        !is_field_child_of(t, len, p, "name", i)
    } else if kind_is(t, p, "assignment_expression") || kind_is(t, p, "augmented_assignment_expression") {
        !is_field_child_of(t, len, p, "left", i)
    } else if kind_is(t, p, "update_expression") {
        false
    } else if kind_is(t, p, "object_pattern") || kind_is(t, p, "array_pattern") || kind_is(t, p, "shorthand_property_identifier_pattern") {
        false
    } else if kind_is(t, p, "pair_pattern") {
        false
    } else if kind_is(t, p, "call_expression") {
        !is_field_child_of(t, len, p, "function", i)
    } else if kind_is(t, p, "import_specifier") || kind_is(t, p, "import_clause") || kind_is(t, p, "namespace_import") {
        false
    } else if kind_is(t, p, "member_expression") {
        !is_field_child_of(t, len, p, "property", i)
    } else if kind_is(t, p, "import") {
        false
    } else if kind_is(t, p, "formal_parameters") || kind_is(t, p, "required_parameter") || kind_is(t, p, "optional_parameter") {
        false
    } else {
        let w = node_text(t, src, i);
        let w = w.as_str();
        !(str_eq(w, "undefined") || str_eq(w, "null") || str_eq(w, "true") || str_eq(w, "false") || str_eq(w, "this") || str_eq(w, "super"))
    }
}

/// The name call expression `i` calls.
fn callee_name_of(t: &SyntaxTree, src: &Vec<char>, i: usize) -> (r: Option<String>)
    requires
        t.wf(src@.len()),
        i < t.nodes@.len(),
    ensures
        text_view(r) == callee_name(*t, src@, i as int),
{
    let len = Ghost(src@.len());
    match field_child_of(t, len, i, "function") {
        Some(f) => if kind_is(t, f, "identifier") {
            Some(node_text(t, src, f))
        } else if kind_is(t, f, "member_expression") {
            match field_child_of(t, len, f, "property") {
                Some(q) => Some(node_text(t, src, q)),
                None => None,
            }
        } else {
            None
        },
        None => None,
    }
}

/// Whether call expression `i` is an `import(..)` or a `require(..)`.
fn is_import_call_of(t: &SyntaxTree, src: &Vec<char>, i: usize) -> (r: bool)
    requires
        t.wf(src@.len()),
        i < t.nodes@.len(),
    ensures
        r == is_import_call(*t, src@, i as int),
{
    match field_child_of(t, Ghost(src@.len()), i, "function") {
        Some(f) => kind_is(t, f, "import") || (kind_is(t, f, "identifier") && str_eq(node_text(t, src, f).as_str(), "require")),
        None => false,
    }
}

/// Whether node `c` is a string literal.
fn is_string_node(t: &SyntaxTree, c: usize) -> (r: bool)
    requires
        c < t.nodes@.len(),
    ensures
        r == is_string_kind(kind_of(*t, c as int)),
{
    contains_str(t.nodes[c].kind.as_str(), "string")
}

/// The unquoted string literal in the field `f` of node `i`.
fn string_field_of(t: &SyntaxTree, src: &Vec<char>, i: usize, f: &str) -> (r: Option<String>)
    requires
        t.wf(src@.len()),
        i < t.nodes@.len(),
    ensures
        text_view(r) == string_field(*t, src@, i as int, f@),
{
    match field_child_of(t, Ghost(src@.len()), i, f) {
        Some(c) => if is_string_node(t, c) {
            Some(strip_quotes(node_text(t, src, c).as_str()))
        } else {
            None
        },
        None => None,
    }
}

/// The unquoted first string literal among the arguments of call `i`.
fn first_string_argument_of(t: &SyntaxTree, src: &Vec<char>, i: usize) -> (r: Option<String>)
    requires
        t.wf(src@.len()),
        i < t.nodes@.len(),
    ensures
        text_view(r) == first_string_argument(*t, src@, i as int),
{
    let a = match field_child_of(t, Ghost(src@.len()), i, "arguments") {
        Some(a) => a,
        None => {
            return None;
        },
    };
    let cs = &t.children[a];
    let ghost all = cs@;
    assert(all.skip(0) =~= all);
    let mut k: usize = 0;
    while k < cs.len()
        invariant
            t.wf(src@.len()),
            a < t.nodes@.len(),
            field_child(*t, i as int, "arguments"@) == Some(a as int),
            cs@ == all,
            all == children_of(*t, a as int),
            k <= all.len(),
            first_string(*t, src@, all.skip(k as int)) == first_string(*t, src@, all),
        decreases cs.len() - k,
    {
        let c = cs[k];
        assert(all.skip(k as int)[0] == c);
        if is_string_node(t, c) {
            return Some(strip_quotes(node_text(t, src, c).as_str()));
        }
        assert(all.skip(k as int).drop_first() =~= all.skip(k + 1));
        k = k + 1;
    }
    assert(all.skip(k as int) =~= Seq::<usize>::empty());
    None
}

/// A copy of optional text.
fn copy_text(o: &Option<String>) -> (r: Option<String>)
    ensures
        text_view(r) == text_view(*o),
{
    match o {
        Some(x) => Some(x.clone()),
        None => None,
    }
}

/// Appends the symbol node `i` declares under its name field, of kind `k`.
fn push_named_symbol(t: &SyntaxTree, src: &Vec<char>, fp: &str, m: &str, i: usize, k: SymbolKind, out: &mut Vec<SymbolNode>)
    requires
        t.wf(src@.len()),
        i < t.nodes@.len(),
    ensures
        final(out)@.map_values(|x: SymbolNode| symbol_view(x)) == old(out)@.map_values(|x: SymbolNode| symbol_view(x)) + named_symbol(*t, src@, fp@, m@, i as int, k),
{
    let ghost before = out@;
    match field_child_of(t, Ghost(src@.len()), i, "name") {
        Some(c) => {
            let sym = SymbolNode { name: node_text(t, src, c), kind: k, file_path: owned(fp), line: t.nodes[i].row + 1, module: owned(m) };
            out.push(sym);
            assert(out@.map_values(|x: SymbolNode| symbol_view(x)) =~= before.map_values(|x: SymbolNode| symbol_view(x)) + named_symbol(*t, src@, fp@, m@, i as int, k));
        },
        None => {
            assert(out@.map_values(|x: SymbolNode| symbol_view(x)) =~= before.map_values(|x: SymbolNode| symbol_view(x)) + named_symbol(*t, src@, fp@, m@, i as int, k));
        },
    }
}

/// Appends the symbols node `i` declares.
fn push_node_symbols(t: &SyntaxTree, src: &Vec<char>, fp: &str, m: &str, i: usize, out: &mut Vec<SymbolNode>)
    requires
        t.wf(src@.len()),
        i < t.nodes@.len(),
    ensures
        final(out)@.map_values(|x: SymbolNode| symbol_view(x)) == old(out)@.map_values(|x: SymbolNode| symbol_view(x)) + node_symbols(*t, src@, fp@, m@, i as int),
{
    let ghost before = out@.map_values(|x: SymbolNode| symbol_view(x));
    if kind_is(t, i, "function_declaration") {
        push_named_symbol(t, src, fp, m, i, SymbolKind::Function, out);
    } else if kind_is(t, i, "class_declaration") {
        push_named_symbol(t, src, fp, m, i, SymbolKind::Class, out);
    } else if kind_is(t, i, "method_definition") {
        push_named_symbol(t, src, fp, m, i, SymbolKind::Method, out);
    } else if kind_is(t, i, "lexical_declaration") || kind_is(t, i, "variable_declaration") {
        let cs = &t.children[i];
        let ghost f = declarator_symbols(*t, src@, fp@, m@, cs@);
        let mut j: usize = 0;
        assert(before + gather(0, f) =~= before);
        while j < cs.len()
            invariant
                t.wf(src@.len()),
                i < t.nodes@.len(),
                cs@ == children_of(*t, i as int),
                f == declarator_symbols(*t, src@, fp@, m@, cs@),
                j <= cs@.len(),
                out@.map_values(|x: SymbolNode| symbol_view(x)) == before + gather(j as int, f),
            decreases cs.len() - j,
        {
            let c = cs[j];
            let ghost mid = out@.map_values(|x: SymbolNode| symbol_view(x));
            if kind_is(t, c, "variable_declarator") {
                push_named_symbol(t, src, fp, m, c, SymbolKind::Variable, out);
            } else {
                assert(declarator_symbol(*t, src@, fp@, m@, c as int) =~= Seq::empty());
            }
            assert(f(j as int) == declarator_symbol(*t, src@, fp@, m@, c as int));
            assert(out@.map_values(|x: SymbolNode| symbol_view(x)) =~= before + gather(j + 1, f));
            j = j + 1;
        }
    } else if kind_is(t, i, "type_alias_declaration") {
        push_named_symbol(t, src, fp, m, i, SymbolKind::TypeAlias, out);
    } else {
        assert(out@.map_values(|x: SymbolNode| symbol_view(x)) =~= before + node_symbols(*t, src@, fp@, m@, i as int));
    }
}

/// Appends the call node `i` makes.
fn push_node_calls(t: &SyntaxTree, src: &Vec<char>, i: usize, out: &mut Vec<(String, String)>)
    requires
        t.wf(src@.len()),
        i < t.nodes@.len(),
    ensures
        final(out)@.map_values(|c: (String, String)| call_view(c)) == old(out)@.map_values(|c: (String, String)| call_view(c)) + node_calls(*t, src@, i as int),
{
    let ghost before = out@;
    if kind_is(t, i, "call_expression") && !is_import_call_of(t, src, i) {
        match callee_name_of(t, src, i) {
            Some(callee) => {
                match enclosing_name_of(t, Ghost(src@.len()), i) {
                    Some(n) => {
                        out.push((node_text(t, src, n), callee));
                    },
                    None => {},
                }
            },
            None => {},
        }
    }
    assert(out@.map_values(|c: (String, String)| call_view(c)) =~= before.map_values(|c: (String, String)| call_view(c)) + node_calls(*t, src@, i as int));
}

/// Appends optional text.
fn push_text(o: Option<String>, out: &mut Vec<String>)
    ensures
        final(out)@.map_values(|x: String| x@) == old(out)@.map_values(|x: String| x@) + option_seq(text_view(o)),
{
    let ghost before = out@;
    match o {
        Some(x) => {
            out.push(x);
        },
        None => {},
    }
    assert(out@.map_values(|x: String| x@) =~= before.map_values(|x: String| x@) + option_seq(text_view(o)));
}

/// Appends the module node `i` imports.
fn push_node_imports(t: &SyntaxTree, src: &Vec<char>, i: usize, out: &mut Vec<String>)
    requires
        t.wf(src@.len()),
        i < t.nodes@.len(),
    ensures
        final(out)@.map_values(|x: String| x@) == old(out)@.map_values(|x: String| x@) + node_imports(*t, src@, i as int),
{
    if kind_is(t, i, "import_statement") {
        push_text(string_field_of(t, src, i, "source"), out);
    } else if kind_is(t, i, "call_expression") && is_import_call_of(t, src, i) {
        push_text(first_string_argument_of(t, src, i), out);
    } else {
        assert(out@.map_values(|x: String| x@) =~= out@.map_values(|x: String| x@) + node_imports(*t, src@, i as int));
    }
}

/// Appends the module node `i` re-exports.
fn push_node_reexports(t: &SyntaxTree, src: &Vec<char>, i: usize, out: &mut Vec<String>)
    requires
        t.wf(src@.len()),
        i < t.nodes@.len(),
    ensures
        final(out)@.map_values(|x: String| x@) == old(out)@.map_values(|x: String| x@) + node_reexports(*t, src@, i as int),
{
    if kind_is(t, i, "export_statement") {
        push_text(string_field_of(t, src, i, "source"), out);
    } else {
        assert(out@.map_values(|x: String| x@) =~= out@.map_values(|x: String| x@) + node_reexports(*t, src@, i as int));
    }
}

/// Appends the write of the name node `n` spans.
fn push_write(t: &SyntaxTree, src: &Vec<char>, fp: &str, scope: &Option<String>, n: usize, out: &mut Vec<ReferenceEntry>)
    requires
        t.wf(src@.len()),
        n < t.nodes@.len(),
    ensures
        final(out)@.map_values(|r: ReferenceEntry| reference_view(r)) == old(out)@.map_values(|r: ReferenceEntry| reference_view(r)).push(write_of(*t, src@, fp@, text_view(*scope), n as int)),
{
    let ghost before = out@;
    let e = ReferenceEntry { symbol_name: node_text(t, src, n), kind: RefKind::Write, file_path: owned(fp), line: t.nodes[n].row + 1, enclosing_scope: copy_text(scope) };
    out.push(e);
    assert(out@.map_values(|r: ReferenceEntry| reference_view(r)) =~= before.map_values(|r: ReferenceEntry| reference_view(r)).push(write_of(*t, src@, fp@, text_view(*scope), n as int)));
}

/// Appends the writes destructuring pattern `p` makes.
fn push_pattern_writes(t: &SyntaxTree, src: &Vec<char>, fp: &str, scope: &Option<String>, p: usize, out: &mut Vec<ReferenceEntry>)
    requires
        t.wf(src@.len()),
        p < t.nodes@.len(),
    ensures
        final(out)@.map_values(|r: ReferenceEntry| reference_view(r)) == old(out)@.map_values(|r: ReferenceEntry| reference_view(r)) + pattern_writes(*t, src@, fp@, text_view(*scope), p as int, children_of(*t, p as int).len() as int),
    decreases t.nodes@.len() - p,
{
    let ghost sc = text_view(*scope);
    let ghost before = out@.map_values(|r: ReferenceEntry| reference_view(r));
    let cs = &t.children[p];
    let mut k: usize = 0;
    assert(before + pattern_writes(*t, src@, fp@, sc, p as int, 0) =~= before);
    while k < cs.len()
        invariant
            t.wf(src@.len()),
            p < t.nodes@.len(),
            cs@ == children_of(*t, p as int),
            sc == text_view(*scope),
            k <= cs@.len(),
            out@.map_values(|r: ReferenceEntry| reference_view(r)) == before + pattern_writes(*t, src@, fp@, sc, p as int, k as int),
        decreases cs.len() - k,
    {
        let c = cs[k];
        let ghost mid = out@.map_values(|r: ReferenceEntry| reference_view(r));
        let ghost step = pattern_writes(*t, src@, fp@, sc, p as int, k + 1);
        assert(step == pattern_writes(*t, src@, fp@, sc, p as int, k as int) + (if kind_of(*t, c as int) == "shorthand_property_identifier_pattern"@ || kind_of(*t, c as int) == "identifier"@ {
            seq![write_of(*t, src@, fp@, sc, c as int)]
        } else if kind_of(*t, c as int) == "pair_pattern"@ {
            match field_child(*t, c as int, "value"@) {
                Some(v) => if kind_of(*t, v) == "identifier"@ {
                    seq![write_of(*t, src@, fp@, sc, v)]
                } else {
                    Seq::empty()
                },
                None => Seq::empty(),
            }
        } else if (kind_of(*t, c as int) == "object_pattern"@ || kind_of(*t, c as int) == "array_pattern"@) && p < c < t.nodes@.len() {
            pattern_writes(*t, src@, fp@, sc, c as int, children_of(*t, c as int).len() as int)
        } else {
            Seq::empty()
        }));
        if kind_is(t, c, "shorthand_property_identifier_pattern") || kind_is(t, c, "identifier") {
            push_write(t, src, fp, scope, c, out);
            assert(out@.map_values(|r: ReferenceEntry| reference_view(r)) =~= before + step);
        } else if kind_is(t, c, "pair_pattern") {
            match field_child_of(t, Ghost(src@.len()), c, "value") {
                Some(v) => {
                    if kind_is(t, v, "identifier") {
                        push_write(t, src, fp, scope, v, out);
                    }
                },
                None => {},
            }
            assert(out@.map_values(|r: ReferenceEntry| reference_view(r)) =~= before + step);
        } else if kind_is(t, c, "object_pattern") || kind_is(t, c, "array_pattern") {
            push_pattern_writes(t, src, fp, scope, c, out);
            assert(out@.map_values(|r: ReferenceEntry| reference_view(r)) =~= before + step);
        } else {
            assert(out@.map_values(|r: ReferenceEntry| reference_view(r)) =~= before + step);
        }
        k = k + 1;
    }
}

/// Appends the writes child `c` of a declaration makes through its name.
fn push_declarator_writes(t: &SyntaxTree, src: &Vec<char>, fp: &str, scope: &Option<String>, c: usize, out: &mut Vec<ReferenceEntry>)
    requires
        t.wf(src@.len()),
        c < t.nodes@.len(),
    ensures
        final(out)@.map_values(|r: ReferenceEntry| reference_view(r)) == old(out)@.map_values(|r: ReferenceEntry| reference_view(r)) + declarator_writes(*t, src@, fp@, text_view(*scope), c as int),
{
    let ghost before = out@.map_values(|r: ReferenceEntry| reference_view(r));
    if kind_is(t, c, "variable_declarator") {
        match field_child_of(t, Ghost(src@.len()), c, "name") {
            Some(n) => {
                if kind_is(t, n, "identifier") {
                    push_write(t, src, fp, scope, n, out);
                    assert(out@.map_values(|r: ReferenceEntry| reference_view(r)) =~= before + declarator_writes(*t, src@, fp@, text_view(*scope), c as int));
                } else if kind_is(t, n, "object_pattern") || kind_is(t, n, "array_pattern") {
                    push_pattern_writes(t, src, fp, scope, n, out);
                } else {
                    assert(out@.map_values(|r: ReferenceEntry| reference_view(r)) =~= before + declarator_writes(*t, src@, fp@, text_view(*scope), c as int));
                }
            },
            None => {
                assert(out@.map_values(|r: ReferenceEntry| reference_view(r)) =~= before + declarator_writes(*t, src@, fp@, text_view(*scope), c as int));
            },
        }
    } else {
        assert(out@.map_values(|r: ReferenceEntry| reference_view(r)) =~= before + declarator_writes(*t, src@, fp@, text_view(*scope), c as int));
    }
}

/// Appends the write of the identifier in the field `f` of node `i`.
fn push_field_write(t: &SyntaxTree, src: &Vec<char>, fp: &str, i: usize, f: &str, out: &mut Vec<ReferenceEntry>)
    requires
        t.wf(src@.len()),
        i < t.nodes@.len(),
    ensures
        final(out)@.map_values(|r: ReferenceEntry| reference_view(r)) == old(out)@.map_values(|r: ReferenceEntry| reference_view(r)) + field_write(*t, src@, fp@, i as int, f@),
{
    let ghost before = out@.map_values(|r: ReferenceEntry| reference_view(r));
    match field_child_of(t, Ghost(src@.len()), i, f) {
        Some(n) => {
            if kind_is(t, n, "identifier") {
                let scope = enclosing_scope_of(t, src, i);
                push_write(t, src, fp, &scope, n, out);
            }
        },
        None => {},
    }
    assert(out@.map_values(|r: ReferenceEntry| reference_view(r)) =~= before + field_write(*t, src@, fp@, i as int, f@));
}

/// Appends the reads and writes node `i` makes.
fn push_node_references(t: &SyntaxTree, src: &Vec<char>, fp: &str, i: usize, out: &mut Vec<ReferenceEntry>)
    requires
        t.wf(src@.len()),
        i < t.nodes@.len(),
    ensures
        final(out)@.map_values(|r: ReferenceEntry| reference_view(r)) == old(out)@.map_values(|r: ReferenceEntry| reference_view(r)) + node_references(*t, src@, fp@, i as int),
{
    let ghost before = out@.map_values(|r: ReferenceEntry| reference_view(r));
    if kind_is(t, i, "lexical_declaration") || kind_is(t, i, "variable_declaration") {
        let scope = enclosing_scope_of(t, src, i);
        let cs = &t.children[i];
        let ghost f = declarators_writes(*t, src@, fp@, text_view(scope), cs@);
        let mut j: usize = 0;
        assert(before + gather(0, f) =~= before);
        while j < cs.len()
            invariant
                t.wf(src@.len()),
                i < t.nodes@.len(),
                cs@ == children_of(*t, i as int),
                f == declarators_writes(*t, src@, fp@, text_view(scope), cs@),
                j <= cs@.len(),
                out@.map_values(|r: ReferenceEntry| reference_view(r)) == before + gather(j as int, f),
            decreases cs.len() - j,
        {
            let c = cs[j];
            push_declarator_writes(t, src, fp, &scope, c, out);
            assert(f(j as int) == declarator_writes(*t, src@, fp@, text_view(scope), c as int));
            assert(out@.map_values(|r: ReferenceEntry| reference_view(r)) =~= before + gather(j + 1, f));
            j = j + 1;
        }
    } else if kind_is(t, i, "assignment_expression") || kind_is(t, i, "augmented_assignment_expression") {
        push_field_write(t, src, fp, i, "left", out);
    } else if kind_is(t, i, "update_expression") {
        push_field_write(t, src, fp, i, "argument", out);
    } else if (kind_is(t, i, "identifier") || kind_is(t, i, "shorthand_property_identifier")) && is_read_reference_of(t, src, i) {
        let e = ReferenceEntry { symbol_name: node_text(t, src, i), kind: RefKind::Read, file_path: owned(fp), line: t.nodes[i].row + 1, enclosing_scope: enclosing_scope_of(t, src, i) };
        out.push(e);
        assert(out@.map_values(|r: ReferenceEntry| reference_view(r)) =~= before + node_references(*t, src@, fp@, i as int));
    } else {
        assert(out@.map_values(|r: ReferenceEntry| reference_view(r)) =~= before + node_references(*t, src@, fp@, i as int));
    }
}

/// Appends to each list what the nodes of the syntax tree of `source`,
/// the file at `file_path` in module `module`, declare and use, node after
/// node in depth-first order (see `extract`). What each list held before
/// stays as it was, in front.
pub fn walk_node(
    tree: &SyntaxTree,
    source: &str,
    file_path: &str,
    module: &str,
    symbols: &mut Vec<SymbolNode>,
    calls: &mut Vec<(String, String)>,
    imports: &mut Vec<String>,
    reexports: &mut Vec<String>,
    references: &mut Vec<ReferenceEntry>,
)
    requires
        tree.wf(source@.len()),
    ensures
        final(symbols)@.map_values(|x: SymbolNode| symbol_view(x)) == old(symbols)@.map_values(|x: SymbolNode| symbol_view(x)) + gather(tree.nodes@.len() as int, symbols_by_node(*tree, source@, file_path@, module@)),
        final(calls)@.map_values(|c: (String, String)| call_view(c)) == old(calls)@.map_values(|c: (String, String)| call_view(c)) + gather(tree.nodes@.len() as int, calls_by_node(*tree, source@)),
        final(imports)@.map_values(|x: String| x@) == old(imports)@.map_values(|x: String| x@) + gather(tree.nodes@.len() as int, imports_by_node(*tree, source@)),
        final(reexports)@.map_values(|x: String| x@) == old(reexports)@.map_values(|x: String| x@) + gather(tree.nodes@.len() as int, reexports_by_node(*tree, source@)),
        final(references)@.map_values(|x: ReferenceEntry| reference_view(x)) == old(references)@.map_values(|x: ReferenceEntry| reference_view(x)) + gather(tree.nodes@.len() as int, references_by_node(*tree, source@, file_path@)),
{
    let src = chars_of(source);
    let ghost s = source@;
    let ghost fs = symbols_by_node(*tree, s, file_path@, module@);
    let ghost fc = calls_by_node(*tree, s);
    let ghost fi = imports_by_node(*tree, s);
    let ghost fe = reexports_by_node(*tree, s);
    let ghost fr = references_by_node(*tree, s, file_path@);
    let ghost s0 = symbols@.map_values(|x: SymbolNode| symbol_view(x));
    let ghost c0 = calls@.map_values(|c: (String, String)| call_view(c));
    let ghost i0 = imports@.map_values(|x: String| x@);
    let ghost e0 = reexports@.map_values(|x: String| x@);
    let ghost r0 = references@.map_values(|x: ReferenceEntry| reference_view(x));
    let n = tree.nodes.len();
    let mut i: usize = 0;
    assert(s0 + gather(0, fs) =~= s0);
    assert(c0 + gather(0, fc) =~= c0);
    assert(i0 + gather(0, fi) =~= i0);
    assert(e0 + gather(0, fe) =~= e0);
    assert(r0 + gather(0, fr) =~= r0);
    while i < n
        invariant
            tree.wf(src@.len()),
            src@ == s,
            s == source@,
            n == tree.nodes@.len(),
            fs == symbols_by_node(*tree, s, file_path@, module@),
            fc == calls_by_node(*tree, s),
            fi == imports_by_node(*tree, s),
            fe == reexports_by_node(*tree, s),
            fr == references_by_node(*tree, s, file_path@),
            i <= n,
            symbols@.map_values(|x: SymbolNode| symbol_view(x)) == s0 + gather(i as int, fs),
            calls@.map_values(|c: (String, String)| call_view(c)) == c0 + gather(i as int, fc),
            imports@.map_values(|x: String| x@) == i0 + gather(i as int, fi),
            reexports@.map_values(|x: String| x@) == e0 + gather(i as int, fe),
            references@.map_values(|x: ReferenceEntry| reference_view(x)) == r0 + gather(i as int, fr),
        decreases n - i,
    {
        push_node_symbols(tree, &src, file_path, module, i, symbols);
        push_node_calls(tree, &src, i, calls);
        push_node_imports(tree, &src, i, imports);
        push_node_reexports(tree, &src, i, reexports);
        push_node_references(tree, &src, file_path, i, references);
        assert(s0 + gather(i + 1, fs) =~= s0 + gather(i as int, fs) + fs(i as int));
        assert(c0 + gather(i + 1, fc) =~= c0 + gather(i as int, fc) + fc(i as int));
        assert(i0 + gather(i + 1, fi) =~= i0 + gather(i as int, fi) + fi(i as int));
        assert(e0 + gather(i + 1, fe) =~= e0 + gather(i as int, fe) + fe(i as int));
        assert(r0 + gather(i + 1, fr) =~= r0 + gather(i as int, fr) + fr(i as int));
        i = i + 1;
    }
}

/// Everything the syntax tree of `source`, the file at `file_path`,
/// declares and uses. Each list follows the nodes in depth-first order:
/// - symbols: a function, class, method or type alias declaration with a
///   name, or a named declarator of a `let`, `const` or `var`;
/// - calls: a call inside a named function or method, other than an
///   `import(..)` or `require(..)`, to an identifier or a property;
/// - imports: the source of an import statement, or the first string
///   argument of an `import(..)` or `require(..)`;
/// - re-exports: the source of an export statement;
/// - references: the names a declaration, an assignment or an update
///   writes, and the identifiers that read a name.
pub fn extract(tree: &SyntaxTree, source: &str, file_path: &str) -> (r: ExtractionResult)
    requires
        tree.wf(source@.len()),
    ensures
        r.symbols@.map_values(|x: SymbolNode| symbol_view(x)) == gather(tree.nodes@.len() as int, symbols_by_node(*tree, source@, file_path@, module_of(file_path@))),
        r.calls@.map_values(|c: (String, String)| call_view(c)) == gather(tree.nodes@.len() as int, calls_by_node(*tree, source@)),
        r.imports@.map_values(|x: String| x@) == gather(tree.nodes@.len() as int, imports_by_node(*tree, source@)),
        r.reexports@.map_values(|x: String| x@) == gather(tree.nodes@.len() as int, reexports_by_node(*tree, source@)),
        r.references@.map_values(|x: ReferenceEntry| reference_view(x)) == gather(tree.nodes@.len() as int, references_by_node(*tree, source@, file_path@)),
{
    let module = module_name(file_path);
    let mut symbols: Vec<SymbolNode> = Vec::new();
    let mut calls: Vec<(String, String)> = Vec::new();
    let mut imports: Vec<String> = Vec::new();
    let mut reexports: Vec<String> = Vec::new();
    let mut references: Vec<ReferenceEntry> = Vec::new();
    walk_node(tree, source, file_path, module.as_str(), &mut symbols, &mut calls, &mut imports, &mut reexports, &mut references);
    assert(symbols@.map_values(|x: SymbolNode| symbol_view(x)) =~= gather(tree.nodes@.len() as int, symbols_by_node(*tree, source@, file_path@, module_of(file_path@))));
    assert(calls@.map_values(|c: (String, String)| call_view(c)) =~= gather(tree.nodes@.len() as int, calls_by_node(*tree, source@)));
    assert(imports@.map_values(|x: String| x@) =~= gather(tree.nodes@.len() as int, imports_by_node(*tree, source@)));
    assert(reexports@.map_values(|x: String| x@) =~= gather(tree.nodes@.len() as int, reexports_by_node(*tree, source@)));
    assert(references@.map_values(|x: ReferenceEntry| reference_view(x)) =~= gather(tree.nodes@.len() as int, references_by_node(*tree, source@, file_path@)));
    ExtractionResult { symbols, calls, imports, reexports, references }
}

/// When every part holds only elements satisfying `ok`, so do the parts
/// gathered.
pub proof fn lemma_gather_all<A>(n: int, f: spec_fn(int) -> Seq<A>, ok: spec_fn(A) -> bool)
    requires
        forall|i: int, k: int| 0 <= i < n && 0 <= k < f(i).len() ==> ok(#[trigger] f(i)[k]),
    ensures
        forall|k: int| 0 <= k < gather(n, f).len() ==> ok(#[trigger] gather(n, f)[k]),
    decreases n,
{
    if n > 0 {
        lemma_gather_all(n - 1, f, ok);
        let g = gather(n - 1, f);
        assert forall|k: int| 0 <= k < gather(n, f).len() implies ok(#[trigger] gather(n, f)[k]) by {
            if k < g.len() {
                assert(gather(n, f)[k] == g[k]);
            } else {
                assert(gather(n, f)[k] == f(n - 1)[k - g.len()]);
            }
        }
    }
}

/// Every symbol extracted from a file carries the file's path and module,
/// and every reference the file's path.
pub proof fn lemma_extracted_carry_file(t: SyntaxTree, s: Seq<char>, fp: Seq<char>, m: Seq<char>)
    ensures
        forall|k: int| 0 <= k < gather(t.nodes@.len() as int, symbols_by_node(t, s, fp, m)).len() ==> {
            let x = #[trigger] gather(t.nodes@.len() as int, symbols_by_node(t, s, fp, m))[k];
            x.2 == fp && x.4 == m
        },
        forall|k: int| 0 <= k < gather(t.nodes@.len() as int, references_by_node(t, s, fp)).len() ==> (#[trigger] gather(t.nodes@.len() as int, references_by_node(t, s, fp))[k]).2 == fp,
{
    let sym_ok = |x: (Seq<char>, SymbolKind, Seq<char>, usize, Seq<char>)| x.2 == fp && x.4 == m;
    let ref_ok = |x: (Seq<char>, RefKind, Seq<char>, usize, Option<Seq<char>>)| x.2 == fp;
    assert forall|i: int, k: int| 0 <= i < t.nodes@.len() && 0 <= k < symbols_by_node(t, s, fp, m)(i).len() implies sym_ok(#[trigger] symbols_by_node(t, s, fp, m)(i)[k]) by {
        if is_declaration(kind_of(t, i)) && !(kind_of(t, i) == "function_declaration"@ || kind_of(t, i) == "class_declaration"@ || kind_of(t, i) == "method_definition"@) {
            let cs = children_of(t, i);
            lemma_gather_all(cs.len() as int, declarator_symbols(t, s, fp, m, cs), sym_ok);
        }
    }
    lemma_gather_all(t.nodes@.len() as int, symbols_by_node(t, s, fp, m), sym_ok);
    assert forall|i: int, k: int| 0 <= i < t.nodes@.len() && 0 <= k < references_by_node(t, s, fp)(i).len() implies ref_ok(#[trigger] references_by_node(t, s, fp)(i)[k]) by {
        if is_declaration(kind_of(t, i)) {
            let cs = children_of(t, i);
            let scope = enclosing_scope(t, s, i);
            assert forall|j: int, q: int| 0 <= j < cs.len() && 0 <= q < declarators_writes(t, s, fp, scope, cs)(j).len() implies ref_ok(#[trigger] declarators_writes(t, s, fp, scope, cs)(j)[q]) by {
                let c = cs[j] as int;
                if kind_of(t, c) == "variable_declarator"@ {
                    if let Some(n) = field_child(t, c, "name"@) {
                        if kind_of(t, n) != "identifier"@ && (kind_of(t, n) == "object_pattern"@ || kind_of(t, n) == "array_pattern"@) {
                            lemma_pattern_writes_carry_file(t, s, fp, scope, n, children_of(t, n).len() as int);
                        }
                    }
                }
            }
            lemma_gather_all(cs.len() as int, declarators_writes(t, s, fp, scope, cs), ref_ok);
        }
    }
    lemma_gather_all(t.nodes@.len() as int, references_by_node(t, s, fp), ref_ok);
}

/// Every write a destructuring pattern makes carries the file's path.
proof fn lemma_pattern_writes_carry_file(t: SyntaxTree, s: Seq<char>, fp: Seq<char>, scope: Option<Seq<char>>, p: int, k: int)
    ensures
        forall|q: int| 0 <= q < pattern_writes(t, s, fp, scope, p, k).len() ==> (#[trigger] pattern_writes(t, s, fp, scope, p, k)[q]).2 == fp,
    decreases t.nodes@.len() - p, k,
{
    if !(k <= 0 || !(0 <= p < t.children@.len()) || k > children_of(t, p).len()) {
        lemma_pattern_writes_carry_file(t, s, fp, scope, p, k - 1);
        let c = children_of(t, p)[k - 1] as int;
        let ck = kind_of(t, c);
        if !(ck == "shorthand_property_identifier_pattern"@ || ck == "identifier"@) && ck != "pair_pattern"@ && (ck == "object_pattern"@ || ck == "array_pattern"@) && p < c < t.nodes@.len() {
            lemma_pattern_writes_carry_file(t, s, fp, scope, c, children_of(t, c).len() as int);
        }
        let before = pattern_writes(t, s, fp, scope, p, k - 1);
        let tail = if ck == "shorthand_property_identifier_pattern"@ || ck == "identifier"@ {
            seq![write_of(t, s, fp, scope, c)]
        } else if ck == "pair_pattern"@ {
            match field_child(t, c, "value"@) {
                Some(v) => if kind_of(t, v) == "identifier"@ {
                    seq![write_of(t, s, fp, scope, v)]
                } else {
                    Seq::empty()
                },
                None => Seq::empty(),
            }
        } else if (ck == "object_pattern"@ || ck == "array_pattern"@) && p < c < t.nodes@.len() {
            pattern_writes(t, s, fp, scope, c, children_of(t, c).len() as int)
        } else {
            Seq::empty()
        };
        assert(pattern_writes(t, s, fp, scope, p, k) == before + tail);
        assert forall|q: int| 0 <= q < pattern_writes(t, s, fp, scope, p, k).len() implies (#[trigger] pattern_writes(t, s, fp, scope, p, k)[q]).2 == fp by {
            if q < before.len() {
                assert(pattern_writes(t, s, fp, scope, p, k)[q] == before[q]);
            } else {
                assert(pattern_writes(t, s, fp, scope, p, k)[q] == tail[q - before.len()]);
            }
        }
    }
}

} // verus!
