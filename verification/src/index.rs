//! Building the code graph of a project from what was extracted from each
//! of its files, and the queries the command line makes of it.
use vstd::prelude::*;
use vstd::hash_map::StringHashMap;
use petgraph::graph::NodeIndex;
use crate::extract::{ExtractionResult, RefKind, ReferenceEntry, call_view, reference_view, symbol_view};
use crate::graph::{CodeGraph, EdgeKind, NodeKind, SymbolKind, SymbolNode, indices_where, is_file_node, is_symbol_named, lemma_indices_where_step, node_index, node_ix, node_position, node_positions};
use crate::text::{decimal, decimal_string, owned, str_eq};
use crate::traverse::filter_contains;
use crate::resolve::{ResolveResult, resolve_view};

verus! {

/// A node as plain values.
pub enum NodeView {
    Symbol(Seq<char>, SymbolKind, Seq<char>, usize, Seq<char>),
    File(Seq<char>),
}

/// The plain values of a node.
pub open spec fn node_view(n: NodeKind) -> NodeView {
    match n {
        NodeKind::Symbol(s) => NodeView::Symbol(s.name@, s.kind, s.file_path@, s.line, s.module@),
        NodeKind::File(f) => NodeView::File(f.file_path@),
    }
}

/// The node a symbol becomes.
pub open spec fn symbol_node_view(s: (Seq<char>, SymbolKind, Seq<char>, usize, Seq<char>)) -> NodeView {
    NodeView::Symbol(s.0, s.1, s.2, s.3, s.4)
}

/// The nodes of a graph as plain values.
pub open spec fn nodes_view(g: CodeGraph) -> Seq<NodeView> {
    g.nodes().map_values(|n: NodeKind| node_view(n))
}

/// The table of symbol names after the symbols `syms` were added as nodes
/// from position `base` on: each name leads to the last symbol so named.
pub open spec fn names_after(names: Map<Seq<char>, usize>, base: int, syms: Seq<(Seq<char>, SymbolKind, Seq<char>, usize, Seq<char>)>) -> Map<Seq<char>, usize>
    decreases syms.len(),
{
    if syms.len() == 0 {
        names
    } else {
        names_after(names, base, syms.drop_last()).insert(syms.last().0, (base + syms.len() - 1) as usize)
    }
}

/// The call edges between named symbols, for the calls whose caller and
/// callee both have a name in the table.
pub open spec fn call_edges(names: Map<Seq<char>, usize>, calls: Seq<(Seq<char>, Seq<char>)>) -> Seq<(usize, usize, EdgeKind)>
    decreases calls.len(),
{
    if calls.len() == 0 {
        Seq::empty()
    } else {
        let c = calls.last();
        call_edges(names, calls.drop_last()) + if names.contains_key(c.0) && names.contains_key(c.1) {
            seq![(names[c.0], names[c.1], EdgeKind::Calls)]
        } else {
            Seq::empty()
        }
    }
}

/// The edge kind a reference becomes.
pub open spec fn reference_edge_kind(k: RefKind) -> EdgeKind {
    match k {
        RefKind::Read => EdgeKind::ReadsFrom,
        RefKind::Write => EdgeKind::WritesTo,
    }
}

/// The reference edges from scopes to named symbols, for the references
/// made inside a scope whose name, like the referenced name, is in the
/// table.
pub open spec fn reference_edges(names: Map<Seq<char>, usize>, refs: Seq<(Seq<char>, RefKind, Seq<char>, usize, Option<Seq<char>>)>) -> Seq<(usize, usize, EdgeKind)>
    decreases refs.len(),
{
    if refs.len() == 0 {
        Seq::empty()
    } else {
        let r = refs.last();
        reference_edges(names, refs.drop_last()) + match r.4 {
            Some(scope) => if names.contains_key(scope) && names.contains_key(r.0) {
                seq![(names[scope], names[r.0], reference_edge_kind(r.1))]
            } else {
                Seq::empty()
            },
            None => Seq::empty(),
        }
    }
}

/// The position of the file node for path `p`, if there is one.
pub open spec fn file_position(view: Seq<NodeView>, p: Seq<char>) -> Option<int> {
    if exists|i: int| 0 <= i < view.len() && view[i] == NodeView::File(p) {
        Some(choose|i: int| 0 <= i < view.len() && view[i] == NodeView::File(p))
    } else {
        None
    }
}

/// The nodes once the file node for `p` is there, and its position.
pub open spec fn with_file(view: Seq<NodeView>, p: Seq<char>) -> (Seq<NodeView>, int) {
    match file_position(view, p) {
        Some(i) => (view, i),
        None => (view.push(NodeView::File(p)), view.len() as int),
    }
}

/// The nodes and edges once an edge of kind `kind` links the file `src` to
/// each of `targets` in turn, the file nodes added as needed.
pub open spec fn link_files(view: Seq<NodeView>, edges: Seq<(usize, usize, EdgeKind)>, src: Seq<char>, targets: Seq<Seq<char>>, kind: EdgeKind) -> (Seq<NodeView>, Seq<(usize, usize, EdgeKind)>)
    decreases targets.len(),
{
    if targets.len() == 0 {
        (view, edges)
    } else {
        let before = link_files(view, edges, src, targets.drop_last(), kind);
        let a = with_file(before.0, src);
        let b = with_file(a.0, targets.last());
        (b.0, before.1.push((a.1 as usize, b.1 as usize, kind)))
    }
}

/// The files the resolved specifiers lead to, in order.
pub open spec fn resolved_targets(rs: Seq<Result<Seq<char>, Seq<char>>>) -> Seq<Seq<char>>
    decreases rs.len(),
{
    if rs.len() == 0 {
        Seq::empty()
    } else {
        resolved_targets(rs.drop_last()) + match rs.last() {
            Ok(p) => seq![p],
            Err(_) => Seq::empty(),
        }
    }
}

/// A graph under construction: the table from each symbol name to the
/// node of the last symbol added under it, and the calls and references
/// seen so far, which are linked once every file's symbols are in.
pub struct GraphBuilder {
    graph: CodeGraph,
    names: StringHashMap<usize>,
    calls: Vec<(String, String)>,
    references: Vec<ReferenceEntry>,
}

impl GraphBuilder {
    /// The graph built so far.
    pub closed spec fn graph_spec(&self) -> CodeGraph {
        self.graph
    }

    /// The table of symbol names.
    pub closed spec fn names(&self) -> Map<Seq<char>, usize> {
        self.names@
    }

    /// The calls seen so far, not yet linked.
    pub closed spec fn pending_calls(&self) -> Seq<(Seq<char>, Seq<char>)> {
        self.calls@.map_values(|c: (String, String)| call_view(c))
    }

    /// The references seen so far, not yet linked.
    pub closed spec fn pending_references(&self) -> Seq<(Seq<char>, RefKind, Seq<char>, usize, Option<Seq<char>>)> {
        self.references@.map_values(|r: ReferenceEntry| reference_view(r))
    }

    /// The graph is well formed and every name leads to one of its nodes.
    pub closed spec fn wf(&self) -> bool {
        &&& self.graph.wf()
        &&& forall|k: Seq<char>| #[trigger] self.names@.contains_key(k) ==> self.names@[k] < self.graph.nodes().len()
    }

    /// What a well-formed builder guarantees.
    pub proof fn lemma_wf(&self)
        requires
            self.wf(),
        ensures
            self.graph_spec().wf(),
            forall|k: Seq<char>| #[trigger] self.names().contains_key(k) ==> self.names()[k] < self.graph_spec().nodes().len(),
    {
    }

    /// An empty graph with an empty table.
    pub fn new() -> (r: GraphBuilder)
        ensures
            r.wf(),
            r.graph_spec().nodes().len() == 0,
            r.graph_spec().edges().len() == 0,
            r.names() == Map::<Seq<char>, usize>::empty(),
            r.pending_calls() == Seq::<(Seq<char>, Seq<char>)>::empty(),
            r.pending_references() == Seq::<(Seq<char>, RefKind, Seq<char>, usize, Option<Seq<char>>)>::empty(),
    {
        let r = GraphBuilder { graph: CodeGraph::new(), names: StringHashMap::new(), calls: Vec::new(), references: Vec::new() };
        assert(r.pending_calls() =~= Seq::<(Seq<char>, Seq<char>)>::empty());
        assert(r.pending_references() =~= Seq::<(Seq<char>, RefKind, Seq<char>, usize, Option<Seq<char>>)>::empty());
        r
    }

    /// The graph built so far.
    pub fn graph(&self) -> (g: &CodeGraph)
        ensures
            *g == self.graph_spec(),
    {
        &self.graph
    }

    /// The numbers of calls and of references not yet linked.
    pub fn pending_counts(&self) -> (r: (usize, usize))
        ensures
            r.0 == self.pending_calls().len(),
            r.1 == self.pending_references().len(),
    {
        (self.calls.len(), self.references.len())
    }
}

/// A copy of a reference.
fn copy_reference(r: &ReferenceEntry) -> (c: ReferenceEntry)
    ensures
        reference_view(c) == reference_view(*r),
{
    let scope = match &r.enclosing_scope {
        Some(x) => Some(x.clone()),
        None => None,
    };
    ReferenceEntry { symbol_name: r.symbol_name.clone(), kind: r.kind, file_path: r.file_path.clone(), line: r.line, enclosing_scope: scope }
}

/// A copy of a symbol.
fn copy_symbol(s: &SymbolNode) -> (r: SymbolNode)
    ensures
        symbol_view(r) == symbol_view(*s),
{
    SymbolNode { name: s.name.clone(), kind: s.kind, file_path: s.file_path.clone(), line: s.line, module: s.module.clone() }
}

/// What adding a file node does to the nodes, as `with_file` says.
proof fn lemma_add_file_view(before: CodeGraph, after: CodeGraph, p: Seq<char>, n: int)
    requires
        before.wf(),
        after.wf(),
        0 <= n,
        (exists|i: int| 0 <= i < before.nodes().len() && is_file_node(#[trigger] before.nodes()[i], p)) ==> {
            &&& after.nodes() == before.nodes()
            &&& n < before.nodes().len()
            &&& is_file_node(before.nodes()[n], p)
        },
        !(exists|i: int| 0 <= i < before.nodes().len() && is_file_node(#[trigger] before.nodes()[i], p)) ==> {
            &&& after.nodes().len() == before.nodes().len() + 1
            &&& after.nodes().take(before.nodes().len() as int) == before.nodes()
            &&& is_file_node(after.nodes().last(), p)
            &&& n == before.nodes().len()
        },
    ensures
        nodes_view(after) == with_file(nodes_view(before), p).0,
        n == with_file(nodes_view(before), p).1,
        0 <= n < after.nodes().len(),
{
    before.lemma_wf();
    let v = nodes_view(before);
    assert forall|i: int| 0 <= i < v.len() implies (v[i] == NodeView::File(p) <==> is_file_node(before.nodes()[i], p)) by {
        assert(v[i] == node_view(before.nodes()[i]));
    }
    if exists|i: int| 0 <= i < before.nodes().len() && is_file_node(#[trigger] before.nodes()[i], p) {
        assert(v[n] == NodeView::File(p));
        let j = choose|i: int| 0 <= i < v.len() && v[i] == NodeView::File(p);
        assert(is_file_node(before.nodes()[j], p));
        assert(j == n);
    } else {
        assert(!(exists|i: int| 0 <= i < v.len() && v[i] == NodeView::File(p)));
        assert(nodes_view(after) =~= v.push(NodeView::File(p))) by {
            assert forall|i: int| 0 <= i < v.len() implies nodes_view(after)[i] == v[i] by {
                assert(after.nodes()[i] == after.nodes().take(before.nodes().len() as int)[i]);
            }
        }
    }
}

impl GraphBuilder {
    /// Adds the symbols as nodes, in order, each name then leading to the
    /// last symbol added under it.
    fn add_symbols(&mut self, syms: &Vec<SymbolNode>)
        requires
            old(self).wf(),
            old(self).graph_spec().nodes().len() + syms@.len() <= u32::MAX,
        ensures
            final(self).wf(),
            nodes_view(final(self).graph_spec()) == nodes_view(old(self).graph_spec()) + syms@.map_values(|x: SymbolNode| symbol_node_view(symbol_view(x))),
            final(self).graph_spec().edges() == old(self).graph_spec().edges(),
            final(self).graph_spec().nodes().len() == old(self).graph_spec().nodes().len() + syms@.len(),
            final(self).calls == old(self).calls,
            final(self).references == old(self).references,
            final(self).names() == names_after(old(self).names(), old(self).graph_spec().nodes().len() as int, syms@.map_values(|x: SymbolNode| symbol_view(x))),
    {
        let ghost v0 = nodes_view(self.graph);
        let ghost n0 = old(self).names();
        let ghost base = self.graph.nodes().len() as int;
        let ghost views = syms@.map_values(|x: SymbolNode| symbol_view(x));
        let mut k: usize = 0;
        assert(v0 + syms@.take(0).map_values(|x: SymbolNode| symbol_node_view(symbol_view(x))) =~= v0);
        assert(views.take(0) =~= Seq::<(Seq<char>, SymbolKind, Seq<char>, usize, Seq<char>)>::empty());
        while k < syms.len()
            invariant
                self.wf(),
                views == syms@.map_values(|x: SymbolNode| symbol_view(x)),
                self.calls == old(self).calls,
                self.references == old(self).references,
                k <= syms@.len(),
                base + syms@.len() <= u32::MAX,
                self.graph.nodes().len() == base + k,
                nodes_view(self.graph) == v0 + syms@.take(k as int).map_values(|x: SymbolNode| symbol_node_view(symbol_view(x))),
                self.graph.edges() == old(self).graph_spec().edges(),
                self.names@ == names_after(n0, base, views.take(k as int)),
            decreases syms.len() - k,
        {
            let sym = copy_symbol(&syms[k]);
            let name = sym.name.clone();
            let ghost g0 = self.graph;
            let n = self.graph.add_symbol(sym);
            let i = node_position(n);
            self.names.insert(name, i);
            proof {
                assert(nodes_view(self.graph) =~= nodes_view(g0).push(symbol_node_view(symbol_view(syms@[k as int]))));
                assert(syms@.take(k + 1).map_values(|x: SymbolNode| symbol_node_view(symbol_view(x))) =~= syms@.take(k as int).map_values(|x: SymbolNode| symbol_node_view(symbol_view(x))).push(symbol_node_view(symbol_view(syms@[k as int]))));
                assert(views.take(k + 1).drop_last() =~= views.take(k as int));
                assert(views.take(k + 1).last() == symbol_view(syms@[k as int]));
            }
            k = k + 1;
        }
        assert(syms@.take(syms@.len() as int) =~= syms@);
        assert(views.take(views.len() as int) =~= views);
    }

    /// Adds a call edge for each call whose caller and callee have a name in
    /// the table.
    fn add_calls(&mut self, calls: &Vec<(String, String)>)
        requires
            old(self).wf(),
            old(self).graph_spec().edges().len() + calls@.len() < u32::MAX,
        ensures
            final(self).wf(),
            final(self).graph_spec().nodes() == old(self).graph_spec().nodes(),
            final(self).graph_spec().edges() == old(self).graph_spec().edges() + call_edges(old(self).names(), calls@.map_values(|c: (String, String)| call_view(c))),
            final(self).graph_spec().edges().len() <= old(self).graph_spec().edges().len() + calls@.len(),
            final(self).names() == old(self).names(),
    {
        let ghost e0 = self.graph.edges();
        let ghost views = calls@.map_values(|c: (String, String)| call_view(c));
        let mut k: usize = 0;
        assert(e0 + call_edges(self.names@, views.take(0)) =~= e0);
        while k < calls.len()
            invariant
                self.wf(),
                views == calls@.map_values(|c: (String, String)| call_view(c)),
                k <= calls@.len(),
                e0.len() + calls@.len() < u32::MAX,
                self.graph.nodes() == old(self).graph_spec().nodes(),
                self.names@ == old(self).names(),
                self.graph.edges() == e0 + call_edges(self.names@, views.take(k as int)),
                call_edges(self.names@, views.take(k as int)).len() <= k,
            decreases calls.len() - k,
        {
            proof {
                self.graph.lemma_wf();
                assert(views.take(k + 1).drop_last() =~= views.take(k as int));
                assert(views.take(k + 1).last() == call_view(calls@[k as int]));
            }
            let (caller, callee) = (&calls[k].0, &calls[k].1);
            match (self.names.get(caller.as_str()), self.names.get(callee.as_str())) {
                (Some(a), Some(b)) => {
                    let (a, b) = (*a, *b);
                    self.graph.add_call(node_index(a), node_index(b));
                    assert(self.graph.edges() =~= e0 + call_edges(self.names@, views.take(k + 1)));
                },
                _ => {
                    assert(self.graph.edges() =~= e0 + call_edges(self.names@, views.take(k + 1)));
                },
            }
            k = k + 1;
        }
        assert(views.take(views.len() as int) =~= views);
    }

    /// Adds a reference edge from the scope to the symbol for each
    /// reference inside a scope whose name, like the symbol's, is in the
    /// table.
    fn add_references(&mut self, refs: &Vec<ReferenceEntry>)
        requires
            old(self).wf(),
            old(self).graph_spec().edges().len() + refs@.len() < u32::MAX,
        ensures
            final(self).wf(),
            final(self).graph_spec().nodes() == old(self).graph_spec().nodes(),
            final(self).graph_spec().edges() == old(self).graph_spec().edges() + reference_edges(old(self).names(), refs@.map_values(|r: ReferenceEntry| reference_view(r))),
            final(self).graph_spec().edges().len() <= old(self).graph_spec().edges().len() + refs@.len(),
            final(self).names() == old(self).names(),
    {
        let ghost e0 = self.graph.edges();
        let ghost views = refs@.map_values(|r: ReferenceEntry| reference_view(r));
        let mut k: usize = 0;
        assert(e0 + reference_edges(self.names@, views.take(0)) =~= e0);
        while k < refs.len()
            invariant
                self.wf(),
                views == refs@.map_values(|r: ReferenceEntry| reference_view(r)),
                k <= refs@.len(),
                e0.len() + refs@.len() < u32::MAX,
                self.graph.nodes() == old(self).graph_spec().nodes(),
                self.names@ == old(self).names(),
                self.graph.edges() == e0 + reference_edges(self.names@, views.take(k as int)),
                reference_edges(self.names@, views.take(k as int)).len() <= k,
            decreases refs.len() - k,
        {
            proof {
                self.graph.lemma_wf();
                assert(views.take(k + 1).drop_last() =~= views.take(k as int));
                assert(views.take(k + 1).last() == reference_view(refs@[k as int]));
            }
            let r = &refs[k];
            match &r.enclosing_scope {
                Some(scope) => {
                    match (self.names.get(scope.as_str()), self.names.get(r.symbol_name.as_str())) {
                        (Some(a), Some(b)) => {
                            let (a, b) = (*a, *b);
                            let kind = match r.kind {
                                RefKind::Read => EdgeKind::ReadsFrom,
                                RefKind::Write => EdgeKind::WritesTo,
                            };
                            self.graph.add_reference(node_index(a), node_index(b), kind);
                            assert(self.graph.edges() =~= e0 + reference_edges(self.names@, views.take(k + 1)));
                        },
                        _ => {
                            assert(self.graph.edges() =~= e0 + reference_edges(self.names@, views.take(k + 1)));
                        },
                    }
                },
                None => {
                    assert(self.graph.edges() =~= e0 + reference_edges(self.names@, views.take(k + 1)));
                },
            }
            k = k + 1;
        }
        assert(views.take(views.len() as int) =~= views);
    }
}

impl GraphBuilder {
    /// Links the file `src` to each file a specifier resolved to, in order,
    /// by an edge of kind `kind`, adding the file nodes as needed.
    fn link(&mut self, src: &str, targets: &Vec<ResolveResult>, kind: EdgeKind)
        requires
            old(self).wf(),
            kind == EdgeKind::Imports || kind == EdgeKind::Exports,
            old(self).graph_spec().nodes().len() + 2 * targets@.len() < u32::MAX,
            old(self).graph_spec().edges().len() + targets@.len() < u32::MAX,
        ensures
            final(self).wf(),
            (nodes_view(final(self).graph_spec()), final(self).graph_spec().edges()) == link_files(nodes_view(old(self).graph_spec()), old(self).graph_spec().edges(), src@, resolved_targets(targets@.map_values(|r: ResolveResult| resolve_view(r))), kind),
            final(self).names() == old(self).names(),
            final(self).graph_spec().nodes().len() <= old(self).graph_spec().nodes().len() + 2 * targets@.len(),
            final(self).graph_spec().edges().len() <= old(self).graph_spec().edges().len() + targets@.len(),
            final(self).calls == old(self).calls,
            final(self).references == old(self).references,
    {
        let ghost v0 = nodes_view(self.graph);
        let ghost e0 = self.graph.edges();
        let ghost n0 = self.graph.nodes().len();
        let ghost views = targets@.map_values(|r: ResolveResult| resolve_view(r));
        let mut k: usize = 0;
        assert(views.take(0) =~= Seq::<Result<Seq<char>, Seq<char>>>::empty());
        while k < targets.len()
            invariant
                self.wf(),
                kind == EdgeKind::Imports || kind == EdgeKind::Exports,
                views == targets@.map_values(|r: ResolveResult| resolve_view(r)),
                self.calls == old(self).calls,
                self.references == old(self).references,
                k <= targets@.len(),
                n0 + 2 * targets@.len() < u32::MAX,
                e0.len() + targets@.len() < u32::MAX,
                self.graph.nodes().len() <= n0 + 2 * k,
                self.graph.edges().len() <= e0.len() + k,
                self.names@ == old(self).names(),
                (nodes_view(self.graph), self.graph.edges()) == link_files(v0, e0, src@, resolved_targets(views.take(k as int)), kind),
            decreases targets.len() - k,
        {
            proof {
                assert(views.take(k + 1).drop_last() =~= views.take(k as int));
                assert(views.take(k + 1).last() == resolve_view(targets@[k as int]));
            }
            match &targets[k] {
                ResolveResult::Resolved(t) => {
                    let ghost g0 = self.graph;
                    let ghost rt = resolved_targets(views.take(k as int));
                    let a = self.graph.add_file(src);
                    proof {
                        lemma_add_file_view(g0, self.graph, src@, node_ix(a) as int);
                    }
                    let ghost g1 = self.graph;
                    let b = self.graph.add_file(t.as_str());
                    proof {
                        lemma_add_file_view(g1, self.graph, t@, node_ix(b) as int);
                    }
                    if kind == EdgeKind::Imports {
                        self.graph.add_import(a, b);
                    } else {
                        self.graph.add_export(a, b);
                    }
                    proof {
                        assert(resolved_targets(views.take(k + 1)) == rt + seq![t@]);
                        assert((rt + seq![t@]).drop_last() =~= rt);
                        assert((rt + seq![t@]).last() == t@);
                    }
                },
                ResolveResult::External(_) => {
                    assert(resolved_targets(views.take(k + 1)) =~= resolved_targets(views.take(k as int)));
                },
            }
            k = k + 1;
        }
        assert(views.take(views.len() as int) =~= views);
    }

    /// Adds what was extracted from the file at `src_path`: its symbols,
    /// then an import edge from the file to each file an import resolved
    /// to, and an export edge to each file a re-export resolved to. Its
    /// calls and references are kept until `finish`, so that they are
    /// linked to symbols of files added later too.
    pub fn add_file_facts(&mut self, facts: &ExtractionResult, src_path: &str, imports: &Vec<ResolveResult>, reexports: &Vec<ResolveResult>)
        requires
            old(self).wf(),
            old(self).graph_spec().nodes().len() + facts.symbols@.len() + 2 * imports@.len() + 2 * reexports@.len() < u32::MAX,
            old(self).graph_spec().edges().len() + imports@.len() + reexports@.len() < u32::MAX,
        ensures
            final(self).wf(),
            ({
                let names = names_after(old(self).names(), old(self).graph_spec().nodes().len() as int, facts.symbols@.map_values(|x: SymbolNode| symbol_view(x)));
                let v1 = nodes_view(old(self).graph_spec()) + facts.symbols@.map_values(|x: SymbolNode| symbol_node_view(symbol_view(x)));
                let l1 = link_files(v1, old(self).graph_spec().edges(), src_path@, resolved_targets(imports@.map_values(|r: ResolveResult| resolve_view(r))), EdgeKind::Imports);
                let l2 = link_files(l1.0, l1.1, src_path@, resolved_targets(reexports@.map_values(|r: ResolveResult| resolve_view(r))), EdgeKind::Exports);
                &&& final(self).names() == names
                &&& nodes_view(final(self).graph_spec()) == l2.0
                &&& final(self).graph_spec().edges() == l2.1
            }),
            final(self).pending_calls() == old(self).pending_calls() + facts.calls@.map_values(|c: (String, String)| call_view(c)),
            final(self).pending_references() == old(self).pending_references() + facts.references@.map_values(|r: ReferenceEntry| reference_view(r)),
    {
        self.add_symbols(&facts.symbols);
        self.link(src_path, imports, EdgeKind::Imports);
        self.link(src_path, reexports, EdgeKind::Exports);
        let ghost c0 = self.calls@;
        let ghost g1 = self.graph;
        let ghost n1 = self.names@;
        let mut k: usize = 0;
        while k < facts.calls.len()
            invariant
                self.graph == g1,
                self.names@ == n1,
                self.references == old(self).references,
                k <= facts.calls@.len(),
                self.calls@.map_values(|c: (String, String)| call_view(c)) == c0.map_values(|c: (String, String)| call_view(c)) + facts.calls@.take(k as int).map_values(|c: (String, String)| call_view(c)),
            decreases facts.calls.len() - k,
        {
            let c = (facts.calls[k].0.clone(), facts.calls[k].1.clone());
            let ghost before = self.calls@;
            self.calls.push(c);
            assert(facts.calls@.take(k + 1) =~= facts.calls@.take(k as int).push(facts.calls@[k as int]));
            assert(self.calls@.map_values(|c: (String, String)| call_view(c)) =~= before.map_values(|c: (String, String)| call_view(c)).push(call_view(facts.calls@[k as int])));
            k = k + 1;
        }
        assert(facts.calls@.take(facts.calls@.len() as int) =~= facts.calls@);
        let ghost r0 = self.references@;
        let ghost c1 = self.calls@;
        let mut k: usize = 0;
        while k < facts.references.len()
            invariant
                self.graph == g1,
                self.names@ == n1,
                self.calls@ == c1,
                k <= facts.references@.len(),
                self.references@.map_values(|r: ReferenceEntry| reference_view(r)) == r0.map_values(|r: ReferenceEntry| reference_view(r)) + facts.references@.take(k as int).map_values(|r: ReferenceEntry| reference_view(r)),
            decreases facts.references.len() - k,
        {
            let c = copy_reference(&facts.references[k]);
            let ghost before = self.references@;
            self.references.push(c);
            assert(facts.references@.take(k + 1) =~= facts.references@.take(k as int).push(facts.references@[k as int]));
            assert(self.references@.map_values(|r: ReferenceEntry| reference_view(r)) =~= before.map_values(|r: ReferenceEntry| reference_view(r)).push(reference_view(facts.references@[k as int])));
            k = k + 1;
        }
        assert(facts.references@.take(facts.references@.len() as int) =~= facts.references@);
    }

    /// The graph built: every call and reference kept is linked, by the
    /// final table of names, after the edges there are.
    pub fn finish(self) -> (g: CodeGraph)
        requires
            self.wf(),
            self.graph_spec().edges().len() + self.pending_calls().len() + self.pending_references().len() < u32::MAX,
        ensures
            g.wf(),
            g.nodes() == self.graph_spec().nodes(),
            g.edges() == self.graph_spec().edges() + call_edges(self.names(), self.pending_calls()) + reference_edges(self.names(), self.pending_references()),
            forall|k: int| 0 <= k < self.pending_calls().len() && self.names().contains_key(#[trigger] self.pending_calls()[k].0) && self.names().contains_key(self.pending_calls()[k].1)
                ==> g.edges().contains((self.names()[self.pending_calls()[k].0], self.names()[self.pending_calls()[k].1], EdgeKind::Calls)),
            forall|k: int| 0 <= k < self.pending_references().len() && (#[trigger] self.pending_references()[k]).4 is Some && self.names().contains_key(self.pending_references()[k].4->Some_0) && self.names().contains_key(self.pending_references()[k].0)
                ==> g.edges().contains((self.names()[self.pending_references()[k].4->Some_0], self.names()[self.pending_references()[k].0], reference_edge_kind(self.pending_references()[k].1))),
    {
        let GraphBuilder { graph, names, calls, references } = self;
        let mut b = GraphBuilder { graph, names, calls: Vec::new(), references: Vec::new() };
        let ghost e0 = b.graph.edges();
        b.add_calls(&calls);
        b.add_references(&references);
        let ghost ce = call_edges(b.names@, calls@.map_values(|c: (String, String)| call_view(c)));
        let ghost re = reference_edges(b.names@, references@.map_values(|r: ReferenceEntry| reference_view(r)));
        assert(b.graph.edges() =~= e0 + ce + re);
        proof {
            let pc = calls@.map_values(|c: (String, String)| call_view(c));
            let pr = references@.map_values(|r: ReferenceEntry| reference_view(r));
            let names = b.names@;
            assert forall|k: int| 0 <= k < pc.len() && names.contains_key(#[trigger] pc[k].0) && names.contains_key(pc[k].1)
                implies b.graph.edges().contains((names[pc[k].0], names[pc[k].1], EdgeKind::Calls)) by {
                lemma_calls_linked(names, pc, k);
                let j = choose|j: int| 0 <= j < ce.len() && ce[j] == (names[pc[k].0], names[pc[k].1], EdgeKind::Calls);
                assert(b.graph.edges()[e0.len() + j] == ce[j]);
            }
            assert forall|k: int| 0 <= k < pr.len() && (#[trigger] pr[k]).4 is Some && names.contains_key(pr[k].4->Some_0) && names.contains_key(pr[k].0)
                implies b.graph.edges().contains((names[pr[k].4->Some_0], names[pr[k].0], reference_edge_kind(pr[k].1))) by {
                lemma_references_linked(names, pr, k);
                let want = (names[pr[k].4->Some_0], names[pr[k].0], reference_edge_kind(pr[k].1));
                let j = choose|j: int| 0 <= j < re.len() && re[j] == want;
                assert(b.graph.edges()[e0.len() + ce.len() + j] == re[j]);
            }
        }
        b.graph
    }
}

/// Every call kept whose caller and callee both have a name in the table
/// becomes a call edge between their nodes.
pub proof fn lemma_calls_linked(names: Map<Seq<char>, usize>, calls: Seq<(Seq<char>, Seq<char>)>, k: int)
    requires
        0 <= k < calls.len(),
        names.contains_key(calls[k].0),
        names.contains_key(calls[k].1),
    ensures
        call_edges(names, calls).contains((names[calls[k].0], names[calls[k].1], EdgeKind::Calls)),
    decreases calls.len(),
{
    let rest = calls.drop_last();
    let tail = if names.contains_key(calls.last().0) && names.contains_key(calls.last().1) {
        seq![(names[calls.last().0], names[calls.last().1], EdgeKind::Calls)]
    } else {
        Seq::empty()
    };
    assert(call_edges(names, calls) == call_edges(names, rest) + tail);
    if k == calls.len() - 1 {
        assert(call_edges(names, calls)[call_edges(names, rest).len() as int] == (names[calls[k].0], names[calls[k].1], EdgeKind::Calls));
    } else {
        assert(rest[k] == calls[k]);
        lemma_calls_linked(names, rest, k);
        let j = choose|j: int| 0 <= j < call_edges(names, rest).len() && call_edges(names, rest)[j] == (names[calls[k].0], names[calls[k].1], EdgeKind::Calls);
        assert(call_edges(names, calls)[j] == call_edges(names, rest)[j]);
    }
}

/// Every reference kept inside a scope whose name, like the referenced
/// one, is in the table becomes a reference edge of its kind from the
/// scope's node to the symbol's.
pub proof fn lemma_references_linked(names: Map<Seq<char>, usize>, refs: Seq<(Seq<char>, RefKind, Seq<char>, usize, Option<Seq<char>>)>, k: int)
    requires
        0 <= k < refs.len(),
        refs[k].4 matches Some(scope) && names.contains_key(scope),
        names.contains_key(refs[k].0),
    ensures
        reference_edges(names, refs).contains((names[refs[k].4->Some_0], names[refs[k].0], reference_edge_kind(refs[k].1))),
    decreases refs.len(),
{
    let rest = refs.drop_last();
    let r = refs.last();
    let tail = match r.4 {
        Some(scope) => if names.contains_key(scope) && names.contains_key(r.0) {
            seq![(names[scope], names[r.0], reference_edge_kind(r.1))]
        } else {
            Seq::empty()
        },
        None => Seq::empty(),
    };
    assert(reference_edges(names, refs) == reference_edges(names, rest) + tail);
    let want = (names[refs[k].4->Some_0], names[refs[k].0], reference_edge_kind(refs[k].1));
    if k == refs.len() - 1 {
        assert(reference_edges(names, refs)[reference_edges(names, rest).len() as int] == want);
    } else {
        assert(rest[k] == refs[k]);
        lemma_references_linked(names, rest, k);
        let j = choose|j: int| 0 <= j < reference_edges(names, rest).len() && reference_edges(names, rest)[j] == want;
        assert(reference_edges(names, refs)[j] == reference_edges(names, rest)[j]);
    }
}

/// What is known of one file when the graph is built: the path its edges
/// name it by, what was extracted from it, and where its imports and
/// re-exports lead.
pub struct FileFacts {
    pub path: String,
    pub facts: ExtractionResult,
    pub imports: Vec<ResolveResult>,
    pub reexports: Vec<ResolveResult>,
}

/// A builder's contents as plain values: the table of names, the nodes,
/// the edges, and the calls and references kept.
pub type BuildView = (
    Map<Seq<char>, usize>,
    Seq<NodeView>,
    Seq<(usize, usize, EdgeKind)>,
    Seq<(Seq<char>, Seq<char>)>,
    Seq<(Seq<char>, RefKind, Seq<char>, usize, Option<Seq<char>>)>,
);

/// The contents of a builder as plain values.
pub open spec fn build_view(b: GraphBuilder) -> BuildView {
    (b.names(), nodes_view(b.graph_spec()), b.graph_spec().edges(), b.pending_calls(), b.pending_references())
}

/// The contents once the facts of `f` are added to `st` (see
/// `GraphBuilder::add_file_facts`).
pub open spec fn after_file(st: BuildView, f: FileFacts) -> BuildView {
    let names = names_after(st.0, st.1.len() as int, f.facts.symbols@.map_values(|x: SymbolNode| symbol_view(x)));
    let v1 = st.1 + f.facts.symbols@.map_values(|x: SymbolNode| symbol_node_view(symbol_view(x)));
    let l1 = link_files(v1, st.2, f.path@, resolved_targets(f.imports@.map_values(|r: ResolveResult| resolve_view(r))), EdgeKind::Imports);
    let l2 = link_files(l1.0, l1.1, f.path@, resolved_targets(f.reexports@.map_values(|r: ResolveResult| resolve_view(r))), EdgeKind::Exports);
    (
        names,
        l2.0,
        l2.1,
        st.3 + f.facts.calls@.map_values(|c: (String, String)| call_view(c)),
        st.4 + f.facts.references@.map_values(|r: ReferenceEntry| reference_view(r)),
    )
}

/// The contents once the facts of the first `k` files are added to an
/// empty builder.
pub open spec fn built(files: Seq<FileFacts>, k: int) -> BuildView
    decreases k,
{
    if k <= 0 {
        (Map::empty(), Seq::empty(), Seq::empty(), Seq::empty(), Seq::empty())
    } else {
        after_file(built(files, k - 1), files[k - 1])
    }
}

/// The edges of the finished graph: the import and export edges, then the
/// call edges, then the reference edges.
pub open spec fn finished_edges(st: BuildView) -> Seq<(usize, usize, EdgeKind)> {
    st.2 + call_edges(st.0, st.3) + reference_edges(st.0, st.4)
}

/// Adding the facts of `f` to `st` keeps the graph within petgraph's
/// limit on indices, counting each import and re-export as two new nodes.
pub open spec fn file_fits(st: BuildView, f: FileFacts) -> bool {
    &&& st.1.len() + f.facts.symbols@.len() + 2 * f.imports@.len() + 2 * f.reexports@.len() < u32::MAX
    &&& st.2.len() + f.imports@.len() + f.reexports@.len() < u32::MAX
}

/// Every file's facts, and then every kept call and reference, fit within
/// petgraph's limit on indices.
pub open spec fn build_fits(files: Seq<FileFacts>) -> bool {
    &&& forall|k: int| 0 <= k < files.len() ==> file_fits(#[trigger] built(files, k), files[k])
    &&& built(files, files.len() as int).2.len() + built(files, files.len() as int).3.len() + built(files, files.len() as int).4.len() < u32::MAX
}

/// The code graph of the files, in order: the symbols, import and export
/// edges of each file, then the call and reference edges linked by the
/// final table of names. `None` exactly when the graph would outgrow
/// petgraph's indices (see `build_fits`).
pub fn build_graph(files: &Vec<FileFacts>) -> (r: Option<CodeGraph>)
    ensures
        r is Some <==> build_fits(files@),
        r matches Some(g) ==> g.wf() && nodes_view(g) == built(files@, files@.len() as int).1 && g.edges() == finished_edges(built(files@, files@.len() as int)),
{
    let mut b = GraphBuilder::new();
    assert(build_view(b) =~= built(files@, 0));
    let mut k: usize = 0;
    while k < files.len()
        invariant
            k <= files@.len(),
            b.wf(),
            build_view(b) == built(files@, k as int),
            forall|j: int| 0 <= j < k ==> file_fits(#[trigger] built(files@, j), files@[j]),
        decreases files.len() - k,
    {
        let f = &files[k];
        let g = b.graph();
        let nodes: u128 = g.node_count() as u128 + f.facts.symbols.len() as u128 + 2 * (f.imports.len() as u128) + 2 * (f.reexports.len() as u128);
        let edges: u128 = g.edge_count() as u128 + f.imports.len() as u128 + f.reexports.len() as u128;
        proof {
            b.lemma_wf();
        }
        if nodes >= u32::MAX as u128 || edges >= u32::MAX as u128 {
            assert(!file_fits(built(files@, k as int), files@[k as int]));
            return None;
        }
        b.add_file_facts(&f.facts, f.path.as_str(), &f.imports, &f.reexports);
        assert(build_view(b) =~= after_file(built(files@, k as int), files@[k as int]));
        k = k + 1;
    }
    let (calls, references) = b.pending_counts();
    let edges: u128 = b.graph().edge_count() as u128 + calls as u128 + references as u128;
    if edges >= u32::MAX as u128 {
        return None;
    }
    let g = b.finish();
    Some(g)
}

/// The number of edges of kind `kind`.
pub open spec fn kind_count(edges: Seq<(usize, usize, EdgeKind)>, kind: EdgeKind) -> nat
    decreases edges.len(),
{
    if edges.len() == 0 {
        0
    } else {
        kind_count(edges.drop_last(), kind) + if edges.last().2 == kind { 1nat } else { 0nat }
    }
}

/// The number of imports of the first `k` files that resolved to a file.
pub open spec fn imports_resolved(files: Seq<FileFacts>, k: int) -> nat
    decreases k,
{
    if k <= 0 {
        0
    } else {
        imports_resolved(files, k - 1) + resolved_targets(files[k - 1].imports@.map_values(|r: ResolveResult| resolve_view(r))).len()
    }
}

/// The number of re-exports of the first `k` files that resolved to a
/// file.
pub open spec fn reexports_resolved(files: Seq<FileFacts>, k: int) -> nat
    decreases k,
{
    if k <= 0 {
        0
    } else {
        reexports_resolved(files, k - 1) + resolved_targets(files[k - 1].reexports@.map_values(|r: ResolveResult| resolve_view(r))).len()
    }
}

/// Counting edges of a kind adds over concatenation.
proof fn lemma_kind_count_add(a: Seq<(usize, usize, EdgeKind)>, b: Seq<(usize, usize, EdgeKind)>, kind: EdgeKind)
    ensures
        kind_count(a + b, kind) == kind_count(a, kind) + kind_count(b, kind),
    decreases b.len(),
{
    if b.len() > 0 {
        assert((a + b).drop_last() =~= a + b.drop_last());
        lemma_kind_count_add(a, b.drop_last(), kind);
    } else {
        assert(a + b =~= a);
    }
}

/// Linking to targets adds one edge of its kind per target and none of
/// another kind.
proof fn lemma_link_count(view: Seq<NodeView>, edges: Seq<(usize, usize, EdgeKind)>, src: Seq<char>, targets: Seq<Seq<char>>, kind: EdgeKind, other: EdgeKind)
    ensures
        kind_count(link_files(view, edges, src, targets, kind).1, kind) == kind_count(edges, kind) + targets.len(),
        other != kind ==> kind_count(link_files(view, edges, src, targets, kind).1, other) == kind_count(edges, other),
    decreases targets.len(),
{
    if targets.len() > 0 {
        lemma_link_count(view, edges, src, targets.drop_last(), kind, other);
        let before = link_files(view, edges, src, targets.drop_last(), kind);
        let after = link_files(view, edges, src, targets, kind);
        assert(after.1.drop_last() =~= before.1);
    }
}

/// Call edges are all of kind `Calls`.
proof fn lemma_call_edges_kinds(names: Map<Seq<char>, usize>, calls: Seq<(Seq<char>, Seq<char>)>, kind: EdgeKind)
    requires
        kind != EdgeKind::Calls,
    ensures
        kind_count(call_edges(names, calls), kind) == 0,
    decreases calls.len(),
{
    if calls.len() > 0 {
        lemma_call_edges_kinds(names, calls.drop_last(), kind);
        let c = calls.last();
        let tail = if names.contains_key(c.0) && names.contains_key(c.1) {
            seq![(names[c.0], names[c.1], EdgeKind::Calls)]
        } else {
            Seq::empty()
        };
        lemma_kind_count_add(call_edges(names, calls.drop_last()), tail, kind);
        reveal_with_fuel(kind_count, 2);
    }
}

/// Reference edges are all reads or writes.
proof fn lemma_reference_edges_kinds(names: Map<Seq<char>, usize>, refs: Seq<(Seq<char>, RefKind, Seq<char>, usize, Option<Seq<char>>)>, kind: EdgeKind)
    requires
        kind != EdgeKind::ReadsFrom,
        kind != EdgeKind::WritesTo,
    ensures
        kind_count(reference_edges(names, refs), kind) == 0,
    decreases refs.len(),
{
    if refs.len() > 0 {
        lemma_reference_edges_kinds(names, refs.drop_last(), kind);
        let r = refs.last();
        let tail = match r.4 {
            Some(scope) => if names.contains_key(scope) && names.contains_key(r.0) {
                seq![(names[scope], names[r.0], reference_edge_kind(r.1))]
            } else {
                Seq::empty()
            },
            None => Seq::empty(),
        };
        lemma_kind_count_add(reference_edges(names, refs.drop_last()), tail, kind);
        reveal_with_fuel(kind_count, 2);
    }
}

/// The import and export edges after `k` files count their resolved
/// imports and re-exports.
proof fn lemma_built_counts(files: Seq<FileFacts>, k: int)
    requires
        0 <= k <= files.len(),
    ensures
        kind_count(built(files, k).2, EdgeKind::Imports) == imports_resolved(files, k),
        kind_count(built(files, k).2, EdgeKind::Exports) == reexports_resolved(files, k),
    decreases k,
{
    if k > 0 {
        lemma_built_counts(files, k - 1);
        let st = built(files, k - 1);
        let f = files[k - 1];
        let v1 = st.1 + f.facts.symbols@.map_values(|x: SymbolNode| symbol_node_view(symbol_view(x)));
        let ti = resolved_targets(f.imports@.map_values(|r: ResolveResult| resolve_view(r)));
        let te = resolved_targets(f.reexports@.map_values(|r: ResolveResult| resolve_view(r)));
        let l1 = link_files(v1, st.2, f.path@, ti, EdgeKind::Imports);
        lemma_link_count(v1, st.2, f.path@, ti, EdgeKind::Imports, EdgeKind::Exports);
        lemma_link_count(l1.0, l1.1, f.path@, te, EdgeKind::Exports, EdgeKind::Imports);
    } else {
        assert(built(files, 0).2.len() == 0);
    }
}

/// Building the graph of a set of files gives one import edge for each
/// import that resolved to a file and one export edge for each re-export
/// that did, over all the files; an import of a package, which resolves
/// to no file, adds no edge.
pub proof fn lemma_link_edges_counted(files: Seq<FileFacts>)
    ensures
        kind_count(finished_edges(built(files, files.len() as int)), EdgeKind::Imports) == imports_resolved(files, files.len() as int),
        kind_count(finished_edges(built(files, files.len() as int)), EdgeKind::Exports) == reexports_resolved(files, files.len() as int),
{
    let st = built(files, files.len() as int);
    lemma_built_counts(files, files.len() as int);
    let ce = call_edges(st.0, st.3);
    let re = reference_edges(st.0, st.4);
    lemma_call_edges_kinds(st.0, st.3, EdgeKind::Imports);
    lemma_call_edges_kinds(st.0, st.3, EdgeKind::Exports);
    lemma_reference_edges_kinds(st.0, st.4, EdgeKind::Imports);
    lemma_reference_edges_kinds(st.0, st.4, EdgeKind::Exports);
    lemma_kind_count_add(st.2, ce, EdgeKind::Imports);
    lemma_kind_count_add(st.2 + ce, re, EdgeKind::Imports);
    lemma_kind_count_add(st.2, ce, EdgeKind::Exports);
    lemma_kind_count_add(st.2 + ce, re, EdgeKind::Exports);
}

/// No two file nodes name the same path.
pub open spec fn files_distinct(view: Seq<NodeView>) -> bool {
    forall|i: int, j: int| 0 <= i < j < view.len() && (#[trigger] view[i]) is File ==> view[i] != #[trigger] view[j]
}

/// Adding the file node for a path only when it is missing keeps file
/// nodes distinct.
proof fn lemma_with_file_distinct(view: Seq<NodeView>, p: Seq<char>)
    requires
        files_distinct(view),
    ensures
        files_distinct(with_file(view, p).0),
{
    if file_position(view, p) is None {
        let w = with_file(view, p).0;
        assert forall|i: int, j: int| 0 <= i < j < w.len() && (#[trigger] w[i]) is File implies w[i] != #[trigger] w[j] by {
            if j == view.len() && w[i] == w[j] {
                assert(view[i] == NodeView::File(p));
            }
        }
    }
}

/// Linking keeps file nodes distinct.
proof fn lemma_link_distinct(view: Seq<NodeView>, edges: Seq<(usize, usize, EdgeKind)>, src: Seq<char>, targets: Seq<Seq<char>>, kind: EdgeKind)
    requires
        files_distinct(view),
    ensures
        files_distinct(link_files(view, edges, src, targets, kind).0),
    decreases targets.len(),
{
    if targets.len() > 0 {
        lemma_link_distinct(view, edges, src, targets.drop_last(), kind);
        let before = link_files(view, edges, src, targets.drop_last(), kind);
        lemma_with_file_distinct(before.0, src);
        lemma_with_file_distinct(with_file(before.0, src).0, targets.last());
    }
}

/// However many files are added, no two file nodes of the graph name the
/// same path.
pub proof fn lemma_file_nodes_distinct(files: Seq<FileFacts>, k: int)
    requires
        0 <= k <= files.len(),
    ensures
        files_distinct(built(files, k).1),
    decreases k,
{
    if k > 0 {
        lemma_file_nodes_distinct(files, k - 1);
        let st = built(files, k - 1);
        let f = files[k - 1];
        let v1 = st.1 + f.facts.symbols@.map_values(|x: SymbolNode| symbol_node_view(symbol_view(x)));
        assert forall|i: int, j: int| 0 <= i < j < v1.len() && (#[trigger] v1[i]) is File implies v1[i] != #[trigger] v1[j] by {
            if j >= st.1.len() {
                assert(v1[j] is Symbol);
            } else {
                assert(v1[i] == st.1[i] && v1[j] == st.1[j]);
            }
        }
        let ti = resolved_targets(f.imports@.map_values(|r: ResolveResult| resolve_view(r)));
        let te = resolved_targets(f.reexports@.map_values(|r: ResolveResult| resolve_view(r)));
        let l1 = link_files(v1, st.2, f.path@, ti, EdgeKind::Imports);
        lemma_link_distinct(v1, st.2, f.path@, ti, EdgeKind::Imports);
        lemma_link_distinct(l1.0, l1.1, f.path@, te, EdgeKind::Exports);
    }
}

/// The edge kinds a trace follows for `--kind`: `call`, `ref`, `import`
/// or `all`.
pub open spec fn trace_kinds(kind: Seq<char>) -> Option<Seq<EdgeKind>> {
    if kind == "call"@ {
        Some(seq![EdgeKind::Calls])
    } else if kind == "ref"@ {
        Some(seq![EdgeKind::ReadsFrom, EdgeKind::WritesTo])
    } else if kind == "import"@ {
        Some(seq![EdgeKind::Imports, EdgeKind::Exports])
    } else if kind == "all"@ {
        Some(seq![EdgeKind::Calls, EdgeKind::Imports, EdgeKind::Exports, EdgeKind::ReadsFrom, EdgeKind::WritesTo])
    } else {
        None
    }
}

/// The edge kinds a file diagram shows for `--kind`: `import` or `all`.
pub open spec fn render_kinds(kind: Seq<char>) -> Option<Seq<EdgeKind>> {
    if kind == "import"@ {
        Some(seq![EdgeKind::Imports, EdgeKind::Exports])
    } else if kind == "all"@ {
        Some(seq![EdgeKind::Calls, EdgeKind::Imports, EdgeKind::Exports])
    } else {
        None
    }
}

/// Under a kind filter exactly the symbols of that kind are listed;
/// without one, every symbol is, and a file node never is.
pub proof fn lemma_listing_by_kind(g: CodeGraph, kind: Option<SymbolKind>)
    ensures
        ({
            let sel = indices_where(g.nodes().len(), |i: int| is_listed(g.nodes()[i], kind));
            &&& forall|j: int| 0 <= j < sel.len() ==> (g.nodes()[#[trigger] sel[j]] matches NodeKind::Symbol(s) && (kind matches Some(k) ==> s.kind == k))
            &&& forall|i: int| 0 <= i < g.nodes().len() && (g.nodes()[i] matches NodeKind::Symbol(s) && (kind matches Some(k) ==> s.kind == k)) ==> #[trigger] sel.contains(i)
        }),
{
    crate::graph::lemma_indices_where_bounds(g.nodes().len(), |i: int| is_listed(g.nodes()[i], kind));
}

/// `--kind all` follows every kind of edge, reads and writes included;
/// `call` follows calls, `ref` reads and writes, `import` imports and
/// re-exports; a file diagram for `all` shows calls, imports and
/// re-exports.
pub proof fn lemma_kind_filters_cover(k: EdgeKind)
    ensures
        trace_kinds("all"@) matches Some(ks) && ks.contains(k),
        trace_kinds("call"@) matches Some(ks) && ks.contains(EdgeKind::Calls),
        trace_kinds("ref"@) matches Some(ks) && ks.contains(EdgeKind::ReadsFrom) && ks.contains(EdgeKind::WritesTo),
        trace_kinds("import"@) matches Some(ks) && ks.contains(EdgeKind::Imports) && ks.contains(EdgeKind::Exports),
        render_kinds("all"@) matches Some(ks) && ks.contains(EdgeKind::Calls) && ks.contains(EdgeKind::Imports) && ks.contains(EdgeKind::Exports),
        render_kinds("import"@) matches Some(ks) && ks.contains(EdgeKind::Imports) && ks.contains(EdgeKind::Exports),
{
    reveal_strlit("all");
    reveal_strlit("call");
    reveal_strlit("ref");
    reveal_strlit("import");
    assert("all"@.len() != "call"@.len());
    assert("all"@[0] != "ref"@[0]);
    assert("all"@.len() != "import"@.len());
    assert("ref"@.len() != "call"@.len());
    let all = seq![EdgeKind::Calls, EdgeKind::Imports, EdgeKind::Exports, EdgeKind::ReadsFrom, EdgeKind::WritesTo];
    assert(trace_kinds("all"@) == Some(all));
    match k {
        EdgeKind::Calls => assert(all[0] == k),
        EdgeKind::Imports => assert(all[1] == k),
        EdgeKind::Exports => assert(all[2] == k),
        EdgeKind::ReadsFrom => assert(all[3] == k),
        EdgeKind::WritesTo => assert(all[4] == k),
    }
    let refs = seq![EdgeKind::ReadsFrom, EdgeKind::WritesTo];
    assert(trace_kinds("ref"@) == Some(refs));
    assert(refs[0] == EdgeKind::ReadsFrom && refs[1] == EdgeKind::WritesTo);
    let calls = seq![EdgeKind::Calls];
    assert(trace_kinds("call"@) == Some(calls));
    assert(calls[0] == EdgeKind::Calls);
    let imports = seq![EdgeKind::Imports, EdgeKind::Exports];
    assert(trace_kinds("import"@) == Some(imports));
    assert(render_kinds("import"@) == Some(imports));
    assert(imports[0] == EdgeKind::Imports && imports[1] == EdgeKind::Exports);
    let shown = seq![EdgeKind::Calls, EdgeKind::Imports, EdgeKind::Exports];
    assert(render_kinds("all"@) == Some(shown));
    assert(shown[0] == EdgeKind::Calls && shown[1] == EdgeKind::Imports && shown[2] == EdgeKind::Exports);
}

/// The message for an edge kind filter that is not known.
pub open spec fn unknown_kind_message(kind: Seq<char>) -> Seq<char> {
    "Unknown kind: "@ + kind
}

/// The message for an unknown kind.
fn unknown_kind(kind: &str) -> (r: String)
    ensures
        r@ == unknown_kind_message(kind@),
{
    let mut m = owned("Unknown kind: ");
    m.append(kind);
    m
}

/// The edge kinds a trace follows for `--kind`, or the error for an
/// unknown one.
pub fn trace_edge_filter(kind: &str) -> (r: Result<Vec<EdgeKind>, String>)
    ensures
        match trace_kinds(kind@) {
            Some(ks) => r matches Ok(v) && v@ == ks,
            None => r matches Err(m) && m@ == unknown_kind_message(kind@),
        },
        kind@ == "all"@ ==> (r matches Ok(v) && forall|k: EdgeKind| #[trigger] v@.contains(k)),
{
    proof {
        assert forall|k: EdgeKind| #[trigger] trace_kinds("all"@).unwrap().contains(k) by {
            lemma_kind_filters_cover(k);
        }
    }
    if str_eq(kind, "call") {
        Ok(vec![EdgeKind::Calls])
    } else if str_eq(kind, "ref") {
        Ok(vec![EdgeKind::ReadsFrom, EdgeKind::WritesTo])
    } else if str_eq(kind, "import") {
        Ok(vec![EdgeKind::Imports, EdgeKind::Exports])
    } else if str_eq(kind, "all") {
        Ok(vec![EdgeKind::Calls, EdgeKind::Imports, EdgeKind::Exports, EdgeKind::ReadsFrom, EdgeKind::WritesTo])
    } else {
        Err(unknown_kind(kind))
    }
}

/// The edge kinds a file diagram shows for `--kind`, or the error for an
/// unknown one.
pub fn render_edge_filter(kind: &str) -> (r: Result<Vec<EdgeKind>, String>)
    ensures
        match render_kinds(kind@) {
            Some(ks) => r matches Ok(v) && v@ == ks,
            None => r matches Err(m) && m@ == unknown_kind_message(kind@),
        },
{
    if str_eq(kind, "import") {
        Ok(vec![EdgeKind::Imports, EdgeKind::Exports])
    } else if str_eq(kind, "all") {
        Ok(vec![EdgeKind::Calls, EdgeKind::Imports, EdgeKind::Exports])
    } else {
        Err(unknown_kind(kind))
    }
}

/// What a name finds among the symbols.
pub enum SymbolLookup {
    /// No symbol has the name.
    NotFound,
    /// Several symbols have it: their indices, in the order they were added.
    Ambiguous(Vec<NodeIndex>),
    /// Exactly one symbol has it.
    Found(NodeIndex),
}

/// The positions of the symbols named `name`.
pub open spec fn named(g: CodeGraph, name: Seq<char>) -> Seq<int> {
    indices_where(g.nodes().len(), |i: int| is_symbol_named(g.nodes()[i], name))
}

/// The symbol a trace starts from: the one symbol named `name`; none when
/// no symbol has that name, all of them when several have.
pub fn lookup_symbol(graph: &CodeGraph, name: &str) -> (r: SymbolLookup)
    requires
        graph.wf(),
    ensures
        named(*graph, name@).len() == 0 <==> r is NotFound,
        named(*graph, name@).len() == 1 <==> r is Found,
        named(*graph, name@).len() > 1 <==> r is Ambiguous,
        r matches SymbolLookup::Found(n) ==> node_ix(n) == named(*graph, name@)[0],
        r matches SymbolLookup::Ambiguous(v) ==> node_positions(v@) == named(*graph, name@),
{
    let matches = graph.find_symbols_by_name(name);
    assert(node_positions(matches@).len() == matches@.len());
    if matches.len() == 0 {
        SymbolLookup::NotFound
    } else if matches.len() == 1 {
        let n = matches[0];
        assert(node_positions(matches@)[0] == node_ix(n) as int);
        SymbolLookup::Found(n)
    } else {
        SymbolLookup::Ambiguous(matches)
    }
}

/// The number of positions below `len` where `p` holds.
pub open spec fn count_where(len: nat, p: spec_fn(int) -> bool) -> nat {
    indices_where(len, p).len()
}

/// The number of symbols, calls, imports, exports and references of a
/// graph.
pub open spec fn graph_counts(g: CodeGraph) -> (nat, nat, nat, nat, nat) {
    (
        count_where(g.nodes().len(), |i: int| g.nodes()[i] is Symbol),
        count_where(g.edges().len(), |e: int| g.edges()[e].2 == EdgeKind::Calls),
        count_where(g.edges().len(), |e: int| g.edges()[e].2 == EdgeKind::Imports),
        count_where(g.edges().len(), |e: int| g.edges()[e].2 == EdgeKind::Exports),
        count_where(g.edges().len(), |e: int| g.edges()[e].2.is_reference()),
    )
}

/// The number of edges whose kind passes `keep`.
fn count_edges(graph: &CodeGraph, Ghost(p): Ghost<spec_fn(int) -> bool>, kinds: &Vec<EdgeKind>) -> (r: usize)
    requires
        graph.wf(),
        p == (|e: int| kinds@.contains(graph.edges()[e].2)),
    ensures
        r == count_where(graph.edges().len(), p),
{
    proof {
        graph.lemma_wf();
    }
    let m = graph.edge_count();
    let mut c: usize = 0;
    let mut e: usize = 0;
    while e < m
        invariant
            graph.wf(),
            m == graph.edges().len(),
            m <= u32::MAX,
            p == (|e: int| kinds@.contains(graph.edges()[e].2)),
            e <= m,
            c == indices_where(e as nat, p).len(),
            c <= e,
        decreases m - e,
    {
        let (_, _, k) = graph.edge_at(e);
        proof {
            lemma_indices_where_step(e as nat, p);
        }
        if filter_contains(kinds, k) {
            c = c + 1;
        }
        e = e + 1;
    }
    c
}

/// The number of symbol nodes.
fn count_symbols(graph: &CodeGraph) -> (r: usize)
    requires
        graph.wf(),
    ensures
        r == count_where(graph.nodes().len(), |i: int| graph.nodes()[i] is Symbol),
{
    let syms = graph.symbols();
    syms.len()
}

/// The summary the `index` command prints: `Indexed S symbols, C calls,
/// I imports, E exports, R references`.
pub open spec fn summary_text(c: (nat, nat, nat, nat, nat)) -> Seq<char> {
    "Indexed "@ + decimal(c.0) + " symbols, "@ + decimal(c.1) + " calls, "@ + decimal(c.2) + " imports, "@
        + decimal(c.3) + " exports, "@ + decimal(c.4) + " references"@
}

/// The summary of a graph's symbols and edges.
pub fn index_summary(graph: &CodeGraph) -> (r: String)
    requires
        graph.wf(),
    ensures
        r@ == summary_text(graph_counts(*graph)),
{
    let symbols = count_symbols(graph);
    let ghost edges = graph.edges();
    let calls_kinds = vec![EdgeKind::Calls];
    let calls = count_edges(graph, Ghost(|e: int| calls_kinds@.contains(edges[e].2)), &calls_kinds);
    let import_kinds = vec![EdgeKind::Imports];
    let imports = count_edges(graph, Ghost(|e: int| import_kinds@.contains(edges[e].2)), &import_kinds);
    let export_kinds = vec![EdgeKind::Exports];
    let exports = count_edges(graph, Ghost(|e: int| export_kinds@.contains(edges[e].2)), &export_kinds);
    let ref_kinds = vec![EdgeKind::ReadsFrom, EdgeKind::WritesTo];
    let refs = count_edges(graph, Ghost(|e: int| ref_kinds@.contains(edges[e].2)), &ref_kinds);
    proof {
        assert((|e: int| calls_kinds@.contains(edges[e].2)) =~= (|e: int| edges[e].2 == EdgeKind::Calls)) by {
            assert forall|e: int| calls_kinds@.contains(edges[e].2) <==> edges[e].2 == EdgeKind::Calls by {
                if edges[e].2 == EdgeKind::Calls {
                    assert(calls_kinds@[0] == edges[e].2);
                }
            }
        }
        assert((|e: int| import_kinds@.contains(edges[e].2)) =~= (|e: int| edges[e].2 == EdgeKind::Imports)) by {
            assert forall|e: int| import_kinds@.contains(edges[e].2) <==> edges[e].2 == EdgeKind::Imports by {
                if edges[e].2 == EdgeKind::Imports {
                    assert(import_kinds@[0] == edges[e].2);
                }
            }
        }
        assert((|e: int| export_kinds@.contains(edges[e].2)) =~= (|e: int| edges[e].2 == EdgeKind::Exports)) by {
            assert forall|e: int| export_kinds@.contains(edges[e].2) <==> edges[e].2 == EdgeKind::Exports by {
                if edges[e].2 == EdgeKind::Exports {
                    assert(export_kinds@[0] == edges[e].2);
                }
            }
        }
        assert((|e: int| ref_kinds@.contains(edges[e].2)) =~= (|e: int| edges[e].2.is_reference())) by {
            assert forall|e: int| ref_kinds@.contains(edges[e].2) <==> edges[e].2.is_reference() by {
                if edges[e].2 == EdgeKind::ReadsFrom {
                    assert(ref_kinds@[0] == edges[e].2);
                }
                if edges[e].2 == EdgeKind::WritesTo {
                    assert(ref_kinds@[1] == edges[e].2);
                }
            }
        }
    }
    let mut r = owned("Indexed ");
    r.append(decimal_string(symbols).as_str());
    r.append(" symbols, ");
    r.append(decimal_string(calls).as_str());
    r.append(" calls, ");
    r.append(decimal_string(imports).as_str());
    r.append(" imports, ");
    r.append(decimal_string(exports).as_str());
    r.append(" exports, ");
    r.append(decimal_string(refs).as_str());
    r.append(" references");
    r
}

/// The line the `list` command prints for a symbol: its kind, name and
/// location, separated by tabs.
pub open spec fn symbol_listing(s: SymbolNode) -> Seq<char> {
    s.kind.label() + "\t"@ + s.name@ + "\t"@ + s.file_path@ + ":"@ + decimal(s.line as nat)
}

/// The line the `list` command prints for a symbol.
pub fn symbol_line(s: &SymbolNode) -> (r: String)
    ensures
        r@ == symbol_listing(*s),
{
    let mut r = s.kind.to_string();
    r.append("\t");
    r.append(s.name.as_str());
    r.append("\t");
    r.append(s.file_path.as_str());
    r.append(":");
    r.append(decimal_string(s.line).as_str());
    r
}

/// The line the `list` command prints for a node; empty for a file.
pub open spec fn node_listing(n: NodeKind) -> Seq<char> {
    match n {
        NodeKind::Symbol(s) => symbol_listing(s),
        NodeKind::File(_) => Seq::empty(),
    }
}

/// Whether the `list` command prints node `n`: a symbol, of the given kind
/// if one is given.
pub open spec fn is_listed(n: NodeKind, kind: Option<SymbolKind>) -> bool {
    n matches NodeKind::Symbol(s) && (kind matches Some(k) ==> s.kind == k)
}

/// The symbols the `list` command prints: all of them, or those of the
/// given kind, in the order they were added.
pub fn listed_symbols(graph: &CodeGraph, kind: Option<SymbolKind>) -> (r: Vec<String>)
    requires
        graph.wf(),
    ensures
        ({
            let sel = indices_where(graph.nodes().len(), |i: int| is_listed(graph.nodes()[i], kind));
            &&& r@.len() == sel.len()
            &&& forall|j: int| 0 <= j < sel.len() ==> (#[trigger] r@[j])@ == node_listing(graph.nodes()[sel[j]])
            &&& forall|j: int| 0 <= j < sel.len() ==> (graph.nodes()[#[trigger] sel[j]] matches NodeKind::Symbol(s) && (kind matches Some(k) ==> s.kind == k))
        }),
{
    proof {
        graph.lemma_wf();
        lemma_listing_by_kind(*graph, kind);
    }
    let ghost p = |i: int| is_listed(graph.nodes()[i], kind);
    let n = graph.node_count();
    let mut r: Vec<String> = Vec::new();
    let mut i: usize = 0;
    while i < n
        invariant
            n == graph.nodes().len(),
            p == (|i: int| is_listed(graph.nodes()[i], kind)),
            i <= n,
            r@.len() == indices_where(i as nat, p).len(),
            forall|j: int| 0 <= j < r@.len() ==> (#[trigger] r@[j])@ == node_listing(graph.nodes()[indices_where(i as nat, p)[j]]),
        decreases n - i,
    {
        let ghost r0 = r@;
        let ghost sel0 = indices_where(i as nat, p);
        proof {
            lemma_indices_where_step(i as nat, p);
        }
        match graph.node_at(i) {
            NodeKind::Symbol(s) => {
                let keep = match kind {
                    Some(k) => s.kind == k,
                    None => true,
                };
                if keep {
                    r.push(symbol_line(s));
                    proof {
                        assert(indices_where((i + 1) as nat, p) == sel0.push(i as int));
                        assert forall|j: int| 0 <= j < r@.len() implies (#[trigger] r@[j])@ == node_listing(graph.nodes()[indices_where((i + 1) as nat, p)[j]]) by {
                            if j < r0.len() {
                                assert(r@[j] == r0[j]);
                            }
                        }
                    }
                }
            },
            NodeKind::File(_) => {},
        }
        i = i + 1;
    }
    r
}

/// The line naming one of several symbols that share a name: two spaces,
/// then its name and location.
pub open spec fn candidate_listing(s: SymbolNode) -> Seq<char> {
    "  "@ + s.name@ + " "@ + s.file_path@ + ":"@ + decimal(s.line as nat)
}

/// The line naming one of several symbols that share a name.
pub fn candidate_line(s: &SymbolNode) -> (r: String)
    ensures
        r@ == candidate_listing(*s),
{
    let mut r = owned("  ");
    r.append(s.name.as_str());
    r.append(" ");
    r.append(s.file_path.as_str());
    r.append(":");
    r.append(decimal_string(s.line).as_str());
    r
}


/// Asking twice for the file node of the same path gives the same node
/// and adds nothing the second time.
pub proof fn lemma_with_file_twice(view: Seq<NodeView>, p: Seq<char>)
    ensures
        with_file(with_file(view, p).0, p) == with_file(view, p),
{
    let once = with_file(view, p);
    if file_position(view, p) is None {
        assert(once.0[view.len() as int] == NodeView::File(p));
        let j = choose|i: int| 0 <= i < once.0.len() && once.0[i] == NodeView::File(p);
        if j < view.len() {
            assert(view[j] == NodeView::File(p));
        }
    }
}

/// Specifiers that all stay external lead to no file.
pub proof fn lemma_external_leads_nowhere(rs: Seq<Result<Seq<char>, Seq<char>>>)
    requires
        forall|i: int| 0 <= i < rs.len() ==> rs[i] is Err,
    ensures
        resolved_targets(rs) == Seq::<Seq<char>>::empty(),
    decreases rs.len(),
{
    if rs.len() > 0 {
        lemma_external_leads_nowhere(rs.drop_last());
        assert(resolved_targets(rs) =~= Seq::<Seq<char>>::empty());
    }
}

/// Linking a file to targets adds one edge per target, from the file's
/// node to the target's, and keeps the edges there were.
pub proof fn lemma_link_adds_one_edge_each(view: Seq<NodeView>, edges: Seq<(usize, usize, EdgeKind)>, src: Seq<char>, targets: Seq<Seq<char>>, kind: EdgeKind)
    ensures
        link_files(view, edges, src, targets, kind).1.len() == edges.len() + targets.len(),
        link_files(view, edges, src, targets, kind).1.take(edges.len() as int) == edges,
        forall|k: int| 0 <= k < targets.len() ==> (#[trigger] link_files(view, edges, src, targets, kind).1[edges.len() + k]).2 == kind,
    decreases targets.len(),
{
    if targets.len() > 0 {
        lemma_link_adds_one_edge_each(view, edges, src, targets.drop_last(), kind);
        let before = link_files(view, edges, src, targets.drop_last(), kind);
        let after = link_files(view, edges, src, targets, kind);
        assert(after.1.take(edges.len() as int) =~= before.1.take(edges.len() as int));
        assert forall|k: int| 0 <= k < targets.len() implies (#[trigger] after.1[edges.len() + k]).2 == kind by {
            if k < targets.len() - 1 {
                assert(after.1[edges.len() + k] == before.1[edges.len() + k]);
            }
        }
    }
}

/// The position of the last symbol of `syms` named `name`; -1 if none is.
pub open spec fn last_named(syms: Seq<(Seq<char>, SymbolKind, Seq<char>, usize, Seq<char>)>, name: Seq<char>) -> int
    decreases syms.len(),
{
    if syms.len() == 0 {
        -1
    } else if syms.last().0 == name {
        syms.len() - 1
    } else {
        last_named(syms.drop_last(), name)
    }
}

/// After symbols are added from position `base` on, a name leads to the
/// node of the last of them under that name; a name none of them has
/// leads where it led before.
pub proof fn lemma_names_lead_to_last(names: Map<Seq<char>, usize>, base: int, syms: Seq<(Seq<char>, SymbolKind, Seq<char>, usize, Seq<char>)>, name: Seq<char>)
    ensures
        last_named(syms, name) >= 0 ==> names_after(names, base, syms).contains_key(name) && names_after(names, base, syms)[name] == (base + last_named(syms, name)) as usize,
        last_named(syms, name) < 0 ==> names_after(names, base, syms).contains_key(name) == names.contains_key(name) && names_after(names, base, syms)[name] == names[name],
    decreases syms.len(),
{
    if syms.len() > 0 {
        lemma_names_lead_to_last(names, base, syms.drop_last(), name);
    }
}

} // verus!
