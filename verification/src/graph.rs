//! The code graph: symbols and files as nodes, calls, imports, exports and
//! references as edges, stored in a `petgraph` directed graph.
use vstd::prelude::*;
use vstd::hash_map::StringHashMap;
use vstd::string::*;
use petgraph::graph::{DiGraph, EdgeIndex, Graph, NodeIndex};
use crate::text::{owned, str_eq};

verus! {

#[verifier::external_type_specification]
#[verifier::external_body]
#[verifier::reject_recursive_types(N)]
#[verifier::reject_recursive_types(E)]
#[verifier::reject_recursive_types(Ty)]
#[verifier::reject_recursive_types(Ix)]
pub struct ExGraph<N, E, Ty, Ix>(Graph<N, E, Ty, Ix>);

#[verifier::external_type_specification]
#[verifier::external_body]
pub struct ExDirected(petgraph::Directed);

#[verifier::external_type_specification]
#[verifier::external_body]
#[verifier::reject_recursive_types(Ix)]
pub struct ExNodeIndex<Ix>(NodeIndex<Ix>);

#[verifier::external_type_specification]
#[verifier::external_body]
#[verifier::reject_recursive_types(Ix)]
pub struct ExEdgeIndex<Ix>(EdgeIndex<Ix>);

/// The kind of a symbol declared in a source file.
#[derive(Clone, Copy, Debug, PartialEq, Eq, Hash, Structural)]
pub enum SymbolKind {
    Function,
    Class,
    Method,
    Variable,
    TypeAlias,
}

impl SymbolKind {
    /// The name under which the kind is printed and parsed.
    pub open spec fn label(self) -> Seq<char> {
        match self {
            SymbolKind::Function => "Function"@,
            SymbolKind::Class => "Class"@,
            SymbolKind::Method => "Method"@,
            SymbolKind::Variable => "Variable"@,
            SymbolKind::TypeAlias => "TypeAlias"@,
        }
    }

    /// The printed name of the kind.
    pub fn to_string(&self) -> (s: String)
        ensures
            s@ == self.label(),
    {
        match self {
            SymbolKind::Function => owned("Function"),
            SymbolKind::Class => owned("Class"),
            SymbolKind::Method => owned("Method"),
            SymbolKind::Variable => owned("Variable"),
            SymbolKind::TypeAlias => owned("TypeAlias"),
        }
    }
}

/// Reads a symbol kind from its printed name.
pub fn parse_symbol_kind(s: &str) -> (r: Result<SymbolKind, String>)
    ensures
        match r {
            Ok(k) => s@ == k.label(),
            Err(e) => (forall|k: SymbolKind| s@ != k.label()) && e@ == "unknown symbol kind: "@ + s@,
        },
{
    if str_eq(s, "Function") {
        Ok(SymbolKind::Function)
    } else if str_eq(s, "Class") {
        Ok(SymbolKind::Class)
    } else if str_eq(s, "Method") {
        Ok(SymbolKind::Method)
    } else if str_eq(s, "Variable") {
        Ok(SymbolKind::Variable)
    } else if str_eq(s, "TypeAlias") {
        Ok(SymbolKind::TypeAlias)
    } else {
        let mut e = owned("unknown symbol kind: ");
        e.append(s);
        assert forall|k: SymbolKind| s@ != k.label() by {
            match k {
                SymbolKind::Function => {},
                SymbolKind::Class => {},
                SymbolKind::Method => {},
                SymbolKind::Variable => {},
                SymbolKind::TypeAlias => {},
            }
        }
        Err(e)
    }
}

impl core::str::FromStr for SymbolKind {
    type Err = String;

    fn from_str(s: &str) -> (r: Result<SymbolKind, String>)
        ensures
            match r {
                Ok(k) => s@ == k.label(),
                Err(e) => (forall|k: SymbolKind| s@ != k.label()) && e@ == "unknown symbol kind: "@ + s@,
            },
    {
        parse_symbol_kind(s)
    }
}

/// A symbol declared in a source file.
#[derive(Clone, Debug, PartialEq)]
pub struct SymbolNode {
    pub name: String,
    pub kind: SymbolKind,
    pub file_path: String,
    pub line: usize,
    pub module: String,
}

/// A source file taking part in an import or export.
#[derive(Clone, Debug, PartialEq)]
pub struct FileNode {
    pub file_path: String,
}

/// A node of the code graph.
#[derive(Clone, Debug, PartialEq)]
pub enum NodeKind {
    Symbol(SymbolNode),
    File(FileNode),
}

/// The relationship an edge of the code graph stands for.
#[derive(Clone, Copy, Debug, PartialEq, Eq, Hash, Structural)]
pub enum EdgeKind {
    Calls,
    Imports,
    Exports,
    ReadsFrom,
    WritesTo,
}

impl EdgeKind {
    /// The label an edge of this kind carries in a diagram.
    pub open spec fn label(self) -> Seq<char> {
        match self {
            EdgeKind::Calls => "[call]"@,
            EdgeKind::Imports => "Imports"@,
            EdgeKind::Exports => "Exports"@,
            EdgeKind::ReadsFrom => "[read]"@,
            EdgeKind::WritesTo => "[write]"@,
        }
    }

    /// Whether the kind records a read or a write of a symbol.
    pub open spec fn is_reference(self) -> bool {
        self is ReadsFrom || self is WritesTo
    }

    /// The label an edge of this kind carries in a diagram.
    pub fn to_string(&self) -> (s: String)
        ensures
            s@ == self.label(),
    {
        match self {
            EdgeKind::Calls => owned("[call]"),
            EdgeKind::Imports => owned("Imports"),
            EdgeKind::Exports => owned("Exports"),
            EdgeKind::ReadsFrom => owned("[read]"),
            EdgeKind::WritesTo => owned("[write]"),
        }
    }
}

/// What the graph holds as nodes, in the order they were added.
pub uninterp spec fn graph_nodes(g: DiGraph<NodeKind, EdgeKind>) -> Seq<NodeKind>;

/// What the graph holds as edges, in the order they were added: source
/// index, target index and weight.
pub uninterp spec fn graph_edges(g: DiGraph<NodeKind, EdgeKind>) -> Seq<(usize, usize, EdgeKind)>;

/// The position that a node index denotes.
pub uninterp spec fn node_ix(n: NodeIndex) -> usize;

/// The position that an edge index denotes.
pub uninterp spec fn edge_ix(e: EdgeIndex) -> usize;

/// `Graph::new`: an empty graph.
#[verifier::external_body]
fn graph_new() -> (g: DiGraph<NodeKind, EdgeKind>)
    ensures
        graph_nodes(g) == Seq::<NodeKind>::empty(),
        graph_edges(g) == Seq::<(usize, usize, EdgeKind)>::empty(),
{
    DiGraph::new()
}

/// `Graph::add_node`: appends the weight to the nodes and returns its
/// position. It panics when the node count has reached `u32::MAX`.
#[verifier::external_body]
fn graph_add_node(g: &mut DiGraph<NodeKind, EdgeKind>, w: NodeKind) -> (n: NodeIndex)
    requires
        graph_nodes(*old(g)).len() < u32::MAX,
    ensures
        graph_nodes(*final(g)) == graph_nodes(*old(g)).push(w),
        graph_edges(*final(g)) == graph_edges(*old(g)),
        node_ix(n) == graph_nodes(*old(g)).len(),
{
    g.add_node(w)
}

/// `Graph::add_edge`: appends the edge to the edges and returns its
/// position. It panics when an endpoint does not exist or the edge count
/// has reached `u32::MAX`.
#[verifier::external_body]
fn graph_add_edge(g: &mut DiGraph<NodeKind, EdgeKind>, a: NodeIndex, b: NodeIndex, w: EdgeKind) -> (e: EdgeIndex)
    requires
        node_ix(a) < graph_nodes(*old(g)).len(),
        node_ix(b) < graph_nodes(*old(g)).len(),
        graph_edges(*old(g)).len() < u32::MAX,
    ensures
        graph_nodes(*final(g)) == graph_nodes(*old(g)),
        graph_edges(*final(g)) == graph_edges(*old(g)).push((node_ix(a), node_ix(b), w)),
        edge_ix(e) == graph_edges(*old(g)).len(),
{
    g.add_edge(a, b, w)
}

/// `Graph::node_count`.
#[verifier::external_body]
fn graph_node_count(g: &DiGraph<NodeKind, EdgeKind>) -> (n: usize)
    ensures
        n == graph_nodes(*g).len(),
{
    g.node_count()
}

/// `Graph::edge_count`.
#[verifier::external_body]
fn graph_edge_count(g: &DiGraph<NodeKind, EdgeKind>) -> (n: usize)
    ensures
        n == graph_edges(*g).len(),
{
    g.edge_count()
}

/// Indexing a graph by a node: the weight at position `i`.
#[verifier::external_body]
fn graph_node(g: &DiGraph<NodeKind, EdgeKind>, i: usize) -> (w: &NodeKind)
    requires
        i < graph_nodes(*g).len(),
    ensures
        *w == graph_nodes(*g)[i as int],
{
    &g[NodeIndex::new(i)]
}

/// `Graph::raw_edges`, read at position `e`: source, target and weight.
#[verifier::external_body]
fn graph_edge(g: &DiGraph<NodeKind, EdgeKind>, e: usize) -> (r: (usize, usize, EdgeKind))
    requires
        e < graph_edges(*g).len(),
    ensures
        r == graph_edges(*g)[e as int],
{
    let edge = &g.raw_edges()[e];
    (edge.source().index(), edge.target().index(), edge.weight)
}

/// `Graph::edges_directed` on a directed graph, giving each edge's
/// position: every edge leaving node `n` (`outgoing`) or entering it, each
/// once. The order they come in is not stated: it depends on the edges
/// removed before.
#[verifier::external_body]
fn graph_edges_directed(g: &DiGraph<NodeKind, EdgeKind>, n: usize, outgoing: bool) -> (r: Vec<usize>)
    requires
        n <= u32::MAX,
    ensures
        lists_incident(r@.map_values(|e: usize| e as int), graph_edges(*g), n as int, outgoing),
{
    let dir = if outgoing { petgraph::Direction::Outgoing } else { petgraph::Direction::Incoming };
    let mut r = Vec::new();
    for e in g.edges_directed(NodeIndex::new(n), dir) {
        r.push(petgraph::visit::EdgeRef::id(&e).index());
    }
    r
}

/// `NodeIndex::new`.
#[verifier::external_body]
pub(crate) fn node_index(i: usize) -> (n: NodeIndex)
    requires
        i <= u32::MAX,
    ensures
        node_ix(n) == i,
{
    NodeIndex::new(i)
}

/// `NodeIndex::index`.
#[verifier::external_body]
pub(crate) fn node_position(n: NodeIndex) -> (i: usize)
    ensures
        i == node_ix(n),
        i <= u32::MAX,
{
    n.index()
}

/// `EdgeIndex::new`.
#[verifier::external_body]
pub(crate) fn edge_index(i: usize) -> (e: EdgeIndex)
    requires
        i <= u32::MAX,
    ensures
        edge_ix(e) == i,
{
    EdgeIndex::new(i)
}

/// `EdgeIndex::index`.
#[verifier::external_body]
pub(crate) fn edge_position(e: EdgeIndex) -> (i: usize)
    ensures
        i == edge_ix(e),
        i <= u32::MAX,
{
    e.index()
}

/// The positions below `len` at which `p` holds, in increasing order.
pub open spec fn indices_where(len: nat, p: spec_fn(int) -> bool) -> Seq<int>
    decreases len,
{
    if len == 0 {
        Seq::empty()
    } else {
        let s = indices_where((len - 1) as nat, p);
        if p(len - 1) {
            s.push(len - 1)
        } else {
            s
        }
    }
}

/// `ids` lists every edge with node `n` as source (`outgoing`) or as
/// target, each once, and no other.
pub open spec fn lists_incident(ids: Seq<int>, edges: Seq<(usize, usize, EdgeKind)>, n: int, outgoing: bool) -> bool {
    &&& ids.no_duplicates()
    &&& forall|j: int| 0 <= j < ids.len() ==> 0 <= #[trigger] ids[j] < edges.len() && touches(edges, n, outgoing)(ids[j])
    &&& forall|e: int| 0 <= e < edges.len() && touches(edges, n, outgoing)(e) ==> ids.contains(e)
}

/// Whether an edge has node `n` as source (`outgoing`) or as target.
pub open spec fn touches(edges: Seq<(usize, usize, EdgeKind)>, n: int, outgoing: bool) -> spec_fn(int) -> bool {
    |e: int| if outgoing { edges[e].0 == n } else { edges[e].1 == n }
}

/// One more position taken into account.
pub proof fn lemma_indices_where_step(len: nat, p: spec_fn(int) -> bool)
    ensures
        indices_where(len + 1, p) == (if p(len as int) { indices_where(len, p).push(len as int) } else { indices_where(len, p) }),
{
}

/// Whether `n` is the file node for the path `p`.
pub open spec fn is_file_node(n: NodeKind, p: Seq<char>) -> bool {
    n matches NodeKind::File(f) && f.file_path@ == p
}

/// Whether `n` is a symbol named `name`.
pub open spec fn is_symbol_named(n: NodeKind, name: Seq<char>) -> bool {
    n matches NodeKind::Symbol(s) && s.name@ == name
}

/// The positions of a sequence of node indices.
pub open spec fn node_positions(v: Seq<NodeIndex>) -> Seq<int> {
    v.map_values(|n: NodeIndex| node_ix(n) as int)
}

/// What the positions where `p` holds are: in range, increasing, and all
/// of them.
pub proof fn lemma_indices_where_bounds(len: nat, p: spec_fn(int) -> bool)
    ensures
        forall|k: int| 0 <= k < indices_where(len, p).len() ==> 0 <= #[trigger] indices_where(len, p)[k] < len && p(indices_where(len, p)[k]),
        forall|k: int, l: int| 0 <= k < l < indices_where(len, p).len() ==> indices_where(len, p)[k] < indices_where(len, p)[l],
        forall|i: int| 0 <= i < len && p(i) ==> indices_where(len, p).contains(i),
    decreases len,
{
    if len > 0 {
        lemma_indices_where_bounds((len - 1) as nat, p);
        let s = indices_where((len - 1) as nat, p);
        if p(len - 1) {
            assert(indices_where(len, p) == s.push(len - 1));
            assert forall|i: int| 0 <= i < len && p(i) implies indices_where(len, p).contains(i) by {
                if i < len - 1 {
                    assert(s.contains(i));
                    let k = choose|k: int| 0 <= k < s.len() && s[k] == i;
                    assert(indices_where(len, p)[k] == i);
                } else {
                    assert(indices_where(len, p)[s.len() as int] == i);
                }
            }
        }
    }
}

/// A graph of the symbols, files and relationships found in a code base.
pub struct CodeGraph {
    pub graph: DiGraph<NodeKind, EdgeKind>,
    file_index: StringHashMap<usize>,
}

impl CodeGraph {
    /// The nodes, in the order they were added.
    pub closed spec fn nodes(&self) -> Seq<NodeKind> {
        graph_nodes(self.graph)
    }

    /// The edges (source, target, kind), in the order they were added.
    pub closed spec fn edges(&self) -> Seq<(usize, usize, EdgeKind)> {
        graph_edges(self.graph)
    }

    /// Every edge joins existing nodes, no two file nodes share a path and
    /// the path index agrees with the file nodes.
    pub closed spec fn wf(&self) -> bool {
        &&& self.nodes().len() <= u32::MAX
        &&& self.edges().len() <= u32::MAX
        &&& forall|e: int| 0 <= e < self.edges().len() ==> (#[trigger] self.edges()[e]).0 < self.nodes().len() && self.edges()[e].1 < self.nodes().len()
        &&& forall|p: Seq<char>| #[trigger] self.file_index@.contains_key(p) ==> self.file_index@[p] < self.nodes().len() && is_file_node(self.nodes()[self.file_index@[p] as int], p)
        &&& forall|i: int| 0 <= i < self.nodes().len() ==> (#[trigger] self.nodes()[i] matches NodeKind::File(f) ==> self.file_index@.contains_key(f.file_path@) && self.file_index@[f.file_path@] == i)
    }

    /// Facts that hold of every well-formed graph.
    pub proof fn lemma_wf(&self)
        requires
            self.wf(),
        ensures
            self.nodes().len() <= u32::MAX,
            self.edges().len() <= u32::MAX,
            forall|e: int| 0 <= e < self.edges().len() ==> (#[trigger] self.edges()[e]).0 < self.nodes().len() && self.edges()[e].1 < self.nodes().len(),
            forall|i: int, j: int, p: Seq<char>| 0 <= i < self.nodes().len() && 0 <= j < self.nodes().len() && #[trigger] is_file_node(self.nodes()[i], p) && #[trigger] is_file_node(self.nodes()[j], p) ==> i == j,
    {
        assert forall|i: int, j: int, p: Seq<char>| 0 <= i < self.nodes().len() && 0 <= j < self.nodes().len() && #[trigger] is_file_node(self.nodes()[i], p) && #[trigger] is_file_node(self.nodes()[j], p) implies i == j by {
            assert(self.file_index@[p] == i);
            assert(self.file_index@[p] == j);
        }
    }

    /// An empty graph.
    pub fn new() -> (r: CodeGraph)
        ensures
            r.wf(),
            r.nodes() == Seq::<NodeKind>::empty(),
            r.edges() == Seq::<(usize, usize, EdgeKind)>::empty(),
    {
        CodeGraph { graph: graph_new(), file_index: StringHashMap::new() }
    }

    /// Adds a symbol node and returns its index.
    pub fn add_symbol(&mut self, symbol: SymbolNode) -> (n: NodeIndex)
        requires
            old(self).wf(),
            old(self).nodes().len() < u32::MAX,
        ensures
            final(self).wf(),
            final(self).nodes() == old(self).nodes().push(NodeKind::Symbol(symbol)),
            final(self).edges() == old(self).edges(),
            node_ix(n) == old(self).nodes().len(),
    {
        let n = graph_add_node(&mut self.graph, NodeKind::Symbol(symbol));
        proof {
            assert forall|i: int| 0 <= i < self.nodes().len() implies (#[trigger] self.nodes()[i] matches NodeKind::File(f) ==> self.file_index@.contains_key(f.file_path@) && self.file_index@[f.file_path@] == i) by {
                if i < old(self).nodes().len() {
                    assert(self.nodes()[i] == old(self).nodes()[i]);
                }
            }
            assert forall|e: int| 0 <= e < self.edges().len() implies (#[trigger] self.edges()[e]).0 < self.nodes().len() && self.edges()[e].1 < self.nodes().len() by {
                assert(self.edges()[e] == old(self).edges()[e]);
            }
            assert forall|p: Seq<char>| #[trigger] self.file_index@.contains_key(p) implies self.file_index@[p] < self.nodes().len() && is_file_node(self.nodes()[self.file_index@[p] as int], p) by {
                assert(self.nodes()[self.file_index@[p] as int] == old(self).nodes()[self.file_index@[p] as int]);
            }
        }
        n
    }

    /// The file node for `path`, added if the graph has none yet.
    pub fn add_file(&mut self, path: &str) -> (n: NodeIndex)
        requires
            old(self).wf(),
            old(self).nodes().len() < u32::MAX,
        ensures
            final(self).wf(),
            final(self).edges() == old(self).edges(),
            (exists|i: int| 0 <= i < old(self).nodes().len() && is_file_node(#[trigger] old(self).nodes()[i], path@)) ==> {
                &&& final(self).nodes() == old(self).nodes()
                &&& node_ix(n) < old(self).nodes().len()
                &&& is_file_node(old(self).nodes()[node_ix(n) as int], path@)
            },
            !(exists|i: int| 0 <= i < old(self).nodes().len() && is_file_node(#[trigger] old(self).nodes()[i], path@)) ==> {
                &&& final(self).nodes().len() == old(self).nodes().len() + 1
                &&& final(self).nodes().take(old(self).nodes().len() as int) == old(self).nodes()
                &&& is_file_node(final(self).nodes().last(), path@)
                &&& node_ix(n) == old(self).nodes().len()
            },
    {
        match self.file_index.get(path) {
            Some(i) => {
                let i = *i;
                proof {
                    assert(is_file_node(old(self).nodes()[i as int], path@));
                }
                return node_index(i);
            },
            None => {},
        }
        proof {
            if exists|i: int| 0 <= i < old(self).nodes().len() && is_file_node(#[trigger] old(self).nodes()[i], path@) {
                let i = choose|i: int| 0 <= i < old(self).nodes().len() && is_file_node(#[trigger] old(self).nodes()[i], path@);
                assert(self.file_index@.contains_key(path@));
            }
        }
        let ghost old_nodes = self.nodes();
        let n = graph_add_node(&mut self.graph, NodeKind::File(FileNode { file_path: owned(path) }));
        let idx = node_position(n);
        self.file_index.insert(owned(path), idx);
        proof {
            assert(self.nodes().take(old_nodes.len() as int) =~= old_nodes);
            assert forall|i: int| 0 <= i < self.nodes().len() implies (#[trigger] self.nodes()[i] matches NodeKind::File(f) ==> self.file_index@.contains_key(f.file_path@) && self.file_index@[f.file_path@] == i) by {
                if i < old_nodes.len() {
                    assert(self.nodes()[i] == old_nodes[i]);
                    if let NodeKind::File(f) = self.nodes()[i] {
                        assert(f.file_path@ != path@);
                    }
                }
            }
            assert forall|e: int| 0 <= e < self.edges().len() implies (#[trigger] self.edges()[e]).0 < self.nodes().len() && self.edges()[e].1 < self.nodes().len() by {
                assert(self.edges()[e] == old(self).edges()[e]);
            }
            assert forall|p: Seq<char>| #[trigger] self.file_index@.contains_key(p) implies self.file_index@[p] < self.nodes().len() && is_file_node(self.nodes()[self.file_index@[p] as int], p) by {
                if p != path@ {
                    assert(old(self).file_index@.contains_key(p));
                    assert(self.nodes()[self.file_index@[p] as int] == old_nodes[self.file_index@[p] as int]);
                }
            }
        }
        n
    }

    /// Adds an edge of the given kind; the caller has checked its endpoints.
    fn add_edge_of(&mut self, from: NodeIndex, to: NodeIndex, kind: EdgeKind)
        requires
            old(self).wf(),
            node_ix(from) < old(self).nodes().len(),
            node_ix(to) < old(self).nodes().len(),
            old(self).edges().len() < u32::MAX,
        ensures
            final(self).wf(),
            final(self).nodes() == old(self).nodes(),
            final(self).edges() == old(self).edges().push((node_ix(from), node_ix(to), kind)),
    {
        graph_add_edge(&mut self.graph, from, to, kind);
        proof {
            assert forall|e: int| 0 <= e < self.edges().len() implies (#[trigger] self.edges()[e]).0 < self.nodes().len() && self.edges()[e].1 < self.nodes().len() by {
                if e < old(self).edges().len() {
                    assert(self.edges()[e] == old(self).edges()[e]);
                }
            }
        }
    }

    /// Adds a call edge from `from` to `to`.
    pub fn add_call(&mut self, from: NodeIndex, to: NodeIndex)
        requires
            old(self).wf(),
            node_ix(from) < old(self).nodes().len(),
            node_ix(to) < old(self).nodes().len(),
            old(self).edges().len() < u32::MAX,
        ensures
            final(self).wf(),
            final(self).nodes() == old(self).nodes(),
            final(self).edges() == old(self).edges().push((node_ix(from), node_ix(to), EdgeKind::Calls)),
    {
        self.add_edge_of(from, to, EdgeKind::Calls);
    }

    /// Adds an import edge from `from` to `to`.
    pub fn add_import(&mut self, from: NodeIndex, to: NodeIndex)
        requires
            old(self).wf(),
            node_ix(from) < old(self).nodes().len(),
            node_ix(to) < old(self).nodes().len(),
            old(self).edges().len() < u32::MAX,
        ensures
            final(self).wf(),
            final(self).nodes() == old(self).nodes(),
            final(self).edges() == old(self).edges().push((node_ix(from), node_ix(to), EdgeKind::Imports)),
    {
        self.add_edge_of(from, to, EdgeKind::Imports);
    }

    /// Adds an export edge from `from` to `to`.
    pub fn add_export(&mut self, from: NodeIndex, to: NodeIndex)
        requires
            old(self).wf(),
            node_ix(from) < old(self).nodes().len(),
            node_ix(to) < old(self).nodes().len(),
            old(self).edges().len() < u32::MAX,
        ensures
            final(self).wf(),
            final(self).nodes() == old(self).nodes(),
            final(self).edges() == old(self).edges().push((node_ix(from), node_ix(to), EdgeKind::Exports)),
    {
        self.add_edge_of(from, to, EdgeKind::Exports);
    }

    /// Adds a read or write reference edge from `from` to `to`; other kinds
    /// are no reference and are refused.
    pub fn add_reference(&mut self, from: NodeIndex, to: NodeIndex, kind: EdgeKind)
        requires
            old(self).wf(),
            node_ix(from) < old(self).nodes().len(),
            node_ix(to) < old(self).nodes().len(),
            old(self).edges().len() < u32::MAX,
            kind.is_reference(),
        ensures
            final(self).wf(),
            final(self).nodes() == old(self).nodes(),
            final(self).edges() == old(self).edges().push((node_ix(from), node_ix(to), kind)),
    {
        self.add_edge_of(from, to, kind);
    }

    /// The number of nodes.
    pub fn node_count(&self) -> (n: usize)
        ensures
            n == self.nodes().len(),
    {
        graph_node_count(&self.graph)
    }

    /// The number of edges.
    pub fn edge_count(&self) -> (n: usize)
        ensures
            n == self.edges().len(),
    {
        graph_edge_count(&self.graph)
    }

    /// The node at position `i`.
    pub fn node_at(&self, i: usize) -> (w: &NodeKind)
        requires
            i < self.nodes().len(),
        ensures
            *w == self.nodes()[i as int],
    {
        graph_node(&self.graph, i)
    }

    /// The edge at position `e`: source, target and kind.
    pub fn edge_at(&self, e: usize) -> (r: (usize, usize, EdgeKind))
        requires
            e < self.edges().len(),
        ensures
            r == self.edges()[e as int],
    {
        graph_edge(&self.graph, e)
    }

    /// The positions of the edges leaving node `n` (`outgoing`) or entering
    /// it, each once, in no stated order.
    pub fn incident(&self, n: usize, outgoing: bool) -> (r: Vec<usize>)
        requires
            n <= u32::MAX,
        ensures
            lists_incident(r@.map_values(|e: usize| e as int), self.edges(), n as int, outgoing),
    {
        graph_edges_directed(&self.graph, n, outgoing)
    }

    /// The symbols of the graph, in the order they were added.
    pub fn symbols(&self) -> (r: Vec<&SymbolNode>)
        requires
            self.wf(),
        ensures
            ({
                let sel = indices_where(self.nodes().len(), |i: int| self.nodes()[i] is Symbol);
                &&& r.len() == sel.len()
                &&& forall|k: int| 0 <= k < r.len() ==> self.nodes()[sel[k]] == NodeKind::Symbol(*#[trigger] r[k])
            }),
    {
        let n = graph_node_count(&self.graph);
        let ghost p = |i: int| self.nodes()[i] is Symbol;
        let mut r: Vec<&SymbolNode> = Vec::new();
        let mut i: usize = 0;
        while i < n
            invariant
                n == self.nodes().len(),
                p == (|i: int| self.nodes()[i] is Symbol),
                i <= n,
                r.len() == indices_where(i as nat, p).len(),
                forall|k: int| 0 <= k < r.len() ==> self.nodes()[indices_where(i as nat, p)[k]] == NodeKind::Symbol(*#[trigger] r[k]),
            decreases n - i,
        {
            let w = graph_node(&self.graph, i);
            match w {
                NodeKind::Symbol(s) => {
                    r.push(s);
                },
                NodeKind::File(_) => {},
            }
            proof { lemma_indices_where_step(i as nat, p); }
            i = i + 1;
        }
        r
    }

    /// The indices of the symbols named `name`, in the order they were added.
    pub fn find_symbols_by_name(&self, name: &str) -> (r: Vec<NodeIndex>)
        requires
            self.wf(),
        ensures
            node_positions(r@) == indices_where(self.nodes().len(), |i: int| is_symbol_named(self.nodes()[i], name@)),
    {
        let n = graph_node_count(&self.graph);
        let ghost p = |i: int| is_symbol_named(self.nodes()[i], name@);
        let mut r: Vec<NodeIndex> = Vec::new();
        let mut i: usize = 0;
        proof {
            self.lemma_wf();
            assert(node_positions(r@) =~= indices_where(0, p));
        }
        while i < n
            invariant
                n == self.nodes().len(),
                n <= u32::MAX,
                p == (|i: int| is_symbol_named(self.nodes()[i], name@)),
                i <= n,
                node_positions(r@) == indices_where(i as nat, p),
            decreases n - i,
        {
            let w = graph_node(&self.graph, i);
            let ghost before = r@;
            match w {
                NodeKind::Symbol(s) => {
                    if str_eq(s.name.as_str(), name) {
                        r.push(node_index(i));
                        assert(node_positions(r@) =~= node_positions(before).push(i as int));
                    }
                },
                NodeKind::File(_) => {},
            }
            proof { lemma_indices_where_step(i as nat, p); }
            i = i + 1;
        }
        r
    }

    /// The index of the file node for `path`, if the graph has one.
    pub fn find_file_node(&self, path: &str) -> (r: Option<NodeIndex>)
        requires
            self.wf(),
        ensures
            r is Some <==> exists|i: int| 0 <= i < self.nodes().len() && is_file_node(#[trigger] self.nodes()[i], path@),
            r matches Some(n) ==> node_ix(n) < self.nodes().len() && is_file_node(self.nodes()[node_ix(n) as int], path@),
    {
        match self.file_index.get(path) {
            Some(i) => Some(node_index(*i)),
            None => {
                proof {
                    if exists|i: int| 0 <= i < self.nodes().len() && is_file_node(#[trigger] self.nodes()[i], path@) {
                        let i = choose|i: int| 0 <= i < self.nodes().len() && is_file_node(#[trigger] self.nodes()[i], path@);
                        assert(self.file_index@.contains_key(path@));
                    }
                }
                None
            },
        }
    }

    /// The indices of the file nodes, in the order they were added.
    pub fn file_nodes(&self) -> (r: Vec<NodeIndex>)
        requires
            self.wf(),
        ensures
            node_positions(r@) == indices_where(self.nodes().len(), |i: int| self.nodes()[i] is File),
    {
        let n = graph_node_count(&self.graph);
        let ghost p = |i: int| self.nodes()[i] is File;
        let mut r: Vec<NodeIndex> = Vec::new();
        let mut i: usize = 0;
        proof {
            self.lemma_wf();
            assert(node_positions(r@) =~= indices_where(0, p));
        }
        while i < n
            invariant
                n == self.nodes().len(),
                n <= u32::MAX,
                p == (|i: int| self.nodes()[i] is File),
                i <= n,
                node_positions(r@) == indices_where(i as nat, p),
            decreases n - i,
        {
            let w = graph_node(&self.graph, i);
            let ghost before = r@;
            match w {
                NodeKind::File(_) => {
                    r.push(node_index(i));
                    assert(node_positions(r@) =~= node_positions(before).push(i as int));
                },
                NodeKind::Symbol(_) => {},
            }
            proof { lemma_indices_where_step(i as nat, p); }
            i = i + 1;
        }
        r
    }

    /// The read and write references that point at `node`: for each such
    /// edge, once, the referencing node and the edge kind, in no stated
    /// order.
    pub fn references_of(&self, node: NodeIndex) -> (r: Vec<(NodeIndex, &EdgeKind)>)
        requires
            self.wf(),
        ensures
            exists|ids: Seq<int>| {
                &&& ids.no_duplicates()
                &&& forall|e: int| #[trigger] ids.contains(e) <==> (0 <= e < self.edges().len() && self.edges()[e].1 == node_ix(node) && self.edges()[e].2.is_reference())
                &&& r.len() == ids.len()
                &&& forall|k: int| 0 <= k < r.len() ==> node_ix((#[trigger] r[k]).0) == self.edges()[ids[k]].0 && *r[k].1 == self.edges()[ids[k]].2
            },
    {
        let ids = graph_edges_directed(&self.graph, node_position(node), false);
        let ghost inc = ids@.map_values(|e: usize| e as int);
        let ghost n = node_ix(node) as int;
        proof {
            self.lemma_wf();
        }
        let mut r: Vec<(NodeIndex, &EdgeKind)> = Vec::new();
        let ghost mut sel: Seq<int> = Seq::empty();
        let mut k: usize = 0;
        while k < ids.len()
            invariant
                inc == ids@.map_values(|e: usize| e as int),
                lists_incident(inc, self.edges(), n, false),
                self.wf(),
                k <= ids.len(),
                sel.no_duplicates(),
                forall|e: int| #[trigger] sel.contains(e) <==> (exists|j: int| 0 <= j < k && inc[j] == e && self.edges()[e].2.is_reference()),
                r.len() == sel.len(),
                forall|j: int| 0 <= j < r.len() ==> node_ix((#[trigger] r[j]).0) == self.edges()[sel[j]].0 && *r[j].1 == self.edges()[sel[j]].2,
            decreases ids.len() - k,
        {
            let e = ids[k];
            assert(inc[k as int] == e as int);
            proof {
                self.lemma_wf();
            }
            let edge_kind = edge_weight_ref(&self.graph, e);
            let src = graph_edge(&self.graph, e).0;
            let ghost sel0 = sel;
            match edge_kind {
                EdgeKind::ReadsFrom | EdgeKind::WritesTo => {
                    r.push((node_index(src), edge_kind));
                    proof {
                        sel = sel0.push(e as int);
                        assert forall|x: int| #[trigger] sel.contains(x) <==> (exists|j: int| 0 <= j < k + 1 && inc[j] == x && self.edges()[x].2.is_reference()) by {
                            if sel.contains(x) && x != e as int {
                                let q = choose|q: int| 0 <= q < sel.len() && sel[q] == x;
                                assert(sel0.contains(x));
                            }
                            if x == e as int {
                                assert(sel[sel0.len() as int] == x);
                            }
                            if exists|j: int| 0 <= j < k + 1 && inc[j] == x && self.edges()[x].2.is_reference() {
                                let j = choose|j: int| 0 <= j < k + 1 && inc[j] == x && self.edges()[x].2.is_reference();
                                if j < k {
                                    assert(sel0.contains(x));
                                    let q = choose|q: int| 0 <= q < sel0.len() && sel0[q] == x;
                                    assert(sel[q] == x);
                                }
                            }
                        }
                        assert(!sel0.contains(e as int)) by {
                            if sel0.contains(e as int) {
                                let j = choose|j: int| 0 <= j < k && inc[j] == e as int && self.edges()[e as int].2.is_reference();
                                assert(inc[j] == inc[k as int]);
                            }
                        }
                        assert forall|a: int, b: int| 0 <= a < b < sel.len() implies sel[a] != sel[b] by {
                            if b == sel0.len() {
                                assert(sel0.contains(sel0[a]));
                            }
                        }
                        assert forall|j: int| 0 <= j < r.len() implies node_ix((#[trigger] r[j]).0) == self.edges()[sel[j]].0 && *r[j].1 == self.edges()[sel[j]].2 by {
                            if j < sel0.len() {
                                assert(sel[j] == sel0[j]);
                            }
                        }
                    }
                },
                _ => {
                    proof {
                        assert forall|x: int| #[trigger] sel.contains(x) <==> (exists|j: int| 0 <= j < k + 1 && inc[j] == x && self.edges()[x].2.is_reference()) by {
                            if exists|j: int| 0 <= j < k + 1 && inc[j] == x && self.edges()[x].2.is_reference() {
                                let j = choose|j: int| 0 <= j < k + 1 && inc[j] == x && self.edges()[x].2.is_reference();
                                if j == k {
                                    assert(!self.edges()[e as int].2.is_reference());
                                }
                            }
                        }
                    }
                },
            }
            k = k + 1;
        }
        proof {
            assert forall|e: int| #[trigger] sel.contains(e) <==> (0 <= e < self.edges().len() && self.edges()[e].1 == n && self.edges()[e].2.is_reference()) by {
                if sel.contains(e) {
                    let j = choose|j: int| 0 <= j < ids.len() && inc[j] == e && self.edges()[e].2.is_reference();
                }
                if 0 <= e < self.edges().len() && self.edges()[e].1 == n && self.edges()[e].2.is_reference() {
                    assert(touches(self.edges(), n, false)(e));
                    assert(inc.contains(e));
                    let j = choose|j: int| 0 <= j < inc.len() && inc[j] == e;
                }
            }
        }
        r
    }
}

/// Indexing a graph by an edge: a reference to the weight at position `e`.
#[verifier::external_body]
fn edge_weight_ref(g: &DiGraph<NodeKind, EdgeKind>, e: usize) -> (w: &EdgeKind)
    requires
        e < graph_edges(*g).len(),
    ensures
        *w == graph_edges(*g)[e as int].2,
{
    &g[EdgeIndex::new(e)]
}

/// No two symbol kinds print under the same name, so a kind parses back
/// from the name it prints as.
pub proof fn lemma_symbol_kind_names(a: SymbolKind, b: SymbolKind)
    ensures
        a.label() == b.label() ==> a == b,
{
    reveal_strlit("Function");
    reveal_strlit("Class");
    reveal_strlit("Method");
    reveal_strlit("Variable");
    reveal_strlit("TypeAlias");
    if a.label() == b.label() {
        assert(a.label().len() == b.label().len());
        assert(a.label()[0] == b.label()[0]);
    }
}

/// No two edge kinds carry the same label.
pub proof fn lemma_edge_kind_labels(a: EdgeKind, b: EdgeKind)
    ensures
        a.label() == b.label() ==> a == b,
{
    reveal_strlit("[call]");
    reveal_strlit("Imports");
    reveal_strlit("Exports");
    reveal_strlit("[read]");
    reveal_strlit("[write]");
    if a.label() == b.label() {
        assert(a.label().len() == b.label().len());
        assert(a.label()[0] == b.label()[0]);
        assert(a.label()[1] == b.label()[1]);
    }
}

} // verus!
