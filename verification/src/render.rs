//! Rendering of traced subgraphs as D2 or Mermaid diagrams.
use vstd::prelude::*;
use vstd::string::*;
use petgraph::graph::{EdgeIndex, NodeIndex};
use crate::graph::{CodeGraph, EdgeKind, NodeKind, SymbolNode, edge_ix, edge_position, node_ix, node_position, node_positions};
use crate::text::{decimal, decimal_string, owned, push_char, str_eq};
use crate::traverse::{Direction, TraceResult, as_ints, edge_positions, kept_edges, kept_endpoints, reached, traced_edges};
use crate::graph::{indices_where, lemma_indices_where_bounds, lemma_indices_where_step, node_index};

verus! {

/// The diagram language to render.
#[derive(Clone, Copy, Debug, PartialEq, Eq, Structural)]
pub enum Format {
    D2,
    Mermaid,
}

impl Format {
    /// The name under which the format is parsed.
    pub open spec fn label(self) -> Seq<char> {
        match self {
            Format::D2 => "d2"@,
            Format::Mermaid => "mermaid"@,
        }
    }
}

/// Reads a format from its name.
pub fn parse_format(s: &str) -> (r: Result<Format, String>)
    ensures
        match r {
            Ok(f) => s@ == f.label(),
            Err(e) => (forall|f: Format| s@ != f.label()) && e@ == "unknown format: "@ + s@,
        },
{
    if str_eq(s, "d2") {
        Ok(Format::D2)
    } else if str_eq(s, "mermaid") {
        Ok(Format::Mermaid)
    } else {
        let mut e = owned("unknown format: ");
        e.append(s);
        assert forall|f: Format| s@ != f.label() by {
            match f {
                Format::D2 => {},
                Format::Mermaid => {},
            }
        }
        Err(e)
    }
}

impl core::str::FromStr for Format {
    type Err = String;

    fn from_str(s: &str) -> (r: Result<Format, String>)
        ensures
            match r {
                Ok(f) => s@ == f.label(),
                Err(e) => (forall|f: Format| s@ != f.label()) && e@ == "unknown format: "@ + s@,
            },
    {
        parse_format(s)
    }
}

/// Strictly increasing.
pub open spec fn increasing(s: Seq<int>) -> bool {
    forall|i: int, j: int| 0 <= i < j < s.len() ==> s[i] < s[j]
}

/// The elements of a finite set of positions, in increasing order.
pub open spec fn sorted_listing(s: Set<int>) -> Seq<int> {
    choose|q: Seq<int>| increasing(q) && q.to_set() == s
}

/// Two increasing sequences with the same elements are equal.
pub proof fn lemma_increasing_unique(a: Seq<int>, b: Seq<int>)
    requires
        increasing(a),
        increasing(b),
        a.to_set() == b.to_set(),
    ensures
        a == b,
    decreases a.len(),
{
    if a.len() == 0 {
        if b.len() > 0 {
            assert(b.to_set().contains(b[0]));
        }
        assert(a =~= b);
    } else {
        assert(a.to_set().contains(a[0]));
        assert(b.len() > 0);
        assert(b.to_set().contains(b[0]));
        assert(a[0] == b[0]) by {
            assert(b.contains(a[0]));
            let j = choose|j: int| 0 <= j < b.len() && b[j] == a[0];
            assert(a.contains(b[0]));
            let i = choose|i: int| 0 <= i < a.len() && a[i] == b[0];
            if j > 0 {
                assert(b[0] < b[j]);
            }
            if i > 0 {
                assert(a[0] < a[i]);
            }
        }
        let a1 = a.drop_first();
        let b1 = b.drop_first();
        assert(a1.to_set() =~= b1.to_set()) by {
            assert forall|x: int| a1.to_set().contains(x) implies b1.to_set().contains(x) by {
                let i = choose|i: int| 0 <= i < a1.len() && a1[i] == x;
                assert(a[i + 1] == x);
                assert(x != a[0]);
                assert(b.contains(x)) by {
                    assert(a.to_set().contains(x));
                }
                let j = choose|j: int| 0 <= j < b.len() && b[j] == x;
                assert(j != 0);
                assert(b1[j - 1] == x);
            }
            assert forall|x: int| b1.to_set().contains(x) implies a1.to_set().contains(x) by {
                let j = choose|j: int| 0 <= j < b1.len() && b1[j] == x;
                assert(b[j + 1] == x);
                assert(x != b[0]);
                assert(a.contains(x)) by {
                    assert(b.to_set().contains(x));
                }
                let i = choose|i: int| 0 <= i < a.len() && a[i] == x;
                assert(i != 0);
                assert(a1[i - 1] == x);
            }
        }
        lemma_increasing_unique(a1, b1);
        assert(a =~= seq![a[0]] + a1);
        assert(b =~= seq![b[0]] + b1);
    }
}

/// An increasing sequence is the sorted listing of its elements.
pub proof fn lemma_sorted_listing(q: Seq<int>)
    requires
        increasing(q),
    ensures
        sorted_listing(q.to_set()) == q,
{
    let s = q.to_set();
    assert(exists|r: Seq<int>| increasing(r) && r.to_set() == s);
    let r = sorted_listing(s);
    lemma_increasing_unique(r, q);
}

/// The positions of `v`, in increasing order; `v` holds none twice.
fn sorted_positions(v: &Vec<usize>) -> (r: Vec<usize>)
    requires
        v@.no_duplicates(),
    ensures
        increasing(as_ints(r@)),
        as_ints(r@).to_set() == as_ints(v@).to_set(),
        r@.len() == v@.len(),
{
    let mut r: Vec<usize> = Vec::new();
    let mut k: usize = 0;
    while k < v.len()
        invariant
            k <= v.len(),
            v@.no_duplicates(),
            increasing(as_ints(r@)),
            as_ints(r@).to_set() == as_ints(v@.take(k as int)).to_set(),
            r@.len() == k,
        decreases v.len() - k,
    {
        let x = v[k];
        let mut pos: usize = 0;
        while pos < r.len() && r[pos] < x
            invariant
                pos <= r.len(),
                forall|j: int| 0 <= j < pos ==> r@[j] < x,
            decreases r.len() - pos,
        {
            pos = pos + 1;
        }
        let ghost r0 = r@;
        proof {
            assert(!as_ints(r0).contains(x as int)) by {
                if as_ints(r0).contains(x as int) {
                    assert(as_ints(v@.take(k as int)).to_set().contains(x as int));
                    let i = choose|i: int| 0 <= i < k && #[trigger] as_ints(v@.take(k as int))[i] == x as int;
                    assert(v@[i] == v@[k as int]);
                }
            }
            if pos < r0.len() {
                assert(r0[pos as int] != x) by {
                    assert(as_ints(r0)[pos as int] == r0[pos as int] as int);
                }
            }
        }
        r.insert(pos, x);
        proof {
            assert(as_ints(r@) =~= as_ints(r0).insert(pos as int, x as int));
            assert forall|i: int, j: int| 0 <= i < j < as_ints(r@).len() implies as_ints(r@)[i] < as_ints(r@)[j] by {
                if j < pos {
                } else if i < pos && j == pos {
                } else if i < pos && j > pos {
                    assert(as_ints(r@)[j] == as_ints(r0)[j - 1]);
                    if pos < r0.len() {
                        assert(as_ints(r0)[pos as int] <= as_ints(r0)[j - 1]);
                    }
                } else if i == pos {
                    assert(as_ints(r@)[j] == as_ints(r0)[j - 1]);
                    assert(as_ints(r0)[pos as int] <= as_ints(r0)[j - 1]);
                } else {
                    assert(as_ints(r@)[i] == as_ints(r0)[i - 1]);
                    assert(as_ints(r@)[j] == as_ints(r0)[j - 1]);
                }
            }
            assert(as_ints(v@.take(k + 1)) =~= as_ints(v@.take(k as int)).push(x as int));
            assert forall|y: int| as_ints(r@).to_set().contains(y) <==> as_ints(v@.take(k + 1)).to_set().contains(y) by {
                if as_ints(r@).contains(y) {
                    let i = choose|i: int| 0 <= i < as_ints(r@).len() && as_ints(r@)[i] == y;
                    if i < pos {
                        assert(as_ints(r0)[i] == y);
                        assert(as_ints(r0).to_set().contains(y));
                    } else if i > pos {
                        assert(as_ints(r0)[i - 1] == y);
                        assert(as_ints(r0).to_set().contains(y));
                    }
                    if y != x as int {
                        assert(as_ints(v@.take(k as int)).to_set().contains(y));
                        let q = choose|q: int| 0 <= q < k && #[trigger] as_ints(v@.take(k as int))[q] == y;
                        assert(as_ints(v@.take(k + 1))[q] == y);
                    } else {
                        assert(as_ints(v@.take(k + 1))[k as int] == y);
                    }
                }
                if as_ints(v@.take(k + 1)).contains(y) {
                    let q = choose|q: int| 0 <= q < k + 1 && #[trigger] as_ints(v@.take(k + 1))[q] == y;
                    if q < k {
                        assert(as_ints(v@.take(k as int))[q] == y);
                        assert(as_ints(r0).to_set().contains(y));
                        let i = choose|i: int| 0 <= i < r0.len() && #[trigger] as_ints(r0)[i] == y;
                        if i < pos {
                            assert(as_ints(r@)[i] == y);
                        } else {
                            assert(as_ints(r@)[i + 1] == y);
                        }
                    } else {
                        assert(as_ints(r@)[pos as int] == y);
                    }
                }
            }
            assert(as_ints(r@).to_set() =~= as_ints(v@.take(k + 1)).to_set());
        }
        k = k + 1;
    }
    assert(v@.take(v@.len() as int) =~= v@);
    r
}

/// The positions of a list of node indices, in increasing order.
fn sorted_nodes(ns: &Vec<NodeIndex>) -> (r: Vec<usize>)
    requires
        node_positions(ns@).no_duplicates(),
    ensures
        as_ints(r@) == sorted_listing(node_positions(ns@).to_set()),
        forall|j: int| 0 <= j < r@.len() ==> r@[j] <= u32::MAX && node_positions(ns@).contains(r@[j] as int),
        forall|x: int| node_positions(ns@).contains(x) ==> as_ints(r@).contains(x),
{
    let mut v: Vec<usize> = Vec::new();
    let mut i: usize = 0;
    while i < ns.len()
        invariant
            i <= ns.len(),
            as_ints(v@) == node_positions(ns@).take(i as int),
            forall|j: int| 0 <= j < v@.len() ==> v@[j] <= u32::MAX,
        decreases ns.len() - i,
    {
        let ghost v0 = v@;
        let x = node_position(ns[i]);
        v.push(x);
        assert(x == node_ix(ns@[i as int]));
        assert(node_positions(ns@)[i as int] == x as int);
        assert(as_ints(v@) =~= as_ints(v0).push(x as int));
        assert(node_positions(ns@).take(i + 1) =~= node_positions(ns@).take(i as int).push(x as int));
        i = i + 1;
    }
    assert(node_positions(ns@).take(ns@.len() as int) =~= node_positions(ns@));
    proof {
        assert forall|a: int, b: int| 0 <= a < b < v@.len() implies v@[a] != v@[b] by {
            assert(as_ints(v@)[a] != as_ints(v@)[b]);
        }
    }
    let r = sorted_positions(&v);
    proof {
        lemma_sorted_listing(as_ints(r@));
        assert forall|x: int| node_positions(ns@).contains(x) implies as_ints(r@).contains(x) by {
            assert(as_ints(v@).to_set().contains(x));
        }
        assert forall|j: int| 0 <= j < r@.len() implies r@[j] <= u32::MAX && node_positions(ns@).contains(r@[j] as int) by {
            assert(as_ints(r@).to_set().contains(r@[j] as int)) by {
                assert(as_ints(r@)[j] == r@[j] as int);
            }
            let q = choose|q: int| 0 <= q < as_ints(v@).len() && as_ints(v@)[q] == r@[j] as int;
        }
    }
    r
}

/// The positions of a list of edge indices, in increasing order.
fn sorted_edges(es: &Vec<EdgeIndex>) -> (r: Vec<usize>)
    requires
        edge_positions(es@).no_duplicates(),
    ensures
        as_ints(r@) == sorted_listing(edge_positions(es@).to_set()),
        forall|j: int| 0 <= j < r@.len() ==> edge_positions(es@).contains(r@[j] as int),
        forall|x: int| edge_positions(es@).contains(x) ==> as_ints(r@).contains(x),
{
    let mut v: Vec<usize> = Vec::new();
    let mut i: usize = 0;
    while i < es.len()
        invariant
            i <= es.len(),
            as_ints(v@) == edge_positions(es@).take(i as int),
        decreases es.len() - i,
    {
        let ghost v0 = v@;
        let x = edge_position(es[i]);
        v.push(x);
        assert(x == edge_ix(es@[i as int]));
        assert(edge_positions(es@)[i as int] == x as int);
        assert(as_ints(v@) =~= as_ints(v0).push(x as int));
        assert(edge_positions(es@).take(i + 1) =~= edge_positions(es@).take(i as int).push(x as int));
        i = i + 1;
    }
    assert(edge_positions(es@).take(es@.len() as int) =~= edge_positions(es@));
    proof {
        assert forall|a: int, b: int| 0 <= a < b < v@.len() implies v@[a] != v@[b] by {
            assert(as_ints(v@)[a] != as_ints(v@)[b]);
        }
    }
    let r = sorted_positions(&v);
    proof {
        lemma_sorted_listing(as_ints(r@));
        assert forall|x: int| edge_positions(es@).contains(x) implies as_ints(r@).contains(x) by {
            assert(as_ints(v@).to_set().contains(x));
        }
        assert forall|j: int| 0 <= j < r@.len() implies edge_positions(es@).contains(r@[j] as int) by {
            assert(as_ints(r@).to_set().contains(r@[j] as int)) by {
                assert(as_ints(r@)[j] == r@[j] as int);
            }
        }
    }
    r
}

/// Lines joined by line breaks, with none after the last.
pub open spec fn join_lines(lines: Seq<Seq<char>>) -> Seq<char>
    decreases lines.len(),
{
    if lines.len() == 0 {
        Seq::empty()
    } else if lines.len() == 1 {
        lines[0]
    } else {
        join_lines(lines.drop_last()) + seq!['\n'] + lines.last()
    }
}

/// Text built line by line.
struct Lines {
    text: String,
    started: bool,
    lines: Ghost<Seq<Seq<char>>>,
}

impl Lines {
    /// The text is the lines joined by line breaks.
    spec fn wf(&self) -> bool {
        &&& self.text@ == join_lines(self.lines@)
        &&& self.started == (self.lines@.len() > 0)
    }

    /// No line yet.
    fn new() -> (r: Lines)
        ensures
            r.wf(),
            r.lines@ == Seq::<Seq<char>>::empty(),
    {
        Lines { text: String::new(), started: false, lines: Ghost(Seq::empty()) }
    }

    /// Appends a line.
    fn push(&mut self, line: &str)
        requires
            old(self).wf(),
        ensures
            final(self).wf(),
            final(self).lines@ == old(self).lines@.push(line@),
    {
        let ghost l0 = self.lines@;
        assert(l0.push(line@).drop_last() =~= l0);
        let ghost t0 = self.text@;
        if self.started {
            push_char(&mut self.text, '\n');
        }
        self.text.append(line);
        if self.started {
            assert(self.text@ =~= t0 + seq!['\n'] + line@);
        } else {
            assert(self.text@ =~= line@);
        }
        self.started = true;
        self.lines = Ghost(l0.push(line@));
    }
}

/// The identifier of node `i` in a diagram.
pub open spec fn node_name(i: int) -> Seq<char> {
    "node_"@ + decimal(i as nat)
}

/// A symbol's name, kind and location, separated by `sep`.
pub open spec fn symbol_label(s: SymbolNode, sep: Seq<char>) -> Seq<char> {
    s.name@ + sep + s.kind.label() + sep + s.file_path@ + ":"@ + decimal(s.line as nat)
}

/// The quoted D2 label of a node.
pub open spec fn d2_label(n: NodeKind) -> Seq<char> {
    "\""@ + match n {
        NodeKind::Symbol(s) => symbol_label(s, "\\n"@),
        NodeKind::File(f) => f.file_path@,
    } + "\""@
}

/// The D2 declaration of node `i`, indented by `indent`, linking to layer
/// `link` if there is one.
pub open spec fn d2_node_line(indent: Seq<char>, i: int, n: NodeKind, link: Option<Seq<char>>) -> Seq<char> {
    indent + node_name(i) + ": "@ + d2_label(n) + match link {
        Some(id) => " {\n"@ + indent + "  link: layers."@ + id + "\n"@ + indent + "}"@,
        None => Seq::empty(),
    }
}

/// The D2 declaration of an edge, indented by `indent`.
pub open spec fn d2_edge_line(indent: Seq<char>, edge: (usize, usize, EdgeKind)) -> Seq<char> {
    indent + node_name(edge.0 as int) + " -> "@ + node_name(edge.1 as int) + ": \""@ + edge.2.label() + "\""@
}

/// The Mermaid declaration of node `i`.
pub open spec fn mermaid_node_line(i: int, n: NodeKind) -> Seq<char> {
    "    "@ + node_name(i) + "[\""@ + match n {
        NodeKind::Symbol(s) => symbol_label(s, "<br/>"@),
        NodeKind::File(f) => f.file_path@,
    } + "\"]"@
}

/// The Mermaid declaration of an edge.
pub open spec fn mermaid_edge_line(edge: (usize, usize, EdgeKind)) -> Seq<char> {
    "    "@ + node_name(edge.0 as int) + " -->|\""@ + edge.2.label() + "\"| "@ + node_name(edge.1 as int)
}

/// D2 declarations of the listed nodes, none of them linked.
pub open spec fn d2_node_lines(indent: Seq<char>, nodes: Seq<NodeKind>, list: Seq<int>) -> Seq<Seq<char>> {
    list.map_values(|i: int| d2_node_line(indent, i, nodes[i], None))
}

/// D2 declarations of the listed edges.
pub open spec fn d2_edge_lines(indent: Seq<char>, edges: Seq<(usize, usize, EdgeKind)>, list: Seq<int>) -> Seq<Seq<char>> {
    list.map_values(|e: int| d2_edge_line(indent, edges[e]))
}

/// The trace's nodes, in increasing order.
pub open spec fn trace_nodes(t: TraceResult) -> Seq<int> {
    sorted_listing(t.nodes().to_set())
}

/// The trace's edges, in increasing order.
pub open spec fn trace_edges(t: TraceResult) -> Seq<int> {
    sorted_listing(t.edges().to_set())
}

/// The lines of the D2 diagram of a trace.
pub open spec fn d2_lines(g: CodeGraph, t: TraceResult) -> Seq<Seq<char>> {
    d2_node_lines(Seq::empty(), g.nodes(), trace_nodes(t)) + d2_edge_lines(Seq::empty(), g.edges(), trace_edges(t))
}

/// The lines of the Mermaid diagram of a trace.
pub open spec fn mermaid_lines(g: CodeGraph, t: TraceResult) -> Seq<Seq<char>> {
    seq!["flowchart TD"@] + trace_nodes(t).map_values(|i: int| mermaid_node_line(i, g.nodes()[i]))
        + trace_edges(t).map_values(|e: int| mermaid_edge_line(g.edges()[e]))
}

/// A trace fits a graph: its nodes and edges are in the graph and none is
/// listed twice.
pub open spec fn fits(g: CodeGraph, t: TraceResult) -> bool {
    &&& t.nodes().no_duplicates()
    &&& t.edges().no_duplicates()
    &&& forall|j: int| 0 <= j < t.nodes().len() ==> t.nodes()[j] < g.nodes().len()
    &&& forall|j: int| 0 <= j < t.edges().len() ==> t.edges()[j] < g.edges().len()
}

/// The identifier of node `i`.
fn node_name_string(i: usize) -> (s: String)
    ensures
        s@ == node_name(i as int),
{
    let mut s = owned("node_");
    s.append(decimal_string(i).as_str());
    s
}

/// A symbol's name, kind and location, separated by `sep`.
fn symbol_label_string(s: &SymbolNode, sep: &str) -> (r: String)
    ensures
        r@ == symbol_label(*s, sep@),
{
    let mut r = owned(s.name.as_str());
    r.append(sep);
    r.append(s.kind.to_string().as_str());
    r.append(sep);
    r.append(s.file_path.as_str());
    r.append(":");
    r.append(decimal_string(s.line).as_str());
    r
}

/// The D2 declaration of node `i`.
fn d2_node_string(g: &CodeGraph, i: usize, indent: &str, link: Option<&String>) -> (r: String)
    requires
        i < g.nodes().len(),
    ensures
        r@ == d2_node_line(indent@, i as int, g.nodes()[i as int], match link { Some(id) => Some(id@), None => None }),
{
    let n = g.node_at(i);
    let mut r = owned(indent);
    r.append(node_name_string(i).as_str());
    r.append(": ");
    r.append("\"");
    match n {
        NodeKind::Symbol(s) => r.append(symbol_label_string(s, "\\n").as_str()),
        NodeKind::File(f) => r.append(f.file_path.as_str()),
    }
    r.append("\"");
    match link {
        Some(id) => {
            r.append(" {\n");
            r.append(indent);
            r.append("  link: layers.");
            r.append(id.as_str());
            r.append("\n");
            r.append(indent);
            r.append("}");
        },
        None => {},
    }
    r
}

/// The D2 declaration of edge `e`.
fn d2_edge_string(g: &CodeGraph, e: usize, indent: &str) -> (r: String)
    requires
        e < g.edges().len(),
    ensures
        r@ == d2_edge_line(indent@, g.edges()[e as int]),
{
    let (src, tgt, kind) = g.edge_at(e);
    let mut r = owned(indent);
    r.append(node_name_string(src).as_str());
    r.append(" -> ");
    r.append(node_name_string(tgt).as_str());
    r.append(": \"");
    r.append(kind.to_string().as_str());
    r.append("\"");
    r
}

/// Appends the D2 declarations of the listed nodes, none linked.
fn push_d2_nodes(out: &mut Lines, g: &CodeGraph, list: &Vec<usize>, indent: &str)
    requires
        old(out).wf(),
        forall|j: int| 0 <= j < list@.len() ==> list@[j] < g.nodes().len(),
    ensures
        final(out).wf(),
        final(out).lines@ == old(out).lines@ + d2_node_lines(indent@, g.nodes(), as_ints(list@)),
{
    let mut k: usize = 0;
    while k < list.len()
        invariant
            k <= list.len(),
            forall|j: int| 0 <= j < list@.len() ==> list@[j] < g.nodes().len(),
            out.wf(),
            out.lines@ == old(out).lines@ + d2_node_lines(indent@, g.nodes(), as_ints(list@).take(k as int)),
        decreases list.len() - k,
    {
        let l = d2_node_string(g, list[k], indent, None);
        out.push(l.as_str());
        assert(old(out).lines@ + d2_node_lines(indent@, g.nodes(), as_ints(list@).take(k + 1)) =~= (old(out).lines@ + d2_node_lines(indent@, g.nodes(), as_ints(list@).take(k as int))).push(l@));
        k = k + 1;
    }
    assert(as_ints(list@).take(list@.len() as int) =~= as_ints(list@));
}

/// Appends the D2 declarations of the listed edges.
fn push_d2_edges(out: &mut Lines, g: &CodeGraph, list: &Vec<usize>, indent: &str)
    requires
        old(out).wf(),
        forall|j: int| 0 <= j < list@.len() ==> list@[j] < g.edges().len(),
    ensures
        final(out).wf(),
        final(out).lines@ == old(out).lines@ + d2_edge_lines(indent@, g.edges(), as_ints(list@)),
{
    let mut k: usize = 0;
    while k < list.len()
        invariant
            k <= list.len(),
            forall|j: int| 0 <= j < list@.len() ==> list@[j] < g.edges().len(),
            out.wf(),
            out.lines@ == old(out).lines@ + d2_edge_lines(indent@, g.edges(), as_ints(list@).take(k as int)),
        decreases list.len() - k,
    {
        let l = d2_edge_string(g, list[k], indent);
        out.push(l.as_str());
        assert(old(out).lines@ + d2_edge_lines(indent@, g.edges(), as_ints(list@).take(k + 1)) =~= (old(out).lines@ + d2_edge_lines(indent@, g.edges(), as_ints(list@).take(k as int))).push(l@));
        k = k + 1;
    }
    assert(as_ints(list@).take(list@.len() as int) =~= as_ints(list@));
}

/// The Mermaid declaration of node `i`.
fn mermaid_node_string(g: &CodeGraph, i: usize) -> (r: String)
    requires
        i < g.nodes().len(),
    ensures
        r@ == mermaid_node_line(i as int, g.nodes()[i as int]),
{
    let n = g.node_at(i);
    let mut r = owned("    ");
    r.append(node_name_string(i).as_str());
    r.append("[\"");
    match n {
        NodeKind::Symbol(s) => r.append(symbol_label_string(s, "<br/>").as_str()),
        NodeKind::File(f) => r.append(f.file_path.as_str()),
    }
    r.append("\"]");
    r
}

/// The Mermaid declaration of edge `e`.
fn mermaid_edge_string(g: &CodeGraph, e: usize) -> (r: String)
    requires
        e < g.edges().len(),
    ensures
        r@ == mermaid_edge_line(g.edges()[e as int]),
{
    let (src, tgt, kind) = g.edge_at(e);
    let mut r = owned("    ");
    r.append(node_name_string(src).as_str());
    r.append(" -->|\"");
    r.append(kind.to_string().as_str());
    r.append("\"| ");
    r.append(node_name_string(tgt).as_str());
    r
}

/// The sorted nodes and edges of a trace that fits the graph.
fn sorted_trace(trace: &TraceResult, graph: &CodeGraph) -> (r: (Vec<usize>, Vec<usize>))
    requires
        fits(*graph, *trace),
    ensures
        as_ints(r.0@) == trace_nodes(*trace),
        as_ints(r.1@) == trace_edges(*trace),
        forall|j: int| 0 <= j < r.0@.len() ==> r.0@[j] < graph.nodes().len() && trace.nodes().contains(r.0@[j] as int),
        forall|j: int| 0 <= j < r.1@.len() ==> r.1@[j] < graph.edges().len() && trace.edges().contains(r.1@[j] as int),
        forall|x: int| trace.edges().contains(x) ==> as_ints(r.1@).contains(x),
        forall|x: int| trace.nodes().contains(x) ==> as_ints(r.0@).contains(x),
{
    let sn = sorted_nodes(&trace.node_indices);
    let se = sorted_edges(&trace.edge_indices);
    (sn, se)
}

/// The D2 diagram of a trace: a declaration per node, labelled with the
/// symbol's name, kind and location or with the file's path, then a
/// declaration per edge, labelled with its kind, each list in increasing
/// order of position, one per line.
pub fn render_d2(trace: &TraceResult, graph: &CodeGraph) -> (r: String)
    requires
        fits(*graph, *trace),
    ensures
        r@ == join_lines(d2_lines(*graph, *trace)),
{
    let (sn, se) = sorted_trace(trace, graph);
    let mut out = Lines::new();
    proof {
        reveal_strlit("");
    }
    push_d2_nodes(&mut out, graph, &sn, "");
    push_d2_edges(&mut out, graph, &se, "");
    assert(out.lines@ =~= d2_lines(*graph, *trace));
    out.text
}

/// The Mermaid flowchart of a trace: the header, then a declaration per
/// node and per edge, each list in increasing order of position.
pub fn render_mermaid(trace: &TraceResult, graph: &CodeGraph) -> (r: String)
    requires
        fits(*graph, *trace),
    ensures
        r@ == join_lines(mermaid_lines(*graph, *trace)),
{
    let (sn, se) = sorted_trace(trace, graph);
    let mut out = Lines::new();
    out.push("flowchart TD");
    let mut k: usize = 0;
    while k < sn.len()
        invariant
            k <= sn.len(),
            forall|j: int| 0 <= j < sn@.len() ==> sn@[j] < graph.nodes().len(),
            out.wf(),
            out.lines@ == seq!["flowchart TD"@] + as_ints(sn@).take(k as int).map_values(|i: int| mermaid_node_line(i, graph.nodes()[i])),
        decreases sn.len() - k,
    {
        let l = mermaid_node_string(graph, sn[k]);
        out.push(l.as_str());
        assert(seq!["flowchart TD"@] + as_ints(sn@).take(k + 1).map_values(|i: int| mermaid_node_line(i, graph.nodes()[i])) =~= (seq!["flowchart TD"@] + as_ints(sn@).take(k as int).map_values(|i: int| mermaid_node_line(i, graph.nodes()[i]))).push(l@));
        k = k + 1;
    }
    let ghost head = out.lines@;
    assert(as_ints(sn@).take(sn@.len() as int) =~= as_ints(sn@));
    let mut k: usize = 0;
    while k < se.len()
        invariant
            k <= se.len(),
            forall|j: int| 0 <= j < se@.len() ==> se@[j] < graph.edges().len(),
            out.wf(),
            out.lines@ == head + as_ints(se@).take(k as int).map_values(|e: int| mermaid_edge_line(graph.edges()[e])),
        decreases se.len() - k,
    {
        let l = mermaid_edge_string(graph, se[k]);
        out.push(l.as_str());
        assert(head + as_ints(se@).take(k + 1).map_values(|e: int| mermaid_edge_line(graph.edges()[e])) =~= (head + as_ints(se@).take(k as int).map_values(|e: int| mermaid_edge_line(graph.edges()[e]))).push(l@));
        k = k + 1;
    }
    assert(as_ints(se@).take(se@.len() as int) =~= as_ints(se@));
    assert(out.lines@ =~= mermaid_lines(*graph, *trace));
    out.text
}

/// The diagram of a trace in the chosen format.
pub fn render(trace: &TraceResult, graph: &CodeGraph, format: Format) -> (r: String)
    requires
        fits(*graph, *trace),
    ensures
        format is D2 ==> r@ == join_lines(d2_lines(*graph, *trace)),
        format is Mermaid ==> r@ == join_lines(mermaid_lines(*graph, *trace)),
{
    match format {
        Format::D2 => render_d2(trace, graph),
        Format::Mermaid => render_mermaid(trace, graph),
    }
}

/// Whether a character is a letter or a digit, by Unicode's reckoning.
pub uninterp spec fn is_alphanumeric(c: char) -> bool;

/// `char::is_alphanumeric`.
#[verifier::external_body]
fn char_is_alphanumeric(c: char) -> (r: bool)
    ensures
        r == is_alphanumeric(c),
{
    c.is_alphanumeric()
}

/// `s` with every character that is no letter or digit replaced by `_`.
pub open spec fn sanitised(s: Seq<char>) -> Seq<char> {
    s.map_values(|c: char| if is_alphanumeric(c) { c } else { '_' })
}

/// The name a node carries: a symbol's name or a file's path.
pub open spec fn node_title(n: NodeKind) -> Seq<char> {
    match n {
        NodeKind::Symbol(s) => s.name@,
        NodeKind::File(f) => f.file_path@,
    }
}

/// The identifier of the layer for node `i`.
pub open spec fn layer_id(n: NodeKind, i: int) -> Seq<char> {
    sanitised(node_title(n)) + "_"@ + decimal(i as nat)
}

/// The identifier of the layer for node `i` of the graph.
pub fn sanitise_layer_id(idx: NodeIndex, graph: &CodeGraph) -> (r: String)
    requires
        node_ix(idx) < graph.nodes().len(),
    ensures
        r@ == layer_id(graph.nodes()[node_ix(idx) as int], node_ix(idx) as int),
{
    let i = node_position(idx);
    let title: &String = match graph.node_at(i) {
        NodeKind::Symbol(s) => &s.name,
        NodeKind::File(f) => &f.file_path,
    };
    let cs = crate::text::chars_of(title.as_str());
    let mut r = String::new();
    let mut k: usize = 0;
    while k < cs.len()
        invariant
            k <= cs.len(),
            cs@ == title@,
            r@ == sanitised(cs@.take(k as int)),
        decreases cs.len() - k,
    {
        let c = cs[k];
        if char_is_alphanumeric(c) {
            push_char(&mut r, c);
        } else {
            push_char(&mut r, '_');
        }
        assert(sanitised(cs@.take(k + 1)) =~= sanitised(cs@.take(k as int)).push(if is_alphanumeric(c) { c } else { '_' }));
        k = k + 1;
    }
    assert(cs@.take(cs@.len() as int) =~= cs@);
    r.append("_");
    r.append(decimal_string(i).as_str());
    r
}

/// Node `i` of a trace from `start` gets a layer: it is a symbol other than
/// the start, and following its edges one step reaches an edge that the
/// trace does not hold.
pub open spec fn has_layer(g: CodeGraph, t: TraceResult, start: int, dir: Direction, filter: Seq<EdgeKind>, i: int) -> bool {
    &&& i != start
    &&& g.nodes()[i] is Symbol
    &&& exists|e: int| #[trigger] traced_edges(g.edges(), filter, dir, i, 1).contains(e) && !t.edges().contains(e)
}

/// The link of node `i` on the root board, if it has a layer.
pub open spec fn layer_link(g: CodeGraph, layered: bool, i: int) -> Option<Seq<char>> {
    if layered {
        Some(layer_id(g.nodes()[i], i))
    } else {
        None
    }
}

/// The board of the layer for node `i`: its one-step trace.
pub open spec fn trace_layer_block(g: CodeGraph, dir: Direction, filter: Seq<EdgeKind>, i: int) -> Seq<Seq<char>> {
    seq!["  "@ + layer_id(g.nodes()[i], i) + ": {"@]
        + d2_node_lines("    "@, g.nodes(), sorted_listing(reached(g.edges(), filter, dir, i, 1)))
        + d2_edge_lines("    "@, g.edges(), sorted_listing(traced_edges(g.edges(), filter, dir, i, 1)))
        + seq!["  }"@]
}

/// Boards one after the other.
pub open spec fn blocks(list: Seq<int>, block: spec_fn(int) -> Seq<Seq<char>>) -> Seq<Seq<char>>
    decreases list.len(),
{
    if list.len() == 0 {
        Seq::empty()
    } else {
        blocks(list.drop_last(), block) + block(list.last())
    }
}

/// The layers block holding the given boards, absent when there are none.
pub open spec fn layers_section(list: Seq<int>, block: spec_fn(int) -> Seq<Seq<char>>) -> Seq<Seq<char>> {
    if list.len() == 0 {
        Seq::empty()
    } else {
        seq![""@, "layers: {"@] + blocks(list, block) + seq!["}"@]
    }
}

/// Which nodes of a trace from `start` get a layer.
pub open spec fn layered_in(g: CodeGraph, t: TraceResult, start: int, dir: Direction, filter: Seq<EdgeKind>) -> spec_fn(int) -> bool {
    |i: int| has_layer(g, t, start, dir, filter, i)
}

/// The boards of the layers, by node.
pub open spec fn trace_layer_blocks(g: CodeGraph, dir: Direction, filter: Seq<EdgeKind>) -> spec_fn(int) -> Seq<Seq<char>> {
    |i: int| trace_layer_block(g, dir, filter, i)
}

/// The root-board declaration of node `i`, linked when `layered` holds.
pub open spec fn root_node_line(g: CodeGraph, layered: bool, i: int) -> Seq<char> {
    d2_node_line(Seq::empty(), i, g.nodes()[i], layer_link(g, layered, i))
}

/// The lines of the layered D2 diagram of a trace from `start`.
pub open spec fn d2_layer_lines(g: CodeGraph, t: TraceResult, start: int, dir: Direction, filter: Seq<EdgeKind>) -> Seq<Seq<char>> {
    let layered = layered_in(g, t, start, dir, filter);
    trace_nodes(t).map_values(|i: int| root_node_line(g, layered(i), i))
        + d2_edge_lines(Seq::empty(), g.edges(), trace_edges(t))
        + layers_section(trace_nodes(t).filter(layered), trace_layer_blocks(g, dir, filter))
}

/// `sub` is the one-step trace from node `i`, with nothing listed twice.
pub open spec fn is_one_step(g: CodeGraph, filter: Seq<EdgeKind>, dir: Direction, i: int, sub: TraceResult) -> bool {
    &&& sub.nodes().no_duplicates()
    &&& sub.edges().no_duplicates()
    &&& sub.nodes().to_set() == reached(g.edges(), filter, dir, i, 1)
    &&& sub.edges().to_set() == traced_edges(g.edges(), filter, dir, i, 1)
}

/// Whether `x` is among the positions of `v`.
fn contains_position(v: &Vec<usize>, x: usize) -> (r: bool)
    ensures
        r == as_ints(v@).contains(x as int),
{
    let mut i: usize = 0;
    while i < v.len()
        invariant
            i <= v.len(),
            forall|j: int| 0 <= j < i ==> v@[j] != x,
        decreases v.len() - i,
    {
        if v[i] == x {
            assert(as_ints(v@)[i as int] == x as int);
            return true;
        }
        i = i + 1;
    }
    proof {
        if as_ints(v@).contains(x as int) {
            let j = choose|j: int| 0 <= j < as_ints(v@).len() && as_ints(v@)[j] == x as int;
            assert(v@[j] == x);
        }
    }
    false
}

/// Whether a trace holds an edge that is not among `known`.
fn has_other_edge(sub: &TraceResult, known: &Vec<usize>) -> (r: bool)
    ensures
        r == exists|j: int| 0 <= j < sub.edges().len() && !as_ints(known@).contains(#[trigger] sub.edges()[j]),
{
    let mut j: usize = 0;
    while j < sub.edge_indices.len()
        invariant
            j <= sub.edge_indices.len(),
            forall|q: int| 0 <= q < j ==> as_ints(known@).contains(#[trigger] sub.edges()[q]),
        decreases sub.edge_indices.len() - j,
    {
        let e = edge_position(sub.edge_indices[j]);
        assert(sub.edges()[j as int] == e as int);
        if !contains_position(known, e) {
            return true;
        }
        j = j + 1;
    }
    false
}

/// For each listed node, whether it gets a layer; the nodes that do, in
/// order; and their one-step traces.
fn pick_layers(
    trace: &TraceResult,
    graph: &CodeGraph,
    sn: &Vec<usize>,
    se: &Vec<usize>,
    s: usize,
    direction: &Direction,
    edge_filter: &Vec<EdgeKind>,
) -> (r: (Vec<bool>, Vec<usize>, Vec<TraceResult>))
    requires
        graph.wf(),
        forall|j: int| 0 <= j < sn@.len() ==> sn@[j] < graph.nodes().len(),
        forall|x: int| trace.edges().contains(x) <==> as_ints(se@).contains(x),
    ensures
        r.0@.len() == sn@.len(),
        forall|j: int| 0 <= j < sn@.len() ==> r.0@[j] == has_layer(*graph, *trace, s as int, *direction, edge_filter@, #[trigger] sn@[j] as int),
        as_ints(r.1@) == as_ints(sn@).filter(layered_in(*graph, *trace, s as int, *direction, edge_filter@)),
        r.2@.len() == r.1@.len(),
        forall|j: int| 0 <= j < r.2@.len() ==> is_one_step(*graph, edge_filter@, *direction, r.1@[j] as int, #[trigger] r.2@[j]),
        forall|j: int| 0 <= j < r.1@.len() ==> #[trigger] r.1@[j] < graph.nodes().len(),
{
    let ghost g = *graph;
    let ghost t = *trace;
    let ghost st = s as int;
    let ghost dir = *direction;
    let ghost filter = edge_filter@;
    let ghost layered = layered_in(g, t, st, dir, filter);
    proof {
        graph.lemma_wf();
    }
    let mut flags: Vec<bool> = Vec::new();
    let mut layer_nodes: Vec<usize> = Vec::new();
    let mut subs: Vec<TraceResult> = Vec::new();
    let mut k: usize = 0;
    while k < sn.len()
        invariant
            graph.wf(),
            g == *graph,
            t == *trace,
            dir == *direction,
            filter == edge_filter@,
            st == s as int,
            layered == layered_in(g, t, st, dir, filter),
            graph.nodes().len() <= u32::MAX,
            forall|j: int| 0 <= j < sn@.len() ==> sn@[j] < graph.nodes().len(),
            forall|x: int| trace.edges().contains(x) <==> as_ints(se@).contains(x),
            k <= sn.len(),
            flags@.len() == k,
            forall|j: int| 0 <= j < k ==> flags@[j] == has_layer(g, t, st, dir, filter, #[trigger] sn@[j] as int),
            as_ints(layer_nodes@) == as_ints(sn@).take(k as int).filter(layered),
            subs@.len() == layer_nodes@.len(),
            forall|j: int| 0 <= j < subs@.len() ==> is_one_step(g, filter, dir, layer_nodes@[j] as int, #[trigger] subs@[j]),
            forall|j: int| 0 <= j < layer_nodes@.len() ==> #[trigger] layer_nodes@[j] < graph.nodes().len(),
        decreases sn.len() - k,
    {
        let i = sn[k];
        let mut flag = false;
        proof {
            reveal_with_fuel(Seq::<_>::filter, 1);
            assert(as_ints(sn@).take(k + 1).drop_last() =~= as_ints(sn@).take(k as int));
            assert(as_ints(sn@).take(k + 1).last() == i as int);
        }
        let ghost ln0 = layer_nodes@;
        if i != s {
            let is_symbol = match graph.node_at(i) {
                NodeKind::Symbol(_) => true,
                NodeKind::File(_) => false,
            };
            if is_symbol {
                let sub = crate::traverse::trace(graph, node_index(i), 1, direction, edge_filter);
                if has_other_edge(&sub, se) {
                    flag = true;
                    proof {
                        let j = choose|j: int| 0 <= j < sub.edges().len() && !as_ints(se@).contains(#[trigger] sub.edges()[j]);
                        let e = sub.edges()[j];
                        assert(sub.edges().to_set().contains(e));
                        assert(traced_edges(g.edges(), filter, dir, i as int, 1).contains(e));
                    }
                    layer_nodes.push(i);
                    subs.push(sub);
                    assert(as_ints(layer_nodes@) =~= as_ints(ln0).push(i as int));
                } else {
                    proof {
                        assert forall|e: int| #[trigger] traced_edges(g.edges(), filter, dir, i as int, 1).contains(e) implies trace.edges().contains(e) by {
                            assert(sub.edges().to_set().contains(e));
                            let j = choose|j: int| 0 <= j < sub.edges().len() && sub.edges()[j] == e;
                            assert(as_ints(se@).contains(sub.edges()[j]));
                        }
                    }
                }
            }
        }
        flags.push(flag);
        k = k + 1;
    }
    assert(as_ints(sn@).take(sn@.len() as int) =~= as_ints(sn@));
    (flags, layer_nodes, subs)
}

/// Appends the root-board declarations of the listed nodes, linking those
/// whose flag is set.
fn push_root_nodes(out: &mut Lines, graph: &CodeGraph, sn: &Vec<usize>, flags: &Vec<bool>)
    requires
        old(out).wf(),
        graph.wf(),
        flags@.len() == sn@.len(),
        forall|j: int| 0 <= j < sn@.len() ==> sn@[j] < graph.nodes().len(),
    ensures
        final(out).wf(),
        final(out).lines@ == old(out).lines@ + Seq::new(sn@.len(), |j: int| root_node_line(*graph, flags@[j], sn@[j] as int)),
{
    proof {
        graph.lemma_wf();
    }
    let mut k: usize = 0;
    while k < sn.len()
        invariant
            graph.nodes().len() <= u32::MAX,
            flags@.len() == sn@.len(),
            forall|j: int| 0 <= j < sn@.len() ==> sn@[j] < graph.nodes().len(),
            k <= sn.len(),
            out.wf(),
            out.lines@ == old(out).lines@ + Seq::new(k as nat, |j: int| root_node_line(*graph, flags@[j], sn@[j] as int)),
        decreases sn.len() - k,
    {
        let i = sn[k];
        proof {
            reveal_strlit("");
        }
        let l = if flags[k] {
            let id = sanitise_layer_id(node_index(i), graph);
            d2_node_string(graph, i, "", Some(&id))
        } else {
            d2_node_string(graph, i, "", None)
        };
        assert(l@ == root_node_line(*graph, flags@[k as int], i as int));
        out.push(l.as_str());
        assert(old(out).lines@ + Seq::new((k + 1) as nat, |j: int| root_node_line(*graph, flags@[j], sn@[j] as int)) =~= (old(out).lines@ + Seq::new(k as nat, |j: int| root_node_line(*graph, flags@[j], sn@[j] as int))).push(l@));
        k = k + 1;
    }
}

/// Appends the board of each listed node's layer.
fn push_layer_blocks(out: &mut Lines, graph: &CodeGraph, layer_nodes: &Vec<usize>, subs: &Vec<TraceResult>, direction: &Direction, edge_filter: &Vec<EdgeKind>)
    requires
        old(out).wf(),
        graph.wf(),
        subs@.len() == layer_nodes@.len(),
        forall|j: int| 0 <= j < subs@.len() ==> is_one_step(*graph, edge_filter@, *direction, layer_nodes@[j] as int, #[trigger] subs@[j]),
        forall|j: int| 0 <= j < layer_nodes@.len() ==> #[trigger] layer_nodes@[j] < graph.nodes().len(),
    ensures
        final(out).wf(),
        final(out).lines@ == old(out).lines@ + blocks(as_ints(layer_nodes@), trace_layer_blocks(*graph, *direction, edge_filter@)),
{
    let ghost g = *graph;
    let ghost listed = as_ints(layer_nodes@);
    let ghost block = trace_layer_blocks(*graph, *direction, edge_filter@);
    let mut q: usize = 0;
    while q < layer_nodes.len()
        invariant
            g == *graph,
            graph.wf(),
            q <= layer_nodes.len(),
            listed == as_ints(layer_nodes@),
            block == trace_layer_blocks(*graph, *direction, edge_filter@),
            subs@.len() == layer_nodes@.len(),
            forall|j: int| 0 <= j < subs@.len() ==> is_one_step(*graph, edge_filter@, *direction, layer_nodes@[j] as int, #[trigger] subs@[j]),
            forall|j: int| 0 <= j < layer_nodes@.len() ==> #[trigger] layer_nodes@[j] < graph.nodes().len(),
            out.wf(),
            out.lines@ == old(out).lines@ + blocks(listed.take(q as int), block),
        decreases layer_nodes.len() - q,
    {
        let i = layer_nodes[q];
        let ghost before = out.lines@;
        proof {
            graph.lemma_wf();
            lemma_trace_fits(*graph, subs@[q as int], i as int, *direction, edge_filter@, 1);
        }
        let mut line = owned("  ");
        line.append(sanitise_layer_id(node_index(i), graph).as_str());
        line.append(": {");
        out.push(line.as_str());
        let (sub_nodes, sub_edges) = sorted_trace(&subs[q], graph);
        push_d2_nodes(out, graph, &sub_nodes, "    ");
        push_d2_edges(out, graph, &sub_edges, "    ");
        out.push("  }");
        proof {
            let sub = subs@[q as int];
            assert(as_ints(sub_nodes@) == sorted_listing(reached(g.edges(), edge_filter@, *direction, i as int, 1)));
            assert(listed.take(q + 1).drop_last() =~= listed.take(q as int));
            assert(listed.take(q + 1).last() == i as int);
            assert(blocks(listed.take(q + 1), block) == blocks(listed.take(q as int), block) + block(i as int));
            assert(out.lines@ =~= before + block(i as int));
            assert(out.lines@ =~= old(out).lines@ + blocks(listed.take(q + 1), block));
        }
        q = q + 1;
    }
    proof {
        assert(listed.take(listed.len() as int) =~= listed);
    }
}

/// The layered D2 diagram of a trace from `start`: the root board of
/// `render_d2`, where each symbol other than the start whose one-step trace
/// holds an edge the root board lacks links to a layer; then a `layers`
/// block with, for each such symbol, a board of its one-step trace.
pub fn render_d2_layers(
    trace: &TraceResult,
    graph: &CodeGraph,
    start: NodeIndex,
    _depth: usize,
    direction: &Direction,
    edge_filter: &Vec<EdgeKind>,
) -> (r: String)
    requires
        graph.wf(),
        fits(*graph, *trace),
    ensures
        r@ == join_lines(d2_layer_lines(*graph, *trace, node_ix(start) as int, *direction, edge_filter@)),
{
    let ghost g = *graph;
    let ghost t = *trace;
    let ghost st = node_ix(start) as int;
    let ghost dir = *direction;
    let ghost filter = edge_filter@;
    let ghost layered = layered_in(g, t, st, dir, filter);
    let (sn, se) = sorted_trace(trace, graph);
    let s = node_position(start);
    proof {
        assert forall|x: int| trace.edges().contains(x) <==> as_ints(se@).contains(x) by {
            if as_ints(se@).contains(x) {
                let q = choose|q: int| 0 <= q < as_ints(se@).len() && as_ints(se@)[q] == x;
                assert(trace.edges().contains(se@[q] as int));
            }
        }
    }
    let (flags, layer_nodes, subs) = pick_layers(trace, graph, &sn, &se, s, direction, edge_filter);
    let mut out = Lines::new();
    push_root_nodes(&mut out, graph, &sn, &flags);
    proof {
        assert(out.lines@ =~= trace_nodes(t).map_values(|i: int| root_node_line(g, layered(i), i)));
        reveal_strlit("");
    }
    push_d2_edges(&mut out, graph, &se, "");
    let ghost root = out.lines@;
    if layer_nodes.len() > 0 {
        out.push("");
        out.push("layers: {");
        push_layer_blocks(&mut out, graph, &layer_nodes, &subs, direction, edge_filter);
        out.push("}");
    }
    proof {
        assert(out.lines@ =~= d2_layer_lines(g, t, st, dir, filter));
    }
    out.text
}

/// Node `n` is a symbol declared in the file at `p`.
pub open spec fn in_file(n: NodeKind, p: Seq<char>) -> bool {
    n matches NodeKind::Symbol(s) && s.file_path@ == p
}

/// Edge `e` is a call between two symbols of the file at `p`.
pub open spec fn is_internal_call(g: CodeGraph, p: Seq<char>, e: int) -> bool {
    &&& g.edges()[e].2 == EdgeKind::Calls
    &&& in_file(g.nodes()[g.edges()[e].0 as int], p)
    &&& in_file(g.nodes()[g.edges()[e].1 as int], p)
}

/// The calls inside the file at `p`, in the order they were added.
pub open spec fn internal_calls(g: CodeGraph, p: Seq<char>) -> Seq<int> {
    indices_where(g.edges().len(), |e: int| is_internal_call(g, p, e))
}

/// A node gets a layer only when following its edges one step reaches an
/// edge the trace does not already show: a node whose one-step trace lies
/// wholly on the root board gets none, and neither do the start node and
/// file nodes.
pub proof fn lemma_layer_needs_new_edge(g: CodeGraph, t: TraceResult, start: int, dir: Direction, filter: Seq<EdgeKind>, i: int)
    ensures
        (forall|e: int| #[trigger] traced_edges(g.edges(), filter, dir, i, 1).contains(e) ==> t.edges().contains(e)) ==> !has_layer(g, t, start, dir, filter, i),
        has_layer(g, t, start, dir, filter, i) ==> exists|e: int| #[trigger] traced_edges(g.edges(), filter, dir, i, 1).contains(e) && !t.edges().contains(e),
        !has_layer(g, t, start, dir, filter, start),
        g.nodes()[i] is File ==> !has_layer(g, t, start, dir, filter, i),
        i != start && g.nodes()[i] is Symbol && (exists|e: int| #[trigger] traced_edges(g.edges(), filter, dir, i, 1).contains(e) && !t.edges().contains(e))
            ==> has_layer(g, t, start, dir, filter, i),
{
}

/// Every edge on a file's layer board is a call whose caller and callee
/// are both symbols declared in that file.
pub proof fn lemma_file_board_calls_stay_inside(g: CodeGraph, p: Seq<char>, e: int)
    requires
        internal_calls(g, p).contains(e),
    ensures
        0 <= e < g.edges().len(),
        g.edges()[e].2 == EdgeKind::Calls,
        g.nodes()[g.edges()[e].0 as int] matches NodeKind::Symbol(a) && a.file_path@ == p,
        g.nodes()[g.edges()[e].1 as int] matches NodeKind::Symbol(b) && b.file_path@ == p,
{
    lemma_indices_where_bounds(g.edges().len(), |x: int| is_internal_call(g, p, x));
    let k = choose|k: int| 0 <= k < internal_calls(g, p).len() && internal_calls(g, p)[k] == e;
    assert(is_internal_call(g, p, internal_calls(g, p)[k]));
}

/// Every call between two symbols declared in the file at `p` is on its
/// layer board.
pub proof fn lemma_file_board_holds_inner_calls(g: CodeGraph, p: Seq<char>, e: int)
    requires
        0 <= e < g.edges().len(),
        g.edges()[e].2 == EdgeKind::Calls,
        g.nodes()[g.edges()[e].0 as int] matches NodeKind::Symbol(a) && a.file_path@ == p,
        g.nodes()[g.edges()[e].1 as int] matches NodeKind::Symbol(b) && b.file_path@ == p,
    ensures
        internal_calls(g, p).contains(e),
{
    lemma_indices_where_bounds(g.edges().len(), |x: int| is_internal_call(g, p, x));
    assert(is_internal_call(g, p, e));
}

/// Node `i` is an end of a call inside the file at `p`.
pub open spec fn calls_touch(g: CodeGraph, p: Seq<char>, i: int) -> bool {
    exists|e: int| #[trigger] internal_calls(g, p).contains(e) && (g.edges()[e].0 == i || g.edges()[e].1 == i)
}

/// The ends of the calls inside the file at `p`, in increasing order.
pub open spec fn involved_symbols(g: CodeGraph, p: Seq<char>) -> Seq<int> {
    indices_where(g.nodes().len(), |i: int| calls_touch(g, p, i))
}

/// The path of a file node; empty for a symbol.
pub open spec fn file_path_of(n: NodeKind) -> Seq<char> {
    match n {
        NodeKind::File(f) => f.file_path@,
        NodeKind::Symbol(_) => Seq::empty(),
    }
}

/// Which nodes get a layer of their own: the files with calls inside them.
pub open spec fn file_layered(g: CodeGraph) -> spec_fn(int) -> bool {
    |i: int| g.nodes()[i] is File && internal_calls(g, file_path_of(g.nodes()[i])).len() > 0
}

/// The board of the layer for file node `i`: the calls inside the file and
/// their ends.
pub open spec fn file_layer_block(g: CodeGraph, i: int) -> Seq<Seq<char>> {
    let p = file_path_of(g.nodes()[i]);
    seq!["  "@ + layer_id(g.nodes()[i], i) + ": {"@]
        + d2_node_lines("    "@, g.nodes(), involved_symbols(g, p))
        + d2_edge_lines("    "@, g.edges(), internal_calls(g, p))
        + seq!["  }"@]
}

/// The boards of the file layers, by node.
pub open spec fn file_layer_blocks(g: CodeGraph) -> spec_fn(int) -> Seq<Seq<char>> {
    |i: int| file_layer_block(g, i)
}

/// The lines of the D2 diagram of a trace with a layer per file.
pub open spec fn d2_file_layer_lines(g: CodeGraph, t: TraceResult) -> Seq<Seq<char>> {
    let layered = file_layered(g);
    trace_nodes(t).map_values(|i: int| root_node_line(g, layered(i), i))
        + d2_edge_lines(Seq::empty(), g.edges(), trace_edges(t))
        + layers_section(trace_nodes(t).filter(layered), file_layer_blocks(g))
}

/// Whether node `i` is a symbol declared in the file at `p`.
fn symbol_in_file(graph: &CodeGraph, i: usize, p: &str) -> (r: bool)
    requires
        i < graph.nodes().len(),
    ensures
        r == in_file(graph.nodes()[i as int], p@),
{
    match graph.node_at(i) {
        NodeKind::Symbol(s) => str_eq(s.file_path.as_str(), p),
        NodeKind::File(_) => false,
    }
}

/// The calls inside the file at `p`.
fn internal_call_list(graph: &CodeGraph, p: &str) -> (r: Vec<usize>)
    requires
        graph.wf(),
    ensures
        as_ints(r@) == internal_calls(*graph, p@),
        forall|j: int| 0 <= j < r@.len() ==> #[trigger] r@[j] < graph.edges().len(),
{
    let ghost g = *graph;
    let ghost pr = |e: int| is_internal_call(g, p@, e);
    proof {
        graph.lemma_wf();
    }
    let m = graph.edge_count();
    let mut r: Vec<usize> = Vec::new();
    let mut e: usize = 0;
    while e < m
        invariant
            g == *graph,
            graph.wf(),
            pr == (|e: int| is_internal_call(g, p@, e)),
            m == graph.edges().len(),
            e <= m,
            as_ints(r@) == indices_where(e as nat, pr),
            forall|j: int| 0 <= j < r@.len() ==> #[trigger] r@[j] < e,
        decreases m - e,
    {
        proof {
            graph.lemma_wf();
        }
        let (src, tgt, kind) = graph.edge_at(e);
        let ghost r0 = r@;
        if kind == EdgeKind::Calls && symbol_in_file(graph, src, p) && symbol_in_file(graph, tgt, p) {
            r.push(e);
            assert(as_ints(r@) =~= as_ints(r0).push(e as int));
        }
        proof {
            lemma_indices_where_step(e as nat, pr);
        }
        e = e + 1;
    }
    r
}

/// The ends of the given calls inside the file at `p`, in increasing order.
fn involved_list(graph: &CodeGraph, calls: &Vec<usize>, Ghost(p): Ghost<Seq<char>>) -> (r: Vec<usize>)
    requires
        graph.wf(),
        as_ints(calls@) == internal_calls(*graph, p),
        forall|j: int| 0 <= j < calls@.len() ==> #[trigger] calls@[j] < graph.edges().len(),
    ensures
        as_ints(r@) == involved_symbols(*graph, p),
        forall|j: int| 0 <= j < r@.len() ==> #[trigger] r@[j] < graph.nodes().len(),
{
    let ghost g = *graph;
    proof {
        graph.lemma_wf();
    }
    let n = graph.node_count();
    let mut marks = crate::traverse::unset_flags(n);
    let mut k: usize = 0;
    while k < calls.len()
        invariant
            g == *graph,
            graph.wf(),
            n == graph.nodes().len(),
            forall|j: int| 0 <= j < calls@.len() ==> #[trigger] calls@[j] < graph.edges().len(),
            k <= calls.len(),
            marks@.len() == n,
            forall|i: int| 0 <= i < n ==> (marks@[i] <==> exists|j: int| 0 <= j < k && (g.edges()[#[trigger] calls@[j] as int].0 == i || g.edges()[calls@[j] as int].1 == i)),
        decreases calls.len() - k,
    {
        proof {
            graph.lemma_wf();
        }
        let (src, tgt, _) = graph.edge_at(calls[k]);
        marks.set(src, true);
        marks.set(tgt, true);
        proof {
            assert forall|i: int| 0 <= i < n implies (marks@[i] <==> exists|j: int| 0 <= j < k + 1 && (g.edges()[#[trigger] calls@[j] as int].0 == i || g.edges()[calls@[j] as int].1 == i)) by {
                if exists|j: int| 0 <= j < k + 1 && (g.edges()[#[trigger] calls@[j] as int].0 == i || g.edges()[calls@[j] as int].1 == i) {
                    let j = choose|j: int| 0 <= j < k + 1 && (g.edges()[#[trigger] calls@[j] as int].0 == i || g.edges()[calls@[j] as int].1 == i);
                    if j < k {
                        assert(exists|j: int| 0 <= j < k && (g.edges()[#[trigger] calls@[j] as int].0 == i || g.edges()[calls@[j] as int].1 == i));
                    }
                }
                if marks@[i] && i != src && i != tgt {
                    assert(exists|j: int| 0 <= j < k && (g.edges()[#[trigger] calls@[j] as int].0 == i || g.edges()[calls@[j] as int].1 == i));
                }
            }
        }
        k = k + 1;
    }
    proof {
        assert forall|i: int| 0 <= i < n implies (marks@[i] <==> calls_touch(g, p, i)) by {
            if marks@[i] {
                let j = choose|j: int| 0 <= j < calls@.len() && (g.edges()[#[trigger] calls@[j] as int].0 == i || g.edges()[calls@[j] as int].1 == i);
                assert(as_ints(calls@)[j] == calls@[j] as int);
                assert(internal_calls(g, p).contains(calls@[j] as int));
            }
            if calls_touch(g, p, i) {
                let e = choose|e: int| #[trigger] internal_calls(g, p).contains(e) && (g.edges()[e].0 == i || g.edges()[e].1 == i);
                let j = choose|j: int| 0 <= j < as_ints(calls@).len() && as_ints(calls@)[j] == e;
                assert(calls@[j] as int == e);
            }
        }
    }
    let ghost pr = |i: int| calls_touch(g, p, i);
    let mut r: Vec<usize> = Vec::new();
    let mut i: usize = 0;
    while i < n
        invariant
            g == *graph,
            pr == (|i: int| calls_touch(g, p, i)),
            n == graph.nodes().len(),
            marks@.len() == n,
            forall|v: int| 0 <= v < n ==> (marks@[v] <==> calls_touch(g, p, v)),
            i <= n,
            as_ints(r@) == indices_where(i as nat, pr),
            forall|j: int| 0 <= j < r@.len() ==> #[trigger] r@[j] < i,
        decreases n - i,
    {
        let ghost r0 = r@;
        if marks[i] {
            r.push(i);
            assert(as_ints(r@) =~= as_ints(r0).push(i as int));
        }
        proof {
            lemma_indices_where_step(i as nat, pr);
        }
        i = i + 1;
    }
    r
}

/// For each listed node, whether it is a file with calls inside it; those
/// files in order; and for each, the ends of its inner calls and the calls.
fn pick_file_layers(graph: &CodeGraph, sn: &Vec<usize>) -> (r: (Vec<bool>, Vec<usize>, Vec<(Vec<usize>, Vec<usize>)>))
    requires
        graph.wf(),
        forall|j: int| 0 <= j < sn@.len() ==> sn@[j] < graph.nodes().len(),
    ensures
        r.0@.len() == sn@.len(),
        forall|j: int| 0 <= j < sn@.len() ==> r.0@[j] == file_layered(*graph)(#[trigger] sn@[j] as int),
        as_ints(r.1@) == as_ints(sn@).filter(file_layered(*graph)),
        r.2@.len() == r.1@.len(),
        forall|j: int| 0 <= j < r.1@.len() ==> #[trigger] r.1@[j] < graph.nodes().len(),
        forall|j: int| 0 <= j < r.2@.len() ==> {
            let p = file_path_of(graph.nodes()[r.1@[j] as int]);
            &&& as_ints((#[trigger] r.2@[j]).0@) == involved_symbols(*graph, p)
            &&& as_ints(r.2@[j].1@) == internal_calls(*graph, p)
            &&& forall|q: int| 0 <= q < r.2@[j].0@.len() ==> #[trigger] r.2@[j].0@[q] < graph.nodes().len()
            &&& forall|q: int| 0 <= q < r.2@[j].1@.len() ==> #[trigger] r.2@[j].1@[q] < graph.edges().len()
        },
{
    let ghost g = *graph;
    let ghost layered = file_layered(g);
    let mut flags: Vec<bool> = Vec::new();
    let mut layer_nodes: Vec<usize> = Vec::new();
    let mut parts: Vec<(Vec<usize>, Vec<usize>)> = Vec::new();
    let mut k: usize = 0;
    while k < sn.len()
        invariant
            g == *graph,
            graph.wf(),
            layered == file_layered(g),
            forall|j: int| 0 <= j < sn@.len() ==> sn@[j] < graph.nodes().len(),
            k <= sn.len(),
            flags@.len() == k,
            forall|j: int| 0 <= j < k ==> flags@[j] == layered(#[trigger] sn@[j] as int),
            as_ints(layer_nodes@) == as_ints(sn@).take(k as int).filter(layered),
            parts@.len() == layer_nodes@.len(),
            forall|j: int| 0 <= j < layer_nodes@.len() ==> #[trigger] layer_nodes@[j] < graph.nodes().len(),
            forall|j: int| 0 <= j < parts@.len() ==> {
                let p = file_path_of(graph.nodes()[layer_nodes@[j] as int]);
                &&& as_ints((#[trigger] parts@[j]).0@) == involved_symbols(*graph, p)
                &&& as_ints(parts@[j].1@) == internal_calls(*graph, p)
                &&& forall|q: int| 0 <= q < parts@[j].0@.len() ==> #[trigger] parts@[j].0@[q] < graph.nodes().len()
                &&& forall|q: int| 0 <= q < parts@[j].1@.len() ==> #[trigger] parts@[j].1@[q] < graph.edges().len()
            },
        decreases sn.len() - k,
    {
        let i = sn[k];
        let mut flag = false;
        proof {
            reveal_with_fuel(Seq::<_>::filter, 1);
            assert(as_ints(sn@).take(k + 1).drop_last() =~= as_ints(sn@).take(k as int));
            assert(as_ints(sn@).take(k + 1).last() == i as int);
        }
        let ghost ln0 = layer_nodes@;
        match graph.node_at(i) {
            NodeKind::File(f) => {
                let calls = internal_call_list(graph, f.file_path.as_str());
                if calls.len() > 0 {
                    flag = true;
                    let syms = involved_list(graph, &calls, Ghost(f.file_path@));
                    layer_nodes.push(i);
                    parts.push((syms, calls));
                    assert(as_ints(layer_nodes@) =~= as_ints(ln0).push(i as int));
                } else {
                    assert(as_ints(calls@).len() == 0);
                }
            },
            NodeKind::Symbol(_) => {},
        }
        flags.push(flag);
        k = k + 1;
    }
    assert(as_ints(sn@).take(sn@.len() as int) =~= as_ints(sn@));
    (flags, layer_nodes, parts)
}

/// Appends the board of each listed file's layer.
fn push_file_layer_blocks(out: &mut Lines, graph: &CodeGraph, layer_nodes: &Vec<usize>, parts: &Vec<(Vec<usize>, Vec<usize>)>)
    requires
        old(out).wf(),
        graph.wf(),
        parts@.len() == layer_nodes@.len(),
        forall|j: int| 0 <= j < layer_nodes@.len() ==> #[trigger] layer_nodes@[j] < graph.nodes().len(),
        forall|j: int| 0 <= j < parts@.len() ==> {
            let p = file_path_of(graph.nodes()[layer_nodes@[j] as int]);
            &&& as_ints((#[trigger] parts@[j]).0@) == involved_symbols(*graph, p)
            &&& as_ints(parts@[j].1@) == internal_calls(*graph, p)
            &&& forall|q: int| 0 <= q < parts@[j].0@.len() ==> #[trigger] parts@[j].0@[q] < graph.nodes().len()
            &&& forall|q: int| 0 <= q < parts@[j].1@.len() ==> #[trigger] parts@[j].1@[q] < graph.edges().len()
        },
    ensures
        final(out).wf(),
        final(out).lines@ == old(out).lines@ + blocks(as_ints(layer_nodes@), file_layer_blocks(*graph)),
{
    let ghost listed = as_ints(layer_nodes@);
    let ghost block = file_layer_blocks(*graph);
    let mut q: usize = 0;
    while q < layer_nodes.len()
        invariant
            graph.wf(),
            q <= layer_nodes.len(),
            listed == as_ints(layer_nodes@),
            block == file_layer_blocks(*graph),
            parts@.len() == layer_nodes@.len(),
            forall|j: int| 0 <= j < layer_nodes@.len() ==> #[trigger] layer_nodes@[j] < graph.nodes().len(),
            forall|j: int| 0 <= j < parts@.len() ==> {
                let p = file_path_of(graph.nodes()[layer_nodes@[j] as int]);
                &&& as_ints((#[trigger] parts@[j]).0@) == involved_symbols(*graph, p)
                &&& as_ints(parts@[j].1@) == internal_calls(*graph, p)
                &&& forall|q: int| 0 <= q < parts@[j].0@.len() ==> #[trigger] parts@[j].0@[q] < graph.nodes().len()
                &&& forall|q: int| 0 <= q < parts@[j].1@.len() ==> #[trigger] parts@[j].1@[q] < graph.edges().len()
            },
            out.wf(),
            out.lines@ == old(out).lines@ + blocks(listed.take(q as int), block),
        decreases layer_nodes.len() - q,
    {
        let i = layer_nodes[q];
        let ghost before = out.lines@;
        proof {
            graph.lemma_wf();
        }
        let mut line = owned("  ");
        line.append(sanitise_layer_id(node_index(i), graph).as_str());
        line.append(": {");
        out.push(line.as_str());
        push_d2_nodes(out, graph, &parts[q].0, "    ");
        push_d2_edges(out, graph, &parts[q].1, "    ");
        out.push("  }");
        proof {
            assert(listed.take(q + 1).drop_last() =~= listed.take(q as int));
            assert(listed.take(q + 1).last() == i as int);
            assert(blocks(listed.take(q + 1), block) == blocks(listed.take(q as int), block) + block(i as int));
            assert(out.lines@ =~= before + block(i as int));
            assert(out.lines@ =~= old(out).lines@ + blocks(listed.take(q + 1), block));
        }
        q = q + 1;
    }
    proof {
        assert(listed.take(listed.len() as int) =~= listed);
    }
}

/// The D2 diagram of a trace with a layer per file: the root board of
/// `render_d2`, where each file node with calls between its own symbols
/// links to a layer; then a `layers` block with, for each such file, a
/// board of those calls and their ends.
pub fn render_d2_file_layers(trace: &TraceResult, graph: &CodeGraph) -> (r: String)
    requires
        graph.wf(),
        fits(*graph, *trace),
    ensures
        r@ == join_lines(d2_file_layer_lines(*graph, *trace)),
{
    let ghost g = *graph;
    let ghost t = *trace;
    let ghost layered = file_layered(g);
    let (sn, se) = sorted_trace(trace, graph);
    let (flags, layer_nodes, parts) = pick_file_layers(graph, &sn);
    let mut out = Lines::new();
    push_root_nodes(&mut out, graph, &sn, &flags);
    proof {
        assert(out.lines@ =~= trace_nodes(t).map_values(|i: int| root_node_line(g, layered(i), i)));
        reveal_strlit("");
    }
    push_d2_edges(&mut out, graph, &se, "");
    if layer_nodes.len() > 0 {
        out.push("");
        out.push("layers: {");
        push_file_layer_blocks(&mut out, graph, &layer_nodes, &parts);
        out.push("}");
    }
    proof {
        assert(out.lines@ =~= d2_file_layer_lines(g, t));
    }
    out.text
}

/// Whatever a trace from a node of a well-formed graph gives fits the
/// graph, so it can be rendered.
pub proof fn lemma_trace_fits(g: CodeGraph, t: TraceResult, start: int, dir: Direction, filter: Seq<EdgeKind>, depth: nat)
    requires
        g.wf(),
        0 <= start < g.nodes().len(),
        t.nodes().no_duplicates(),
        t.edges().no_duplicates(),
        t.nodes().to_set() == reached(g.edges(), filter, dir, start, depth),
        t.edges().to_set() == traced_edges(g.edges(), filter, dir, start, depth),
    ensures
        fits(g, t),
{
    g.lemma_wf();
    crate::traverse::lemma_trace_in_graph(g.edges(), g.nodes().len() as int, filter, dir, start, depth);
    assert forall|j: int| 0 <= j < t.nodes().len() implies t.nodes()[j] < g.nodes().len() by {
        assert(t.nodes().to_set().contains(t.nodes()[j]));
    }
    assert forall|j: int| 0 <= j < t.edges().len() implies t.edges()[j] < g.edges().len() by {
        assert(t.edges().to_set().contains(t.edges()[j]));
    }
}

/// What collecting the edges of some kinds gives of a well-formed graph
/// fits the graph, so it can be rendered.
pub proof fn lemma_collected_fits(g: CodeGraph, t: TraceResult, filter: Seq<EdgeKind>)
    requires
        g.wf(),
        t.edges() == kept_edges(g.edges(), filter),
        t.nodes().no_duplicates(),
        t.nodes().to_set() == kept_endpoints(g.edges(), filter),
    ensures
        fits(g, t),
{
    g.lemma_wf();
    lemma_indices_where_bounds(g.edges().len(), |e: int| filter.contains(g.edges()[e].2));
    assert forall|j: int| 0 <= j < t.nodes().len() implies t.nodes()[j] < g.nodes().len() by {
        assert(t.nodes().to_set().contains(t.nodes()[j]));
        let v = t.nodes()[j];
        let e = choose|e: int| 0 <= e < g.edges().len() && filter.contains(#[trigger] g.edges()[e].2) && (g.edges()[e].0 == v || g.edges()[e].1 == v);
    }
}

/// No two formats share a name, so a format parses back from its name.
pub proof fn lemma_format_names(a: Format, b: Format)
    ensures
        a.label() == b.label() ==> a == b,
{
    reveal_strlit("d2");
    reveal_strlit("mermaid");
    if a.label() == b.label() {
        assert(a.label().len() == b.label().len());
    }
}

/// When no node of a trace gets a layer, the layered diagram is the plain
/// D2 diagram.
pub proof fn lemma_no_layers_plain(g: CodeGraph, t: TraceResult, start: int, dir: Direction, filter: Seq<EdgeKind>)
    requires
        forall|i: int| trace_nodes(t).contains(i) ==> !has_layer(g, t, start, dir, filter, i),
    ensures
        d2_layer_lines(g, t, start, dir, filter) == d2_lines(g, t),
{
    let layered = layered_in(g, t, start, dir, filter);
    let list = trace_nodes(t);
    assert(list.filter(layered) =~= Seq::<int>::empty()) by {
        if list.filter(layered).len() > 0 {
            let x = list.filter(layered)[0];
            list.lemma_filter_contains_rev(layered, x);
        }
    }
    assert(list.map_values(|i: int| root_node_line(g, layered(i), i)) =~= d2_node_lines(Seq::empty(), g.nodes(), list)) by {
        assert forall|k: int| 0 <= k < list.len() implies !layered(#[trigger] list[k]) by {
            assert(list.contains(list[k]));
        }
    }
    assert(d2_layer_lines(g, t, start, dir, filter) =~= d2_lines(g, t));
}

/// When no file of a trace has calls inside it, the diagram with file
/// layers is the plain D2 diagram.
pub proof fn lemma_no_file_layers_plain(g: CodeGraph, t: TraceResult)
    requires
        forall|i: int| trace_nodes(t).contains(i) ==> !file_layered(g)(i),
    ensures
        d2_file_layer_lines(g, t) == d2_lines(g, t),
{
    let layered = file_layered(g);
    let list = trace_nodes(t);
    assert(list.filter(layered) =~= Seq::<int>::empty()) by {
        if list.filter(layered).len() > 0 {
            let x = list.filter(layered)[0];
            list.lemma_filter_contains_rev(layered, x);
        }
    }
    assert(list.map_values(|i: int| root_node_line(g, layered(i), i)) =~= d2_node_lines(Seq::empty(), g.nodes(), list)) by {
        assert forall|k: int| 0 <= k < list.len() implies !layered(#[trigger] list[k]) by {
            assert(list.contains(list[k]));
        }
    }
    assert(d2_file_layer_lines(g, t) =~= d2_lines(g, t));
}

} // verus!
