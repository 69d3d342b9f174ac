//! Bounded breadth-first tracing of the code graph from one node.
use vstd::prelude::*;
use vstd::string::*;
use petgraph::graph::{EdgeIndex, NodeIndex};
use crate::graph::{
    CodeGraph, EdgeKind, edge_index, edge_ix, indices_where, lemma_indices_where_bounds, lemma_indices_where_step,
    lists_incident, node_index, node_ix, node_position, node_positions, touches,
};
use crate::text::{owned, str_eq};

verus! {

/// Which way edges are followed from a node.
#[derive(Clone, Copy, Debug, PartialEq, Eq, Structural)]
pub enum Direction {
    In,
    Out,
    Both,
}

impl Direction {
    /// Whether edges are followed from their source to their target.
    pub open spec fn follows_out(self) -> bool {
        self is Out || self is Both
    }

    /// Whether edges are followed from their target to their source.
    pub open spec fn follows_in(self) -> bool {
        self is In || self is Both
    }

    /// The name under which the direction is parsed.
    pub open spec fn label(self) -> Seq<char> {
        match self {
            Direction::In => "in"@,
            Direction::Out => "out"@,
            Direction::Both => "both"@,
        }
    }
}

/// Reads a direction from its name.
pub fn parse_direction(s: &str) -> (r: Result<Direction, String>)
    ensures
        match r {
            Ok(d) => s@ == d.label(),
            Err(e) => (forall|d: Direction| s@ != d.label()) && e@ == "unknown direction: "@ + s@,
        },
{
    if str_eq(s, "in") {
        Ok(Direction::In)
    } else if str_eq(s, "out") {
        Ok(Direction::Out)
    } else if str_eq(s, "both") {
        Ok(Direction::Both)
    } else {
        let mut e = owned("unknown direction: ");
        e.append(s);
        assert forall|d: Direction| s@ != d.label() by {
            match d {
                Direction::In => {},
                Direction::Out => {},
                Direction::Both => {},
            }
        }
        Err(e)
    }
}

impl core::str::FromStr for Direction {
    type Err = String;

    fn from_str(s: &str) -> (r: Result<Direction, String>)
        ensures
            match r {
                Ok(d) => s@ == d.label(),
                Err(e) => (forall|d: Direction| s@ != d.label()) && e@ == "unknown direction: "@ + s@,
            },
    {
        parse_direction(s)
    }
}

/// The nodes and edges that a trace reached.
#[derive(Debug)]
pub struct TraceResult {
    pub node_indices: Vec<NodeIndex>,
    pub edge_indices: Vec<EdgeIndex>,
}

impl TraceResult {
    /// The positions of the reached nodes.
    pub open spec fn nodes(&self) -> Seq<int> {
        node_positions(self.node_indices@)
    }

    /// The positions of the reached edges.
    pub open spec fn edges(&self) -> Seq<int> {
        edge_positions(self.edge_indices@)
    }
}

/// The positions of a sequence of edge indices.
pub open spec fn edge_positions(v: Seq<EdgeIndex>) -> Seq<int> {
    v.map_values(|e: EdgeIndex| edge_ix(e) as int)
}

/// A sequence of positions as integers.
pub open spec fn as_ints(v: Seq<usize>) -> Seq<int> {
    v.map_values(|x: usize| x as int)
}

/// Edge `e` leads from `u` to `v` when followed forwards (`outgoing`) or
/// backwards, and its kind passes the filter.
pub open spec fn arrow(
    edges: Seq<(usize, usize, EdgeKind)>,
    filter: Seq<EdgeKind>,
    outgoing: bool,
    e: int,
    u: int,
    v: int,
) -> bool {
    &&& 0 <= e < edges.len()
    &&& filter.contains(edges[e].2)
    &&& if outgoing {
        edges[e].0 == u && edges[e].1 == v
    } else {
        edges[e].1 == u && edges[e].0 == v
    }
}

/// Edge `e` leads from `u` to `v` in the given direction.
pub open spec fn step(
    edges: Seq<(usize, usize, EdgeKind)>,
    filter: Seq<EdgeKind>,
    dir: Direction,
    e: int,
    u: int,
    v: int,
) -> bool {
    ||| dir.follows_out() && arrow(edges, filter, true, e, u, v)
    ||| dir.follows_in() && arrow(edges, filter, false, e, u, v)
}

/// The nodes one step away from a node of `s`.
pub open spec fn neighbours(
    edges: Seq<(usize, usize, EdgeKind)>,
    filter: Seq<EdgeKind>,
    dir: Direction,
    s: Set<int>,
) -> Set<int> {
    Set::new(|v: int| exists|e: int, u: int| s.contains(u) && #[trigger] step(edges, filter, dir, e, u, v))
}

/// The edges followed from a node of `s`.
pub open spec fn followed(
    edges: Seq<(usize, usize, EdgeKind)>,
    filter: Seq<EdgeKind>,
    dir: Direction,
    s: Set<int>,
) -> Set<int> {
    Set::new(|e: int| exists|u: int, v: int| s.contains(u) && #[trigger] step(edges, filter, dir, e, u, v))
}

/// The nodes within `k` steps of `start`.
pub open spec fn reached(
    edges: Seq<(usize, usize, EdgeKind)>,
    filter: Seq<EdgeKind>,
    dir: Direction,
    start: int,
    k: nat,
) -> Set<int>
    decreases k,
{
    if k == 0 {
        set![start]
    } else {
        let r = reached(edges, filter, dir, start, (k - 1) as nat);
        r.union(neighbours(edges, filter, dir, r))
    }
}

/// The edges followed by a trace of depth `depth`: those followed from a
/// node fewer than `depth` steps away from `start`.
pub open spec fn traced_edges(
    edges: Seq<(usize, usize, EdgeKind)>,
    filter: Seq<EdgeKind>,
    dir: Direction,
    start: int,
    depth: nat,
) -> Set<int> {
    if depth == 0 {
        Set::empty()
    } else {
        followed(edges, filter, dir, reached(edges, filter, dir, start, (depth - 1) as nat))
    }
}

/// `list` holds distinct positions below `bound`, and `marks` flags
/// exactly those.
pub open spec fn marked(marks: Seq<bool>, list: Seq<usize>, bound: int) -> bool {
    &&& marks.len() == bound
    &&& list.no_duplicates()
    &&& forall|j: int| 0 <= j < list.len() ==> list[j] < bound
    &&& forall|v: int| 0 <= v < bound ==> (marks[v] <==> as_ints(list).contains(v))
}

proof fn lemma_push_contains(s: Seq<int>, a: int)
    ensures
        forall|x: int| #[trigger] s.push(a).contains(x) <==> (s.contains(x) || x == a),
{
    assert forall|x: int| #[trigger] s.push(a).contains(x) <==> (s.contains(x) || x == a) by {
        if s.contains(x) {
            let q = choose|q: int| 0 <= q < s.len() && s[q] == x;
            assert(s.push(a)[q] == x);
        }
        if x == a {
            assert(s.push(a)[s.len() as int] == x);
        }
        if s.push(a).contains(x) && x != a {
            let q = choose|q: int| 0 <= q < s.len() + 1 && s.push(a)[q] == x;
            assert(s[q] == x);
        }
    }
}

/// Whether the filter lets an edge kind through.
pub(crate) fn filter_contains(filter: &Vec<EdgeKind>, k: EdgeKind) -> (r: bool)
    ensures
        r == filter@.contains(k),
{
    let mut i: usize = 0;
    while i < filter.len()
        invariant
            i <= filter.len(),
            forall|j: int| 0 <= j < i ==> filter@[j] != k,
        decreases filter.len() - i,
    {
        if filter[i] == k {
            assert(filter@[i as int] == k);
            return true;
        }
        i = i + 1;
    }
    false
}

/// Follows, from node `u`, every edge in one direction whose kind passes the
/// filter, recording the edges and the nodes at their other ends.
fn expand(
    g: &CodeGraph,
    u: usize,
    outgoing: bool,
    filter: &Vec<EdgeKind>,
    seen: &mut Vec<bool>,
    found: &mut Vec<usize>,
    next: &mut Vec<usize>,
    edge_seen: &mut Vec<bool>,
    edges_found: &mut Vec<usize>,
)
    requires
        g.wf(),
        u < g.nodes().len(),
        marked(old(seen)@, old(found)@, g.nodes().len() as int),
        marked(old(edge_seen)@, old(edges_found)@, g.edges().len() as int),
    ensures
        marked(final(seen)@, final(found)@, g.nodes().len() as int),
        marked(final(edge_seen)@, final(edges_found)@, g.edges().len() as int),
        forall|v: int| as_ints(final(found)@).contains(v) <==> (as_ints(old(found)@).contains(v) || exists|e: int| #[trigger] arrow(g.edges(), filter@, outgoing, e, u as int, v)),
        forall|v: int| as_ints(final(next)@).contains(v) <==> (as_ints(old(next)@).contains(v) || (!as_ints(old(found)@).contains(v) && exists|e: int| #[trigger] arrow(g.edges(), filter@, outgoing, e, u as int, v))),
        forall|e: int| as_ints(final(edges_found)@).contains(e) <==> (as_ints(old(edges_found)@).contains(e) || exists|v: int| #[trigger] arrow(g.edges(), filter@, outgoing, e, u as int, v)),
{
    proof {
        g.lemma_wf();
    }
    let ids = g.incident(u, outgoing);
    let ghost edges = g.edges();
    let ghost inc = ids@.map_values(|e: usize| e as int);
    let mut k: usize = 0;
    while k < ids.len()
        invariant
            g.wf(),
            edges == g.edges(),
            u < g.nodes().len(),
            ids@.map_values(|e: usize| e as int) == inc,
            lists_incident(inc, edges, u as int, outgoing),
            forall|j: int| 0 <= j < inc.len() ==> 0 <= #[trigger] inc[j] < edges.len() && touches(edges, u as int, outgoing)(inc[j]),
            k <= ids.len(),
            marked(seen@, found@, g.nodes().len() as int),
            marked(edge_seen@, edges_found@, g.edges().len() as int),
            forall|v: int| as_ints(found@).contains(v) <==> (as_ints(old(found)@).contains(v) || exists|j: int| 0 <= j < k && #[trigger] arrow(edges, filter@, outgoing, inc[j], u as int, v)),
            forall|v: int| as_ints(next@).contains(v) <==> (as_ints(old(next)@).contains(v) || (!as_ints(old(found)@).contains(v) && exists|j: int| 0 <= j < k && #[trigger] arrow(edges, filter@, outgoing, inc[j], u as int, v))),
            forall|e: int| as_ints(edges_found@).contains(e) <==> (as_ints(old(edges_found)@).contains(e) || exists|j: int, v: int| 0 <= j < k && e == inc[j] && #[trigger] arrow(edges, filter@, outgoing, inc[j], u as int, v)),
        decreases ids.len() - k,
    {
        proof {
            g.lemma_wf();
        }
        let e = ids[k];
        assert(inc[k as int] == e as int);
        let (src, tgt, kind) = g.edge_at(e);
        let far = if outgoing { tgt } else { src };
        let ghost old_found = found@;
        let ghost old_next = next@;
        let ghost old_edges = edges_found@;
        if filter_contains(filter, kind) {
            assert(arrow(edges, filter@, outgoing, e as int, u as int, far as int));
            if !edge_seen[e] {
                edge_seen.set(e, true);
                edges_found.push(e);
                proof {
                    assert(as_ints(edges_found@) =~= as_ints(old_edges).push(e as int));
                    lemma_push_contains(as_ints(old_edges), e as int);
                    assert forall|x: int| 0 <= x < g.edges().len() implies (edge_seen@[x] <==> as_ints(edges_found@).contains(x)) by {
                        if x != e {
                            assert(as_ints(edges_found@).contains(x) <==> as_ints(old_edges).contains(x));
                        } else {
                            assert(as_ints(edges_found@)[old_edges.len() as int] == x);
                        }
                    }
                    assert(edges_found@.no_duplicates()) by {
                        assert(!as_ints(old_edges).contains(e as int));
                        assert forall|a: int, b: int| 0 <= a < b < edges_found@.len() implies edges_found@[a] != edges_found@[b] by {
                            if b == old_edges.len() {
                                assert(as_ints(old_edges)[a] == old_edges[a] as int);
                            }
                        }
                    }
                }
            }
            if !seen[far] {
                seen.set(far, true);
                found.push(far);
                next.push(far);
                proof {
                    assert(as_ints(found@) =~= as_ints(old_found).push(far as int));
                    assert(as_ints(next@) =~= as_ints(old_next).push(far as int));
                    lemma_push_contains(as_ints(old_found), far as int);
                    lemma_push_contains(as_ints(old_next), far as int);
                    assert forall|x: int| 0 <= x < g.nodes().len() implies (seen@[x] <==> as_ints(found@).contains(x)) by {
                        if x != far {
                            assert(as_ints(found@).contains(x) <==> as_ints(old_found).contains(x));
                        } else {
                            assert(as_ints(found@)[old_found.len() as int] == x);
                        }
                    }
                    assert(found@.no_duplicates()) by {
                        assert(!as_ints(old_found).contains(far as int));
                        assert forall|a: int, b: int| 0 <= a < b < found@.len() implies found@[a] != found@[b] by {
                            if b == old_found.len() {
                                assert(as_ints(old_found)[a] == old_found[a] as int);
                            }
                        }
                    }
                }
            }
        }
        proof {
            let kk = k as int;
            assert forall|v: int| as_ints(found@).contains(v) <==> (as_ints(old(found)@).contains(v) || exists|j: int| 0 <= j < kk + 1 && #[trigger] arrow(edges, filter@, outgoing, inc[j], u as int, v)) by {
                if exists|j: int| 0 <= j < kk + 1 && #[trigger] arrow(edges, filter@, outgoing, inc[j], u as int, v) {
                    let j = choose|j: int| 0 <= j < kk + 1 && #[trigger] arrow(edges, filter@, outgoing, inc[j], u as int, v);
                    if j == kk {
                        assert(v == far as int);
                        assert(as_ints(found@).contains(far as int)) by {
                            if !as_ints(old_found).contains(far as int) {
                                assert(as_ints(found@)[old_found.len() as int] == far as int);
                            } else {
                                let q = choose|q: int| 0 <= q < as_ints(old_found).len() && as_ints(old_found)[q] == far as int;
                                assert(as_ints(found@)[q] == far as int);
                            }
                        }
                    } else {
                        assert(exists|j: int| 0 <= j < kk && #[trigger] arrow(edges, filter@, outgoing, inc[j], u as int, v));
                    }
                }
                if as_ints(found@).contains(v) && !as_ints(old(found)@).contains(v) {
                    if as_ints(old_found).contains(v) {
                    } else {
                        assert(v == far as int);
                        assert(arrow(edges, filter@, outgoing, inc[kk], u as int, v));
                    }
                }
            }
            assert forall|v: int| as_ints(next@).contains(v) <==> (as_ints(old(next)@).contains(v) || (!as_ints(old(found)@).contains(v) && exists|j: int| 0 <= j < kk + 1 && #[trigger] arrow(edges, filter@, outgoing, inc[j], u as int, v))) by {
                if !as_ints(old(found)@).contains(v) && exists|j: int| 0 <= j < kk + 1 && #[trigger] arrow(edges, filter@, outgoing, inc[j], u as int, v) {
                    let j = choose|j: int| 0 <= j < kk + 1 && #[trigger] arrow(edges, filter@, outgoing, inc[j], u as int, v);
                    if j == kk {
                        assert(v == far as int);
                        if as_ints(old_found).contains(far as int) {
                            assert(as_ints(old_next).contains(v));
                            let q = choose|q: int| 0 <= q < as_ints(old_next).len() && as_ints(old_next)[q] == v;
                            assert(as_ints(next@)[q] == v);
                        } else {
                            assert(as_ints(next@)[old_next.len() as int] == v);
                        }
                    } else {
                        assert(exists|j: int| 0 <= j < kk && #[trigger] arrow(edges, filter@, outgoing, inc[j], u as int, v));
                        assert(as_ints(old_next).contains(v));
                        let q = choose|q: int| 0 <= q < as_ints(old_next).len() && as_ints(old_next)[q] == v;
                        assert(as_ints(next@)[q] == v);
                    }
                }
                if as_ints(old(next)@).contains(v) {
                    let q = choose|q: int| 0 <= q < as_ints(old_next).len() && as_ints(old_next)[q] == v;
                    assert(as_ints(next@)[q] == v);
                }
                if as_ints(next@).contains(v) && !as_ints(old_next).contains(v) {
                    assert(v == far as int);
                    assert(arrow(edges, filter@, outgoing, inc[kk], u as int, v));
                }
            }
            assert forall|x: int| as_ints(edges_found@).contains(x) <==> (as_ints(old(edges_found)@).contains(x) || exists|j: int, v: int| 0 <= j < kk + 1 && x == inc[j] && #[trigger] arrow(edges, filter@, outgoing, inc[j], u as int, v)) by {
                if exists|j: int, v: int| 0 <= j < kk + 1 && x == inc[j] && #[trigger] arrow(edges, filter@, outgoing, inc[j], u as int, v) {
                    let (j, v) = choose|j: int, v: int| 0 <= j < kk + 1 && x == inc[j] && #[trigger] arrow(edges, filter@, outgoing, inc[j], u as int, v);
                    if j == kk {
                        assert(x == e as int);
                        if as_ints(old_edges).contains(x) {
                            let q = choose|q: int| 0 <= q < as_ints(old_edges).len() && as_ints(old_edges)[q] == x;
                            assert(as_ints(edges_found@)[q] == x);
                        } else {
                            assert(as_ints(edges_found@)[old_edges.len() as int] == x);
                        }
                    } else {
                        assert(as_ints(old_edges).contains(x));
                        let q = choose|q: int| 0 <= q < as_ints(old_edges).len() && as_ints(old_edges)[q] == x;
                        assert(as_ints(edges_found@)[q] == x);
                    }
                }
                if as_ints(old(edges_found)@).contains(x) {
                    let q = choose|q: int| 0 <= q < as_ints(old_edges).len() && as_ints(old_edges)[q] == x;
                    assert(as_ints(edges_found@)[q] == x);
                }
                if as_ints(edges_found@).contains(x) && !as_ints(old_edges).contains(x) {
                    assert(x == e as int);
                    assert(arrow(edges, filter@, outgoing, inc[kk], u as int, far as int));
                }
            }
        }
        k = k + 1;
    }
    proof {
        assert forall|e: int, v: int| #[trigger] arrow(edges, filter@, outgoing, e, u as int, v) implies exists|j: int| 0 <= j < inc.len() && inc[j] == e by {
            assert(touches(edges, u as int, outgoing)(e));
            assert(inc.contains(e));
        }
        assert forall|v: int| as_ints(found@).contains(v) <==> (as_ints(old(found)@).contains(v) || exists|e: int| #[trigger] arrow(g.edges(), filter@, outgoing, e, u as int, v)) by {
            if exists|e: int| #[trigger] arrow(g.edges(), filter@, outgoing, e, u as int, v) {
                let e = choose|e: int| #[trigger] arrow(g.edges(), filter@, outgoing, e, u as int, v);
                let j = choose|j: int| 0 <= j < inc.len() && inc[j] == e;
                assert(arrow(edges, filter@, outgoing, inc[j], u as int, v));
            }
        }
        assert forall|v: int| as_ints(next@).contains(v) <==> (as_ints(old(next)@).contains(v) || (!as_ints(old(found)@).contains(v) && exists|e: int| #[trigger] arrow(g.edges(), filter@, outgoing, e, u as int, v))) by {
            if exists|e: int| #[trigger] arrow(g.edges(), filter@, outgoing, e, u as int, v) {
                let e = choose|e: int| #[trigger] arrow(g.edges(), filter@, outgoing, e, u as int, v);
                let j = choose|j: int| 0 <= j < inc.len() && inc[j] == e;
                assert(arrow(edges, filter@, outgoing, inc[j], u as int, v));
            }
        }
        assert forall|x: int| as_ints(edges_found@).contains(x) <==> (as_ints(old(edges_found)@).contains(x) || exists|v: int| #[trigger] arrow(g.edges(), filter@, outgoing, x, u as int, v)) by {
            if exists|v: int| #[trigger] arrow(g.edges(), filter@, outgoing, x, u as int, v) {
                let v = choose|v: int| #[trigger] arrow(g.edges(), filter@, outgoing, x, u as int, v);
                let j = choose|j: int| 0 <= j < inc.len() && inc[j] == x;
                assert(arrow(edges, filter@, outgoing, inc[j], u as int, v));
            }
        }
    }
}


/// The nodes reached before level `k`: none at level 0.
pub open spec fn reached_before(
    edges: Seq<(usize, usize, EdgeKind)>,
    filter: Seq<EdgeKind>,
    dir: Direction,
    start: int,
    k: nat,
) -> Set<int> {
    if k == 0 {
        Set::empty()
    } else {
        reached(edges, filter, dir, start, (k - 1) as nat)
    }
}

proof fn lemma_neighbours_union(edges: Seq<(usize, usize, EdgeKind)>, filter: Seq<EdgeKind>, dir: Direction, a: Set<int>, b: Set<int>)
    ensures
        neighbours(edges, filter, dir, a.union(b)) == neighbours(edges, filter, dir, a).union(neighbours(edges, filter, dir, b)),
        followed(edges, filter, dir, a.union(b)) == followed(edges, filter, dir, a).union(followed(edges, filter, dir, b)),
{
    assert(neighbours(edges, filter, dir, a.union(b)) =~= neighbours(edges, filter, dir, a).union(neighbours(edges, filter, dir, b)));
    assert(followed(edges, filter, dir, a.union(b)) =~= followed(edges, filter, dir, a).union(followed(edges, filter, dir, b)));
}

/// Each level holds the one before it and the neighbours of the one before
/// that.
proof fn lemma_levels(edges: Seq<(usize, usize, EdgeKind)>, filter: Seq<EdgeKind>, dir: Direction, start: int, k: nat)
    ensures
        reached_before(edges, filter, dir, start, k).subset_of(reached(edges, filter, dir, start, k)),
        neighbours(edges, filter, dir, reached_before(edges, filter, dir, start, k)).subset_of(reached(edges, filter, dir, start, k)),
        traced_edges(edges, filter, dir, start, k) == followed(edges, filter, dir, reached_before(edges, filter, dir, start, k)),
{
    if k == 0 {
        assert(neighbours(edges, filter, dir, Set::<int>::empty()) =~= Set::<int>::empty());
        assert(followed(edges, filter, dir, Set::<int>::empty()) =~= Set::<int>::empty());
    }
}

/// Once a level adds nothing new, no later level does.
proof fn lemma_stable(edges: Seq<(usize, usize, EdgeKind)>, filter: Seq<EdgeKind>, dir: Direction, start: int, l: nat, k: nat)
    requires
        l >= 1,
        l <= k,
        reached(edges, filter, dir, start, l) == reached(edges, filter, dir, start, (l - 1) as nat),
    ensures
        reached(edges, filter, dir, start, k) == reached(edges, filter, dir, start, l),
        traced_edges(edges, filter, dir, start, k) == traced_edges(edges, filter, dir, start, l),
    decreases k - l,
{
    if k > l {
        lemma_stable(edges, filter, dir, start, l, (k - 1) as nat);
    }
}

/// A node that no edge touches reaches only itself.
proof fn lemma_isolated(edges: Seq<(usize, usize, EdgeKind)>, filter: Seq<EdgeKind>, dir: Direction, start: int, k: nat)
    requires
        forall|e: int| 0 <= e < edges.len() ==> edges[e].0 != start && edges[e].1 != start,
    ensures
        reached(edges, filter, dir, start, k) == set![start],
        traced_edges(edges, filter, dir, start, k) == Set::<int>::empty(),
    decreases k,
{
    assert(neighbours(edges, filter, dir, set![start]) =~= Set::<int>::empty());
    assert(followed(edges, filter, dir, set![start]) =~= Set::<int>::empty());
    if k > 0 {
        lemma_isolated(edges, filter, dir, start, (k - 1) as nat);
        assert(reached(edges, filter, dir, start, k) =~= set![start]);
    }
}

/// The neighbours of, and edges followed from, a single node.
proof fn lemma_single(edges: Seq<(usize, usize, EdgeKind)>, filter: Seq<EdgeKind>, dir: Direction, u: int)
    ensures
        forall|v: int| neighbours(edges, filter, dir, set![u]).contains(v) <==> ((dir.follows_out() && exists|e: int| #[trigger] arrow(edges, filter, true, e, u, v)) || (dir.follows_in() && exists|e: int| #[trigger] arrow(edges, filter, false, e, u, v))),
        forall|x: int| followed(edges, filter, dir, set![u]).contains(x) <==> ((dir.follows_out() && exists|v: int| #[trigger] arrow(edges, filter, true, x, u, v)) || (dir.follows_in() && exists|v: int| #[trigger] arrow(edges, filter, false, x, u, v))),
{
    let nu = neighbours(edges, filter, dir, set![u]);
    let fu = followed(edges, filter, dir, set![u]);
    assert forall|v: int| nu.contains(v) <==> ((dir.follows_out() && exists|e: int| #[trigger] arrow(edges, filter, true, e, u, v)) || (dir.follows_in() && exists|e: int| #[trigger] arrow(edges, filter, false, e, u, v))) by {
        if nu.contains(v) {
            let (e, w) = choose|e: int, w: int| set![u].contains(w) && #[trigger] step(edges, filter, dir, e, w, v);
            assert(w == u);
        }
        if dir.follows_out() && exists|e: int| #[trigger] arrow(edges, filter, true, e, u, v) {
            let e = choose|e: int| #[trigger] arrow(edges, filter, true, e, u, v);
            assert(step(edges, filter, dir, e, u, v));
        }
        if dir.follows_in() && exists|e: int| #[trigger] arrow(edges, filter, false, e, u, v) {
            let e = choose|e: int| #[trigger] arrow(edges, filter, false, e, u, v);
            assert(step(edges, filter, dir, e, u, v));
        }
    }
    assert forall|x: int| fu.contains(x) <==> ((dir.follows_out() && exists|v: int| #[trigger] arrow(edges, filter, true, x, u, v)) || (dir.follows_in() && exists|v: int| #[trigger] arrow(edges, filter, false, x, u, v))) by {
        if fu.contains(x) {
            let (w, v) = choose|w: int, v: int| set![u].contains(w) && #[trigger] step(edges, filter, dir, x, w, v);
            assert(w == u);
        }
        if dir.follows_out() && exists|v: int| #[trigger] arrow(edges, filter, true, x, u, v) {
            let v = choose|v: int| #[trigger] arrow(edges, filter, true, x, u, v);
            assert(step(edges, filter, dir, x, u, v));
        }
        if dir.follows_in() && exists|v: int| #[trigger] arrow(edges, filter, false, x, u, v) {
            let v = choose|v: int| #[trigger] arrow(edges, filter, false, x, u, v);
            assert(step(edges, filter, dir, x, u, v));
        }
    }
}

proof fn lemma_combine(found0: Seq<int>, found1: Seq<int>, next0: Seq<int>, next1: Seq<int>, r: Set<int>, nd: Set<int>, nu: Set<int>, nd2: Set<int>)
    requires
        forall|v: int| found0.contains(v) <==> (r.contains(v) || nd.contains(v)),
        forall|v: int| next0.contains(v) <==> (!r.contains(v) && nd.contains(v)),
        forall|v: int| found1.contains(v) <==> (found0.contains(v) || nu.contains(v)),
        forall|v: int| next1.contains(v) <==> (next0.contains(v) || (!found0.contains(v) && nu.contains(v))),
        nd2 == nd.union(nu),
    ensures
        forall|v: int| found1.contains(v) <==> (r.contains(v) || nd2.contains(v)),
        forall|v: int| next1.contains(v) <==> (!r.contains(v) && nd2.contains(v)),
{
}

proof fn lemma_combine_edges(e0: Seq<int>, e1: Seq<int>, fp: Set<int>, fd: Set<int>, fu: Set<int>, fd2: Set<int>)
    requires
        forall|x: int| e0.contains(x) <==> (fp.contains(x) || fd.contains(x)),
        forall|x: int| e1.contains(x) <==> (e0.contains(x) || fu.contains(x)),
        fd2 == fd.union(fu),
    ensures
        forall|x: int| e1.contains(x) <==> (fp.contains(x) || fd2.contains(x)),
{
}

/// A vector of `n` unset flags.
pub(crate) fn unset_flags(n: usize) -> (v: Vec<bool>)
    ensures
        v@.len() == n,
        forall|i: int| 0 <= i < n ==> !v@[i],
{
    let mut v: Vec<bool> = Vec::new();
    let mut i: usize = 0;
    while i < n
        invariant
            i <= n,
            v@.len() == i,
            forall|j: int| 0 <= j < i ==> !v@[j],
        decreases n - i,
    {
        v.push(false);
        i = i + 1;
    }
    v
}

/// Traces the graph breadth-first from `start`, following the edges whose
/// kind is in `edge_filter` in the given direction, up to `depth` steps.
/// The result holds, without repetition, every node at most `depth` steps
/// from `start` and every edge followed from a node fewer than `depth`
/// steps away.
pub fn trace(graph: &CodeGraph, start: NodeIndex, depth: usize, direction: &Direction, edge_filter: &Vec<EdgeKind>) -> (r: TraceResult)
    requires
        graph.wf(),
    ensures
        r.nodes().no_duplicates(),
        r.nodes().to_set() == reached(graph.edges(), edge_filter@, *direction, node_ix(start) as int, depth as nat),
        r.edges().no_duplicates(),
        r.edges().to_set() == traced_edges(graph.edges(), edge_filter@, *direction, node_ix(start) as int, depth as nat),
{
    proof {
        graph.lemma_wf();
    }
    let ghost edges = graph.edges();
    let ghost filter = edge_filter@;
    let ghost dir = *direction;
    let n = graph.node_count();
    let m = graph.edge_count();
    let s = node_position(start);
    let ghost st = s as int;
    if s >= n {
        proof {
            lemma_isolated(edges, filter, dir, st, depth as nat);
            assert(seq![st][0] == st);
            assert(seq![st].to_set() =~= set![st]);
            assert(Seq::<int>::empty().to_set() =~= Set::<int>::empty());
        }
        let mut ns: Vec<NodeIndex> = Vec::new();
        ns.push(start);
        let r = TraceResult { node_indices: ns, edge_indices: Vec::new() };
        assert(r.nodes() =~= seq![st]);
        assert(r.edges() =~= Seq::<int>::empty());
        return r;
    }
    let mut seen = unset_flags(n);
    let mut found: Vec<usize> = Vec::new();
    seen.set(s, true);
    found.push(s);
    let mut edge_seen = unset_flags(m);
    let mut edges_found: Vec<usize> = Vec::new();
    let mut frontier: Vec<usize> = Vec::new();
    frontier.push(s);
    let mut level: usize = 0;
    proof {
        assert(as_ints(found@) =~= seq![st]);
        assert(as_ints(frontier@) =~= seq![st]);
        assert(as_ints(found@)[0] == st);
        assert(as_ints(frontier@)[0] == st);
        assert(as_ints(edges_found@) =~= Seq::<int>::empty());
        lemma_levels(edges, filter, dir, st, 0);
        assert(marked(seen@, found@, n as int)) by {
            assert forall|v: int| 0 <= v < n implies (seen@[v] <==> as_ints(found@).contains(v)) by {
                if v == st {
                    assert(as_ints(found@)[0] == v);
                }
            }
        }
    }
    while level < depth && frontier.len() > 0
        invariant
            graph.wf(),
            edges == graph.edges(),
            filter == edge_filter@,
            dir == *direction,
            n == graph.nodes().len(),
            m == graph.edges().len(),
            st == s as int,
            s < n,
            level <= depth,
            marked(seen@, found@, n as int),
            marked(edge_seen@, edges_found@, m as int),
            forall|v: int| as_ints(found@).contains(v) <==> reached(edges, filter, dir, st, level as nat).contains(v),
            forall|v: int| as_ints(frontier@).contains(v) <==> (reached(edges, filter, dir, st, level as nat).contains(v) && !reached_before(edges, filter, dir, st, level as nat).contains(v)),
            forall|x: int| as_ints(edges_found@).contains(x) <==> traced_edges(edges, filter, dir, st, level as nat).contains(x),
            forall|j: int| 0 <= j < frontier@.len() ==> frontier@[j] < n,
        decreases depth - level,
    {
        let ghost lv = level as nat;
        let ghost big_r = reached(edges, filter, dir, st, lv);
        let ghost prev = reached_before(edges, filter, dir, st, lv);
        let ghost fr = as_ints(frontier@).to_set();
        proof {
            lemma_levels(edges, filter, dir, st, lv);
        }
        let mut next: Vec<usize> = Vec::new();
        let mut fi: usize = 0;
        while fi < frontier.len()
            invariant
                graph.wf(),
                edges == graph.edges(),
                filter == edge_filter@,
                dir == *direction,
                n == graph.nodes().len(),
                m == graph.edges().len(),
                fi <= frontier.len(),
                forall|j: int| 0 <= j < frontier@.len() ==> frontier@[j] < n,
                marked(seen@, found@, n as int),
                marked(edge_seen@, edges_found@, m as int),
                forall|v: int| as_ints(found@).contains(v) <==> (big_r.contains(v) || neighbours(edges, filter, dir, as_ints(frontier@.take(fi as int)).to_set()).contains(v)),
                forall|v: int| as_ints(next@).contains(v) <==> (!big_r.contains(v) && neighbours(edges, filter, dir, as_ints(frontier@.take(fi as int)).to_set()).contains(v)),
                forall|x: int| as_ints(edges_found@).contains(x) <==> (followed(edges, filter, dir, prev).contains(x) || followed(edges, filter, dir, as_ints(frontier@.take(fi as int)).to_set()).contains(x)),
            decreases frontier.len() - fi,
        {
            let u = frontier[fi];
            let ghost done = as_ints(frontier@.take(fi as int)).to_set();
            let ghost found0 = found@;
            let ghost next0 = next@;
            let ghost edges0 = edges_found@;
            proof {
                lemma_single(edges, filter, dir, u as int);
            }
            match direction {
                Direction::Out => {
                    expand(graph, u, true, edge_filter, &mut seen, &mut found, &mut next, &mut edge_seen, &mut edges_found);
                },
                Direction::In => {
                    expand(graph, u, false, edge_filter, &mut seen, &mut found, &mut next, &mut edge_seen, &mut edges_found);
                },
                Direction::Both => {
                    expand(graph, u, true, edge_filter, &mut seen, &mut found, &mut next, &mut edge_seen, &mut edges_found);
                    expand(graph, u, false, edge_filter, &mut seen, &mut found, &mut next, &mut edge_seen, &mut edges_found);
                },
            }
            proof {
                let done2 = as_ints(frontier@.take(fi + 1)).to_set();
                assert(as_ints(frontier@.take(fi + 1)) =~= as_ints(frontier@.take(fi as int)).push(u as int));
                lemma_push_contains(as_ints(frontier@.take(fi as int)), u as int);
                assert(done2 =~= done.union(set![u as int]));
                lemma_neighbours_union(edges, filter, dir, done, set![u as int]);
                let nu = neighbours(edges, filter, dir, set![u as int]);
                let fu = followed(edges, filter, dir, set![u as int]);
                lemma_combine(as_ints(found0), as_ints(found@), as_ints(next0), as_ints(next@), big_r, neighbours(edges, filter, dir, done), nu, neighbours(edges, filter, dir, done2));
                lemma_combine_edges(as_ints(edges0), as_ints(edges_found@), followed(edges, filter, dir, prev), followed(edges, filter, dir, done), fu, followed(edges, filter, dir, done2));
            }
            fi = fi + 1;
        }
        proof {
            assert(frontier@.take(frontier@.len() as int) =~= frontier@);
            assert(as_ints(frontier@.take(fi as int)).to_set() == fr);
            assert(fr =~= big_r.difference(prev));
            assert(big_r =~= prev.union(fr));
            lemma_neighbours_union(edges, filter, dir, prev, fr);
            lemma_levels(edges, filter, dir, st, lv + 1);
            assert(reached(edges, filter, dir, st, lv + 1) =~= big_r.union(neighbours(edges, filter, dir, fr)));
            assert(reached_before(edges, filter, dir, st, lv + 1) == big_r);
            assert(traced_edges(edges, filter, dir, st, lv + 1) =~= followed(edges, filter, dir, prev).union(followed(edges, filter, dir, fr)));
            assert forall|v: int| as_ints(found@).contains(v) <==> reached(edges, filter, dir, st, lv + 1).contains(v) by {
                assert(as_ints(found@).contains(v) <==> (big_r.contains(v) || neighbours(edges, filter, dir, fr).contains(v)));
            }
            assert forall|v: int| as_ints(next@).contains(v) <==> (reached(edges, filter, dir, st, lv + 1).contains(v) && !reached_before(edges, filter, dir, st, lv + 1).contains(v)) by {
                assert(as_ints(next@).contains(v) <==> (!big_r.contains(v) && neighbours(edges, filter, dir, fr).contains(v)));
            }
            assert forall|x: int| as_ints(edges_found@).contains(x) <==> traced_edges(edges, filter, dir, st, lv + 1).contains(x) by {
                assert(as_ints(edges_found@).contains(x) <==> (followed(edges, filter, dir, prev).contains(x) || followed(edges, filter, dir, fr).contains(x)));
            }
            assert forall|j: int| 0 <= j < next@.len() implies next@[j] < n by {
                assert(as_ints(next@)[j] == next@[j] as int);
                assert(as_ints(next@).contains(next@[j] as int));
                assert(neighbours(edges, filter, dir, fr).contains(next@[j] as int));
                assert(as_ints(found@).contains(next@[j] as int));
                let q = choose|q: int| 0 <= q < as_ints(found@).len() && as_ints(found@)[q] == next@[j] as int;
            }
        }
        frontier = next;
        level = level + 1;
    }
    proof {
        if level < depth {
            let lv = level as nat;
            assert(frontier@.len() == 0);
            assert(as_ints(frontier@).len() == 0);
            if level == 0 {
                assert(reached(edges, filter, dir, st, 0).contains(st));
                assert(as_ints(frontier@).contains(st));
            }
            assert(lv >= 1);
            assert(reached(edges, filter, dir, st, lv) =~= reached(edges, filter, dir, st, (lv - 1) as nat)) by {
                lemma_levels(edges, filter, dir, st, lv);
                assert forall|v: int| reached(edges, filter, dir, st, lv).contains(v) implies reached(edges, filter, dir, st, (lv - 1) as nat).contains(v) by {
                    assert(!as_ints(frontier@).contains(v));
                }
            }
            lemma_stable(edges, filter, dir, st, lv, depth as nat);
        }
    }
    let mut node_indices: Vec<NodeIndex> = Vec::new();
    let mut i: usize = 0;
    while i < found.len()
        invariant
            i <= found.len(),
            marked(seen@, found@, n as int),
            n <= u32::MAX,
            node_positions(node_indices@) == as_ints(found@).take(i as int),
        decreases found.len() - i,
    {
        let ghost before = node_indices@;
        node_indices.push(node_index(found[i]));
        proof {
            assert(node_positions(node_indices@) =~= node_positions(before).push(found@[i as int] as int));
            assert(as_ints(found@).take(i + 1) =~= as_ints(found@).take(i as int).push(found@[i as int] as int));
        }
        i = i + 1;
    }
    let mut edge_indices: Vec<EdgeIndex> = Vec::new();
    let mut k: usize = 0;
    while k < edges_found.len()
        invariant
            k <= edges_found.len(),
            marked(edge_seen@, edges_found@, m as int),
            m <= u32::MAX,
            edge_positions(edge_indices@) == as_ints(edges_found@).take(k as int),
        decreases edges_found.len() - k,
    {
        let ghost before = edge_indices@;
        edge_indices.push(edge_index(edges_found[k]));
        proof {
            assert(edge_positions(edge_indices@) =~= edge_positions(before).push(edges_found@[k as int] as int));
            assert(as_ints(edges_found@).take(k + 1) =~= as_ints(edges_found@).take(k as int).push(edges_found@[k as int] as int));
        }
        k = k + 1;
    }
    let r = TraceResult { node_indices, edge_indices };
    proof {
        assert(r.nodes() =~= as_ints(found@));
        assert(r.edges() =~= as_ints(edges_found@));
        lemma_distinct_ints(found@);
        lemma_distinct_ints(edges_found@);
        assert(r.nodes().to_set() =~= reached(edges, filter, dir, st, depth as nat));
        assert(r.edges().to_set() =~= traced_edges(edges, filter, dir, st, depth as nat));
    }
    r
}

proof fn lemma_distinct_ints(v: Seq<usize>)
    requires
        v.no_duplicates(),
    ensures
        as_ints(v).no_duplicates(),
{
    assert forall|a: int, b: int| 0 <= a < b < as_ints(v).len() implies as_ints(v)[a] != as_ints(v)[b] by {
        assert(v[a] != v[b]);
    }
}

/// The edges whose kind passes the filter.
pub open spec fn kept_edges(edges: Seq<(usize, usize, EdgeKind)>, filter: Seq<EdgeKind>) -> Seq<int> {
    indices_where(edges.len(), |e: int| filter.contains(edges[e].2))
}

/// The endpoints of the edges whose kind passes the filter.
pub open spec fn kept_endpoints(edges: Seq<(usize, usize, EdgeKind)>, filter: Seq<EdgeKind>) -> Set<int> {
    Set::new(|v: int| exists|e: int| 0 <= e < edges.len() && filter.contains(#[trigger] edges[e].2) && (edges[e].0 == v || edges[e].1 == v))
}

/// The edges of the whole graph whose kind is in `edge_filter`, in the
/// order they were added, with their endpoints, without repetition.
pub fn collect_edges_by_kind(graph: &CodeGraph, edge_filter: &Vec<EdgeKind>) -> (r: TraceResult)
    requires
        graph.wf(),
    ensures
        r.edges() == kept_edges(graph.edges(), edge_filter@),
        r.nodes().no_duplicates(),
        r.nodes().to_set() == kept_endpoints(graph.edges(), edge_filter@),
{
    proof {
        graph.lemma_wf();
    }
    let ghost edges = graph.edges();
    let ghost p = |e: int| edge_filter@.contains(edges[e].2);
    let n = graph.node_count();
    let m = graph.edge_count();
    let mut seen = unset_flags(n);
    let mut found: Vec<usize> = Vec::new();
    let mut edge_indices: Vec<EdgeIndex> = Vec::new();
    let mut e: usize = 0;
    proof {
        assert(edge_positions(edge_indices@) =~= indices_where(0, p));
    }
    while e < m
        invariant
            graph.wf(),
            edges == graph.edges(),
            p == (|e: int| edge_filter@.contains(edges[e].2)),
            n == graph.nodes().len(),
            m == edges.len(),
            m <= u32::MAX,
            e <= m,
            marked(seen@, found@, n as int),
            edge_positions(edge_indices@) == indices_where(e as nat, p),
            forall|v: int| as_ints(found@).contains(v) <==> exists|x: int| 0 <= x < e && edge_filter@.contains(#[trigger] edges[x].2) && (edges[x].0 == v || edges[x].1 == v),
        decreases m - e,
    {
        proof {
            graph.lemma_wf();
        }
        let (src, tgt, kind) = graph.edge_at(e);
        let ghost f0 = found@;
        if filter_contains(edge_filter, kind) {
            let ghost before = edge_indices@;
            edge_indices.push(edge_index(e));
            assert(edge_positions(edge_indices@) =~= edge_positions(before).push(e as int));
            add_mark(&mut seen, &mut found, src, n);
            add_mark(&mut seen, &mut found, tgt, n);
        }
        proof {
            lemma_indices_where_step(e as nat, p);
            assert forall|v: int| as_ints(found@).contains(v) <==> exists|x: int| 0 <= x < e + 1 && edge_filter@.contains(#[trigger] edges[x].2) && (edges[x].0 == v || edges[x].1 == v) by {
                if exists|x: int| 0 <= x < e + 1 && edge_filter@.contains(#[trigger] edges[x].2) && (edges[x].0 == v || edges[x].1 == v) {
                    let x = choose|x: int| 0 <= x < e + 1 && edge_filter@.contains(#[trigger] edges[x].2) && (edges[x].0 == v || edges[x].1 == v);
                    if x < e {
                        assert(as_ints(f0).contains(v));
                    }
                }
                if as_ints(found@).contains(v) && !as_ints(f0).contains(v) {
                    assert(edge_filter@.contains(edges[e as int].2) && (edges[e as int].0 == v || edges[e as int].1 == v));
                }
            }
        }
        e = e + 1;
    }
    let mut node_indices: Vec<NodeIndex> = Vec::new();
    let mut i: usize = 0;
    while i < found.len()
        invariant
            i <= found.len(),
            marked(seen@, found@, n as int),
            n <= u32::MAX,
            node_positions(node_indices@) == as_ints(found@).take(i as int),
        decreases found.len() - i,
    {
        let ghost before = node_indices@;
        node_indices.push(node_index(found[i]));
        proof {
            assert(node_positions(node_indices@) =~= node_positions(before).push(found@[i as int] as int));
            assert(as_ints(found@).take(i + 1) =~= as_ints(found@).take(i as int).push(found@[i as int] as int));
        }
        i = i + 1;
    }
    let r = TraceResult { node_indices, edge_indices };
    proof {
        assert(r.nodes() =~= as_ints(found@));
        lemma_distinct_ints(found@);
        assert(r.nodes().to_set() =~= kept_endpoints(edges, edge_filter@));
    }
    r
}

/// Records position `v` in the list and its flags, unless it is there.
fn add_mark(seen: &mut Vec<bool>, found: &mut Vec<usize>, v: usize, n: usize)
    requires
        marked(old(seen)@, old(found)@, n as int),
        v < n,
    ensures
        marked(final(seen)@, final(found)@, n as int),
        forall|x: int| as_ints(final(found)@).contains(x) <==> (as_ints(old(found)@).contains(x) || x == v),
{
    if !seen[v] {
        let ghost f0 = found@;
        seen.set(v, true);
        found.push(v);
        proof {
            assert(as_ints(found@) =~= as_ints(f0).push(v as int));
            lemma_push_contains(as_ints(f0), v as int);
            assert(found@.no_duplicates()) by {
                assert(!as_ints(f0).contains(v as int));
                assert forall|a: int, b: int| 0 <= a < b < found@.len() implies found@[a] != found@[b] by {
                    if b == f0.len() {
                        assert(as_ints(f0)[a] == f0[a] as int);
                    }
                }
            }
        }
    } else {
        proof {
            assert(as_ints(found@).contains(v as int));
        }
    }
}

/// Some edge leads from `u` to `v` in the given direction.
pub open spec fn linked(edges: Seq<(usize, usize, EdgeKind)>, filter: Seq<EdgeKind>, dir: Direction, u: int, v: int) -> bool {
    exists|e: int| step(edges, filter, dir, e, u, v)
}

/// `ns` is a path from `start`: it begins there, and each node after the
/// first is one step from the node before it.
pub open spec fn path_from(edges: Seq<(usize, usize, EdgeKind)>, filter: Seq<EdgeKind>, dir: Direction, start: int, ns: Seq<int>) -> bool
    decreases ns.len(),
{
    if ns.len() <= 1 {
        ns.len() == 1 && ns[0] == start
    } else {
        path_from(edges, filter, dir, start, ns.drop_last()) && linked(edges, filter, dir, ns[ns.len() - 2], ns.last())
    }
}

/// `v` is at most `k` steps from `start`: some path from `start` of at most
/// `k` steps ends at `v`.
pub open spec fn within(edges: Seq<(usize, usize, EdgeKind)>, filter: Seq<EdgeKind>, dir: Direction, start: int, v: int, k: nat) -> bool {
    exists|ns: Seq<int>| #[trigger] path_from(edges, filter, dir, start, ns) && ns.len() <= k + 1 && ns.last() == v
}

/// A node is reached within `k` levels exactly when a path of at most `k`
/// steps leads to it.
proof fn lemma_reached_within(edges: Seq<(usize, usize, EdgeKind)>, filter: Seq<EdgeKind>, dir: Direction, start: int, k: nat, v: int)
    ensures
        reached(edges, filter, dir, start, k).contains(v) <==> within(edges, filter, dir, start, v, k),
    decreases k,
{
    if k == 0 {
        if v == start {
            let ns = seq![start];
            assert(path_from(edges, filter, dir, start, ns));
        }
        if within(edges, filter, dir, start, v, k) {
            let ns = choose|ns: Seq<int>| #[trigger] path_from(edges, filter, dir, start, ns) && ns.len() <= k + 1 && ns.last() == v;
            assert(ns.len() == 1);
        }
    } else {
        let k1 = (k - 1) as nat;
        let r = reached(edges, filter, dir, start, k1);
        lemma_reached_within(edges, filter, dir, start, k1, v);
        if reached(edges, filter, dir, start, k).contains(v) {
            if r.contains(v) {
                let ns = choose|ns: Seq<int>| #[trigger] path_from(edges, filter, dir, start, ns) && ns.len() <= k1 + 1 && ns.last() == v;
                assert(path_from(edges, filter, dir, start, ns) && ns.len() <= k + 1 && ns.last() == v);
            } else {
                let (e, u) = choose|e: int, u: int| r.contains(u) && #[trigger] step(edges, filter, dir, e, u, v);
                lemma_reached_within(edges, filter, dir, start, k1, u);
                let ns = choose|ns: Seq<int>| #[trigger] path_from(edges, filter, dir, start, ns) && ns.len() <= k1 + 1 && ns.last() == u;
                let ns2 = ns.push(v);
                assert(ns2.drop_last() =~= ns);
                assert(linked(edges, filter, dir, ns2[ns2.len() - 2], ns2.last()));
                assert(path_from(edges, filter, dir, start, ns2));
            }
        }
        if within(edges, filter, dir, start, v, k) {
            let ns = choose|ns: Seq<int>| #[trigger] path_from(edges, filter, dir, start, ns) && ns.len() <= k + 1 && ns.last() == v;
            if ns.len() == k + 1 {
                let pre = ns.drop_last();
                let u = pre.last();
                assert(path_from(edges, filter, dir, start, pre));
                assert(pre.len() <= k1 + 1);
                lemma_reached_within(edges, filter, dir, start, k1, u);
                let e = choose|e: int| step(edges, filter, dir, e, u, v);
                assert(neighbours(edges, filter, dir, r).contains(v));
            }
        }
    }
}

/// A trace of depth `depth` holds exactly the nodes at most `depth` steps
/// from the start and the edges followed from a node fewer than `depth`
/// steps from it, counting only steps along edges whose kind passes the
/// filter, in the trace's direction.
pub proof fn lemma_trace_by_distance(edges: Seq<(usize, usize, EdgeKind)>, filter: Seq<EdgeKind>, dir: Direction, start: int, depth: nat)
    ensures
        forall|v: int| #[trigger] reached(edges, filter, dir, start, depth).contains(v) <==> within(edges, filter, dir, start, v, depth),
        forall|e: int| #[trigger] traced_edges(edges, filter, dir, start, depth).contains(e) <==> (depth >= 1 && exists|u: int, v: int| within(edges, filter, dir, start, u, (depth - 1) as nat) && #[trigger] step(edges, filter, dir, e, u, v)),
{
    assert forall|v: int| #[trigger] reached(edges, filter, dir, start, depth).contains(v) <==> within(edges, filter, dir, start, v, depth) by {
        lemma_reached_within(edges, filter, dir, start, depth, v);
    }
    if depth >= 1 {
        let d1 = (depth - 1) as nat;
        assert forall|u: int| #[trigger] reached(edges, filter, dir, start, d1).contains(u) <==> within(edges, filter, dir, start, u, d1) by {
            lemma_reached_within(edges, filter, dir, start, d1, u);
        }
    }
}

/// A trace of depth zero holds the start node alone and no edge.
pub proof fn lemma_depth_zero(edges: Seq<(usize, usize, EdgeKind)>, filter: Seq<EdgeKind>, dir: Direction, start: int)
    ensures
        reached(edges, filter, dir, start, 0) == set![start],
        traced_edges(edges, filter, dir, start, 0) == Set::<int>::empty(),
{
}

/// A trace always holds its start node.
pub proof fn lemma_start_reached(edges: Seq<(usize, usize, EdgeKind)>, filter: Seq<EdgeKind>, dir: Direction, start: int, depth: nat)
    ensures
        reached(edges, filter, dir, start, depth).contains(start),
    decreases depth,
{
    if depth > 0 {
        lemma_start_reached(edges, filter, dir, start, (depth - 1) as nat);
    }
}

/// With an empty edge filter a trace holds the start node alone and no
/// edge, whatever its depth.
pub proof fn lemma_empty_filter(edges: Seq<(usize, usize, EdgeKind)>, dir: Direction, start: int, depth: nat)
    ensures
        reached(edges, Seq::empty(), dir, start, depth) == set![start],
        traced_edges(edges, Seq::empty(), dir, start, depth) == Set::<int>::empty(),
    decreases depth,
{
    let filter = Seq::<EdgeKind>::empty();
    assert(neighbours(edges, filter, dir, set![start]) =~= Set::<int>::empty());
    assert(followed(edges, filter, dir, set![start]) =~= Set::<int>::empty());
    if depth > 0 {
        lemma_empty_filter(edges, dir, start, (depth - 1) as nat);
        assert(reached(edges, filter, dir, start, depth) =~= set![start]);
    }
}

/// A deeper trace holds every node and edge of a shallower one.
pub proof fn lemma_deeper_holds_more(edges: Seq<(usize, usize, EdgeKind)>, filter: Seq<EdgeKind>, dir: Direction, start: int, k: nat, l: nat)
    requires
        k <= l,
    ensures
        reached(edges, filter, dir, start, k).subset_of(reached(edges, filter, dir, start, l)),
        traced_edges(edges, filter, dir, start, k).subset_of(traced_edges(edges, filter, dir, start, l)),
    decreases l,
{
    if k < l {
        lemma_deeper_holds_more(edges, filter, dir, start, k, (l - 1) as nat);
        if k > 0 {
            lemma_deeper_holds_more(edges, filter, dir, start, (k - 1) as nat, (l - 1) as nat);
            let a = reached(edges, filter, dir, start, (k - 1) as nat);
            let b = reached(edges, filter, dir, start, (l - 1) as nat);
            assert forall|e: int| followed(edges, filter, dir, a).contains(e) implies followed(edges, filter, dir, b).contains(e) by {
                let (u, v) = choose|u: int, v: int| a.contains(u) && #[trigger] step(edges, filter, dir, e, u, v);
                assert(b.contains(u));
            }
        }
    }
}

/// A trace holds both ends of every edge it holds.
pub proof fn lemma_edges_have_ends(edges: Seq<(usize, usize, EdgeKind)>, filter: Seq<EdgeKind>, dir: Direction, start: int, depth: nat, e: int)
    requires
        traced_edges(edges, filter, dir, start, depth).contains(e),
    ensures
        0 <= e < edges.len(),
        reached(edges, filter, dir, start, depth).contains(edges[e].0 as int),
        reached(edges, filter, dir, start, depth).contains(edges[e].1 as int),
{
    let prev = reached(edges, filter, dir, start, (depth - 1) as nat);
    let (u, v) = choose|u: int, v: int| prev.contains(u) && #[trigger] step(edges, filter, dir, e, u, v);
    assert(neighbours(edges, filter, dir, prev).contains(v));
}

/// Following edges both ways reaches every node and edge that following
/// them one way does.
pub proof fn lemma_both_ways_holds_more(edges: Seq<(usize, usize, EdgeKind)>, filter: Seq<EdgeKind>, dir: Direction, start: int, depth: nat)
    ensures
        reached(edges, filter, dir, start, depth).subset_of(reached(edges, filter, Direction::Both, start, depth)),
        traced_edges(edges, filter, dir, start, depth).subset_of(traced_edges(edges, filter, Direction::Both, start, depth)),
    decreases depth,
{
    if depth > 0 {
        lemma_both_ways_holds_more(edges, filter, dir, start, (depth - 1) as nat);
        let a = reached(edges, filter, dir, start, (depth - 1) as nat);
        let b = reached(edges, filter, Direction::Both, start, (depth - 1) as nat);
        assert forall|v: int| neighbours(edges, filter, dir, a).contains(v) implies neighbours(edges, filter, Direction::Both, b).contains(v) by {
            let (e, u) = choose|e: int, u: int| a.contains(u) && #[trigger] step(edges, filter, dir, e, u, v);
            assert(step(edges, filter, Direction::Both, e, u, v));
        }
        assert forall|e: int| followed(edges, filter, dir, a).contains(e) implies followed(edges, filter, Direction::Both, b).contains(e) by {
            let (u, v) = choose|u: int, v: int| a.contains(u) && #[trigger] step(edges, filter, dir, e, u, v);
            assert(step(edges, filter, Direction::Both, e, u, v));
        }
    }
}

/// A direction prints as the name it is parsed from, and no two
/// directions share a name.
pub proof fn lemma_direction_names(a: Direction, b: Direction)
    ensures
        a.label() == b.label() ==> a == b,
{
    reveal_strlit("in");
    reveal_strlit("out");
    reveal_strlit("both");
    if a.label() == b.label() {
        assert(a.label().len() == b.label().len());
        assert(a.label()[0] == b.label()[0]);
    }
}

/// A trace from a node of a graph stays inside it: it reaches only nodes
/// of the graph and follows only its edges.
pub proof fn lemma_trace_in_graph(edges: Seq<(usize, usize, EdgeKind)>, n: int, filter: Seq<EdgeKind>, dir: Direction, start: int, depth: nat)
    requires
        0 <= start < n,
        forall|e: int| 0 <= e < edges.len() ==> (#[trigger] edges[e]).0 < n && edges[e].1 < n,
    ensures
        forall|v: int| #[trigger] reached(edges, filter, dir, start, depth).contains(v) ==> 0 <= v < n,
        forall|e: int| #[trigger] traced_edges(edges, filter, dir, start, depth).contains(e) ==> 0 <= e < edges.len(),
    decreases depth,
{
    if depth > 0 {
        lemma_trace_in_graph(edges, n, filter, dir, start, (depth - 1) as nat);
        let prev = reached(edges, filter, dir, start, (depth - 1) as nat);
        assert forall|v: int| #[trigger] reached(edges, filter, dir, start, depth).contains(v) implies 0 <= v < n by {
            if !prev.contains(v) {
                let (e, u) = choose|e: int, u: int| prev.contains(u) && #[trigger] step(edges, filter, dir, e, u, v);
                assert(0 <= e < edges.len());
            }
        }
        assert forall|e: int| #[trigger] traced_edges(edges, filter, dir, start, depth).contains(e) implies 0 <= e < edges.len() by {
            let (u, v) = choose|u: int, v: int| prev.contains(u) && #[trigger] step(edges, filter, dir, e, u, v);
        }
    }
}

} // verus!
