//! Facilities for working with graphs computed from Engage files.
//!
//! The graph is a `petgraph` graph. Its contents are described by two names,
//! [`process_nodes`] and [`process_edges`]: the node weights in index order
//! and the edges `(source, target, kind)` in index order. Every `petgraph`
//! call goes through one small wrapper below whose contract says what the call
//! does to those contents.

use vstd::prelude::*;

use petgraph::graph::Graph;
use petgraph::Directed;

use crate::config::{
    clone_named_process, config_wf, dedup, distinct_seq, lemma_dedup_names_contains, lemma_reordered, process_names, reordered,
    sort_names, Config, Process, ProcessView,
};
use crate::listing::{names_sorted, sorts};
use crate::error::{BuildGraph, ProcessNotFound};
use crate::name::{names_view, Name, Named};

verus! {

#[verifier::external_type_specification]
#[verifier::external_body]
#[verifier::reject_recursive_types(N)]
#[verifier::reject_recursive_types(E)]
#[verifier::reject_recursive_types(Ty)]
#[verifier::reject_recursive_types(Ix)]
pub struct ExGraph<N, E, Ty, Ix>(Graph<N, E, Ty, Ix>);

#[verifier::external_type_specification]
#[verifier::external_body]
pub struct ExDirected(Directed);

/// The kind of an edge in the graph.
#[derive(Debug, Clone, Copy, PartialEq, Eq, Structural)]
pub enum EdgeKind {
    /// The edge is created by a `before` dependency.
    Before,
    /// The edge is created by an `after` dependency.
    After,
}

impl EdgeKind {
    /// How the edge is shown: `via 'before'` or `via 'after'`.
    pub fn as_str(&self) -> (r: &'static str)
        ensures
            r@ == (match self {
                EdgeKind::Before => "via 'before'"@,
                EdgeKind::After => "via 'after'"@,
            }),
    {
        match self {
            EdgeKind::Before => "via 'before'",
            EdgeKind::After => "via 'after'",
        }
    }

    /// The name of the list that creates edges of this kind.
    pub fn list_name(&self) -> (r: &'static str)
        ensures
            r@ == (match self {
                EdgeKind::Before => "before"@,
                EdgeKind::After => "after"@,
            }),
    {
        match self {
            EdgeKind::Before => "before",
            EdgeKind::After => "after",
        }
    }
}

/// A direction along the edges of a graph.
#[derive(Debug, Clone, Copy, PartialEq, Eq, Structural)]
pub enum Direction {
    /// Along edges, from source to target.
    Outgoing,
    /// Against edges, from target to source.
    Incoming,
}

impl Direction {
    /// The other direction.
    pub open spec fn opposite_spec(self) -> Direction {
        match self {
            Direction::Outgoing => Direction::Incoming,
            Direction::Incoming => Direction::Outgoing,
        }
    }

    /// The other direction.
    pub fn opposite(self) -> (r: Direction)
        ensures
            r == self.opposite_spec(),
    {
        match self {
            Direction::Outgoing => Direction::Incoming,
            Direction::Incoming => Direction::Outgoing,
        }
    }
}

/// A graph of processes.
pub type ProcessGraph = Graph<Named<Process>, EdgeKind, Directed, u32>;

/// The node weights of `g`, in index order.
pub uninterp spec fn process_nodes(g: Graph<Named<Process>, EdgeKind, Directed, u32>) -> Seq<Named<Process>>;

/// The edges of `g` as `(source, target, weight)`, in index order.
pub uninterp spec fn process_edges(g: Graph<Named<Process>, EdgeKind, Directed, u32>) -> Seq<(usize, usize, EdgeKind)>;

/// The largest number of nodes or edges that a graph with `u32` indices holds.
pub open spec fn index_limit() -> int {
    0xffff_ffff
}

/// Every edge joins two nodes of a graph with `n` nodes.
pub open spec fn edges_in_range<E>(edges: Seq<(usize, usize, E)>, n: int) -> bool {
    forall|i: int| 0 <= i < edges.len() ==> (#[trigger] edges[i]).0 < n && edges[i].1 < n
}

/// Well-formedness of a process graph: its edges join its nodes, and neither
/// count is beyond the index type.
pub open spec fn graph_wf(g: ProcessGraph) -> bool {
    &&& edges_in_range(process_edges(g), process_nodes(g).len() as int)
    &&& process_nodes(g).len() <= index_limit()
    &&& process_edges(g).len() <= index_limit()
}

/// There is an edge from `a` to `b`.
pub open spec fn has_edge<E>(edges: Seq<(usize, usize, E)>, a: int, b: int) -> bool {
    exists|i: int| 0 <= i < edges.len() && (#[trigger] edges[i]).0 == a && edges[i].1 == b
}

/// `p` is a walk along the edges: each node has an edge to the next one.
pub open spec fn is_path<E>(edges: Seq<(usize, usize, E)>, p: Seq<int>) -> bool {
    &&& p.len() >= 1
    &&& forall|i: int| #![trigger p[i]] 0 <= i < p.len() - 1 ==> has_edge(edges, p[i], p[i + 1])
}

/// There is a walk (possibly empty) from `a` to `b`.
pub open spec fn reachable<E>(edges: Seq<(usize, usize, E)>, a: int, b: int) -> bool {
    exists|p: Seq<int>| #[trigger] is_path(edges, p) && p[0] == a && p.last() == b
}

/// `v` lies on a cycle: a walk of at least one edge leads from `v` back to `v`.
pub open spec fn on_cycle<E>(edges: Seq<(usize, usize, E)>, v: int) -> bool {
    exists|p: Seq<int>| #[trigger] is_path(edges, p) && p.len() >= 2 && p[0] == v && p.last() == v
}

/// Some node of a graph with `n` nodes lies on a cycle.
pub open spec fn is_cyclic<E>(edges: Seq<(usize, usize, E)>, n: int) -> bool {
    exists|v: int| 0 <= v < n && #[trigger] on_cycle(edges, v)
}

/// `comp` is a strongly connected component of a graph with `n` nodes: its
/// members are distinct, pairwise reachable from each other, and no other node
/// is reachable both from and to them.
pub open spec fn is_scc<E>(edges: Seq<(usize, usize, E)>, n: int, comp: Seq<usize>) -> bool {
    &&& comp.len() > 0
    &&& forall|i: int| 0 <= i < comp.len() ==> #[trigger] comp[i] < n
    &&& forall|i: int, j: int| 0 <= i < j < comp.len() ==> #[trigger] comp[i] != #[trigger] comp[j]
    &&& forall|i: int, j: int|
        0 <= i < comp.len() && 0 <= j < comp.len() ==> reachable(edges, #[trigger] comp[i] as int, #[trigger] comp[j] as int)
    &&& forall|v: int|
        0 <= v < n && reachable(edges, comp[0] as int, v) && reachable(edges, v, comp[0] as int)
            ==> #[trigger] comp.contains(v as usize)
}

/// A component counts as a dependency cycle if it has more than one node or a
/// node with an edge to itself.
pub open spec fn is_cyclic_component<E>(edges: Seq<(usize, usize, E)>, comp: Seq<usize>) -> bool {
    comp.len() > 1 || exists|i: int| 0 <= i < comp.len() && #[trigger] has_edge(edges, comp[i] as int, comp[i] as int)
}

/// Node `v` belongs to one of the components `comps`.
pub open spec fn in_some_component(comps: Seq<Vec<usize>>, v: usize) -> bool {
    exists|i: int| 0 <= i < comps.len() && #[trigger] comps[i]@.contains(v)
}

/// Calls `Graph::new`: a graph without nodes or edges.
#[verifier::external_body]
fn pg_new() -> (g: ProcessGraph)
    ensures
        process_nodes(g) == Seq::<Named<Process>>::empty(),
        process_edges(g) == Seq::<(usize, usize, EdgeKind)>::empty(),
{
    Graph::new()
}

/// Calls `Graph::add_node`: the weight is appended to the nodes, and its index
/// returned. `petgraph` panics when the `u32` index space is full.
#[verifier::external_body]
fn pg_add_node(g: &mut ProcessGraph, w: Named<Process>) -> (r: usize)
    requires
        process_nodes(*old(g)).len() < index_limit(),
    ensures
        r == process_nodes(*old(g)).len(),
        process_nodes(*final(g)) == process_nodes(*old(g)).push(w),
        process_edges(*final(g)) == process_edges(*old(g)),
{
    g.add_node(w).index()
}

/// Calls `Graph::add_edge`: the edge is appended to the edges. `petgraph`
/// panics when an endpoint is not a node or the `u32` index space is full.
#[verifier::external_body]
fn pg_add_edge(g: &mut ProcessGraph, a: usize, b: usize, w: EdgeKind)
    requires
        a < process_nodes(*old(g)).len(),
        b < process_nodes(*old(g)).len(),
        process_edges(*old(g)).len() < index_limit(),
    ensures
        process_nodes(*final(g)) == process_nodes(*old(g)),
        process_edges(*final(g)) == process_edges(*old(g)).push((a, b, w)),
{
    g.add_edge(petgraph::graph::NodeIndex::new(a), petgraph::graph::NodeIndex::new(b), w);
}

/// Indexes `g` by node: the weight of node `i`. `petgraph` panics when `i`
/// is not a node.
#[verifier::external_body]
fn pg_node(g: &ProcessGraph, i: usize) -> (r: &Named<Process>)
    requires
        i < process_nodes(*g).len(),
    ensures
        *r == process_nodes(*g)[i as int],
{
    &g[petgraph::graph::NodeIndex::new(i)]
}

/// Calls `petgraph::visit::depth_first_search` on the reversed graph from
/// `starts`, collecting the nodes as they are discovered: each node from which
/// some start can be reached, once.
#[verifier::external_body]
fn pg_reverse_reach(g: &ProcessGraph, starts: &Vec<usize>) -> (r: Vec<usize>)
    requires
        forall|i: int| 0 <= i < starts@.len() ==> #[trigger] starts@[i] < process_nodes(*g).len(),
    ensures
        forall|v: usize| #[trigger] r@.contains(v) <==> (v < process_nodes(*g).len() && exists|i: int|
            0 <= i < starts@.len() && reachable(process_edges(*g), v as int, #[trigger] starts@[i] as int)),
        forall|i: int, j: int| 0 <= i < j < r@.len() ==> #[trigger] r@[i] != #[trigger] r@[j],
{
    let mut found: Vec<usize> = Vec::new();
    let starts = starts.iter().map(|&s| petgraph::graph::NodeIndex::new(s));
    petgraph::visit::depth_first_search(petgraph::visit::Reversed(g), starts, |event| {
        if let petgraph::visit::DfsEvent::Discover(ix, _) = event {
            found.push(ix.index());
        }
    });
    found
}

/// The weight that node `i` keeps in a filtered graph: a copy of `n` where
/// `keep` says to keep the node, else none.
fn keep_node(keep: &Vec<bool>, i: usize, n: &Named<Process>) -> (r: Option<Named<Process>>)
    requires
        i < keep@.len(),
    ensures
        r is Some <==> keep@[i as int],
        r matches Some(m) ==> m@ == n@,
{
    if keep[i] {
        Some(clone_named_process(n))
    } else {
        None
    }
}

/// Calls `Graph::filter_map`, keeping the nodes for which [`keep_node`]
/// gives a weight (those whose entry in `keep` is true, each copied) and
/// every edge whose ends are both kept. Nodes keep their order, and so do edges; an edge's ends are
/// renumbered to the positions of its nodes among the kept ones.
#[verifier::external_body]
fn pg_filter(g: &ProcessGraph, keep: &Vec<bool>) -> (r: ProcessGraph)
    requires
        keep@.len() == process_nodes(*g).len(),
        graph_wf(*g),
    ensures
        named_views(process_nodes(r)) == mask_filter(named_views(process_nodes(*g)), keep@),
        process_edges(r) == edge_filter(process_edges(*g), keep@),
{
    g.filter_map(
        |i, n| keep_node(keep, i.index(), n),
        |_, e| Some(*e),
    )
}

/// Calls `Graph::externals`: the nodes without edges in direction `dir`
/// (no outgoing edges for `Outgoing`, no incoming ones for `Incoming`), in
/// increasing order.
#[verifier::external_body]
fn pg_externals(g: &ProcessGraph, dir: Direction) -> (r: Vec<usize>)
    ensures
        forall|i: int, j: int| 0 <= i < j < r@.len() ==> #[trigger] r@[i] < #[trigger] r@[j],
        forall|v: usize| #[trigger] r@.contains(v) <==> (v < process_nodes(*g).len() && dir_neighbors(process_edges(*g), v, dir).len() == 0),
{
    let d = match dir {
        Direction::Outgoing => petgraph::Direction::Outgoing,
        Direction::Incoming => petgraph::Direction::Incoming,
    };
    g.externals(d).map(|x| x.index()).collect()
}

/// Calls `Graph::neighbors_directed`: the other end of each edge of node `a`
/// in direction `dir`, once per edge. `petgraph` lists them from the most
/// recently added edge; only which nodes come, and how often, is stated here.
#[verifier::external_body]
fn pg_neighbors(g: &ProcessGraph, a: usize, dir: Direction) -> (r: Vec<usize>)
    requires
        a < process_nodes(*g).len(),
    ensures
        r@.to_multiset() == dir_neighbors(process_edges(*g), a, dir).to_multiset(),
{
    let d = match dir {
        Direction::Outgoing => petgraph::Direction::Outgoing,
        Direction::Incoming => petgraph::Direction::Incoming,
    };
    g.neighbors_directed(petgraph::graph::NodeIndex::new(a), d).map(|x| x.index()).collect()
}

/// Calls `Graph::node_count`.
#[verifier::external_body]
fn pg_node_count(g: &ProcessGraph) -> (r: usize)
    ensures
        r == process_nodes(*g).len(),
{
    g.node_count()
}

/// Calls `Graph::find_edge_undirected(a, a)`: whether some edge leads from
/// node `a` to itself.
#[verifier::external_body]
fn pg_has_self_loop(g: &ProcessGraph, a: usize) -> (r: bool)
    requires
        a < process_nodes(*g).len(),
    ensures
        r == has_edge(process_edges(*g), a as int, a as int),
{
    let ix = petgraph::graph::NodeIndex::new(a);
    g.find_edge_undirected(ix, ix).is_some()
}

/// Calls `petgraph::algo::tarjan_scc`: the strongly connected components of
/// the graph, every node in exactly one of them, listed so that an edge never
/// leads to a later component (reverse topological order). The order of the
/// nodes within a component is left open.
#[verifier::external_body]
fn pg_tarjan_scc(g: &ProcessGraph) -> (r: Vec<Vec<usize>>)
    requires
        graph_wf(*g),
    ensures
        forall|i: int| 0 <= i < r@.len() ==> is_scc(process_edges(*g), process_nodes(*g).len() as int, #[trigger] r@[i]@),
        forall|v: usize| v < process_nodes(*g).len() ==> #[trigger] in_some_component(r@, v),
        forall|i: int, j: int, v: usize| 0 <= i < j < r@.len() && #[trigger] r@[i]@.contains(v) ==> !#[trigger] r@[j]@.contains(v),
        forall|e: int, i: int, j: int|
            0 <= e < process_edges(*g).len() && 0 <= i < r@.len() && 0 <= j < r@.len()
                && #[trigger] r@[i]@.contains(process_edges(*g)[e].0) && #[trigger] r@[j]@.contains(process_edges(*g)[e].1) ==> j <= i,
{
    petgraph::algo::tarjan_scc(g).into_iter().map(|c| c.into_iter().map(|x| x.index()).collect()).collect()
}

/// The view of a graph-building error.
pub enum BuildGraphView {
    /// A process depends on a process that does not exist: the process, the
    /// missing dependency and the list it is in.
    DependencyNotFound(Seq<char>, Seq<char>, EdgeKind),
    /// The names of the processes of a dependency cycle.
    DependencyCycle(Seq<Seq<char>>),
}

impl View for BuildGraph {
    type V = BuildGraphView;

    open spec fn view(&self) -> BuildGraphView {
        match self {
            BuildGraph::DependencyNotFound { process, dependency, edge_kind } =>
                BuildGraphView::DependencyNotFound(process@, dependency@, *edge_kind),
            BuildGraph::DependencyCycle(names) => BuildGraphView::DependencyCycle(names_view(names@)),
        }
    }
}

/// The views of a list of graph-building errors.
pub open spec fn build_errors_view(es: Seq<BuildGraph>) -> Seq<BuildGraphView> {
    es.map_values(|e: BuildGraph| e@)
}

/// The other end of each edge of node `a` in direction `dir`, in edge order:
/// the targets of its outgoing edges, or the sources of its incoming edges.
pub open spec fn dir_neighbors<E>(edges: Seq<(usize, usize, E)>, a: usize, dir: Direction) -> Seq<usize>
    decreases edges.len(),
{
    if edges.len() == 0 {
        Seq::empty()
    } else {
        let prev = dir_neighbors(edges.drop_last(), a, dir);
        let e = edges.last();
        match dir {
            Direction::Outgoing => if e.0 == a {
                prev.push(e.1)
            } else {
                prev
            },
            Direction::Incoming => if e.1 == a {
                prev.push(e.0)
            } else {
                prev
            },
        }
    }
}

/// The elements of `s` whose entry in `m` is true, in order.
pub open spec fn mask_filter<T>(s: Seq<T>, m: Seq<bool>) -> Seq<T>
    decreases s.len(),
{
    if s.len() == 0 {
        Seq::empty()
    } else {
        let prev = mask_filter(s.drop_last(), m);
        if m[s.len() - 1] {
            prev.push(s.last())
        } else {
            prev
        }
    }
}

/// The number of true entries of `m` before index `i`: the new index of a
/// kept element at `i`.
pub open spec fn rank(m: Seq<bool>, i: int) -> int
    decreases i,
{
    if i <= 0 {
        0
    } else {
        rank(m, i - 1) + if m[i - 1] { 1int } else { 0int }
    }
}

/// The edges whose ends are both kept by `m`, in order, with their ends
/// renumbered by [`rank`].
pub open spec fn edge_filter<E>(edges: Seq<(usize, usize, E)>, m: Seq<bool>) -> Seq<(usize, usize, E)>
    decreases edges.len(),
{
    if edges.len() == 0 {
        Seq::empty()
    } else {
        let prev = edge_filter(edges.drop_last(), m);
        let e = edges.last();
        if m[e.0 as int] && m[e.1 as int] {
            prev.push((rank(m, e.0 as int) as usize, rank(m, e.1 as int) as usize, e.2))
        } else {
            prev
        }
    }
}

/// The first index at which `x` occurs in `s`.
pub open spec fn first_index(s: Seq<Seq<char>>, x: Seq<char>) -> int {
    choose|i: int| 0 <= i < s.len() && s[i] == x && forall|j: int| 0 <= j < i ==> s[j] != x
}

/// The edge that dependency `d` of process `p` creates.
pub open spec fn dep_edge(p: int, d: int, kind: EdgeKind) -> (usize, usize, EdgeKind) {
    match kind {
        EdgeKind::After => (d as usize, p as usize, kind),
        EdgeKind::Before => (p as usize, d as usize, kind),
    }
}

/// The edges that the dependencies `deps` of the process at index `p` create,
/// in order; a dependency that names no process creates none.
pub open spec fn dep_edges(names: Seq<Seq<char>>, p: int, deps: Seq<Seq<char>>, kind: EdgeKind) -> Seq<(usize, usize, EdgeKind)>
    decreases deps.len(),
{
    if deps.len() == 0 {
        Seq::empty()
    } else {
        let prev = dep_edges(names, p, deps.drop_last(), kind);
        if names.contains(deps.last()) {
            prev.push(dep_edge(p, first_index(names, deps.last()), kind))
        } else {
            prev
        }
    }
}

/// The errors for the dependencies `deps` of the process at index `p` that
/// name no process, in order.
pub open spec fn dep_errors(names: Seq<Seq<char>>, p: int, deps: Seq<Seq<char>>, kind: EdgeKind) -> Seq<BuildGraphView>
    decreases deps.len(),
{
    if deps.len() == 0 {
        Seq::empty()
    } else {
        let prev = dep_errors(names, p, deps.drop_last(), kind);
        if names.contains(deps.last()) {
            prev
        } else {
            prev.push(BuildGraphView::DependencyNotFound(names[p], deps.last(), kind))
        }
    }
}

/// The other end of an edge that process `p` gets from a dependency of kind
/// `kind`: the source of an `after` edge, the target of a `before` edge.
pub open spec fn dep_end(e: (usize, usize, EdgeKind), p: int, kind: EdgeKind) -> Option<int> {
    if e.2 != kind {
        None
    } else {
        match kind {
            EdgeKind::After => if e.1 == p { Some(e.0 as int) } else { None },
            EdgeKind::Before => if e.0 == p { Some(e.1 as int) } else { None },
        }
    }
}

/// The edges that a dependency list creates: the edge to or from process
/// `q` is there exactly when the list names `q`, every edge joins `p` to a
/// process that the list names, and there are no more edges than
/// dependencies.
pub proof fn lemma_dep_edges_contents(names: Seq<Seq<char>>, p: int, deps: Seq<Seq<char>>, kind: EdgeKind, q: int)
    requires
        distinct_seq(names),
        names.len() <= usize::MAX,
        0 <= p <= usize::MAX,
        0 <= q < names.len(),
    ensures
        dep_edges(names, p, deps, kind).contains(dep_edge(p, q, kind)) <==> deps.contains(names[q]),
        dep_edges(names, p, deps, kind).len() <= deps.len(),
        forall|k: int| 0 <= k < dep_edges(names, p, deps, kind).len() ==> {
            let o = dep_end(#[trigger] dep_edges(names, p, deps, kind)[k], p, kind);
            &&& o is Some
            &&& 0 <= o->0 < names.len()
            &&& deps.contains(names[o->0])
        },
    decreases deps.len(),
{
    if deps.len() > 0 {
        let d = deps.drop_last();
        lemma_dep_edges_contents(names, p, d, kind, q);
        let prev = dep_edges(names, p, d, kind);
        let cur = dep_edges(names, p, deps, kind);
        let x = deps.last();
        assert(deps[deps.len() - 1] == x);
        assert forall|y: Seq<char>| #[trigger] deps.contains(y) <==> (d.contains(y) || y == x) by {
            if deps.contains(y) {
                let k = choose|k: int| 0 <= k < deps.len() && deps[k] == y;
                if k < d.len() {
                    assert(d[k] == y);
                }
            }
            if d.contains(y) {
                let k = choose|k: int| 0 <= k < d.len() && d[k] == y;
                assert(deps[k] == y);
            }
        }
        if names.contains(x) {
            let f = first_index(names, x);
            let w = choose|i: int| 0 <= i < names.len() && names[i] == x;
            assert(0 <= f < names.len() && names[f] == x);
            assert(cur == prev.push(dep_edge(p, f, kind)));
            assert(dep_edge(p, f, kind) == dep_edge(p, q, kind) <==> f == q);
            assert(cur.contains(dep_edge(p, q, kind)) <==> (prev.contains(dep_edge(p, q, kind)) || f == q)) by {
                if cur.contains(dep_edge(p, q, kind)) {
                    let k = choose|k: int| 0 <= k < cur.len() && cur[k] == dep_edge(p, q, kind);
                    if k < prev.len() {
                        assert(prev[k] == cur[k]);
                    }
                }
                if prev.contains(dep_edge(p, q, kind)) {
                    let k = choose|k: int| 0 <= k < prev.len() && prev[k] == dep_edge(p, q, kind);
                    assert(cur[k] == prev[k]);
                }
                if f == q {
                    assert(cur[cur.len() - 1] == dep_edge(p, q, kind));
                }
            }
            assert(f == q <==> names[q] == x);
            assert forall|k: int| 0 <= k < cur.len() implies {
                let o = dep_end(#[trigger] cur[k], p, kind);
                &&& o is Some
                &&& 0 <= o->0 < names.len()
                &&& deps.contains(names[o->0])
            } by {
                if k < prev.len() {
                    assert(cur[k] == prev[k]);
                    assert(d.contains(names[dep_end(prev[k], p, kind)->0]));
                } else {
                    assert(cur[k] == dep_edge(p, f, kind));
                    assert(dep_end(cur[k], p, kind) == Some(f));
                }
            }
        } else {
            assert(cur == prev);
            assert(names[q] != x);
            assert forall|k: int| 0 <= k < cur.len() implies {
                let o = dep_end(#[trigger] cur[k], p, kind);
                &&& o is Some
                &&& 0 <= o->0 < names.len()
                &&& deps.contains(names[o->0])
            } by {
                assert(d.contains(names[dep_end(prev[k], p, kind)->0]));
            }
        }
    }
}

/// The errors of a dependency list are exactly the dependencies that name
/// no process, reported against process `p`: a name is reported exactly
/// when the list holds it and no process has it, and every error is one of
/// those.
pub proof fn lemma_dep_errors_contents(names: Seq<Seq<char>>, p: int, deps: Seq<Seq<char>>, kind: EdgeKind, x: Seq<char>)
    ensures
        dep_errors(names, p, deps, kind).contains(BuildGraphView::DependencyNotFound(names[p], x, kind)) <==> (
        deps.contains(x) && !names.contains(x)),
        forall|k: int| 0 <= k < dep_errors(names, p, deps, kind).len() ==> exists|y: Seq<char>|
            deps.contains(y) && !names.contains(y) && #[trigger] dep_errors(names, p, deps, kind)[k]
                == BuildGraphView::DependencyNotFound(names[p], y, kind),
    decreases deps.len(),
{
    if deps.len() > 0 {
        let d = deps.drop_last();
        lemma_dep_errors_contents(names, p, d, kind, x);
        let prev = dep_errors(names, p, d, kind);
        let cur = dep_errors(names, p, deps, kind);
        let last = deps.last();
        assert(deps[deps.len() - 1] == last);
        let e = BuildGraphView::DependencyNotFound(names[p], x, kind);
        assert forall|y: Seq<char>| #[trigger] deps.contains(y) <==> (d.contains(y) || y == last) by {
            if deps.contains(y) {
                let k = choose|k: int| 0 <= k < deps.len() && deps[k] == y;
                if k < d.len() {
                    assert(d[k] == y);
                }
            }
            if d.contains(y) {
                let k = choose|k: int| 0 <= k < d.len() && d[k] == y;
                assert(deps[k] == y);
            }
        }
        if !names.contains(last) {
            let el = BuildGraphView::DependencyNotFound(names[p], last, kind);
            assert(cur == prev.push(el));
            assert(cur.contains(e) <==> (prev.contains(e) || el == e)) by {
                if cur.contains(e) {
                    let k = choose|k: int| 0 <= k < cur.len() && cur[k] == e;
                    if k < prev.len() {
                        assert(prev[k] == cur[k]);
                    }
                }
                if prev.contains(e) {
                    let k = choose|k: int| 0 <= k < prev.len() && prev[k] == e;
                    assert(cur[k] == prev[k]);
                }
                if el == e {
                    assert(cur[cur.len() - 1] == e);
                }
            }
            assert forall|k: int| 0 <= k < cur.len() implies exists|y: Seq<char>|
                deps.contains(y) && !names.contains(y) && #[trigger] cur[k] == BuildGraphView::DependencyNotFound(names[p], y, kind) by {
                if k < prev.len() {
                    assert(cur[k] == prev[k]);
                    let y = choose|y: Seq<char>| d.contains(y) && !names.contains(y) && prev[k] == BuildGraphView::DependencyNotFound(names[p], y, kind);
                    assert(deps.contains(y));
                } else {
                    assert(deps.contains(last));
                }
            }
        } else {
            assert(cur == prev);
            assert forall|k: int| 0 <= k < cur.len() implies exists|y: Seq<char>|
                deps.contains(y) && !names.contains(y) && #[trigger] cur[k] == BuildGraphView::DependencyNotFound(names[p], y, kind) by {
                let y = choose|y: Seq<char>| d.contains(y) && !names.contains(y) && prev[k] == BuildGraphView::DependencyNotFound(names[p], y, kind);
                assert(deps.contains(y));
            }
        }
    }
}

/// The edges of the graph built from the first `k` processes: for each
/// process in order, the edges of its `after` list, then those of its
/// `before` list.
pub open spec fn build_edges(ps: Seq<Named<Process>>, k: int) -> Seq<(usize, usize, EdgeKind)>
    decreases k,
{
    if k <= 0 {
        Seq::empty()
    } else {
        let names = process_names(ps);
        build_edges(ps, k - 1) + dep_edges(names, k - 1, names_view(ps[k - 1].value.after@), EdgeKind::After)
            + dep_edges(names, k - 1, names_view(ps[k - 1].value.before@), EdgeKind::Before)
    }
}

/// The missing-dependency errors of the first `k` processes, in the same
/// order.
pub open spec fn build_dep_errors(ps: Seq<Named<Process>>, k: int) -> Seq<BuildGraphView>
    decreases k,
{
    if k <= 0 {
        Seq::empty()
    } else {
        let names = process_names(ps);
        build_dep_errors(ps, k - 1) + dep_errors(names, k - 1, names_view(ps[k - 1].value.after@), EdgeKind::After)
            + dep_errors(names, k - 1, names_view(ps[k - 1].value.before@), EdgeKind::Before)
    }
}

/// Copy a list of node weights out of a graph's spec into their views.
pub open spec fn named_views(ps: Seq<Named<Process>>) -> Seq<(Seq<char>, ProcessView)> {
    ps.map_values(|p: Named<Process>| p@)
}

/// Index of `name` among the process names, or `None`.
fn find_index(ps: &Vec<Named<Process>>, name: &Name) -> (r: Option<usize>)
    ensures
        r is Some <==> process_names(ps@).contains(name@),
        r matches Some(i) ==> i < ps@.len() && process_names(ps@)[i as int] == name@,
        r matches Some(i) ==> forall|j: int| 0 <= j < i ==> process_names(ps@)[j] != name@,
{
    for i in 0..ps.len()
        invariant
            forall|j: int| 0 <= j < i ==> process_names(ps@)[j] != name@,
    {
        if ps[i].name.same(name) {
            assert(process_names(ps@)[i as int] == name@);
            return Some(i);
        }
    }
    proof {
        if process_names(ps@).contains(name@) {
            let k = choose|k: int| 0 <= k < process_names(ps@).len() && process_names(ps@)[k] == name@;
            assert(process_names(ps@)[k] == name@);
        }
    }
    None
}

/// Add the edges for one dependency list of the process at index `p`,
/// recording an error for each name that is not a process.
fn add_dep_edges(
    graph: &mut ProcessGraph,
    errors: &mut Vec<BuildGraph>,
    ps: &Vec<Named<Process>>,
    p: usize,
    deps: &Vec<Name>,
    kind: EdgeKind,
)
    requires
        p < ps@.len(),
        named_views(process_nodes(*old(graph))) == named_views(ps@),
        edges_in_range(process_edges(*old(graph)), ps@.len() as int),
        process_edges(*old(graph)).len() + deps@.len() <= index_limit(),
    ensures
        process_nodes(*final(graph)) == process_nodes(*old(graph)),
        process_edges(*final(graph)) == process_edges(*old(graph)) + dep_edges(process_names(ps@), p as int, names_view(deps@), kind),
        build_errors_view(final(errors)@) == build_errors_view(old(errors)@) + dep_errors(process_names(ps@), p as int, names_view(deps@), kind),
        edges_in_range(process_edges(*final(graph)), ps@.len() as int),
{
    let ghost names = process_names(ps@);
    let ghost e0 = process_edges(*graph);
    let ghost r0 = build_errors_view(errors@);
    proof {
        assert(process_nodes(*graph).len() == named_views(process_nodes(*graph)).len());
    }
    for k in 0..deps.len()
        invariant
            p < ps@.len(),
            names == process_names(ps@),
            named_views(process_nodes(*graph)) == named_views(ps@),
            process_nodes(*graph).len() == ps@.len(),
            process_nodes(*graph) == process_nodes(*old(graph)),
            process_edges(*graph) == e0 + dep_edges(names, p as int, names_view(deps@).take(k as int), kind),
            build_errors_view(errors@) == r0 + dep_errors(names, p as int, names_view(deps@).take(k as int), kind),
            edges_in_range(process_edges(*graph), ps@.len() as int),
            e0.len() + deps@.len() <= index_limit(),
            e0 == process_edges(*old(graph)),
            r0 == build_errors_view(old(errors)@),
    {
        let ghost ds = names_view(deps@).take(k + 1);
        assert(ds.drop_last() =~= names_view(deps@).take(k as int));
        assert(ds.last() == deps@[k as int]@);
        proof {
            lemma_dep_edges_len(names, p as int, names_view(deps@).take(k as int), kind);
        }
        match find_index(ps, &deps[k]) {
            Some(d) => {
                match kind {
                    EdgeKind::After => pg_add_edge(graph, d, p, kind),
                    EdgeKind::Before => pg_add_edge(graph, p, d, kind),
                }
                proof {
                    lemma_index_of_first(names, d as int);
                }
                assert(process_edges(*graph) =~= e0 + dep_edges(names, p as int, ds, kind));
            },
            None => {
                assert(names[p as int] == ps@[p as int].name@);
                let e = BuildGraph::DependencyNotFound {
                    process: ps[p].name.clone(),
                    dependency: deps[k].clone(),
                    edge_kind: kind,
                };
                assert(e@ == BuildGraphView::DependencyNotFound(names[p as int], ds.last(), kind));
                let ghost before = errors@;
                errors.push(e);
                assert(build_errors_view(errors@) =~= build_errors_view(before).push(e@));
                assert(build_errors_view(errors@) =~= r0 + dep_errors(names, p as int, ds, kind));
            },
        }
    }
    assert(names_view(deps@).take(deps@.len() as int) =~= names_view(deps@));
}

proof fn lemma_dep_edges_len(names: Seq<Seq<char>>, p: int, deps: Seq<Seq<char>>, kind: EdgeKind)
    ensures
        dep_edges(names, p, deps, kind).len() <= deps.len(),
    decreases deps.len(),
{
    if deps.len() > 0 {
        lemma_dep_edges_len(names, p, deps.drop_last(), kind);
    }
}

proof fn lemma_index_of_first(names: Seq<Seq<char>>, d: int)
    requires
        0 <= d < names.len(),
        forall|j: int| 0 <= j < d ==> names[j] != names[d],
    ensures
        first_index(names, names[d]) == d,
{
    let x = names[d];
    let i = first_index(names, x);
    assert(0 <= d < names.len() && names[d] == x && forall|j: int| 0 <= j < d ==> names[j] != x);
    if i < d {
        assert(names[i] != x);
    }
    if i > d {
        assert(names[d] != x);
    }
}

/// Joining a walk that ends where another begins gives a walk.
pub proof fn lemma_path_concat<E>(edges: Seq<(usize, usize, E)>, p: Seq<int>, q: Seq<int>)
    requires
        is_path(edges, p),
        is_path(edges, q),
        p.last() == q[0],
    ensures
        is_path(edges, p + q.drop_first()),
        (p + q.drop_first())[0] == p[0],
        (p + q.drop_first()).last() == q.last(),
        (p + q.drop_first()).len() == p.len() + q.len() - 1,
{
    let r = p + q.drop_first();
    assert forall|i: int| #![trigger r[i]] 0 <= i < r.len() - 1 implies has_edge(edges, r[i], r[i + 1]) by {
        if i < p.len() - 1 {
            assert(r[i] == p[i] && r[i + 1] == p[i + 1]);
            assert(has_edge(edges, p[i], p[i + 1]));
        } else {
            let k = i - p.len() + 1;
            assert(r[i] == q[k]);
            assert(r[i + 1] == q[k + 1]);
            assert(has_edge(edges, q[k], q[k + 1]));
        }
    }
    if q.len() == 1 {
        assert(r =~= p);
    }
}

/// Reachability is transitive.
pub proof fn lemma_reachable_trans<E>(edges: Seq<(usize, usize, E)>, a: int, b: int, c: int)
    requires
        reachable(edges, a, b),
        reachable(edges, b, c),
    ensures
        reachable(edges, a, c),
{
    let p = choose|p: Seq<int>| #[trigger] is_path(edges, p) && p[0] == a && p.last() == b;
    let q = choose|q: Seq<int>| #[trigger] is_path(edges, q) && q[0] == b && q.last() == c;
    lemma_path_concat(edges, p, q);
    assert(is_path(edges, p + q.drop_first()));
}

/// An edge is a walk of one step.
pub proof fn lemma_edge_reachable<E>(edges: Seq<(usize, usize, E)>, a: int, b: int)
    requires
        has_edge(edges, a, b),
    ensures
        reachable(edges, a, b),
        is_path(edges, seq![a, b]),
{
    let p = seq![a, b];
    assert forall|i: int| #![trigger p[i]] 0 <= i < p.len() - 1 implies has_edge(edges, p[i], p[i + 1]) by {
        assert(i == 0);
    }
    assert(is_path(edges, p));
}

/// Every node reaches itself.
pub proof fn lemma_reachable_refl<E>(edges: Seq<(usize, usize, E)>, a: int)
    ensures
        reachable(edges, a, a),
{
    let p = seq![a];
    assert(is_path(edges, p));
}

/// A node on a cycle makes its strongly connected component a cyclic one.
proof fn lemma_cycle_in_component<E>(edges: Seq<(usize, usize, E)>, n: int, comp: Seq<usize>, v: int)
    requires
        edges_in_range(edges, n),
        is_scc(edges, n, comp),
        comp.contains(v as usize),
        0 <= v < n,
        on_cycle(edges, v),
    ensures
        is_cyclic_component(edges, comp),
{
    let p = choose|p: Seq<int>| #[trigger] is_path(edges, p) && p.len() >= 2 && p[0] == v && p.last() == v;
    let u = p[1];
    assert(has_edge(edges, p[0], p[1]));
    let iv = choose|i: int| 0 <= i < comp.len() && comp[i] == v as usize;
    if u == v {
        assert(has_edge(edges, comp[iv] as int, comp[iv] as int));
    } else {
        lemma_edge_reachable(edges, v, u);
        let q = p.drop_first();
        assert(is_path(edges, q)) by {
            assert forall|i: int| #![trigger q[i]] 0 <= i < q.len() - 1 implies has_edge(edges, q[i], q[i + 1]) by {
                assert(q[i] == p[i + 1] && q[i + 1] == p[i + 2]);
                assert(has_edge(edges, p[i + 1], p[i + 2]));
            }
        }
        assert(reachable(edges, u, v));
        let c0 = comp[0] as int;
        assert(reachable(edges, c0, comp[iv] as int));
        assert(reachable(edges, comp[iv] as int, c0));
        lemma_reachable_trans(edges, c0, v, u);
        lemma_reachable_trans(edges, u, v, c0);
        assert(0 <= u < n) by {
            let e = choose|e: int| 0 <= e < edges.len() && (#[trigger] edges[e]).0 == v && edges[e].1 == u;
            assert(edges[e].1 < n);
        }
        assert(comp.contains(u as usize));
        let iu = choose|i: int| 0 <= i < comp.len() && comp[i] == u as usize;
        assert(iu != iv);
        assert(comp.len() > 1);
    }
}

/// A cyclic component has a node on a cycle.
proof fn lemma_component_has_cycle<E>(edges: Seq<(usize, usize, E)>, n: int, comp: Seq<usize>) -> (v: int)
    requires
        is_scc(edges, n, comp),
        is_cyclic_component(edges, comp),
    ensures
        comp.contains(v as usize),
        0 <= v < n,
        on_cycle(edges, v),
{
    if comp.len() > 1 {
        let a = comp[0] as int;
        let b = comp[1] as int;
        assert(reachable(edges, a, b));
        assert(reachable(edges, b, a));
        let p = choose|p: Seq<int>| #[trigger] is_path(edges, p) && p[0] == a && p.last() == b;
        let q = choose|q: Seq<int>| #[trigger] is_path(edges, q) && q[0] == b && q.last() == a;
        lemma_path_concat(edges, p, q);
        assert(p.len() >= 2) by {
            if p.len() == 1 {
                assert(p[0] == p.last());
            }
        }
        assert(is_path(edges, p + q.drop_first()));
        assert(comp[0] < n);
        assert(comp.contains(comp[0]));
        a
    } else {
        let i = choose|i: int| 0 <= i < comp.len() && #[trigger] has_edge(edges, comp[i] as int, comp[i] as int);
        let v = comp[i] as int;
        lemma_edge_reachable(edges, v, v);
        assert(is_path(edges, seq![v, v]));
        assert(comp.contains(comp[i]));
        v
    }
}

/// The names of the nodes of a component.
pub open spec fn component_names(names: Seq<Seq<char>>, comp: Seq<usize>) -> Seq<Seq<char>> {
    comp.map_values(|i: usize| names[i as int])
}

/// The cycle reports for the cyclic components among `sccs`, in order.
pub open spec fn cycle_reports<E>(edges: Seq<(usize, usize, E)>, names: Seq<Seq<char>>, sccs: Seq<Seq<usize>>) -> Seq<BuildGraphView>
    decreases sccs.len(),
{
    if sccs.len() == 0 {
        Seq::empty()
    } else {
        let prev = cycle_reports(edges, names, sccs.drop_last());
        if is_cyclic_component(edges, sccs.last()) {
            prev.push(BuildGraphView::DependencyCycle(component_names(names, sccs.last())))
        } else {
            prev
        }
    }
}

/// What a list of cycle reports says of a graph with edges `edges`, `n`
/// nodes and node names `names`: each report names the nodes of a cyclic
/// strongly connected component, every node on a cycle is named by a report,
/// there is no report exactly when the graph has no cycle, and the reports
/// name distinct cyclic components, one each.
pub open spec fn reports_cycles<E>(edges: Seq<(usize, usize, E)>, n: int, names: Seq<Seq<char>>, reports: Seq<BuildGraphView>) -> bool {
    &&& forall|k: int| 0 <= k < reports.len() ==> exists|comp: Seq<usize>|
        is_scc(edges, n, comp) && is_cyclic_component(edges, comp)
            && #[trigger] reports[k] == BuildGraphView::DependencyCycle(component_names(names, comp))
    &&& forall|v: int| 0 <= v < n && #[trigger] on_cycle(edges, v) ==> exists|k: int|
        0 <= k < reports.len() && (#[trigger] reports[k] matches BuildGraphView::DependencyCycle(ns) && ns.contains(names[v]))
    &&& (reports.len() == 0 <==> !is_cyclic(edges, n))
    &&& exists|comps: Seq<Seq<usize>>| #[trigger] reports_components(names, reports, comps)
        && forall|k: int| 0 <= k < comps.len() ==> is_scc(edges, n, #[trigger] comps[k]) && is_cyclic_component(edges, comps[k])
}

/// `comps` are the components that `reports` name, one per report, in order:
/// none is empty and no node is in two of them, so no two reports name the
/// same component.
pub open spec fn reports_components(names: Seq<Seq<char>>, reports: Seq<BuildGraphView>, comps: Seq<Seq<usize>>) -> bool {
    &&& comps.len() == reports.len()
    &&& forall|k: int| 0 <= k < comps.len() ==> (#[trigger] comps[k]).len() > 0
    &&& forall|k: int| 0 <= k < reports.len() ==> #[trigger] reports[k] == BuildGraphView::DependencyCycle(component_names(names, comps[k]))
    &&& disjoint_components(comps)
}

/// No node is in two of `comps`.
pub open spec fn disjoint_components(comps: Seq<Seq<usize>>) -> bool {
    forall|i: int, j: int, v: usize|
        0 <= i < j < comps.len() && #[trigger] comps[i].contains(v) ==> !#[trigger] comps[j].contains(v)
}

/// The cyclic components among `sccs`, in order.
pub open spec fn cyclic_components<E>(edges: Seq<(usize, usize, E)>, sccs: Seq<Seq<usize>>) -> Seq<Seq<usize>>
    decreases sccs.len(),
{
    if sccs.len() == 0 {
        Seq::empty()
    } else {
        let prev = cyclic_components(edges, sccs.drop_last());
        if is_cyclic_component(edges, sccs.last()) {
            prev.push(sccs.last())
        } else {
            prev
        }
    }
}

proof fn lemma_cyclic_components<E>(edges: Seq<(usize, usize, E)>, names: Seq<Seq<char>>, sccs: Seq<Seq<usize>>)
    requires
        disjoint_components(sccs),
        forall|i: int| 0 <= i < sccs.len() ==> (#[trigger] sccs[i]).len() > 0,
    ensures
        reports_components(names, cycle_reports(edges, names, sccs), cyclic_components(edges, sccs)),
        forall|k: int| 0 <= k < cyclic_components(edges, sccs).len() ==> exists|i: int|
            0 <= i < sccs.len() && #[trigger] cyclic_components(edges, sccs)[k] == sccs[i],
        forall|k: int| 0 <= k < cyclic_components(edges, sccs).len() ==> is_cyclic_component(edges, #[trigger] cyclic_components(edges, sccs)[k]),
    decreases sccs.len(),
{
    if sccs.len() > 0 {
        let prev = sccs.drop_last();
        assert forall|i: int, j: int, v: usize| 0 <= i < j < prev.len() && #[trigger] prev[i].contains(v) implies !#[trigger] prev[j].contains(v) by {
            assert(prev[i] == sccs[i] && prev[j] == sccs[j]);
            assert(sccs[i].contains(v));
        }
        assert forall|i: int| 0 <= i < prev.len() implies (#[trigger] prev[i]).len() > 0 by {
            assert(prev[i] == sccs[i]);
        }
        lemma_cyclic_components(edges, names, prev);
        let cp = cyclic_components(edges, prev);
        let c = cyclic_components(edges, sccs);
        let r = cycle_reports(edges, names, sccs);
        let rp = cycle_reports(edges, names, prev);
        let last = sccs.last();
        assert(last == sccs[sccs.len() - 1]);
        if is_cyclic_component(edges, last) {
            assert forall|k: int| 0 <= k < c.len() implies exists|i: int| 0 <= i < sccs.len() && #[trigger] c[k] == sccs[i] by {
                if k < cp.len() {
                    assert(c[k] == cp[k]);
                    let i = choose|i: int| 0 <= i < prev.len() && #[trigger] cp[k] == prev[i];
                    assert(c[k] == sccs[i]);
                } else {
                    assert(c[k] == sccs[sccs.len() - 1]);
                }
            }
            assert forall|k: int| 0 <= k < c.len() implies (#[trigger] c[k]).len() > 0 by {
                if k < cp.len() {
                    assert(c[k] == cp[k]);
                }
            }
            assert forall|k: int| 0 <= k < r.len() implies #[trigger] r[k] == BuildGraphView::DependencyCycle(component_names(names, c[k])) by {
                if k < rp.len() {
                    assert(r[k] == rp[k] && c[k] == cp[k]);
                }
            }
            assert forall|i: int, j: int, v: usize| 0 <= i < j < c.len() && #[trigger] c[i].contains(v) implies !#[trigger] c[j].contains(v) by {
                if j < cp.len() {
                    assert(c[i] == cp[i] && c[j] == cp[j]);
                    assert(cp[i].contains(v));
                } else {
                    assert(c[i] == cp[i]);
                    let i2 = choose|i2: int| 0 <= i2 < prev.len() && #[trigger] cp[i] == prev[i2];
                    assert(cp[i] == sccs[i2]);
                    assert(sccs[i2].contains(v));
                    assert(c[j] == sccs[sccs.len() - 1]);
                }
            }
        } else {
            assert(c == cp);
            assert(r == rp);
            assert forall|k: int| 0 <= k < c.len() implies exists|i: int| 0 <= i < sccs.len() && #[trigger] c[k] == sccs[i] by {
                let i = choose|i: int| 0 <= i < prev.len() && #[trigger] cp[k] == prev[i];
                assert(c[k] == sccs[i]);
            }
        }
    }
}

proof fn lemma_cycle_reports_sound<E>(edges: Seq<(usize, usize, E)>, n: int, names: Seq<Seq<char>>, sccs: Seq<Seq<usize>>)
    requires
        forall|i: int| 0 <= i < sccs.len() ==> is_scc(edges, n, #[trigger] sccs[i]),
    ensures
        forall|k: int| 0 <= k < cycle_reports(edges, names, sccs).len() ==> exists|comp: Seq<usize>|
            is_scc(edges, n, comp) && is_cyclic_component(edges, comp)
                && #[trigger] cycle_reports(edges, names, sccs)[k] == BuildGraphView::DependencyCycle(component_names(names, comp)),
    decreases sccs.len(),
{
    if sccs.len() > 0 {
        let prev = sccs.drop_last();
        assert forall|i: int| 0 <= i < prev.len() implies is_scc(edges, n, #[trigger] prev[i]) by {
            assert(prev[i] == sccs[i]);
        }
        lemma_cycle_reports_sound(edges, n, names, prev);
        let r = cycle_reports(edges, names, sccs);
        let rp = cycle_reports(edges, names, prev);
        assert forall|k: int| 0 <= k < r.len() implies exists|comp: Seq<usize>|
            is_scc(edges, n, comp) && is_cyclic_component(edges, comp)
                && #[trigger] r[k] == BuildGraphView::DependencyCycle(component_names(names, comp)) by {
            if k < rp.len() {
                assert(r[k] == rp[k]);
            } else {
                let c = sccs.last();
                assert(is_scc(edges, n, sccs[sccs.len() - 1]));
                assert(r[k] == BuildGraphView::DependencyCycle(component_names(names, c)));
            }
        }
    }
}

proof fn lemma_cycle_reports_cover<E>(
    edges: Seq<(usize, usize, E)>,
    n: int,
    names: Seq<Seq<char>>,
    sccs: Seq<Seq<usize>>,
    j: int,
    v: int,
)
    requires
        edges_in_range(edges, n),
        0 <= j < sccs.len(),
        is_scc(edges, n, sccs[j]),
        sccs[j].contains(v as usize),
        0 <= v < n,
        on_cycle(edges, v),
    ensures
        exists|k: int|
            0 <= k < cycle_reports(edges, names, sccs).len() && (#[trigger] cycle_reports(edges, names, sccs)[k] matches BuildGraphView::DependencyCycle(ns) && ns.contains(names[v])),
    decreases sccs.len(),
{
    let prev = sccs.drop_last();
    let r = cycle_reports(edges, names, sccs);
    let rp = cycle_reports(edges, names, prev);
    if j < sccs.len() - 1 {
        assert(prev[j] == sccs[j]);
        lemma_cycle_reports_cover(edges, n, names, prev, j, v);
        let k = choose|k: int|
            0 <= k < rp.len() && (#[trigger] rp[k] matches BuildGraphView::DependencyCycle(ns) && ns.contains(names[v]));
        assert(r[k] == rp[k]);
    } else {
        lemma_cycle_in_component(edges, n, sccs[j], v);
        let c = sccs.last();
        let k = rp.len() as int;
        let ns = component_names(names, c);
        let iv = choose|i: int| 0 <= i < c.len() && c[i] == v as usize;
        assert(ns[iv] == names[v]);
        assert(r[k] == BuildGraphView::DependencyCycle(ns));
    }
}

/// Find cycles in the graph: one report per strongly connected component
/// that has more than one node or a node with an edge to itself.
pub fn find_cycles(graph: &ProcessGraph, errors: &mut Vec<BuildGraph>)
    requires
        graph_wf(*graph),
    ensures
        build_errors_view(final(errors)@).take(old(errors)@.len() as int) == build_errors_view(old(errors)@),
        final(errors)@.len() >= old(errors)@.len(),
        reports_cycles(
            process_edges(*graph),
            process_nodes(*graph).len() as int,
            process_names(process_nodes(*graph)),
            build_errors_view(final(errors)@).skip(old(errors)@.len() as int),
        ),
{
    let ghost edges = process_edges(*graph);
    let ghost n = process_nodes(*graph).len() as int;
    let ghost names = process_names(process_nodes(*graph));
    let ghost e0 = build_errors_view(errors@);
    let sccs = pg_tarjan_scc(graph);
    let ghost sv = sccs@.map_values(|c: Vec<usize>| c@);
    for i in 0..sccs.len()
        invariant
            edges == process_edges(*graph),
            n == process_nodes(*graph).len(),
            names == process_names(process_nodes(*graph)),
            graph_wf(*graph),
            sv == sccs@.map_values(|c: Vec<usize>| c@),
            forall|k: int| 0 <= k < sccs@.len() ==> is_scc(edges, n, #[trigger] sccs@[k]@),
            build_errors_view(errors@) == e0 + cycle_reports(edges, names, sv.take(i as int)),
    {
        let scc = &sccs[i];
        assert(is_scc(edges, n, scc@));
        let mut self_loop = false;
        for j in 0..scc.len()
            invariant
                edges == process_edges(*graph),
                n == process_nodes(*graph).len(),
                is_scc(edges, n, scc@),
                self_loop == exists|m: int| 0 <= m < j && #[trigger] has_edge(edges, scc@[m] as int, scc@[m] as int),
        {
            let l = pg_has_self_loop(graph, scc[j]);
            self_loop = l || self_loop;
        }
        let ghost st = sv.take(i + 1);
        assert(st.drop_last() =~= sv.take(i as int));
        assert(st.last() == scc@);
        if scc.len() > 1 || self_loop {
            let mut ns: Vec<Name> = Vec::new();
            for j in 0..scc.len()
                invariant
                    n == process_nodes(*graph).len(),
                    names == process_names(process_nodes(*graph)),
                    forall|m: int| 0 <= m < scc@.len() ==> #[trigger] scc@[m] < n,
                    names_view(ns@) == component_names(names, scc@.take(j as int)),
            {
                let w = pg_node(graph, scc[j]).name.clone();
                assert(w@ == names[scc@[j as int] as int]);
                let ghost before = ns@;
                ns.push(w);
                assert(names_view(ns@) =~= names_view(before).push(w@));
                assert(names_view(ns@) =~= component_names(names, scc@.take(j + 1)));
            }
            assert(scc@.take(scc@.len() as int) =~= scc@);
            let ghost before = errors@;
            let e = BuildGraph::DependencyCycle(ns);
            errors.push(e);
            assert(build_errors_view(errors@) =~= build_errors_view(before).push(e@));
            assert(build_errors_view(errors@) =~= e0 + cycle_reports(edges, names, st));
        } else {
            assert(!is_cyclic_component(edges, scc@));
        }
    }
    assert(sv.take(sccs@.len() as int) =~= sv);
    let ghost reports = cycle_reports(edges, names, sv);
    assert(build_errors_view(errors@).skip(e0.len() as int) =~= reports);
    assert(build_errors_view(errors@).take(e0.len() as int) =~= e0);
    proof {
        assert forall|i: int| 0 <= i < sv.len() implies is_scc(edges, n, #[trigger] sv[i]) by {
            assert(sv[i] == sccs@[i]@);
        }
        lemma_cycle_reports_sound(edges, n, names, sv);
        assert forall|i: int, j: int, v: usize| 0 <= i < j < sv.len() && #[trigger] sv[i].contains(v) implies !#[trigger] sv[j].contains(v) by {
            assert(sv[i] == sccs@[i]@ && sv[j] == sccs@[j]@);
            assert(sccs@[i]@.contains(v));
        }
        assert forall|i: int| 0 <= i < sv.len() implies (#[trigger] sv[i]).len() > 0 by {
            assert(sv[i] == sccs@[i]@);
        }
        lemma_cyclic_components(edges, names, sv);
        assert(reports_components(names, reports, cyclic_components(edges, sv)));
        assert forall|k: int| 0 <= k < cyclic_components(edges, sv).len() implies is_scc(edges, n, #[trigger] cyclic_components(edges, sv)[k])
            && is_cyclic_component(edges, cyclic_components(edges, sv)[k]) by {
            let i = choose|i: int| 0 <= i < sv.len() && #[trigger] cyclic_components(edges, sv)[k] == sv[i];
        }
        assert forall|v: int| 0 <= v < n && #[trigger] on_cycle(edges, v) implies exists|k: int|
            0 <= k < reports.len() && (#[trigger] reports[k] matches BuildGraphView::DependencyCycle(ns) && ns.contains(names[v])) by {
            assert(in_some_component(sccs@, v as usize));
            let j = choose|j: int| 0 <= j < sccs@.len() && #[trigger] sccs@[j]@.contains(v as usize);
            assert(sv[j] == sccs@[j]@);
            lemma_cycle_reports_cover(edges, n, names, sv, j, v);
        }
        if reports.len() == 0 {
            if is_cyclic(edges, n) {
                let v = choose|v: int| 0 <= v < n && #[trigger] on_cycle(edges, v);
                assert(on_cycle(edges, v));
            }
        } else {
            let comp = choose|comp: Seq<usize>|
                is_scc(edges, n, comp) && is_cyclic_component(edges, comp)
                    && #[trigger] reports[0] == BuildGraphView::DependencyCycle(component_names(names, comp));
            let v = lemma_component_has_cycle(edges, n, comp);
            assert(on_cycle(edges, v));
        }
    }
}

/// The number of names in the `after` and `before` lists of the first `k`
/// processes.
pub open spec fn total_deps(ps: Seq<Named<Process>>, k: int) -> int
    decreases k,
{
    if k <= 0 {
        0
    } else {
        total_deps(ps, k - 1) + ps[k - 1].value.after@.len() + ps[k - 1].value.before@.len()
    }
}

proof fn lemma_total_deps_mono(ps: Seq<Named<Process>>, j: int, k: int)
    requires
        0 <= j <= k,
    ensures
        total_deps(ps, j) <= total_deps(ps, k),
    decreases k - j,
{
    if j < k {
        lemma_total_deps_mono(ps, j, k - 1);
    }
}

/// Build a graph that can be run: one node per process, in order, and one
/// edge per existing dependency, with an error for each dependency that names
/// no process, followed by one error per dependency cycle.
pub fn build(config: &Config) -> (r: (ProcessGraph, Vec<BuildGraph>))
    requires
        config_wf(config.processes@),
        config.processes@.len() < index_limit(),
        total_deps(config.processes@, config.processes@.len() as int) <= index_limit(),
    ensures
        graph_wf(r.0),
        named_views(process_nodes(r.0)) == named_views(config.processes@),
        process_names(process_nodes(r.0)) == process_names(config.processes@),
        process_edges(r.0) == build_edges(config.processes@, config.processes@.len() as int),
        ({
            let k = build_dep_errors(config.processes@, config.processes@.len() as int).len() as int;
            &&& r.1@.len() >= k
            &&& build_errors_view(r.1@).take(k) == build_dep_errors(config.processes@, config.processes@.len() as int)
            &&& reports_cycles(
                process_edges(r.0),
                config.processes@.len() as int,
                process_names(config.processes@),
                build_errors_view(r.1@).skip(k),
            )
        }),
{
    let ps = &config.processes;
    let ghost pv = ps@;
    let mut errors: Vec<BuildGraph> = Vec::new();
    let mut graph = pg_new();
    for i in 0..ps.len()
        invariant
            pv == ps@,
            ps@.len() < index_limit(),
            named_views(process_nodes(graph)) == named_views(ps@.take(i as int)),
            process_nodes(graph).len() == i,
            process_edges(graph) == Seq::<(usize, usize, EdgeKind)>::empty(),
    {
        let w = clone_named_process(&ps[i]);
        let ghost before = process_nodes(graph);
        pg_add_node(&mut graph, w);
        assert(named_views(process_nodes(graph)) =~= named_views(before).push(w@));
        assert(named_views(ps@.take(i + 1)) =~= named_views(ps@.take(i as int)).push(ps@[i as int]@));
    }
    assert(ps@.take(ps@.len() as int) =~= ps@);
    for i in 0..ps.len()
        invariant
            pv == ps@,
            named_views(process_nodes(graph)) == named_views(ps@),
            process_nodes(graph).len() == ps@.len(),
            ps@.len() < index_limit(),
            total_deps(ps@, ps@.len() as int) <= index_limit(),
            process_edges(graph) == build_edges(ps@, i as int),
            process_edges(graph).len() <= total_deps(ps@, i as int),
            build_errors_view(errors@) == build_dep_errors(ps@, i as int),
            edges_in_range(process_edges(graph), ps@.len() as int),
    {
        proof {
            lemma_total_deps_mono(ps@, i + 1, ps@.len() as int);
            lemma_dep_edges_len(process_names(ps@), i as int, names_view(ps@[i as int].value.after@), EdgeKind::After);
            lemma_dep_edges_len(process_names(ps@), i as int, names_view(ps@[i as int].value.before@), EdgeKind::Before);
        }
        add_dep_edges(&mut graph, &mut errors, ps, i, &ps[i].value.after, EdgeKind::After);
        add_dep_edges(&mut graph, &mut errors, ps, i, &ps[i].value.before, EdgeKind::Before);
        assert(process_edges(graph) =~= build_edges(ps@, i + 1));
        assert(build_errors_view(errors@) =~= build_dep_errors(ps@, i + 1));
    }
    proof {
        assert(process_names(process_nodes(graph)) =~= process_names(ps@)) by {
            assert forall|k: int| 0 <= k < ps@.len() implies process_names(process_nodes(graph))[k] == process_names(ps@)[k] by {
                assert(named_views(process_nodes(graph))[k] == named_views(ps@)[k]);
            }
        }
    }
    let ghost k = errors@.len() as int;
    find_cycles(&graph, &mut errors);
    (graph, errors)
}

/// The weight of node `i`.
pub fn node(graph: &ProcessGraph, i: usize) -> (r: &Named<Process>)
    requires
        i < process_nodes(*graph).len(),
    ensures
        *r == process_nodes(*graph)[i as int],
{
    pg_node(graph, i)
}

/// The number of nodes.
pub fn node_count(graph: &ProcessGraph) -> (r: usize)
    ensures
        r == process_nodes(*graph).len(),
{
    pg_node_count(graph)
}

/// The nodes without edges in direction `dir`, in increasing order.
pub fn externals(graph: &ProcessGraph, dir: Direction) -> (r: Vec<usize>)
    ensures
        forall|i: int, j: int| 0 <= i < j < r@.len() ==> #[trigger] r@[i] < #[trigger] r@[j],
        forall|v: usize| #[trigger] r@.contains(v) <==> (v < process_nodes(*graph).len() && dir_neighbors(process_edges(*graph), v, dir).len() == 0),
{
    pg_externals(graph, dir)
}

/// Node `i` is needed to run the processes named in `req`: one of them can
/// be reached from it (it is one of them or one of their dependencies,
/// directly or transitively).
pub open spec fn needed(g: ProcessGraph, req: Seq<Seq<char>>, i: int) -> bool {
    exists|s: int|
        0 <= s < process_nodes(g).len() && req.contains(#[trigger] process_names(process_nodes(g))[s])
            && reachable(process_edges(g), i, s)
}

/// Which nodes are needed to run the processes named in `req`.
pub open spec fn needed_mask(g: ProcessGraph, req: Seq<Seq<char>>) -> Seq<bool> {
    Seq::new(process_nodes(g).len(), |i: int| needed(g, req, i))
}

/// The requested names that name no node of `g`, in order.
pub open spec fn missing_names(g: ProcessGraph, req: Seq<Seq<char>>) -> Seq<Seq<char>>
    decreases req.len(),
{
    if req.len() == 0 {
        Seq::empty()
    } else {
        let prev = missing_names(g, req.drop_last());
        if process_names(process_nodes(g)).contains(req.last()) {
            prev
        } else {
            prev.push(req.last())
        }
    }
}

/// The names that a list of not-found errors is about.
pub open spec fn not_found_names(es: Seq<ProcessNotFound>) -> Seq<Seq<char>> {
    es.map_values(|e: ProcessNotFound| e.0@)
}

proof fn lemma_missing_names_empty(g: ProcessGraph, req: Seq<Seq<char>>)
    ensures
        missing_names(g, req).len() == 0 <==> forall|i: int| 0 <= i < req.len() ==> process_names(process_nodes(g)).contains(#[trigger] req[i]),
    decreases req.len(),
{
    if req.len() > 0 {
        lemma_missing_names_empty(g, req.drop_last());
        let p = req.drop_last();
        if missing_names(g, req).len() == 0 {
            assert forall|i: int| 0 <= i < req.len() implies process_names(process_nodes(g)).contains(#[trigger] req[i]) by {
                if i < req.len() - 1 {
                    assert(p[i] == req[i]);
                }
            }
        } else if forall|i: int| 0 <= i < req.len() ==> process_names(process_nodes(g)).contains(#[trigger] req[i]) {
            assert forall|i: int| 0 <= i < p.len() implies process_names(process_nodes(g)).contains(#[trigger] p[i]) by {
                assert(p[i] == req[i]);
            }
            assert(process_names(process_nodes(g)).contains(req[req.len() - 1]));
        }
    }
}

/// A name is missing exactly when it is requested and names no node.
pub proof fn lemma_missing_names_contains(g: ProcessGraph, req: Seq<Seq<char>>, x: Seq<char>)
    ensures
        missing_names(g, req).contains(x) <==> (req.contains(x) && !process_names(process_nodes(g)).contains(x)),
    decreases req.len(),
{
    if req.len() > 0 {
        let p = req.drop_last();
        lemma_missing_names_contains(g, p, x);
        assert(req =~= p.push(req.last()));
        assert(req.contains(x) == (p.contains(x) || x == req.last())) by {
            if req.contains(x) {
                let k = choose|k: int| 0 <= k < req.len() && req[k] == x;
                if k < p.len() {
                    assert(p[k] == x);
                }
            }
            if p.contains(x) {
                let k = choose|k: int| 0 <= k < p.len() && p[k] == x;
                assert(req[k] == x);
            }
            if x == req.last() {
                assert(req[req.len() - 1] == x);
            }
        }
        let prev = missing_names(g, p);
        let m = missing_names(g, req);
        if !process_names(process_nodes(g)).contains(req.last()) {
            assert(m == prev.push(req.last()));
            assert(m.contains(x) == (prev.contains(x) || x == req.last())) by {
                if m.contains(x) {
                    let k = choose|k: int| 0 <= k < m.len() && m[k] == x;
                    if k < prev.len() {
                        assert(prev[k] == x);
                    }
                }
                if prev.contains(x) {
                    let k = choose|k: int| 0 <= k < prev.len() && prev[k] == x;
                    assert(m[k] == x);
                }
                if x == req.last() {
                    assert(m[m.len() - 1] == x);
                }
            }
        }
    }
}

/// Get a subgraph of the given processes and their dependencies. The
/// requested names are taken as a set: their order and repeats do not matter.
///
/// Fails with the requested names that are not processes of the graph, each
/// once, in name order.
pub fn subgraph(graph: &ProcessGraph, processes: &Vec<Name>) -> (r: Result<ProcessGraph, Vec<ProcessNotFound>>)
    requires
        graph_wf(*graph),
    ensures
        r is Ok <==> missing_names(*graph, names_view(processes@)).len() == 0,
        r matches Err(es) ==> {
            &&& names_sorted(not_found_names(es@))
            &&& distinct_seq(not_found_names(es@))
            &&& forall|x: Seq<char>| #[trigger] not_found_names(es@).contains(x) <==> (names_view(processes@).contains(x)
                && !process_names(process_nodes(*graph)).contains(x))
        },
        r matches Ok(sub) ==> {
            &&& graph_wf(sub)
            &&& named_views(process_nodes(sub)) == mask_filter(
                named_views(process_nodes(*graph)),
                needed_mask(*graph, names_view(processes@)),
            )
            &&& process_edges(sub) == edge_filter(process_edges(*graph), needed_mask(*graph, names_view(processes@)))
        },
{
    let ghost req = names_view(processes@);
    let ghost names = process_names(process_nodes(*graph));
    let n = pg_node_count(graph);
    // The nodes that were asked for.
    let mut found: Vec<usize> = Vec::new();
    for i in 0..n
        invariant
            n == process_nodes(*graph).len(),
            names == process_names(process_nodes(*graph)),
            req == names_view(processes@),
            forall|k: int| 0 <= k < found@.len() ==> #[trigger] found@[k] < i,
            forall|s: usize| s < i ==> (found@.contains(s) <==> req.contains(#[trigger] names[s as int])),
    {
        let name = &pg_node(graph, i).name;
        assert(name@ == names[i as int]);
        let ghost before = found@;
        if crate::config::contains_name(processes, name) {
            found.push(i);
        }
        assert forall|s: usize| s < i + 1 implies (found@.contains(s) <==> req.contains(#[trigger] names[s as int])) by {
            if found@.contains(s) && s != i {
                let k = choose|k: int| 0 <= k < found@.len() && found@[k] == s;
                if k < before.len() {
                    assert(before[k] == s);
                }
            }
            if s < i && before.contains(s) {
                let k = choose|k: int| 0 <= k < before.len() && before[k] == s;
                assert(found@[k] == s);
            }
            if s == i && req.contains(names[s as int]) {
                assert(found@[found@.len() - 1] == s);
            }
        }
    }
    // The requested names that are not nodes.
    let mut miss: Vec<Name> = Vec::new();
    for k in 0..processes.len()
        invariant
            n == process_nodes(*graph).len(),
            names == process_names(process_nodes(*graph)),
            req == names_view(processes@),
            names_view(miss@) == missing_names(*graph, req.take(k as int)),
    {
        let ghost rq = req.take(k + 1);
        assert(rq.drop_last() =~= req.take(k as int));
        assert(rq.last() == processes@[k as int]@);
        let mut present = false;
        for i in 0..n
            invariant
                n == process_nodes(*graph).len(),
                names == process_names(process_nodes(*graph)),
                k < processes@.len(),
                present == exists|j: int| 0 <= j < i && #[trigger] names[j] == processes@[k as int]@,
        {
            let node = pg_node(graph, i);
            assert(node.name@ == names[i as int]);
            if node.name.same(&processes[k]) {
                present = true;
            }
        }
        assert(present == names.contains(processes@[k as int]@));
        if !present {
            let ghost before = miss@;
            let x = processes[k].clone();
            miss.push(x);
            assert(miss@ == before.push(x));
            assert(names_view(miss@) =~= names_view(before).push(processes@[k as int]@));
        }
    }
    assert(req.take(req.len() as int) =~= req);
    if miss.len() > 0 {
        let ghost m0 = names_view(miss@);
        let uniq = dedup(miss);
        let sorted = sort_names(&uniq);
        let ghost u = names_view(uniq@);
        let mut errs: Vec<ProcessNotFound> = Vec::new();
        for i in 0..sorted.len()
            invariant
                not_found_names(errs@) == names_view(sorted@).take(i as int),
        {
            let ghost before = errs@;
            let x = sorted[i].clone();
            errs.push(ProcessNotFound(x));
            assert(not_found_names(errs@) =~= not_found_names(before).push(sorted@[i as int]@));
            assert(names_view(sorted@).take(i + 1) =~= names_view(sorted@).take(i as int).push(sorted@[i as int]@));
        }
        assert(names_view(sorted@).take(sorted@.len() as int) =~= names_view(sorted@));
        proof {
            let p = choose|p: Seq<usize>| #[trigger] sorts(u, p) && names_view(sorted@) == reordered(u, p);
            lemma_reordered(u, p);
            assert forall|x: Seq<char>| #[trigger] not_found_names(errs@).contains(x) <==> (req.contains(x)
                && !names.contains(x)) by {
                lemma_dedup_names_contains(m0, x);
                lemma_missing_names_contains(*graph, req, x);
            }
        }
        return Err(errs);
    }
    proof {
        lemma_missing_names_empty(*graph, req);
    }
    // Go backwards to find all the dependencies.
    let needed_indices = pg_reverse_reach(graph, &found);
    // Filter out irrelevant nodes (and edges).
    let mut keep: Vec<bool> = Vec::new();
    for i in 0..n
        invariant
            n == process_nodes(*graph).len(),
            keep@ == needed_mask(*graph, req).take(i as int),
            forall|v: usize| #[trigger] needed_indices@.contains(v) <==> (v < n && exists|j: int|
                0 <= j < found@.len() && reachable(process_edges(*graph), v as int, #[trigger] found@[j] as int)),
            forall|s: usize| s < n ==> (found@.contains(s) <==> req.contains(#[trigger] names[s as int])),
            forall|k: int| 0 <= k < found@.len() ==> #[trigger] found@[k] < n,
            names == process_names(process_nodes(*graph)),
            req == names_view(processes@),
    {
        let mut contained = false;
        for j in 0..needed_indices.len()
            invariant
                contained == exists|m: int| 0 <= m < j && #[trigger] needed_indices@[m] == i,
        {
            if needed_indices[j] == i {
                contained = true;
            }
        }
        assert(contained == needed_indices@.contains(i));
        proof {
            if contained {
                let j = choose|j: int| 0 <= j < found@.len() && reachable(process_edges(*graph), i as int, #[trigger] found@[j] as int);
                let s = found@[j];
                assert(found@.contains(s));
                assert(req.contains(names[s as int]));
                assert(needed(*graph, req, i as int));
            }
            if needed(*graph, req, i as int) {
                let s = choose|s: int|
                    0 <= s < process_nodes(*graph).len() && req.contains(#[trigger] names[s])
                        && reachable(process_edges(*graph), i as int, s);
                assert(found@.contains(s as usize));
                let j = choose|j: int| 0 <= j < found@.len() && found@[j] == s as usize;
                assert(reachable(process_edges(*graph), i as int, found@[j] as int));
                assert(needed_indices@.contains(i));
            }
        }
        keep.push(contained);
        assert(keep@ =~= needed_mask(*graph, req).take(i + 1));
    }
    assert(keep@ =~= needed_mask(*graph, req));
    let sub = pg_filter(graph, &keep);
    proof {
        lemma_filter_wf(*graph, keep@, sub);
    }
    Ok(sub)
}

proof fn lemma_mask_filter_len<T>(s: Seq<T>, m: Seq<bool>)
    requires
        m.len() == s.len(),
    ensures
        mask_filter(s, m).len() == rank(m, s.len() as int),
        mask_filter(s, m).len() <= s.len(),
    decreases s.len(),
{
    if s.len() > 0 {
        lemma_mask_filter_len(s.drop_last(), m.drop_last());
        lemma_mask_filter_prefix(s.drop_last(), m);
        lemma_rank_prefix(m, s.len() - 1);
    }
}

proof fn lemma_mask_filter_prefix<T>(s: Seq<T>, m: Seq<bool>)
    requires
        s.len() < m.len(),
    ensures
        mask_filter(s, m) == mask_filter(s, m.take(s.len() as int)),
    decreases s.len(),
{
    if s.len() > 0 {
        lemma_mask_filter_prefix(s.drop_last(), m);
        lemma_mask_filter_prefix(s.drop_last(), m.take(s.len() as int));
        assert(m.take(s.len() as int).take(s.len() - 1) =~= m.take(s.len() - 1));
    }
}

proof fn lemma_rank_prefix(m: Seq<bool>, i: int)
    requires
        0 <= i < m.len(),
    ensures
        rank(m, i) == rank(m.drop_last(), i),
    decreases i,
{
    if i > 0 {
        lemma_rank_prefix(m, i - 1);
    }
}

proof fn lemma_rank_range(m: Seq<bool>, i: int)
    requires
        0 <= i,
    ensures
        0 <= rank(m, i) <= i,
    decreases i,
{
    if i > 0 {
        lemma_rank_range(m, i - 1);
    }
}

proof fn lemma_rank_bound(m: Seq<bool>, i: int)
    requires
        0 <= i < m.len(),
        m[i],
    ensures
        rank(m, i) < rank(m, m.len() as int),
    decreases m.len() - i,
{
    if i + 1 < m.len() {
        lemma_rank_bound_step(m, i + 1, m.len() as int);
    }
}

proof fn lemma_rank_bound_step(m: Seq<bool>, i: int, j: int)
    requires
        0 <= i <= j <= m.len(),
    ensures
        rank(m, i) <= rank(m, j),
    decreases j - i,
{
    if i < j {
        lemma_rank_bound_step(m, i, j - 1);
    }
}

proof fn lemma_edge_filter_in_range<E>(edges: Seq<(usize, usize, E)>, m: Seq<bool>)
    requires
        edges_in_range(edges, m.len() as int),
        m.len() <= index_limit(),
    ensures
        edges_in_range(edge_filter(edges, m), rank(m, m.len() as int)),
        edge_filter(edges, m).len() <= edges.len(),
    decreases edges.len(),
{
    if edges.len() > 0 {
        let p = edges.drop_last();
        assert(edges_in_range(p, m.len() as int)) by {
            assert forall|i: int| 0 <= i < p.len() implies (#[trigger] p[i]).0 < m.len() && p[i].1 < m.len() by {
                assert(p[i] == edges[i]);
            }
        }
        lemma_edge_filter_in_range(p, m);
        let e = edges.last();
        assert(edges[edges.len() - 1] == e);
        let prev = edge_filter(p, m);
        if m[e.0 as int] && m[e.1 as int] {
            lemma_rank_bound(m, e.0 as int);
            lemma_rank_bound(m, e.1 as int);
            lemma_rank_range(m, e.0 as int);
            lemma_rank_range(m, e.1 as int);
            let f = edge_filter(edges, m);
            assert(f == prev.push((rank(m, e.0 as int) as usize, rank(m, e.1 as int) as usize, e.2)));
            assert forall|i: int| 0 <= i < f.len() implies (#[trigger] f[i]).0 < rank(m, m.len() as int) && f[i].1 < rank(m, m.len() as int) by {
                if i < prev.len() {
                    assert(f[i] == prev[i]);
                }
            }
        }
    }
}

proof fn lemma_filter_wf(g: ProcessGraph, m: Seq<bool>, sub: ProcessGraph)
    requires
        graph_wf(g),
        m.len() == process_nodes(g).len(),
        named_views(process_nodes(sub)) == mask_filter(named_views(process_nodes(g)), m),
        process_edges(sub) == edge_filter(process_edges(g), m),
    ensures
        graph_wf(sub),
{
    lemma_mask_filter_len(named_views(process_nodes(g)), m);
    lemma_edge_filter_in_range(process_edges(g), m);
    assert(process_nodes(sub).len() == named_views(process_nodes(sub)).len());
}

/// Running the processes named in `req`, together with the subgraph's other
/// processes, never needs a process outside it: every dependency of a needed
/// node is needed too.
pub proof fn lemma_needed_closed(g: ProcessGraph, req: Seq<Seq<char>>, a: int, b: int)
    requires
        graph_wf(g),
        has_edge(process_edges(g), a, b),
        needed(g, req, b),
    ensures
        needed(g, req, a),
{
    let s = choose|s: int|
        0 <= s < process_nodes(g).len() && req.contains(#[trigger] process_names(process_nodes(g))[s])
            && reachable(process_edges(g), b, s);
    lemma_edge_reachable(process_edges(g), a, b);
    lemma_reachable_trans(process_edges(g), a, b, s);
}

/// Every requested process that is a node is itself needed.
pub proof fn lemma_requested_needed(g: ProcessGraph, req: Seq<Seq<char>>, s: int)
    requires
        0 <= s < process_nodes(g).len(),
        req.contains(process_names(process_nodes(g))[s]),
    ensures
        needed(g, req, s),
{
    lemma_reachable_refl(process_edges(g), s);
}

/// Node `w` is a node of `visited` and has been visited.
pub open spec fn is_visited(visited: Seq<bool>, w: usize) -> bool {
    w < visited.len() && visited[w as int]
}

/// All the neighbors of `v` in direction `dir` have been visited.
pub open spec fn neighbors_visited<E>(edges: Seq<(usize, usize, E)>, visited: Seq<bool>, v: usize, dir: Direction) -> bool {
    forall|k: int| 0 <= k < dir_neighbors(edges, v, dir).len() ==> is_visited(visited, #[trigger] dir_neighbors(edges, v, dir)[k])
}

/// Every entry of `visited` is true.
pub open spec fn all_visited(visited: Seq<bool>) -> bool {
    forall|i: int| 0 <= i < visited.len() ==> #[trigger] visited[i]
}

/// The decisions of a traversal of a graph in edge order: which nodes to
/// visit first, and which nodes to visit next once a node has been visited.
///
/// A node is started once all of its neighbors in `direction` have been
/// visited; traversal starts at the nodes without such neighbors and follows
/// edges in the opposite direction. The caller runs the visits (possibly in
/// parallel) and reports each completed one to [`EdgeOrderVisit::on_visited`].
pub struct EdgeOrderVisit {
    visited: Vec<bool>,
    direction: Direction,
}

impl EdgeOrderVisit {
    /// Which nodes have been visited, by index.
    pub closed spec fn visited(&self) -> Seq<bool> {
        self.visited@
    }

    /// The direction of the dependency edges.
    pub closed spec fn direction(&self) -> Direction {
        self.direction
    }

    /// Begin a traversal: no node is visited yet, and the nodes to visit first
    /// are those without neighbors in `direction` (none if the graph is empty).
    pub fn start(graph: &ProcessGraph, direction: Direction) -> (r: (EdgeOrderVisit, Vec<usize>))
        ensures
            r.0.visited() == Seq::new(process_nodes(*graph).len(), |i: int| false),
            r.0.direction() == direction,
            forall|i: int, j: int| 0 <= i < j < r.1@.len() ==> #[trigger] r.1@[i] < #[trigger] r.1@[j],
            forall|v: usize| #[trigger] r.1@.contains(v) <==> (v < process_nodes(*graph).len()
                && dir_neighbors(process_edges(*graph), v, direction).len() == 0),
    {
        let n = pg_node_count(graph);
        let mut visited: Vec<bool> = Vec::new();
        for i in 0..n
            invariant
                visited@ == Seq::new(i as nat, |k: int| false),
        {
            visited.push(false);
            assert(visited@ =~= Seq::new((i + 1) as nat, |k: int| false));
        }
        let starts = pg_externals(graph, direction);
        (EdgeOrderVisit { visited, direction }, starts)
    }

    /// Record that node `ix` has been visited. Returns `None` once every node
    /// has been visited; otherwise the nodes that become ready: each
    /// unvisited neighbor of `ix` against `direction` whose own neighbors in
    /// `direction` have all been visited, once, however many edges join it to
    /// `ix`.
    pub fn on_visited(&mut self, graph: &ProcessGraph, ix: usize) -> (r: Option<Vec<usize>>)
        requires
            old(self).visited().len() == process_nodes(*graph).len(),
            ix < process_nodes(*graph).len(),
        ensures
            final(self).visited() == old(self).visited().update(ix as int, true),
            final(self).direction() == old(self).direction(),
            r is None <==> all_visited(final(self).visited()),
            r matches Some(next) ==> {
                &&& next@.no_duplicates()
                &&& forall|v: usize| #[trigger] next@.contains(v) <==> released(
                    process_edges(*graph),
                    final(self).visited(),
                    ix,
                    v,
                    old(self).direction(),
                )
            },
    {
        self.visited.set(ix, true);
        let mut full = true;
        for i in 0..self.visited.len()
            invariant
                full == forall|k: int| 0 <= k < i ==> #[trigger] self.visited@[k],
        {
            if !self.visited[i] {
                full = false;
            }
        }
        if full {
            return None;
        }
        let ghost edges = process_edges(*graph);
        let ghost vis = self.visited@;
        let direction = self.direction;
        let candidates = pg_neighbors(graph, ix, direction.opposite());
        let mut next: Vec<usize> = Vec::new();
        for c in 0..candidates.len()
            invariant
                edges == process_edges(*graph),
                vis == self.visited@,
                vis.len() == process_nodes(*graph).len(),
                direction == self.direction,
                next@.no_duplicates(),
                forall|v: usize| #[trigger] next@.contains(v) <==> (candidates@.take(c as int).contains(v)
                    && is_ready(edges, vis, v, direction)),
        {
            let v = candidates[c];
            let mut ready = v < self.visited.len() && !self.visited[v];
            if ready {
                let deps = pg_neighbors(graph, v, direction);
                for d in 0..deps.len()
                    invariant
                        v < vis.len(),
                        ready == forall|k: int| 0 <= k < d ==> is_visited(vis, #[trigger] deps@[k]),
                        vis == self.visited@,
                        vis.len() == process_nodes(*graph).len(),
                {
                    let w = deps[d];
                    if w >= self.visited.len() || !self.visited[w] {
                        ready = false;
                    }
                }
                proof {
                    lemma_all_in_same_multiset(deps@, dir_neighbors(edges, v, direction), vis);
                }
            }
            assert(ready == is_ready(edges, vis, v, direction));
            let mut seen = false;
            for k in 0..next.len()
                invariant
                    seen == exists|m: int| 0 <= m < k && next@[m] == v,
            {
                if next[k] == v {
                    seen = true;
                }
            }
            let ghost taken = candidates@.take(c as int);
            assert(candidates@.take(c + 1) =~= taken.push(v));
            let ghost before = next@;
            if ready && !seen {
                next.push(v);
                assert forall|i: int, j: int| 0 <= i < next@.len() && 0 <= j < next@.len() && i != j implies next@[i]
                    != next@[j] by {
                    if i < before.len() && j < before.len() {
                        assert(next@[i] == before[i] && next@[j] == before[j]);
                    } else if i < before.len() {
                        assert(next@[i] == before[i]);
                    } else {
                        assert(next@[j] == before[j]);
                    }
                }
            }
            assert forall|w: usize| #[trigger] next@.contains(w) <==> (candidates@.take(c + 1).contains(w)
                && is_ready(edges, vis, w, direction)) by {
                if next@.contains(w) {
                    let m = choose|m: int| 0 <= m < next@.len() && next@[m] == w;
                    if m < before.len() {
                        assert(before[m] == w);
                        assert(before.contains(w));
                        let t = choose|t: int| 0 <= t < taken.len() && taken[t] == w;
                        assert(candidates@.take(c + 1)[t] == w);
                    } else {
                        assert(candidates@.take(c + 1)[c as int] == w);
                    }
                }
                if candidates@.take(c + 1).contains(w) && is_ready(edges, vis, w, direction) {
                    let t = choose|t: int| 0 <= t < c + 1 && #[trigger] candidates@.take(c + 1)[t] == w;
                    if t < c {
                        assert(taken[t] == w);
                        assert(taken.contains(w));
                        assert(before.contains(w));
                        let m = choose|m: int| 0 <= m < before.len() && before[m] == w;
                        assert(next@[m] == w);
                    } else if seen {
                        let m = choose|m: int| 0 <= m < before.len() && before[m] == v;
                        assert(next@[m] == w);
                    } else {
                        assert(next@[next@.len() - 1] == w);
                    }
                }
            }
        }
        assert(candidates@.take(candidates@.len() as int) =~= candidates@);
        proof {
            broadcast use vstd::seq_lib::to_multiset_contains;
            assert forall|w: usize| #[trigger] candidates@.contains(w) == dir_neighbors(
                edges,
                ix,
                direction.opposite_spec(),
            ).contains(w) by {
                assert(candidates@.to_multiset().count(w) == dir_neighbors(edges, ix, direction.opposite_spec()).to_multiset().count(w));
            }
        }
        Some(next)
    }
}

/// What a traversal that stops on the first failure does after a visit ends.
pub enum VisitStep {
    /// Visit these nodes next.
    Visit(Vec<usize>),
    /// Every node has been visited.
    Done,
    /// A visit failed or the traversal was cancelled: start no further visits.
    Stopped,
}

/// A traversal in edge order that starts no further visits once a visit has
/// failed or the traversal has been cancelled. Visits already started are
/// left to end; their outcomes change nothing.
pub struct StoppableVisit {
    order: EdgeOrderVisit,
    stopped: bool,
}

impl StoppableVisit {
    /// Which nodes have been visited, by index.
    pub closed spec fn visited(&self) -> Seq<bool> {
        self.order.visited()
    }

    /// The direction of the dependency edges.
    pub closed spec fn direction(&self) -> Direction {
        self.order.direction()
    }

    /// Whether the traversal has stopped.
    pub closed spec fn stopped(&self) -> bool {
        self.stopped
    }

    /// Begin a traversal, as [`EdgeOrderVisit::start`] does, not stopped.
    pub fn start(graph: &ProcessGraph, direction: Direction) -> (r: (StoppableVisit, Vec<usize>))
        ensures
            r.0.visited() == Seq::new(process_nodes(*graph).len(), |i: int| false),
            r.0.direction() == direction,
            !r.0.stopped(),
            forall|i: int, j: int| 0 <= i < j < r.1@.len() ==> #[trigger] r.1@[i] < #[trigger] r.1@[j],
            forall|v: usize| #[trigger] r.1@.contains(v) <==> (v < process_nodes(*graph).len()
                && dir_neighbors(process_edges(*graph), v, direction).len() == 0),
    {
        let (order, first) = EdgeOrderVisit::start(graph, direction);
        (StoppableVisit { order, stopped: false }, first)
    }

    /// Stop the traversal: no further visits start.
    pub fn cancel(&mut self)
        ensures
            final(self).stopped(),
            final(self).visited() == old(self).visited(),
            final(self).direction() == old(self).direction(),
    {
        self.stopped = true;
    }

    /// The visit of node `ix` has ended, successfully where `ok`. A failed
    /// visit stops the traversal; once stopped, nothing more is visited and
    /// the answer is [`VisitStep::Stopped`]. Otherwise the visit is recorded
    /// as by [`EdgeOrderVisit::on_visited`]: [`VisitStep::Done`] once every
    /// node has been visited, else the nodes that it releases.
    pub fn on_done(&mut self, graph: &ProcessGraph, ix: usize, ok: bool) -> (r: VisitStep)
        requires
            old(self).visited().len() == process_nodes(*graph).len(),
            ix < process_nodes(*graph).len(),
        ensures
            final(self).stopped() == (old(self).stopped() || !ok),
            final(self).direction() == old(self).direction(),
            r is Stopped <==> final(self).stopped(),
            final(self).stopped() ==> final(self).visited() == old(self).visited(),
            !final(self).stopped() ==> final(self).visited() == old(self).visited().update(ix as int, true),
            r is Done <==> (!final(self).stopped() && all_visited(final(self).visited())),
            r matches VisitStep::Visit(next) ==> {
                &&& next@.no_duplicates()
                &&& forall|v: usize| #[trigger] next@.contains(v) <==> released(
                    process_edges(*graph),
                    final(self).visited(),
                    ix,
                    v,
                    old(self).direction(),
                )
            },
    {
        if self.stopped || !ok {
            self.stopped = true;
            return VisitStep::Stopped;
        }
        match self.order.on_visited(graph, ix) {
            None => VisitStep::Done,
            Some(next) => VisitStep::Visit(next),
        }
    }
}

/// Node `v` is unvisited and all of its neighbors in direction `dir` have
/// been visited.
pub open spec fn is_ready<E>(edges: Seq<(usize, usize, E)>, visited: Seq<bool>, v: usize, dir: Direction) -> bool {
    &&& v < visited.len()
    &&& !visited[v as int]
    &&& neighbors_visited(edges, visited, v, dir)
}

/// Visiting `ix` releases node `v`: `v` is a neighbor of `ix` against
/// direction `dir`, and is ready.
pub open spec fn released<E>(edges: Seq<(usize, usize, E)>, visited: Seq<bool>, ix: usize, v: usize, dir: Direction) -> bool {
    &&& dir_neighbors(edges, ix, dir.opposite_spec()).contains(v)
    &&& is_ready(edges, visited, v, dir)
}

pub(crate) proof fn lemma_all_in_same_multiset(a: Seq<usize>, b: Seq<usize>, vis: Seq<bool>)
    requires
        a.to_multiset() == b.to_multiset(),
    ensures
        (forall|k: int| 0 <= k < a.len() ==> is_visited(vis, #[trigger] a[k])) == (forall|k: int| 0 <= k < b.len() ==> is_visited(vis, #[trigger] b[k])),
{
    broadcast use vstd::seq_lib::to_multiset_contains;
    if forall|k: int| 0 <= k < a.len() ==> is_visited(vis, #[trigger] a[k]) {
        assert forall|k: int| 0 <= k < b.len() implies is_visited(vis, #[trigger] b[k]) by {
            assert(b.contains(b[k]));
            assert(b.to_multiset().contains(b[k]));
            assert(a.contains(b[k]));
        }
    }
    if forall|k: int| 0 <= k < b.len() ==> is_visited(vis, #[trigger] b[k]) {
        assert forall|k: int| 0 <= k < a.len() implies is_visited(vis, #[trigger] a[k]) by {
            assert(a.contains(a[k]));
            assert(a.to_multiset().contains(a[k]));
            assert(b.contains(a[k]));
        }
    }
}



/// Two edge lists with the same edges, counted with multiplicity, join the
/// same nodes.
pub proof fn lemma_has_edge_same_multiset<E>(a: Seq<(usize, usize, E)>, b: Seq<(usize, usize, E)>, x: int, y: int)
    requires
        a.to_multiset() == b.to_multiset(),
    ensures
        has_edge(a, x, y) == has_edge(b, x, y),
{
    broadcast use vstd::seq_lib::to_multiset_contains;

    if has_edge(a, x, y) {
        let i = choose|i: int| 0 <= i < a.len() && (#[trigger] a[i]).0 == x && a[i].1 == y;
        assert(a.contains(a[i]));
        assert(a.to_multiset().contains(a[i]));
        assert(b.to_multiset().contains(a[i]));
        assert(b.contains(a[i]));
        let k = choose|k: int| 0 <= k < b.len() && b[k] == a[i];
        assert(b[k].0 == x && b[k].1 == y);
    }
    if has_edge(b, x, y) {
        let i = choose|i: int| 0 <= i < b.len() && (#[trigger] b[i]).0 == x && b[i].1 == y;
        assert(b.contains(b[i]));
        assert(b.to_multiset().contains(b[i]));
        assert(a.to_multiset().contains(b[i]));
        assert(a.contains(b[i]));
        let k = choose|k: int| 0 <= k < a.len() && a[k] == b[i];
        assert(a[k].0 == x && a[k].1 == y);
    }
}

/// Whether a graph has a cycle depends only on its edges, not on their
/// order.
pub proof fn lemma_is_cyclic_same_multiset<E>(a: Seq<(usize, usize, E)>, b: Seq<(usize, usize, E)>, n: int)
    requires
        a.to_multiset() == b.to_multiset(),
    ensures
        is_cyclic(a, n) == is_cyclic(b, n),
{
    assert forall|p: Seq<int>| #[trigger] is_path(a, p) == is_path(b, p) by {
        assert forall|i: int| #![trigger p[i]] 0 <= i < p.len() - 1 implies has_edge(a, p[i], p[i + 1]) == has_edge(b, p[i], p[i + 1]) by {
            lemma_has_edge_same_multiset(a, b, p[i], p[i + 1]);
        }
    }
    if is_cyclic(a, n) {
        let v = choose|v: int| 0 <= v < n && #[trigger] on_cycle(a, v);
        let p = choose|p: Seq<int>| #[trigger] is_path(a, p) && p.len() >= 2 && p[0] == v && p.last() == v;
        assert(is_path(b, p));
        assert(on_cycle(b, v));
    }
    if is_cyclic(b, n) {
        let v = choose|v: int| 0 <= v < n && #[trigger] on_cycle(b, v);
        let p = choose|p: Seq<int>| #[trigger] is_path(b, p) && p.len() >= 2 && p[0] == v && p.last() == v;
        assert(is_path(a, p));
        assert(on_cycle(a, v));
    }
}

/// A repeated node on a walk closes a cycle.
pub(crate) proof fn lemma_repeat_cycle<E>(big: Seq<(usize, usize, E)>, path: Seq<int>, i: int, j: int)
    requires
        is_path(big, path),
        0 <= i < j < path.len(),
        path[i] == path[j],
    ensures
        on_cycle(big, path[i]),
{
    let c = path.subrange(i, j + 1);
    assert forall|k: int| #![trigger c[k]] 0 <= k < c.len() - 1 implies has_edge(big, c[k], c[k + 1]) by {
        assert(c[k] == path[i + k] && c[k + 1] == path[i + k + 1]);
    }
    assert(is_path(big, c));
}

/// A walk of more than `hi - lo` nodes, all in `lo..hi`, repeats one.
pub(crate) proof fn lemma_pigeonhole(path: Seq<int>, lo: int, hi: int) -> (r: (int, int))
    requires
        lo <= hi,
        path.len() > hi - lo,
        forall|i: int| 0 <= i < path.len() ==> lo <= #[trigger] path[i] < hi,
    ensures
        0 <= r.0 < r.1 < path.len(),
        path[r.0] == path[r.1],
{
    if forall|i: int, j: int| 0 <= i < j < path.len() ==> #[trigger] path[i] != #[trigger] path[j] {
        assert(path.no_duplicates()) by {
            assert forall|i: int, j: int| 0 <= i < path.len() && 0 <= j < path.len() && i != j implies path[i]
                != path[j] by {
                if i < j {
                    assert(path[i] != path[j]);
                } else {
                    assert(path[j] != path[i]);
                }
            }
        }
        path.unique_seq_to_set();
        vstd::set_lib::lemma_int_range(lo, hi);
        assert(path.to_set().subset_of(vstd::set_lib::set_int_range(lo, hi))) by {
            assert forall|v: int| path.to_set().contains(v) implies vstd::set_lib::set_int_range(lo, hi).contains(v) by {
                assert(path.contains(v));
            }
        }
        vstd::set_lib::lemma_len_subset(path.to_set(), vstd::set_lib::set_int_range(lo, hi));
        assert(false);
    }
    let (i, j) = choose|i: int, j: int| 0 <= i < j < path.len() && #[trigger] path[i] == #[trigger] path[j];
    (i, j)
}



proof fn lemma_has_edge_drop_last<E>(edges: Seq<(usize, usize, E)>, x: int, y: int)
    requires
        edges.len() > 0,
        has_edge(edges.drop_last(), x, y),
    ensures
        has_edge(edges, x, y),
{
    let p = edges.drop_last();
    let i = choose|i: int| 0 <= i < p.len() && (#[trigger] p[i]).0 == x && p[i].1 == y;
    assert(edges[i] == p[i]);
}

/// Each neighbor of `a` in direction `dir` is joined to it by an edge.
pub(crate) proof fn lemma_dir_neighbor_edge<E>(edges: Seq<(usize, usize, E)>, a: usize, dir: Direction, k: int)
    requires
        0 <= k < dir_neighbors(edges, a, dir).len(),
    ensures
        dir == Direction::Outgoing ==> has_edge(edges, a as int, dir_neighbors(edges, a, dir)[k] as int),
        dir == Direction::Incoming ==> has_edge(edges, dir_neighbors(edges, a, dir)[k] as int, a as int),
    decreases edges.len(),
{
    let prev = dir_neighbors(edges.drop_last(), a, dir);
    let w = dir_neighbors(edges, a, dir)[k];
    if k < prev.len() {
        assert(w == prev[k]);
        lemma_dir_neighbor_edge(edges.drop_last(), a, dir, k);
        if dir == Direction::Outgoing {
            lemma_has_edge_drop_last(edges, a as int, w as int);
        } else {
            lemma_has_edge_drop_last(edges, w as int, a as int);
        }
    } else {
        let i = edges.len() - 1;
        assert(edges[i] == edges.last());
    }
}

/// Walking from the unvisited node `u` to unvisited neighbors in direction
/// `dir`, either a node is found whose neighbors in `dir` are all visited, or
/// the walk goes on for `fuel` steps.
proof fn lemma_ready_chain<E>(
    edges: Seq<(usize, usize, E)>,
    n: int,
    visited: Seq<bool>,
    dir: Direction,
    u: int,
    fuel: nat,
) -> (r: (int, Seq<int>))
    requires
        edges_in_range(edges, n),
        n <= index_limit(),
        visited.len() == n,
        0 <= u < n,
        !visited[u],
    ensures
        (0 <= r.0 < n && !visited[r.0] && neighbors_visited(edges, visited, r.0 as usize, dir)) || {
            &&& is_path(edges, r.1)
            &&& r.1.len() == fuel + 1
            &&& dir == Direction::Outgoing ==> r.1[0] == u
            &&& dir == Direction::Incoming ==> r.1.last() == u
            &&& forall|i: int| 0 <= i < r.1.len() ==> 0 <= #[trigger] r.1[i] < n
        },
    decreases fuel,
{
    let single = seq![u];
    assert(is_path(edges, single));
    if neighbors_visited(edges, visited, u as usize, dir) || fuel == 0 {
        return (u, single);
    }
    let dn = dir_neighbors(edges, u as usize, dir);
    let k = choose|k: int| 0 <= k < dn.len() && !is_visited(visited, #[trigger] dn[k]);
    let w = dn[k] as int;
    lemma_dir_neighbor_edge(edges, u as usize, dir, k);
    if dir == Direction::Outgoing {
        let i = choose|i: int| 0 <= i < edges.len() && (#[trigger] edges[i]).0 == u && edges[i].1 == w;
        assert(edges[i].1 < n);
    } else {
        let i = choose|i: int| 0 <= i < edges.len() && (#[trigger] edges[i]).0 == w && edges[i].1 == u;
        assert(edges[i].0 < n);
    }
    let (v, rec) = lemma_ready_chain(edges, n, visited, dir, w, (fuel - 1) as nat);
    if 0 <= v < n && !visited[v] && neighbors_visited(edges, visited, v as usize, dir) {
        return (v, rec);
    }
    // Extend the walk by the edge between `u` and `w`: before `w` going
    // along edges, after it going against them.
    if dir == Direction::Outgoing {
        let path = seq![u] + rec;
        assert forall|i: int| #![trigger path[i]] 0 <= i < path.len() - 1 implies has_edge(edges, path[i], path[i + 1]) by {
            if i > 0 {
                assert(path[i] == rec[i - 1] && path[i + 1] == rec[i]);
                assert(has_edge(edges, rec[i - 1], rec[i]));
            } else {
                assert(path[1] == rec[0]);
            }
        }
        assert forall|i: int| 0 <= i < path.len() implies 0 <= #[trigger] path[i] < n by {
            if i > 0 {
                assert(path[i] == rec[i - 1]);
            }
        }
        (u, path)
    } else {
        let path = rec.push(u);
        assert forall|i: int| #![trigger path[i]] 0 <= i < path.len() - 1 implies has_edge(edges, path[i], path[i + 1]) by {
            if i < rec.len() - 1 {
                assert(path[i] == rec[i] && path[i + 1] == rec[i + 1]);
                assert(has_edge(edges, rec[i], rec[i + 1]));
            } else {
                assert(path[i] == rec.last());
            }
        }
        assert forall|i: int| 0 <= i < path.len() implies 0 <= #[trigger] path[i] < n by {
            if i < rec.len() {
                assert(path[i] == rec[i]);
            }
        }
        (u, path)
    }
}

/// On a graph without cycles a traversal in edge order can always go on:
/// while some node is unvisited, some unvisited node has all of its
/// neighbors in the traversal's direction visited, and is ready to start.
pub proof fn lemma_traversal_progress<E>(
    edges: Seq<(usize, usize, E)>,
    n: int,
    visited: Seq<bool>,
    dir: Direction,
    u: int,
)
    requires
        edges_in_range(edges, n),
        n <= index_limit(),
        visited.len() == n,
        !is_cyclic(edges, n),
        0 <= u < n,
        !visited[u],
    ensures
        exists|v: int| 0 <= v < n && !visited[v] && #[trigger] neighbors_visited(edges, visited, v as usize, dir),
{
    let (v, path) = lemma_ready_chain(edges, n, visited, dir, u, n as nat);
    if !(0 <= v < n && !visited[v] && neighbors_visited(edges, visited, v as usize, dir)) {
        let (i, j) = lemma_pigeonhole(path, 0, n);
        lemma_repeat_cycle(edges, path, i, j);
        assert(is_cyclic(edges, n));
    }
}

/// `b` is a neighbor of `a` against direction `dir` exactly when `a` is a
/// neighbor of `b` in direction `dir`: both say that an edge joins them.
pub proof fn lemma_neighbor_symmetric<E>(edges: Seq<(usize, usize, E)>, a: usize, b: usize, dir: Direction)
    ensures
        dir_neighbors(edges, a, dir.opposite_spec()).contains(b) <==> dir_neighbors(edges, b, dir).contains(a),
    decreases edges.len(),
{
    if edges.len() > 0 {
        lemma_neighbor_symmetric(edges.drop_last(), a, b, dir);
        let pa = dir_neighbors(edges.drop_last(), a, dir.opposite_spec());
        let pb = dir_neighbors(edges.drop_last(), b, dir);
        let na = dir_neighbors(edges, a, dir.opposite_spec());
        let nb = dir_neighbors(edges, b, dir);
        assert forall|x: usize| #[trigger] na.contains(x) <==> (pa.contains(x) || (na.len() > pa.len() && na.last() == x)) by {
            if na.len() > pa.len() {
                assert(na == pa.push(na.last()));
                if na.contains(x) {
                    let k = choose|k: int| 0 <= k < na.len() && na[k] == x;
                    if k < pa.len() {
                        assert(pa[k] == x);
                    }
                }
                if pa.contains(x) {
                    let k = choose|k: int| 0 <= k < pa.len() && pa[k] == x;
                    assert(na[k] == x);
                }
                assert(na[na.len() - 1] == na.last());
            } else {
                assert(na == pa);
            }
        }
        assert forall|x: usize| #[trigger] nb.contains(x) <==> (pb.contains(x) || (nb.len() > pb.len() && nb.last() == x)) by {
            if nb.len() > pb.len() {
                assert(nb == pb.push(nb.last()));
                if nb.contains(x) {
                    let k = choose|k: int| 0 <= k < nb.len() && nb[k] == x;
                    if k < pb.len() {
                        assert(pb[k] == x);
                    }
                }
                if pb.contains(x) {
                    let k = choose|k: int| 0 <= k < pb.len() && pb[k] == x;
                    assert(nb[k] == x);
                }
                assert(nb[nb.len() - 1] == nb.last());
            } else {
                assert(nb == pb);
            }
        }
    }
}

/// A node is released at most once in a traversal that visits each node
/// once: after the visit of `ix1` released `v`, the visit of any node `ix2`
/// not visited by then does not release `v` again.
pub proof fn lemma_released_once<E>(
    edges: Seq<(usize, usize, E)>,
    vis1: Seq<bool>,
    ix1: usize,
    vis2: Seq<bool>,
    ix2: usize,
    v: usize,
    dir: Direction,
)
    requires
        released(edges, vis1, ix1, v, dir),
        vis2.len() == vis1.len(),
        forall|i: int| 0 <= i < vis1.len() && #[trigger] vis1[i] ==> vis2[i],
        ix2 < vis2.len(),
        !vis2[ix2 as int],
    ensures
        !released(edges, vis2.update(ix2 as int, true), ix2, v, dir),
{
    if released(edges, vis2.update(ix2 as int, true), ix2, v, dir) {
        lemma_neighbor_symmetric(edges, ix2, v, dir);
        let dn = dir_neighbors(edges, v, dir);
        let k = choose|k: int| 0 <= k < dn.len() && dn[k] == ix2;
        assert(is_visited(vis1, dn[k]));
        assert(vis1[ix2 as int]);
    }
}

/// A node without neighbors in the traversal's direction is visited first,
/// and no later visit releases it.
pub proof fn lemma_start_not_released<E>(edges: Seq<(usize, usize, E)>, vis: Seq<bool>, ix: usize, v: usize, dir: Direction)
    requires
        dir_neighbors(edges, v, dir).len() == 0,
    ensures
        !released(edges, vis, ix, v, dir),
{
    lemma_neighbor_symmetric(edges, ix, v, dir);
}

/// The nodes visited by the first visits of `order`.
pub open spec fn visited_by(n: int, order: Seq<usize>) -> Seq<bool> {
    Seq::new(n as nat, |i: int| order.contains(i as usize))
}

/// `order` lists the visits of a traversal of `n` nodes, in the order in
/// which they ended: each node at most once, each one that the traversal
/// handed out (a node without neighbors in `dir`, or one that an earlier
/// visit released) at some point.
pub open spec fn visits_all_handed_out<E>(edges: Seq<(usize, usize, E)>, n: int, dir: Direction, order: Seq<usize>) -> bool {
    &&& order.no_duplicates()
    &&& forall|k: int| 0 <= k < order.len() ==> #[trigger] order[k] < n
    &&& forall|v: usize| v < n && #[trigger] dir_neighbors(edges, v, dir).len() == 0 ==> order.contains(v)
    &&& forall|k: int, v: usize|
        0 <= k < order.len() && #[trigger] released(edges, visited_by(n, order.take(k + 1)), order[k], v, dir) ==> order.contains(v)
}

/// The last visit in `order` of a node of `deps`, where all of `deps` lie in
/// the first `m` visits.
proof fn lemma_last_of(order: Seq<usize>, deps: Seq<usize>, m: int) -> (k: int)
    requires
        0 <= m <= order.len(),
        deps.len() > 0,
        forall|j: int| 0 <= j < deps.len() ==> order.take(m).contains(#[trigger] deps[j]),
    ensures
        0 <= k < m,
        deps.contains(order[k]),
        forall|j: int| 0 <= j < deps.len() ==> order.take(k + 1).contains(#[trigger] deps[j]),
    decreases m,
{
    let tm = order.take(m);
    assert(tm.contains(deps[0]));
    assert(m > 0);
    if deps.contains(order[m - 1]) {
        assert(tm =~= order.take(m - 1 + 1));
        m - 1
    } else {
        let tp = order.take(m - 1);
        assert forall|j: int| 0 <= j < deps.len() implies tp.contains(#[trigger] deps[j]) by {
            assert(tm.contains(deps[j]));
            let t = choose|t: int| 0 <= t < tm.len() && tm[t] == deps[j];
            if t == m - 1 {
                assert(deps[j] == order[m - 1]);
                assert(deps.contains(order[m - 1]));
            }
            assert(tp[t] == deps[j]);
        }
        lemma_last_of(order, deps, m - 1)
    }
}

/// On a graph without cycles, a traversal in edge order that visits every
/// node it hands out visits every node.
pub proof fn lemma_traversal_complete<E>(edges: Seq<(usize, usize, E)>, n: int, dir: Direction, order: Seq<usize>)
    requires
        edges_in_range(edges, n),
        n <= index_limit(),
        !is_cyclic(edges, n),
        visits_all_handed_out(edges, n, dir, order),
    ensures
        forall|v: usize| v < n ==> #[trigger] order.contains(v),
{
    assert forall|u: usize| u < n implies #[trigger] order.contains(u) by {
        if !order.contains(u) {
            let vis = visited_by(n, order);
            lemma_traversal_progress(edges, n, vis, dir, u as int);
            let v = choose|v: int| 0 <= v < n && !vis[v] && #[trigger] neighbors_visited(edges, vis, v as usize, dir);
            let vu = v as usize;
            let deps = dir_neighbors(edges, vu, dir);
            assert(!order.contains(vu));
            if deps.len() > 0 {
                assert(order.take(order.len() as int) =~= order);
                assert forall|j: int| 0 <= j < deps.len() implies order.take(order.len() as int).contains(#[trigger] deps[j]) by {
                    assert(is_visited(vis, deps[j]));
                    assert(vis[deps[j] as int]);
                }
                let k = lemma_last_of(order, deps, order.len() as int);
                let ix = order[k];
                let tk = order.take(k + 1);
                let vk = visited_by(n, tk);
                assert(order.take(k + 1)[k] == ix);
                lemma_neighbor_symmetric(edges, ix, vu, dir);
                assert forall|j: int| 0 <= j < deps.len() implies is_visited(vk, #[trigger] deps[j]) by {
                    assert(tk.contains(deps[j]));
                    assert(deps[j] < n) by {
                        let t = choose|t: int| 0 <= t < tk.len() && tk[t] == deps[j];
                        assert(order[t] == deps[j]);
                    }
                }
                assert(!vk[v]) by {
                    if vk[v] {
                        let t = choose|t: int| 0 <= t < tk.len() && tk[t] == vu;
                        assert(order[t] == vu);
                    }
                }
                assert(released(edges, vk, ix, vu, dir));
            }
        }
    }
}

/// An edge from `a` to `b` makes `a` a neighbor of `b` against the edges and
/// `b` a neighbor of `a` along them.
pub proof fn lemma_edge_neighbors<E>(edges: Seq<(usize, usize, E)>, a: int, b: int)
    requires
        has_edge(edges, a, b),
    ensures
        0 <= a,
        0 <= b,
        dir_neighbors(edges, b as usize, Direction::Incoming).contains(a as usize),
        dir_neighbors(edges, a as usize, Direction::Outgoing).contains(b as usize),
    decreases edges.len(),
{
    let i = choose|i: int| 0 <= i < edges.len() && (#[trigger] edges[i]).0 == a && edges[i].1 == b;
    let pin = dir_neighbors(edges.drop_last(), b as usize, Direction::Incoming);
    let pout = dir_neighbors(edges.drop_last(), a as usize, Direction::Outgoing);
    let nin = dir_neighbors(edges, b as usize, Direction::Incoming);
    let nout = dir_neighbors(edges, a as usize, Direction::Outgoing);
    assert(edges[edges.len() - 1] == edges.last());
    if i == edges.len() - 1 {
        assert(nin[nin.len() - 1] == a as usize);
        assert(nout[nout.len() - 1] == b as usize);
    } else {
        assert(edges.drop_last()[i] == edges[i]);
        lemma_edge_neighbors(edges.drop_last(), a, b);
        let k = choose|k: int| 0 <= k < pin.len() && pin[k] == a as usize;
        assert(nin[k] == pin[k]);
        let k2 = choose|k2: int| 0 <= k2 < pout.len() && pout[k2] == b as usize;
        assert(nout[k2] == pout[k2]);
    }
}

} // verus!
