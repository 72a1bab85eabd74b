//! Trusted interface to the petgraph directed graph store, together with
//! the walk-cost model that the shortest-path contracts are stated over.
//!
//! The graph is viewed through two names: `graph_edges`, the map from a
//! directed vertex pair to its weight, and `graph_nodes`, the set of
//! vertices the graph holds.

use vstd::prelude::*;

verus! {

use petgraph::graphmap::GraphMap;
use petgraph::Directed;
use crate::calendar::SECONDS_PER_DAY;

/// The edge store used for the connection graph: directed, vertices are
/// vertex ids, weights are seconds.
pub type DiGraph = GraphMap<usize, i64, Directed>;

#[verifier::external_type_specification]
#[verifier::external_body]
#[verifier::reject_recursive_types(N)]
#[verifier::reject_recursive_types(E)]
#[verifier::reject_recursive_types(Ty)]
#[verifier::reject_recursive_types(S)]
pub struct ExGraphMap<N, E, Ty, S>(GraphMap<N, E, Ty, S>) where S: std::hash::BuildHasher;

#[verifier::external_type_specification]
#[verifier::external_body]
pub struct ExDirected(Directed);

/// The edge map of a graph with no edges.
pub open spec fn no_edges() -> Map<(usize, usize), i64> {
    Map::empty()
}

/// The vertex set of a graph with no vertices.
pub open spec fn no_nodes() -> Set<usize> {
    Set::empty()
}

/// The directed edges stored in the graph, keyed by (source, target),
/// valued by weight.
pub uninterp spec fn graph_edges(g: DiGraph) -> Map<(usize, usize), i64>;

/// The vertices present in the graph.
pub uninterp spec fn graph_nodes(g: DiGraph) -> Set<usize>;

/// Relies on petgraph's DiGraphMap::with_capacity: a fresh graph holds no
/// nodes and no edges; the capacities only pre-size storage.
#[verifier::external_body]
pub(crate) fn graph_new(nodes: usize, edges: usize) -> (g: DiGraph)
    ensures
        graph_edges(g) == no_edges(),
        graph_nodes(g) == no_nodes(),
{
    petgraph::graphmap::DiGraphMap::with_capacity(nodes, edges)
}

/// Relies on petgraph's GraphMap::add_edge on a directed graph: the edge
/// from `a` to `b` is inserted, overwriting any earlier weight, and both
/// endpoints become nodes.
#[verifier::external_body]
pub(crate) fn graph_add_edge(g: &mut DiGraph, a: usize, b: usize, w: i64)
    ensures
        graph_edges(*final(g)) == graph_edges(*old(g)).insert((a, b), w),
        graph_nodes(*final(g)) == graph_nodes(*old(g)).insert(a).insert(b),
{
    g.add_edge(a, b, w);
}

/// Relies on petgraph's GraphMap::edge_weight on a directed graph.
#[verifier::external_body]
pub(crate) fn graph_edge_weight(g: &DiGraph, a: usize, b: usize) -> (r:
    Option<i64>)
    ensures
        r == (if graph_edges(*g).contains_key((a, b)) {
            Some(graph_edges(*g)[(a, b)])
        } else {
            None::<i64>
        }),
{
    g.edge_weight(a, b).copied()
}

/// Relies on petgraph's GraphMap::edges on a directed graph: the outgoing
/// edges of `a`, each exactly once, in unspecified order; empty when `a`
/// is not a node.
#[verifier::external_body]
pub(crate) fn graph_edges_from(g: &DiGraph, a: usize) -> (r: Vec<
    (usize, i64),
>)
    ensures
        forall|q1: int, q2: int| 0 <= q1 < q2 < r@.len()
            ==> (#[trigger] r@[q1]).0 != (#[trigger] r@[q2]).0,
        forall|q: int| 0 <= q < r@.len() ==> {
            let tw = #[trigger] r@[q];
            graph_edges(*g).contains_key((a, tw.0)) && graph_edges(*g)[(a, tw.0)] == tw.1
        },
        forall|b: usize| graph_edges(*g).contains_key((a, b))
            ==> exists|q: int| 0 <= q < r@.len() && (#[trigger] r@[q]).0 == b,
{
    g.edges(a).map(|e: (usize, usize, &i64)| (e.1, *e.2)).collect()
}

/// A walk through the edge map: at least one vertex, and consecutive
/// vertices joined by edges.
pub open spec fn is_path(edges: Map<(usize, usize), i64>, p: Seq<usize>) -> bool {
    &&& p.len() >= 1
    &&& forall|q: int| 0 <= q < p.len() - 1 ==> edges.contains_key(((#[trigger] p[q]), p[q + 1]))
}

/// The total weight of a walk.
pub open spec fn path_cost(edges: Map<(usize, usize), i64>, p: Seq<usize>) -> int
    decreases p.len(),
{
    if p.len() <= 1 {
        0
    } else {
        edges[(p[0], p[1])] + path_cost(edges, p.drop_first())
    }
}

/// A walk from `a` to `b`.
pub open spec fn connects(edges: Map<(usize, usize), i64>, p: Seq<usize>, a: usize, b: usize) -> bool {
    &&& is_path(edges, p)
    &&& p.first() == a
    &&& p.last() == b
}

/// `b` can be reached from `a` along the edges; every vertex reaches itself.
pub open spec fn reachable(edges: Map<(usize, usize), i64>, a: usize, b: usize) -> bool {
    exists|p: Seq<usize>| connects(edges, p, a, b)
}

/// `d` is the least cost of any walk from `a` to `b`.
pub open spec fn is_shortest_dist(edges: Map<(usize, usize), i64>, a: usize, b: usize, d: i64) -> bool {
    &&& exists|p: Seq<usize>| connects(edges, p, a, b) && path_cost(edges, p) == d
    &&& forall|p: Seq<usize>| connects(edges, p, a, b) ==> path_cost(edges, p) >= d
}

/// Relies on petgraph's dijkstra with the stored weight as edge cost: it
/// computes the least walk cost from `source` to every reachable vertex,
/// listed once each, in unspecified order. The weight and size bounds keep
/// every intermediate cost sum below `i64::MAX`, so the call cannot
/// overflow: each sum is at most one edge weight above a settled least
/// cost, and a least cost is below the node count times the weight bound.
#[verifier::external_body]
pub(crate) fn graph_dijkstra(g: &DiGraph, source: usize) -> (r: Vec<
    (usize, i64),
>)
    requires
        graph_nodes(*g).finite(),
        forall|e: (usize, usize)| #[trigger] graph_edges(*g).contains_key(e)
            ==> 0 <= graph_edges(*g)[e] < SECONDS_PER_DAY,
        graph_nodes(*g).len() * (SECONDS_PER_DAY as int) <= i64::MAX,
    ensures
        forall|q1: int, q2: int| 0 <= q1 < q2 < r@.len()
            ==> (#[trigger] r@[q1]).0 != (#[trigger] r@[q2]).0,
        forall|q: int| 0 <= q < r@.len() ==> is_shortest_dist(
            graph_edges(*g),
            source,
            (#[trigger] r@[q]).0,
            r@[q].1,
        ),
        forall|v: usize| reachable(graph_edges(*g), source, v)
            ==> exists|q: int| 0 <= q < r@.len() && (#[trigger] r@[q]).0 == v,
{
    petgraph::algo::dijkstra(g, source, None, |e: (usize, usize, &i64)| *e.2)
        .into_iter()
        .collect()
}

/// Relies on petgraph's astar with the zero heuristic, which never
/// overestimates, so the returned walk is optimal. The same bounds as for
/// dijkstra keep every intermediate cost sum below `i64::MAX`.
#[verifier::external_body]
pub(crate) fn graph_astar_zero(
    g: &DiGraph,
    source: usize,
    target: usize,
) -> (r: Option<(i64, Vec<usize>)>)
    requires
        graph_nodes(*g).finite(),
        forall|e: (usize, usize)| #[trigger] graph_edges(*g).contains_key(e)
            ==> 0 <= graph_edges(*g)[e] < SECONDS_PER_DAY,
        graph_nodes(*g).len() * (SECONDS_PER_DAY as int) <= i64::MAX,
    ensures
        match r {
            Some(cp) => connects(graph_edges(*g), cp.1@, source, target) && path_cost(
                graph_edges(*g),
                cp.1@,
            ) == cp.0 && is_shortest_dist(graph_edges(*g), source, target, cp.0),
            None => !reachable(graph_edges(*g), source, target),
        },
{
    petgraph::algo::astar(
        g,
        source,
        |f: usize| f == target,
        |e: (usize, usize, &i64)| *e.2,
        |_| 0,
    )
}

} // verus!
