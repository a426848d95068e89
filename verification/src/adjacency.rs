//! The board's adjacency graph, held in a petgraph undirected graph.
//!
//! The graph is modeled by two uninterpreted names: the sequence of node
//! weights in index order, and the multiset of its edges as inserted, each
//! edge a directed endpoint pair together with its weight (the board stores
//! the adjacency direction there). Every petgraph call the board logic makes
//! goes through one trusted wrapper below, whose contract states over those
//! names what petgraph's source shows.

use vstd::prelude::*;
use vstd::multiset::Multiset;

verus! {

#[verifier::external_type_specification]
#[verifier::external_body]
#[verifier::reject_recursive_types(N)]
#[verifier::reject_recursive_types(E)]
#[verifier::reject_recursive_types(Ty)]
#[verifier::reject_recursive_types(Ix)]
pub struct ExGraph<N, E, Ty, Ix>(petgraph::graph::Graph<N, E, Ty, Ix>);

#[verifier::external_type_specification]
#[verifier::external_body]
pub struct ExUndirected(petgraph::Undirected);

/// The concrete graph the board uses: node weights are the board slot each
/// node was created for, edge weights encode the adjacency direction.
pub type AdjacencyGraph = petgraph::graph::Graph<u64, u8, petgraph::Undirected, usize>;

/// The node weights of `g`, in node-index order.
pub uninterp spec fn graph_nodes(g: AdjacencyGraph) -> Seq<u64>;

/// The edges of `g`, one entry per edge: the endpoints in the orientation
/// the edge was inserted with, and the numeric weight it was inserted with
/// (the board stores the adjacency direction there).
pub uninterp spec fn graph_edges(g: AdjacencyGraph) -> Multiset<(int, int, int)>;

/// Some edge of `g` joins `x` and `y`, in either orientation and under any
/// weight; on an undirected graph this is the relation traversals follow.
pub open spec fn edge_connects(es: Multiset<(int, int, int)>, x: int, y: int) -> bool {
    exists|w: int|
        #![trigger es.count((x, y, w))]
        #![trigger es.count((y, x, w))]
        es.count((x, y, w)) > 0 || es.count((y, x, w)) > 0
}

/// Node `b` can be reached from node `a` in at most `k` hops over the edges
/// in `es`, passing only through nodes below `n`.
pub open spec fn reach_within(es: Multiset<(int, int, int)>, n: int, a: int, b: int, k: nat) -> bool
    decreases k,
{
    a == b || (k > 0 && exists|c: int|
        0 <= c < n && edge_connects(es, a, c) && reach_within(es, n, c, b, (k - 1) as nat))
}

/// Node `b` is reachable from node `a` over the edges in `es`.
pub open spec fn reaches(es: Multiset<(int, int, int)>, n: int, a: int, b: int) -> bool {
    exists|k: nat| reach_within(es, n, a, b, k)
}

/// The set of nodes of a graph with `n` nodes that are reachable from
/// `start` over the edges in `es`.
pub open spec fn reachable_set(es: Multiset<(int, int, int)>, n: int, start: int) -> Set<int> {
    Set::new(|x: int| 0 <= x < n && reaches(es, n, start, x))
}

/// Old index `x` after the swap removal of index `removed` from a graph
/// whose highest index was `last`: the last node adopts the removed index.
pub open spec fn swap_relabel(x: int, removed: int, last: int) -> int {
    if x == removed {
        last
    } else {
        x
    }
}

/// Relies on petgraph's Graph::with_capacity: the new graph has no nodes
/// and no edges.
#[verifier::external_body]
pub(crate) fn graph_new() -> (g: AdjacencyGraph)
    ensures
        graph_nodes(g) == Seq::<u64>::empty(),
        graph_edges(g) == Multiset::<(int, int, int)>::empty(),
{
    petgraph::graph::Graph::with_capacity(0, 0)
}

/// Relies on petgraph's Graph::add_node: it appends one node whose index is
/// the previous node count, and touches no edge. With the usize index type
/// the graph cannot reach the index limit at which add_node would panic.
#[verifier::external_body]
pub(crate) fn graph_add_node(g: &mut AdjacencyGraph, w: u64) -> (i: usize)
    ensures
        graph_nodes(*final(g)) == graph_nodes(*old(g)).push(w),
        graph_edges(*final(g)) == graph_edges(*old(g)),
        i == graph_nodes(*old(g)).len(),
{
    g.add_node(w).index()
}

/// Relies on petgraph's Graph::add_edge: it records one more edge from `a`
/// to `b` carrying weight `w` (parallel edges are allowed) and changes
/// nothing else. add_edge panics on missing nodes, so those are required
/// away; with the usize index type the edge-index limit at which it would
/// also panic cannot be reached.
#[verifier::external_body]
pub(crate) fn graph_add_edge(g: &mut AdjacencyGraph, a: usize, b: usize, w: u8)
    requires
        a < graph_nodes(*old(g)).len(),
        b < graph_nodes(*old(g)).len(),
    ensures
        graph_nodes(*final(g)) == graph_nodes(*old(g)),
        graph_edges(*final(g)) == graph_edges(*old(g)).insert((a as int, b as int, w as int)),
{
    g.add_edge(
        petgraph::graph::NodeIndex::new(a),
        petgraph::graph::NodeIndex::new(b),
        w,
    );
}

/// Relies on petgraph's Graph::contains_edge: on an undirected graph it
/// reports whether some edge joins `a` and `b`, in either orientation.
#[verifier::external_body]
pub(crate) fn graph_contains_edge(g: &AdjacencyGraph, a: usize, b: usize) -> (r: bool)
    ensures
        r == edge_connects(graph_edges(*g), a as int, b as int),
{
    g.contains_edge(
        petgraph::graph::NodeIndex::new(a),
        petgraph::graph::NodeIndex::new(b),
    )
}

/// Relies on petgraph's Graph::edge_count: the number of edges in the graph.
#[verifier::external_body]
pub(crate) fn graph_edge_count(g: &AdjacencyGraph) -> (r: usize)
    ensures
        r == graph_edges(*g).len(),
{
    g.edge_count()
}

/// Relies on petgraph's Clone for Graph: the clone keeps the same nodes and
/// edges under the same indices.
#[verifier::external_body]
pub(crate) fn graph_clone(g: &AdjacencyGraph) -> (c: AdjacencyGraph)
    ensures
        graph_nodes(c) == graph_nodes(*g),
        graph_edges(c) == graph_edges(*g),
{
    g.clone()
}

/// Relies on petgraph's Graph::remove_node: node `a` and every edge touching
/// it are removed; the node that held the highest index adopts index `a`
/// (swap removal), and every other edge keeps its endpoints relabelled the
/// same way.
#[verifier::external_body]
pub(crate) fn graph_remove_node(g: &mut AdjacencyGraph, a: usize)
    requires
        a < graph_nodes(*old(g)).len(),
    ensures
        graph_nodes(*final(g)) == graph_nodes(*old(g)).update(
            a as int,
            graph_nodes(*old(g)).last(),
        ).drop_last(),
        forall|x: int, y: int, w: int|
            #[trigger] graph_edges(*final(g)).count((x, y, w)) == if 0 <= x
                < graph_nodes(*old(g)).len() - 1 && 0 <= y < graph_nodes(*old(g)).len() - 1 {
                graph_edges(*old(g)).count(
                    (
                        swap_relabel(x, a as int, graph_nodes(*old(g)).len() - 1),
                        swap_relabel(y, a as int, graph_nodes(*old(g)).len() - 1),
                        w,
                    ),
                )
            } else {
                0nat
            },
{
    g.remove_node(petgraph::graph::NodeIndex::new(a));
}

/// The unit edge cost handed to the shortest-path traversal.
fn unit_cost() -> (r: usize)
    ensures
        r == 1,
{
    1
}

/// Relies on petgraph's algo::dijkstra with unit edge costs: it returns a
/// map holding the path cost of every node reachable from `start`
/// (including `start` itself), so its size is the number of reachable nodes.
#[verifier::external_body]
pub(crate) fn graph_reachable_count(g: &AdjacencyGraph, start: usize) -> (r: usize)
    requires
        start < graph_nodes(*g).len(),
    ensures
        r == reachable_set(graph_edges(*g), graph_nodes(*g).len() as int, start as int).len(),
{
    petgraph::algo::dijkstra(&*g, petgraph::graph::NodeIndex::new(start), None, |_e| unit_cost())
        .len()
}

} // verus!
