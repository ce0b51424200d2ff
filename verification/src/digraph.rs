//! The rename dependency graph, kept in a `petgraph` graph.
//!
//! Nodes carry no weight: a node is known by its index, and the planner keeps
//! the path of each node in a table of its own. What the graph holds is
//! described by two names, [`graph_node_count`] and [`graph_edges`]; the
//! functions below that call into `petgraph` are believed, not proved.

use petgraph::algo::toposort;
use petgraph::graph::EdgeIndex;
use petgraph::graph::Graph;
use petgraph::graph::NodeIndex;
use petgraph::visit::EdgeRef;
use petgraph::Directed;
use vstd::prelude::*;

verus! {

/// `petgraph::graph::Graph`, taken as it is: nothing is known of a graph
/// but what the functions of this module say of it.
#[verifier::external_type_specification]
#[verifier::external_body]
#[verifier::reject_recursive_types(N)]
#[verifier::reject_recursive_types(E)]
#[verifier::reject_recursive_types(Ty)]
#[verifier::reject_recursive_types(Ix)]
pub struct ExGraph<N, E, Ty, Ix>(Graph<N, E, Ty, Ix>);

/// `petgraph::Directed`, the marker of graphs with directed edges.
#[verifier::external_type_specification]
#[verifier::external_body]
pub struct ExDirected(Directed);

/// A directed graph without weights, indexed by `u32` as `petgraph` does by default.
pub type RenameGraph = Graph<(), (), Directed, u32>;

/// The number of nodes of the graph; its nodes are `0 .. graph_node_count(g)`.
pub uninterp spec fn graph_node_count(g: RenameGraph) -> nat;

/// The edges of the graph as `(source, target)` pairs, at their edge indices.
pub uninterp spec fn graph_edges(g: RenameGraph) -> Seq<(int, int)>;

/// `Graph::new`: a graph without nodes or edges.
#[verifier::external_body]
pub(crate) fn graph_new() -> (g: RenameGraph)
    ensures
        graph_node_count(g) == 0,
        graph_edges(g) == Seq::<(int, int)>::empty(),
{
    Graph::new()
}

/// `Graph::add_node`: appends a node and returns its index, which is the
/// previous node count. The edges stay as they are. `petgraph` panics when the
/// index type is exhausted, hence the bound.
#[verifier::external_body]
pub(crate) fn graph_add_node(g: &mut RenameGraph) -> (index: usize)
    requires
        graph_node_count(*old(g)) < u32::MAX,
    ensures
        index == graph_node_count(*old(g)),
        graph_node_count(*final(g)) == graph_node_count(*old(g)) + 1,
        graph_edges(*final(g)) == graph_edges(*old(g)),
{
    g.add_node(()).index()
}

/// `Graph::add_edge`: appends the edge `a -> b` and returns its index, which
/// is the previous edge count. `petgraph` panics on a node that does not
/// exist and when the index type is exhausted, hence the bounds.
#[verifier::external_body]
pub(crate) fn graph_add_edge(g: &mut RenameGraph, a: usize, b: usize) -> (index: usize)
    requires
        a < graph_node_count(*old(g)),
        b < graph_node_count(*old(g)),
        graph_edges(*old(g)).len() < u32::MAX,
    ensures
        index == graph_edges(*old(g)).len(),
        graph_node_count(*final(g)) == graph_node_count(*old(g)),
        graph_edges(*final(g)) == graph_edges(*old(g)).push((a as int, b as int)),
{
    g.add_edge(NodeIndex::new(a), NodeIndex::new(b), ()).index()
}

/// `Graph::update_edge`: where an edge `a -> b` exists the edges stay as they
/// are and the index of such an edge comes back; otherwise the edge is
/// appended as by `Graph::add_edge`.
#[verifier::external_body]
pub(crate) fn graph_update_edge(g: &mut RenameGraph, a: usize, b: usize) -> (index: usize)
    requires
        a < graph_node_count(*old(g)),
        b < graph_node_count(*old(g)),
        graph_edges(*old(g)).len() < u32::MAX,
    ensures
        graph_node_count(*final(g)) == graph_node_count(*old(g)),
        graph_edges(*old(g)).contains((a as int, b as int)) ==> {
            &&& graph_edges(*final(g)) == graph_edges(*old(g))
            &&& index < graph_edges(*old(g)).len()
            &&& graph_edges(*old(g))[index as int] == (a as int, b as int)
        },
        !graph_edges(*old(g)).contains((a as int, b as int)) ==> {
            &&& graph_edges(*final(g)) == graph_edges(*old(g)).push((a as int, b as int))
            &&& index == graph_edges(*old(g)).len()
        },
{
    g.update_edge(NodeIndex::new(a), NodeIndex::new(b), ()).index()
}

/// What is left of `edges` when the edge at index `e` is removed the way
/// `petgraph` does it: the last edge takes the index of the removed one.
pub open spec fn swap_removed(edges: Seq<(int, int)>, e: int) -> Seq<(int, int)>
    recommends
        0 <= e < edges.len(),
{
    edges.update(e, edges.last()).drop_last()
}

/// `Graph::remove_edge`: removes the edge at index `e`; the last edge adopts
/// that index, the other edges and the nodes stay.
#[verifier::external_body]
pub(crate) fn graph_remove_edge(g: &mut RenameGraph, e: usize)
    requires
        e < graph_edges(*old(g)).len(),
    ensures
        graph_node_count(*final(g)) == graph_node_count(*old(g)),
        graph_edges(*final(g)) == swap_removed(graph_edges(*old(g)), e as int),
{
    g.remove_edge(EdgeIndex::new(e));
}

/// `Graph::edges`: the outgoing edges of node `a`, each as its edge index and
/// its target. Every edge that starts at `a` is listed once; the order is
/// left open.
#[verifier::external_body]
pub(crate) fn graph_out_edges(g: &RenameGraph, a: usize) -> (out: Vec<(usize, usize)>)
    requires
        a < graph_node_count(*g),
    ensures
        forall|k: int|
            0 <= k < out@.len() ==> {
                &&& (#[trigger] out@[k]).0 < graph_edges(*g).len()
                &&& graph_edges(*g)[out@[k].0 as int] == (a as int, out@[k].1 as int)
            },
        forall|e: int|
            0 <= e < graph_edges(*g).len() && (#[trigger] graph_edges(*g)[e]).0 == a
                ==> exists|k: int| 0 <= k < out@.len() && (#[trigger] out@[k]).0 == e,
        forall|k: int, l: int|
            0 <= k < l < out@.len() ==> (#[trigger] out@[k]).0 != (#[trigger] out@[l]).0,
{
    g.edges(NodeIndex::new(a)).map(|e| (e.id().index(), e.target().index())).collect()
}

/// Whether `walk[i] -> walk[i + 1]` is an edge.
pub open spec fn is_hop(edges: Seq<(int, int)>, walk: Seq<int>, i: int) -> bool {
    edges.contains((walk[i], walk[i + 1]))
}

/// A walk follows an edge from each of its nodes to the next.
pub open spec fn is_walk(edges: Seq<(int, int)>, walk: Seq<int>) -> bool {
    forall|i: int| 0 <= i < walk.len() - 1 ==> #[trigger] is_hop(edges, walk, i)
}

/// Node `n` lies on a cycle: a walk of at least one edge leads from `n` back to `n`.
pub open spec fn on_cycle(edges: Seq<(int, int)>, n: int) -> bool {
    exists|walk: Seq<int>|
        walk.len() >= 2 && walk[0] == n && walk.last() == n && #[trigger] is_walk(edges, walk)
}

/// Node `a` stands somewhere in `order`.
pub open spec fn lists_node(order: Seq<usize>, a: int) -> bool {
    exists|p: int| 0 <= p < order.len() && #[trigger] order[p] == a
}

/// `order` lists each of the nodes `0 .. n` once, and every edge leads from a
/// node to one that is listed later.
pub open spec fn is_topological_order(n: nat, edges: Seq<(int, int)>, order: Seq<usize>) -> bool {
    &&& order.len() == n
    &&& forall|p: int| 0 <= p < n ==> (#[trigger] order[p]) < n
    &&& forall|p: int, q: int| 0 <= p < q < n ==> #[trigger] order[p] != #[trigger] order[q]
    &&& forall|a: int| 0 <= a < n ==> #[trigger] lists_node(order, a)
    &&& forall|p: int, q: int|
        0 <= p < n && 0 <= q < n && #[trigger] edges.contains((order[p] as int, order[q] as int))
            ==> p < q
}

/// `petgraph::algo::toposort` on the whole graph. An acyclic graph yields its
/// nodes in a topological order; otherwise a node that lies on a cycle comes
/// back, as `Cycle::node_id` gives it.
#[verifier::external_body]
pub(crate) fn graph_toposort(g: &RenameGraph) -> (sorted: Result<Vec<usize>, usize>)
    ensures
        sorted matches Ok(order) ==> is_topological_order(
            graph_node_count(*g),
            graph_edges(*g),
            order@,
        ),
        sorted matches Err(n) ==> n < graph_node_count(*g) && on_cycle(graph_edges(*g), n as int),
{
    match toposort(g, None) {
        Ok(order) => Ok(order.into_iter().map(|n| n.index()).collect()),
        Err(cycle) => Err(cycle.node_id().index()),
    }
}

} // verus!
