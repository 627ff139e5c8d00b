//! The graph that holds a circuit's nodes and edges, as far as the circuit
//! relies on it. Nothing here is proved: each function states what the
//! graph library's own code does.

use crate::gates::GraphNode;
use petgraph::stable_graph::StableGraph;
use petgraph::visit::{EdgeRef, IntoEdgeReferences};
use petgraph::{Directed, Direction};
use vstd::prelude::*;

verus! {

/// `petgraph::stable_graph::StableGraph`: a graph whose indices stay put
/// when nodes or edges leave. Nothing is known of it but what the functions
/// below state.
#[verifier::external_type_specification]
#[verifier::external_body]
#[verifier::reject_recursive_types(N)]
#[verifier::reject_recursive_types(E)]
#[verifier::reject_recursive_types(Ty)]
#[verifier::reject_recursive_types(Ix)]
pub struct ExStableGraph<N, E, Ty, Ix>(StableGraph<N, E, Ty, Ix>);

/// `petgraph::Directed`: the mark of a graph whose edges have a direction.
#[verifier::external_type_specification]
#[verifier::external_body]
pub struct ExDirected(Directed);

/// `petgraph::Direction`: `Outgoing` or `Incoming`.
#[verifier::external_type_specification]
pub struct ExDirection(Direction);

/// A directed graph with stable indices whose nodes are circuit nodes and
/// whose edges carry a slot.
pub type Store = StableGraph<GraphNode, u64, Directed, u32>;

/// The nodes of the graph: each index in use, with the node stored at it.
pub uninterp spec fn store_nodes(g: Store) -> Map<u32, GraphNode>;

/// The edges of the graph: each index in use, with the edge's source, its
/// target and its weight.
pub uninterp spec fn store_edges(g: Store) -> Map<u32, (u32, u32, u64)>;

/// The indices of the nodes that were taken out and whose index was not
/// handed out again, the one taken out last first: the graph's list of
/// vacant node indices.
pub uninterp spec fn store_free_nodes(g: Store) -> Seq<u32>;

/// The end of an edge that `edges_directed` looks at: the target of an
/// incoming edge, the source of an outgoing one.
pub open spec fn near_end(edge: (u32, u32, u64), dir: Direction) -> u32 {
    match dir {
        Direction::Incoming => edge.1,
        Direction::Outgoing => edge.0,
    }
}

/// `StableGraph::default`: a graph without nodes and edges, and with no
/// vacant index.
#[verifier::external_body]
pub(crate) fn store_new() -> (g: Store)
    ensures
        store_nodes(g) == (Map::<u32, GraphNode>::empty()),
        store_edges(g) == (Map::<u32, (u32, u32, u64)>::empty()),
        store_free_nodes(g) == (Seq::<u32>::empty()),
{
    StableGraph::default()
}

/// `StableGraph::clone`: a graph with the same nodes and edges at the same
/// indices, and the same vacant indices.
#[verifier::external_body]
pub(crate) fn store_clone(g: &Store) -> (r: Store)
    ensures
        store_nodes(r) == store_nodes(*g),
        store_edges(r) == store_edges(*g),
        store_free_nodes(r) == store_free_nodes(*g),
{
    g.clone()
}

/// `StableGraph::node_count`: the number of nodes.
#[verifier::external_body]
pub(crate) fn store_node_count(g: &Store) -> (n: usize)
    ensures
        n == store_nodes(*g).len(),
{
    g.node_count()
}

/// `StableGraph::edge_count`: the number of edges.
#[verifier::external_body]
pub(crate) fn store_edge_count(g: &Store) -> (n: usize)
    ensures
        n == store_edges(*g).len(),
{
    g.edge_count()
}

/// `StableGraph::add_node`: stores the node at an index that was not in use
/// and returns the index: the first of the vacant indices, which is vacant
/// no more, or with none vacant the number of nodes. The library panics when
/// all indices below `u32::MAX` are in use, which `requires` rules out.
#[verifier::external_body]
pub(crate) fn store_add_node(g: &mut Store, weight: GraphNode) -> (a: u32)
    requires
        store_nodes(*old(g)).dom().finite(),
        store_nodes(*old(g)).len() < u32::MAX,
    ensures
        !store_nodes(*old(g)).contains_key(a),
        store_nodes(*final(g)) == store_nodes(*old(g)).insert(a, weight),
        store_edges(*final(g)) == store_edges(*old(g)),
        store_free_nodes(*old(g)).len() == 0 ==> a == store_nodes(*old(g)).len()
            && store_free_nodes(*final(g)) == store_free_nodes(*old(g)),
        store_free_nodes(*old(g)).len() > 0 ==> a == store_free_nodes(*old(g))[0]
            && store_free_nodes(*final(g)) == store_free_nodes(*old(g)).skip(1),
{
    g.add_node(weight).index() as u32
}

/// `StableGraph::add_edge`: stores an edge from `a` to `b` at an index that
/// was not in use and returns the index. The library panics when an end is
/// no node or all indices below `u32::MAX` are in use, which `requires` rules
/// out.
#[verifier::external_body]
pub(crate) fn store_add_edge(g: &mut Store, a: u32, b: u32, weight: u64) -> (e: u32)
    requires
        store_nodes(*old(g)).contains_key(a),
        store_nodes(*old(g)).contains_key(b),
        store_edges(*old(g)).dom().finite(),
        store_edges(*old(g)).len() < u32::MAX,
    ensures
        !store_edges(*old(g)).contains_key(e),
        store_edges(*final(g)) == store_edges(*old(g)).insert(e, (a, b, weight)),
        store_nodes(*final(g)) == store_nodes(*old(g)),
        store_free_nodes(*final(g)) == store_free_nodes(*old(g)),
{
    g.add_edge(
        petgraph::graph::NodeIndex::new(a as usize),
        petgraph::graph::NodeIndex::new(b as usize),
        weight,
    ).index() as u32
}

/// `StableGraph::remove_edge`: takes the edge out and returns its weight;
/// `None`, and nothing changes, where `e` is no edge.
#[verifier::external_body]
pub(crate) fn store_remove_edge(g: &mut Store, e: u32) -> (w: Option<u64>)
    ensures
        w == (if store_edges(*old(g)).contains_key(e) {
            Some(store_edges(*old(g))[e].2)
        } else {
            None
        }),
        store_edges(*final(g)) == store_edges(*old(g)).remove(e),
        store_nodes(*final(g)) == store_nodes(*old(g)),
        store_free_nodes(*final(g)) == store_free_nodes(*old(g)),
{
    g.remove_edge(petgraph::graph::EdgeIndex::new(e as usize))
}

/// `StableGraph::remove_node`: takes the node out, and with it every edge
/// that starts or ends at it, and returns the node; its index becomes the
/// first of the vacant ones. `None`, and nothing changes, where `a` is no
/// node.
#[verifier::external_body]
pub(crate) fn store_remove_node(g: &mut Store, a: u32) -> (w: Option<GraphNode>)
    ensures
        w == (if store_nodes(*old(g)).contains_key(a) {
            Some(store_nodes(*old(g))[a])
        } else {
            None
        }),
        store_nodes(*final(g)) == store_nodes(*old(g)).remove(a),
        store_nodes(*old(g)).contains_key(a) ==> store_edges(*final(g)) == Map::new(
            |e: u32|
                store_edges(*old(g)).contains_key(e) && store_edges(*old(g))[e].0 != a
                    && store_edges(*old(g))[e].1 != a,
            |e: u32| store_edges(*old(g))[e],
        ),
        !store_nodes(*old(g)).contains_key(a) ==> store_edges(*final(g)) == store_edges(*old(g)),
        store_free_nodes(*final(g)) == (if store_nodes(*old(g)).contains_key(a) {
            seq![a] + store_free_nodes(*old(g))
        } else {
            store_free_nodes(*old(g))
        }),
{
    g.remove_node(petgraph::graph::NodeIndex::new(a as usize))
}

/// `StableGraph::node_weight`: the node stored at `a`, if any.
#[verifier::external_body]
pub(crate) fn store_node_weight(g: &Store, a: u32) -> (w: Option<GraphNode>)
    ensures
        w == (if store_nodes(*g).contains_key(a) {
            Some(store_nodes(*g)[a])
        } else {
            None
        }),
{
    g.node_weight(petgraph::graph::NodeIndex::new(a as usize)).copied()
}

/// `StableGraph::node_weight_mut`, written through: replaces the node
/// stored at `a`.
#[verifier::external_body]
pub(crate) fn store_set_node_weight(g: &mut Store, a: u32, weight: GraphNode)
    requires
        store_nodes(*old(g)).contains_key(a),
    ensures
        store_nodes(*final(g)) == store_nodes(*old(g)).insert(a, weight),
        store_edges(*final(g)) == store_edges(*old(g)),
        store_free_nodes(*final(g)) == store_free_nodes(*old(g)),
{
    if let Some(slot) = g.node_weight_mut(petgraph::graph::NodeIndex::new(a as usize)) {
        *slot = weight;
    }
}

/// `StableGraph::node_indices`: the indices of all nodes, in increasing order.
#[verifier::external_body]
pub(crate) fn store_node_indices(g: &Store) -> (v: Vec<u32>)
    ensures
        forall|i: int, j: int| 0 <= i < j < v@.len() ==> v@[i] < v@[j],
        forall|i: int| 0 <= i < v@.len() ==> store_nodes(*g).contains_key(#[trigger] v@[i]),
        forall|a: u32| store_nodes(*g).contains_key(a) ==> v@.contains(a),
{
    g.node_indices().map(|n| n.index() as u32).collect()
}

/// `StableGraph::edges_directed`: the edges that end at `a` (incoming) or
/// start at it (outgoing), each once, as index, source, target and weight.
/// Nothing is said of their order.
#[verifier::external_body]
pub(crate) fn store_edges_directed(g: &Store, a: u32, dir: Direction) -> (v: Vec<
    (u32, u32, u32, u64),
>)
    ensures
        forall|i: int|
            0 <= i < v@.len() ==> {
                let r = #[trigger] v@[i];
                &&& store_edges(*g).contains_key(r.0)
                &&& store_edges(*g)[r.0] == (r.1, r.2, r.3)
                &&& near_end(store_edges(*g)[r.0], dir) == a
            },
        forall|i: int, j: int| 0 <= i < j < v@.len() ==> v@[i].0 != v@[j].0,
        forall|e: u32|
            store_edges(*g).contains_key(e) && near_end(#[trigger] store_edges(*g)[e], dir) == a
                ==> exists|i: int| 0 <= i < v@.len() && v@[i].0 == e,
{
    g.edges_directed(petgraph::graph::NodeIndex::new(a as usize), dir).map(
        |e| (e.id().index() as u32, e.source().index() as u32, e.target().index() as u32, *e.weight()),
    ).collect()
}

/// `StableGraph::edge_references`: all edges, in increasing order of their
/// indices, as index, source, target and weight.
#[verifier::external_body]
pub(crate) fn store_edge_references(g: &Store) -> (v: Vec<(u32, u32, u32, u64)>)
    ensures
        forall|i: int|
            0 <= i < v@.len() ==> {
                let r = #[trigger] v@[i];
                &&& store_edges(*g).contains_key(r.0)
                &&& store_edges(*g)[r.0] == (r.1, r.2, r.3)
            },
        forall|i: int, j: int| 0 <= i < j < v@.len() ==> v@[i].0 < v@[j].0,
        forall|e: u32|
            store_edges(*g).contains_key(e) ==> exists|i: int|
                0 <= i < v@.len() && (#[trigger] v@[i]).0 == e,
{
    g.edge_references().map(
        |e| (e.id().index() as u32, e.source().index() as u32, e.target().index() as u32, *e.weight()),
    ).collect()
}

} // verus!
