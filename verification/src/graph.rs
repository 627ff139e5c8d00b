//! The circuit: value nodes and gate nodes joined by slotted edges.

pub mod store;
pub mod view;

use crate::gates::{
    GateStatus, GraphNode, GraphStruct, NodeType, NodeUnitialised, NodeValue, Value,
};
use crate::graph::store::{
    store_add_edge, store_add_node, store_clone, store_edge_count, store_edge_references, store_edges,
    store_edges_directed, store_new, store_node_count, store_node_indices, store_node_weight, store_nodes,
    store_free_nodes, store_remove_edge, store_remove_node, store_set_node_weight, Store,
};
use crate::graph::view::{keep, lemma_keep_step, CircuitView, Edge};
use petgraph::Direction;
use vstd::prelude::*;

pub use crate::graph::view::{EdgeIndex, NodeIndex};

verus! {

/// Why the circuit refused an operation.
#[derive(Debug, Clone, Copy, PartialEq, Eq, Structural)]
pub enum GraphError {
    NotExistentNode,
    NotExistentEdge,
    NonHeterogeneousEdge,
    InvalidUpdate,
}

/// A circuit. Every node and every edge carries a value of the owner's
/// choosing, which the circuit stores and never reads.
#[derive(Debug)]
pub struct PureCircuitGraph<T = (), G = ()> {
    graph: Store,
    node_info: Vec<Option<T>>,
    edge_info: Vec<Option<G>>,
}

impl<T, G> View for PureCircuitGraph<T, G> {
    type V = CircuitView<T, G>;

    closed spec fn view(&self) -> CircuitView<T, G> {
        CircuitView {
            nodes: Map::new(
                |n: NodeIndex| store_nodes(self.graph).contains_key(n.0),
                |n: NodeIndex|
                    GraphStruct {
                        node: store_nodes(self.graph)[n.0],
                        additional_info: self.node_info@[n.0 as int].unwrap(),
                    },
            ),
            edges: Map::new(
                |e: EdgeIndex| store_edges(self.graph).contains_key(e.0),
                |e: EdgeIndex|
                    Edge {
                        source: NodeIndex(store_edges(self.graph)[e.0].0),
                        target: NodeIndex(store_edges(self.graph)[e.0].1),
                        slot: store_edges(self.graph)[e.0].2,
                        info: self.edge_info@[e.0 as int].unwrap(),
                    },
            ),
        }
    }
}

impl<T, G> PureCircuitGraph<T, G> {
    /// Whether what is attached to the nodes and edges is stored for each of
    /// them.
    pub closed spec fn stored(&self) -> bool {
        &&& store_nodes(self.graph).dom().finite()
        &&& store_edges(self.graph).dom().finite()
        &&& forall|a: u32| #[trigger]
            store_nodes(self.graph).contains_key(a) ==> a < self.node_info@.len()
                && self.node_info@[a as int] is Some
        &&& forall|e: u32| #[trigger]
            store_edges(self.graph).contains_key(e) ==> e < self.edge_info@.len()
                && self.edge_info@[e as int] is Some
    }

    /// The number of nodes.
    pub closed spec fn spec_node_count(&self) -> nat {
        store_nodes(self.graph).len()
    }

    /// The number of edges.
    pub closed spec fn spec_edge_count(&self) -> nat {
        store_edges(self.graph).len()
    }

    /// The indices of the nodes that were removed and whose index no new
    /// node has got since, the one removed last first.
    pub closed spec fn free_nodes(&self) -> Seq<NodeIndex> {
        store_free_nodes(self.graph).map_values(|a: u32| NodeIndex(a))
    }

    /// The index that the next new node gets: that of the node removed last
    /// whose index is still free, or the number of nodes where none is.
    pub open spec fn next_node(&self) -> NodeIndex {
        if self.free_nodes().len() > 0 {
            self.free_nodes()[0]
        } else {
            NodeIndex(self.spec_node_count() as u32)
        }
    }

    /// The free indices once a new node has got the first of them.
    pub open spec fn free_nodes_left(&self) -> Seq<NodeIndex> {
        if self.free_nodes().len() > 0 {
            self.free_nodes().skip(1)
        } else {
            self.free_nodes()
        }
    }

    /// Whether the circuit is sound as a structure; the statuses of its
    /// gates may be out of date.
    pub open spec fn structure_wf(&self) -> bool {
        self.stored() && self@.structure_wf()
    }

    /// Whether the circuit is sound and every gate has the status that it
    /// ought to have.
    pub open spec fn wf(&self) -> bool {
        self.stored() && self@.wf()
    }

    /// The number of nodes.
    pub fn node_count(&self) -> (r: usize)
        ensures
            r == self.spec_node_count(),
    {
        store_node_count(&self.graph)
    }

    /// The number of edges.
    pub fn edge_count(&self) -> (r: usize)
        ensures
            r == self.spec_edge_count(),
    {
        store_edge_count(&self.graph)
    }
}

/// A copy of `v`.
pub(crate) fn copied<X: Copy>(v: &Vec<X>) -> (r: Vec<X>)
    ensures
        r@ == v@,
{
    let mut r: Vec<X> = Vec::new();
    let mut k: usize = 0;
    while k < v.len()
        invariant
            k <= v@.len(),
            r@ == v@.take(k as int),
        decreases v@.len() - k,
    {
        r.push(v[k]);
        assert(v@.take(k + 1) =~= v@.take(k as int).push(v@[k as int]));
        k += 1;
    }
    assert(v@.take(k as int) =~= v@);
    r
}

impl<T: Copy, G: Copy> Clone for PureCircuitGraph<T, G> {
    /// A circuit with the same nodes and edges.
    fn clone(&self) -> (r: Self)
        ensures
            r@ == self@,
            r.stored() == self.stored(),
            r.spec_node_count() == self.spec_node_count(),
            r.spec_edge_count() == self.spec_edge_count(),
            r.free_nodes() == self.free_nodes(),
    {
        let r = PureCircuitGraph {
            graph: store_clone(&self.graph),
            node_info: copied(&self.node_info),
            edge_info: copied(&self.edge_info),
        };
        proof {
            assert(r@.nodes =~= self@.nodes);
            assert(r@.edges =~= self@.edges);
        }
        r
    }
}

impl<T, G> Default for PureCircuitGraph<T, G> {
    /// The circuit without nodes.
    fn default() -> (r: Self)
        ensures
            r.wf(),
            r@.nodes == Map::<NodeIndex, GraphStruct<T>>::empty(),
            r@.edges == Map::<EdgeIndex, Edge<G>>::empty(),
            r.spec_node_count() == 0,
            r.spec_edge_count() == 0,
            r.free_nodes().len() == 0,
    {
        let r = PureCircuitGraph { graph: store_new(), node_info: Vec::new(), edge_info: Vec::new() };
        assert(r@.nodes =~= Map::<NodeIndex, GraphStruct<T>>::empty());
        assert(r@.edges =~= Map::<EdgeIndex, Edge<G>>::empty());
        r
    }
}

/// The node that a new node becomes when it enters a circuit: a gate
/// starts without edges, so its arity is not met.
pub open spec fn entered(node: NodeUnitialised) -> GraphNode {
    match node {
        NodeValue::GateNode { gate, .. } => NodeValue::GateNode {
            gate,
            state_type: GateStatus::InvalidArity,
        },
        NodeValue::ValueNode(v) => NodeValue::ValueNode(v),
    }
}

/// An edge as it is found at one of its ends: its index, the node at its
/// other end, and its slot.
#[derive(Debug, Clone, Copy, PartialEq, Eq, Structural)]
pub struct PortEdge {
    pub edge: EdgeIndex,
    pub far: NodeIndex,
    pub slot: u64,
}

/// Whether the slots of `s` never decrease.
pub open spec fn slot_sorted(s: Seq<PortEdge>) -> bool {
    forall|i: int, j: int| 0 <= i < j < s.len() ==> s[i].slot <= s[j].slot
}

/// The edges of `v` by slot, from the least on; edges with the same slot
/// keep their order.
pub fn sorted_by_slot(v: &Vec<PortEdge>) -> (r: Vec<PortEdge>)
    ensures
        slot_sorted(r@),
        r@.to_multiset() == v@.to_multiset(),
        r@.len() == v@.len(),
{
    let mut out: Vec<PortEdge> = Vec::new();
    let mut k: usize = 0;
    assert(v@.take(0) =~= out@);
    while k < v.len()
        invariant
            k <= v@.len(),
            out@.len() == k,
            slot_sorted(out@),
            out@.to_multiset() == v@.take(k as int).to_multiset(),
        decreases v@.len() - k,
    {
        let x = v[k];
        let mut p: usize = 0;
        while p < out.len() && out[p].slot <= x.slot
            invariant
                p <= out@.len(),
                forall|i: int| 0 <= i < p ==> out@[i].slot <= x.slot,
            decreases out@.len() - p,
        {
            p += 1;
        }
        let ghost before = out@;
        out.insert(p, x);
        proof {
            before.insert_ensures(p as int, x);
            vstd::seq_lib::to_multiset_insert(before, p as int, x);
            assert(v@.take(k + 1) =~= v@.take(k as int).push(x));
            vstd::seq_lib::to_multiset_build(v@.take(k as int), x);
            assert forall|i: int, j: int| 0 <= i < j < out@.len() implies out@[i].slot
                <= out@[j].slot by {
                if j < p {
                    assert(out@[i] == before[i] && out@[j] == before[j]);
                } else if j == p {
                    assert(out@[i] == before[i]);
                } else if i < p {
                    assert(out@[i] == before[i] && out@[j] == before[j - 1]);
                } else if i == p {
                    assert(out@[j] == before[j - 1]);
                } else {
                    assert(out@[i] == before[i - 1] && out@[j] == before[j - 1]);
                }
            }
        }
        k += 1;
    }
    assert(v@.take(k as int) =~= v@);
    out
}

/// Lengthens `v` with `None` until it has a position `at`, and stores `x` there.
fn store_at<X>(v: &mut Vec<Option<X>>, at: usize, x: X)
    ensures
        final(v)@.len() > at,
        final(v)@.len() >= old(v)@.len(),
        final(v)@[at as int] == Some(x),
        forall|i: int| 0 <= i < old(v)@.len() && i != at ==> final(v)@[i] == old(v)@[i],
{
    while v.len() <= at
        invariant
            v@.len() >= old(v)@.len(),
            forall|i: int| 0 <= i < old(v)@.len() ==> v@[i] == old(v)@[i],
        decreases at + 1 - v@.len(),
    {
        v.push(None);
    }
    v[at] = Some(x);
}

impl<T, G> PureCircuitGraph<T, G> {
    /// The circuit without nodes.
    pub fn new() -> (r: Self)
        ensures
            r.wf(),
            r@.nodes == Map::<NodeIndex, GraphStruct<T>>::empty(),
            r@.edges == Map::<EdgeIndex, Edge<G>>::empty(),
            r.spec_node_count() == 0,
            r.spec_edge_count() == 0,
            r.free_nodes().len() == 0,
    {
        Self::default()
    }

    /// The node at `index`, if there is one.
    pub fn node(&self, index: NodeIndex) -> (r: Option<GraphNode>)
        ensures
            r == (if self@.nodes.contains_key(index) {
                Some(self@.nodes[index].node)
            } else {
                None
            }),
    {
        store_node_weight(&self.graph, index.0)
    }

    /// The node at `index` with what is attached to it, if there is one.
    pub fn node_weight(&self, index: NodeIndex) -> (r: Option<GraphStruct<T>>) where T: Copy
        requires
            self.stored(),
        ensures
            r == (if self@.nodes.contains_key(index) {
                Some(self@.nodes[index])
            } else {
                None
            }),
    {
        match store_node_weight(&self.graph, index.0) {
            Some(node) => {
                match self.node_info[index.index()] {
                    Some(additional_info) => Some(GraphStruct { node, additional_info }),
                    None => None,
                }
            },
            None => None,
        }
    }

    /// Adds a node, with `additional_info` attached, and returns its index:
    /// that of the node removed last whose index is still free, or the
    /// number of nodes where none is. A gate enters with the status
    /// `InvalidArity`, a value node with its value. Nothing else changes.
    pub fn add_node(&mut self, node: NodeUnitialised, additional_info: T) -> (r: NodeIndex)
        requires
            old(self).wf(),
            old(self).spec_node_count() < u32::MAX,
        ensures
            final(self).wf(),
            r == old(self).next_node(),
            final(self).free_nodes() == old(self).free_nodes_left(),
            !old(self)@.nodes.contains_key(r),
            final(self)@.nodes == old(self)@.nodes.insert(
                r,
                GraphStruct { node: entered(node), additional_info },
            ),
            final(self)@.edges == old(self)@.edges,
            final(self).spec_node_count() == old(self).spec_node_count() + 1,
            final(self).spec_edge_count() == old(self).spec_edge_count(),
    {
        let weight = match node {
            NodeValue::GateNode { gate: g, .. } => GraphNode::GateNode {
                gate: g,
                state_type: GateStatus::InvalidArity,
            },
            NodeValue::ValueNode(v) => NodeValue::ValueNode(v),
        };
        let a = store_add_node(&mut self.graph, weight);
        store_at(&mut self.node_info, a as usize, additional_info);
        let r = NodeIndex(a);
        proof {
            let before = old(self)@;
            let after = self@;
            assert(after.nodes =~= before.nodes.insert(
                r,
                GraphStruct { node: entered(node), additional_info },
            ));
            assert(after.edges =~= before.edges);
            assert forall|n: NodeIndex| after.is_gate(n) implies after.status_ok(n)
                && after.is_listing(n, Direction::Incoming, after.listing(n, Direction::Incoming))
                && after.is_listing(
                n,
                Direction::Outgoing,
                after.listing(n, Direction::Outgoing),
            ) by {
                if n == r {
                    assert forall|e: EdgeIndex, d: Direction| !after.incident(e, r, d) by {
                        if after.edges.contains_key(e) {
                            assert(before.edges.contains_key(e));
                        }
                    }
                    after.lemma_no_edges(r, Direction::Incoming);
                    after.lemma_no_edges(r, Direction::Outgoing);
                } else {
                    assert(before.is_gate(n));
                    assert(before.is_listing(
                        n,
                        Direction::Incoming,
                        before.listing(n, Direction::Incoming),
                    ));
                    assert(before.is_listing(
                        n,
                        Direction::Outgoing,
                        before.listing(n, Direction::Outgoing),
                    ));
                    assert(before.same_wiring(after, n)) by {
                        assert forall|e: EdgeIndex, d: Direction| #[trigger]
                            before.incident(e, n, d) implies before.value_at(
                            before.edges[e].far(d),
                        ) == after.value_at(before.edges[e].far(d)) by {
                            assert(before.edges.contains_key(e));
                        }
                    }
                    before.lemma_same_wiring(after, n);
                    assert(before.nodes.contains_key(n));
                    assert(before.status_ok(n));
                }
            }
            assert forall|n: NodeIndex, dir: Direction| after.is_gate(n) implies #[trigger]
                after.is_listing(n, dir, after.listing(n, dir)) by {
                match dir {
                    Direction::Incoming => {},
                    Direction::Outgoing => {},
                }
            }
            assert forall|e: EdgeIndex| #[trigger] after.edges.contains_key(e) implies {
                &&& after.nodes.contains_key(after.edges[e].source)
                &&& after.nodes.contains_key(after.edges[e].target)
                &&& after.is_gate(after.edges[e].source) != after.is_gate(after.edges[e].target)
                &&& after.edges[e].slot >= 1
            } by {
                assert(before.edges.contains_key(e));
            }
        }
        r
    }

    /// The edges found at `n` in direction `dir`, each once, in no
    /// particular order.
    pub fn incident_edges(&self, n: NodeIndex, dir: Direction) -> (r: Vec<PortEdge>)
        ensures
            forall|i: int|
                0 <= i < r@.len() ==> {
                    let p = #[trigger] r@[i];
                    &&& self@.incident(p.edge, n, dir)
                    &&& p.far == self@.edges[p.edge].far(dir)
                    &&& p.slot == self@.edges[p.edge].slot
                },
            forall|i: int, j: int| 0 <= i < j < r@.len() ==> r@[i].edge != r@[j].edge,
            forall|e: EdgeIndex|
                self@.incident(e, n, dir) ==> exists|i: int|
                    0 <= i < r@.len() && r@[i].edge == e,
    {
        let found = store_edges_directed(&self.graph, n.0, dir);
        let mut out: Vec<PortEdge> = Vec::new();
        let mut k: usize = 0;
        while k < found.len()
            invariant
                k <= found@.len(),
                out@.len() == k,
                forall|i: int|
                    0 <= i < k ==> {
                        let p = #[trigger] out@[i];
                        let f = found@[i];
                        &&& p.edge == EdgeIndex(f.0)
                        &&& p.slot == f.3
                        &&& p.far == NodeIndex(
                            match dir {
                                Direction::Incoming => f.1,
                                Direction::Outgoing => f.2,
                            },
                        )
                    },
            decreases found@.len() - k,
        {
            let (id, source, target, slot) = found[k];
            let far = match dir {
                Direction::Incoming => source,
                Direction::Outgoing => target,
            };
            out.push(PortEdge { edge: EdgeIndex(id), far: NodeIndex(far), slot });
            k += 1;
        }
        proof {
            assert forall|i: int| 0 <= i < out@.len() implies {
                let p = #[trigger] out@[i];
                &&& self@.incident(p.edge, n, dir)
                &&& p.far == self@.edges[p.edge].far(dir)
                &&& p.slot == self@.edges[p.edge].slot
            } by {
                let f = found@[i];
                assert(store_edges(self.graph).contains_key(f.0));
            }
            assert forall|e: EdgeIndex| self@.incident(e, n, dir) implies exists|i: int|
                0 <= i < out@.len() && out@[i].edge == e by {
                assert(store_edges(self.graph).contains_key(e.0));
                let t = store_edges(self.graph)[e.0];
                assert(crate::graph::store::near_end(t, dir) == n.0);
                let i = choose|i: int| 0 <= i < found@.len() && found@[i].0 == e.0;
                assert(out@[i].edge == e);
            }
        }
        out
    }

    /// The edges found at `n` in direction `dir`, ordered by slot.
    pub fn ordered_ports(&self, n: NodeIndex, dir: Direction) -> (r: Vec<PortEdge>)
        requires
            self@.is_listing(n, dir, self@.listing(n, dir)),
        ensures
            r@.len() == self@.listing(n, dir).len(),
            forall|i: int|
                0 <= i < r@.len() ==> {
                    let p = #[trigger] r@[i];
                    &&& p.edge == self@.listing(n, dir)[i]
                    &&& p.far == self@.ports(n, dir)[i]
                    &&& p.slot == self@.edges[p.edge].slot
                },
    {
        let found = self.incident_edges(n, dir);
        let r = sorted_by_slot(&found);
        proof {
            let view = self@;
            let ids = Seq::new(r@.len(), |i: int| r@[i].edge);
            assert(found@.no_duplicates());
            found@.lemma_multiset_has_no_duplicates();
            r@.lemma_multiset_has_no_duplicates_conv();
            assert forall|i: int| 0 <= i < r@.len() implies found@.contains(#[trigger] r@[i]) by {
                assert(r@.contains(r@[i]));
                vstd::seq_lib::to_multiset_contains(r@, r@[i]);
                vstd::seq_lib::to_multiset_contains(found@, r@[i]);
            }
            assert forall|i: int| 0 <= i < ids.len() implies view.incident(
                #[trigger] ids[i],
                n,
                dir,
            ) && r@[i].far == view.edges[ids[i]].far(dir) && r@[i].slot
                == view.edges[ids[i]].slot by {
                assert(found@.contains(r@[i]));
                let j = choose|j: int| 0 <= j < found@.len() && found@[j] == r@[i];
                assert(found@[j] == r@[i]);
            }
            assert forall|i: int, j: int| 0 <= i < j < ids.len() implies (view.slot_key())(ids[i])
                < (view.slot_key())(ids[j]) by {
                assert(view.incident(ids[i], n, dir));
                assert(view.incident(ids[j], n, dir));
                assert(r@[i] != r@[j]);
                assert(r@[i].slot <= r@[j].slot);
                if ids[i] != ids[j] {
                    view.lemma_distinct_slots(n, dir, ids[i], ids[j]);
                }
            }
            assert forall|e: EdgeIndex| view.incident(e, n, dir) implies ids.contains(e) by {
                let j = choose|j: int| 0 <= j < found@.len() && found@[j].edge == e;
                assert(found@.contains(found@[j]));
                vstd::seq_lib::to_multiset_contains(found@, found@[j]);
                vstd::seq_lib::to_multiset_contains(r@, found@[j]);
                let i = choose|i: int| 0 <= i < r@.len() && r@[i] == found@[j];
                assert(ids[i] == e);
            }
            assert(view.is_listing(n, dir, ids));
            view.lemma_listing_unique(n, dir, ids);
        }
        r
    }

    /// The values wired to `indx` in direction `dir`, ordered by slot.
    /// `NonHeterogeneousEdge` exactly when an edge found there leads to a
    /// node that holds no value, as every edge at a value node does.
    #[verifier::loop_isolation(false)]
    pub fn get_neigh(&self, indx: NodeIndex, dir: Direction) -> (r: Result<Vec<Value>, GraphError>)
        requires
            self.structure_wf(),
        ensures
            r matches Ok(v) ==> v@ == self@.port_values(indx, dir),
            r matches Err(e) ==> e == GraphError::NonHeterogeneousEdge,
            r is Err <==> exists|e: EdgeIndex|
                self@.incident(e, indx, dir) && !self@.is_value(self@.edges[e].far(dir)),
            self@.is_gate(indx) ==> r is Ok,
    {
        let found = self.incident_edges(indx, dir);
        let mut k: usize = 0;
        while k < found.len()
            invariant
                k <= found@.len(),
                forall|i: int| 0 <= i < k ==> self@.is_value(#[trigger] found@[i].far),
            decreases found@.len() - k,
        {
            match self.node(found[k].far) {
                Some(NodeValue::ValueNode(_)) => {},
                _ => {
                    proof {
                        let e = found@[k as int].edge;
                        assert(self@.incident(e, indx, dir));
                        assert(self@.edges.contains_key(e));
                        assert(!self@.is_gate(indx)) by {
                            match dir {
                                Direction::Incoming => {},
                                Direction::Outgoing => {},
                            }
                        }
                    }
                    return Err(GraphError::NonHeterogeneousEdge);
                },
            }
            k += 1;
        }
        proof {
            let view = self@;
            assert forall|e: EdgeIndex| view.incident(e, indx, dir) implies view.is_value(
                view.edges[e].far(dir),
            ) by {
                let i = choose|i: int| 0 <= i < found@.len() && found@[i].edge == e;
                assert(view.is_value(found@[i].far));
            }
            if found@.len() == 0 {
                assert forall|e: EdgeIndex| !view.incident(e, indx, dir) by {
                    if view.incident(e, indx, dir) {
                        let i = choose|i: int| 0 <= i < found@.len() && found@[i].edge == e;
                    }
                }
                view.lemma_no_edges(indx, dir);
            } else {
                let e = found@[0].edge;
                assert(view.incident(e, indx, dir));
                assert(view.edges.contains_key(e));
                assert(view.is_value(found@[0].far));
                assert(view.is_gate(indx)) by {
                    match dir {
                        Direction::Incoming => {},
                        Direction::Outgoing => {},
                    }
                }
            }
        }
        let ordered = self.ordered_ports(indx, dir);
        let mut out: Vec<Value> = Vec::new();
        let mut k: usize = 0;
        while k < ordered.len()
            invariant
                k <= ordered@.len(),
                out@.len() == k,
                ordered@.len() == self@.listing(indx, dir).len(),
                self@.is_listing(indx, dir, self@.listing(indx, dir)),
                forall|e: EdgeIndex|
                    self@.incident(e, indx, dir) ==> self@.is_value(self@.edges[e].far(dir)),
                forall|i: int|
                    0 <= i < ordered@.len() ==> (#[trigger] ordered@[i]).far == self@.ports(
                        indx,
                        dir,
                    )[i],
                forall|i: int| 0 <= i < k ==> out@[i] == self@.port_values(indx, dir)[i],
            decreases ordered@.len() - k,
        {
            proof {
                let e = self@.listing(indx, dir)[k as int];
                assert(self@.incident(e, indx, dir));
            }
            match self.node(ordered[k].far) {
                Some(NodeValue::ValueNode(v)) => {
                    out.push(v);
                },
                _ => {
                    return Err(GraphError::NonHeterogeneousEdge);
                },
            }
            k += 1;
        }
        assert(out@ =~= self@.port_values(indx, dir));
        Ok(out)
    }

    /// Gives the node at `node_idx`, a gate, the status that a check of the
    /// given inputs and outputs stands for, and returns the node with it.
    /// `NotExistentNode`, and nothing changes, where `node_idx` is no gate.
    fn determine_node_status(
        &mut self,
        node_idx: NodeIndex,
        in_neigh: &[Value],
        out_neigh: &[Value],
    ) -> (r: Result<GraphNode, GraphError>)
        requires
            old(self).stored(),
        ensures
            final(self).stored(),
            final(self).free_nodes() == old(self).free_nodes(),
            final(self)@.edges == old(self)@.edges,
            final(self).spec_node_count() == old(self).spec_node_count(),
            final(self).spec_edge_count() == old(self).spec_edge_count(),
            old(self)@.is_gate(node_idx) ==> {
                let gate = old(self)@.gate_at(node_idx);
                let node = NodeValue::GateNode {
                    gate,
                    state_type: GateStatus::of(gate.spec_check(in_neigh@, out_neigh@)),
                };
                &&& r == Ok::<GraphNode, GraphError>(node)
                &&& final(self)@.nodes == old(self)@.nodes.insert(
                    node_idx,
                    GraphStruct {
                        node,
                        additional_info: old(self)@.nodes[node_idx].additional_info,
                    },
                )
            },
            !old(self)@.is_gate(node_idx) ==> r == Err::<GraphNode, GraphError>(
                GraphError::NotExistentNode,
            ) && final(self)@ == old(self)@,
    {
        let gate = match store_node_weight(&self.graph, node_idx.0) {
            Some(NodeValue::GateNode { gate, .. }) => gate,
            _ => {
                return Err(GraphError::NotExistentNode);
            },
        };
        let state_type = match gate.check(in_neigh, out_neigh) {
            Ok(b) => {
                if b {
                    GateStatus::Valid
                } else {
                    GateStatus::InvalidValues
                }
            },
            Err(_) => GateStatus::InvalidArity,
        };
        let node = NodeValue::GateNode { gate, state_type };
        store_set_node_weight(&mut self.graph, node_idx.0, node);
        proof {
            assert(final(self)@.edges =~= old(self)@.edges);
            assert(self@.nodes =~= old(self)@.nodes.insert(
                node_idx,
                GraphStruct { node, additional_info: old(self)@.nodes[node_idx].additional_info },
            ));
            assert(store_nodes(self.graph).dom() =~= store_nodes(old(self).graph).dom());
        }
        Ok(node)
    }

    /// Brings the status of the node at `node_indx`, a gate, up to date and
    /// returns the node with its status: the status that it has by its wiring
    /// and the values at its ports. Nothing else changes. Where `node_indx`
    /// is no gate nothing changes at all, and the error is
    /// `NonHeterogeneousEdge` for a value node that has an edge and
    /// `NotExistentNode` otherwise.
    pub fn update_node_status(&mut self, node_indx: NodeIndex) -> (r: Result<GraphNode, GraphError>)
        requires
            old(self).structure_wf(),
        ensures
            final(self).structure_wf(),
            final(self).free_nodes() == old(self).free_nodes(),
            old(self)@.same_but_statuses(final(self)@),
            final(self).spec_node_count() == old(self).spec_node_count(),
            final(self).spec_edge_count() == old(self).spec_edge_count(),
            forall|m: NodeIndex|
                m != node_indx && old(self)@.nodes.contains_key(m) ==> #[trigger] final(self)@.nodes[m] == old(self)@.nodes[m],
            forall|m: NodeIndex|
                old(self)@.is_gate(m) ==> #[trigger] final(self)@.expected_status(m) == old(self)@.expected_status(m),
            old(self)@.is_gate(node_indx) ==> {
                &&& r == Ok::<GraphNode, GraphError>(
                    NodeValue::GateNode {
                        gate: old(self)@.gate_at(node_indx),
                        state_type: old(self)@.expected_status(node_indx),
                    },
                )
                &&& final(self)@.status_ok(node_indx)
            },
            !old(self)@.is_gate(node_indx) ==> {
                &&& final(self)@ == old(self)@
                &&& r == Err::<GraphNode, GraphError>(
                    if exists|e: EdgeIndex, d: Direction| old(self)@.incident(e, node_indx, d) {
                        GraphError::NonHeterogeneousEdge
                    } else {
                        GraphError::NotExistentNode
                    },
                )
            },
            (forall|m: NodeIndex|
                m != node_indx && old(self)@.nodes.contains_key(m) ==> old(self)@.status_ok(m))
                ==> final(self).wf(),
    {
        proof {
            let view = self@;
            if !view.is_gate(node_indx) {
                assert forall|e: EdgeIndex, d: Direction|
                    view.incident(e, node_indx, d) implies !view.is_value(
                    view.edges[e].far(d),
                ) by {
                    assert(view.edges.contains_key(e));
                    match d {
                        Direction::Incoming => {},
                        Direction::Outgoing => {},
                    }
                }
            } else {
                assert forall|e: EdgeIndex, d: Direction|
                    view.incident(e, node_indx, d) implies view.is_value(view.edges[e].far(d)) by {
                    assert(view.edges.contains_key(e));
                    match d {
                        Direction::Incoming => {},
                        Direction::Outgoing => {},
                    }
                }
            }
        }
        let incoming = match self.get_neigh(node_indx, Direction::Incoming) {
            Ok(v) => v,
            Err(e) => {
                proof {
                    self@.lemma_same_but_statuses(self@);
                }
                return Err(e);
            },
        };
        let outgoing = match self.get_neigh(node_indx, Direction::Outgoing) {
            Ok(v) => v,
            Err(e) => {
                proof {
                    self@.lemma_same_but_statuses(self@);
                }
                return Err(e);
            },
        };
        let r = self.determine_node_status(node_indx, incoming.as_slice(), outgoing.as_slice());
        proof {
            let before = old(self)@;
            let after = self@;
            if before.is_gate(node_indx) {
                assert(after.nodes.dom() =~= before.nodes.dom());
                assert forall|n: NodeIndex| #[trigger] before.nodes.contains_key(n) implies {
                    &&& after.nodes[n].additional_info == before.nodes[n].additional_info
                    &&& after.is_gate(n) == before.is_gate(n)
                    &&& before.is_gate(n) ==> after.gate_at(n) == before.gate_at(n)
                    &&& before.is_value(n) ==> after.nodes[n].node == before.nodes[n].node
                } by {
                    if n != node_indx {
                        assert(after.nodes[n] == before.nodes[n]);
                    }
                }
                assert(before.same_but_statuses(after));
                before.lemma_same_but_statuses(after);
                assert(after.expected_status(node_indx) == before.expected_status(node_indx));
                if forall|m: NodeIndex|
                    m != node_indx && before.nodes.contains_key(m) ==> before.status_ok(m) {
                    assert forall|m: NodeIndex| #[trigger]
                        after.nodes.contains_key(m) implies after.status_ok(m) by {
                        if m != node_indx {
                            assert(before.nodes.contains_key(m));
                            assert(before.status_ok(m));
                            if before.is_gate(m) {
                                assert(after.expected_status(m) == before.expected_status(m));
                            }
                        }
                    }
                }
            } else {
                before.lemma_same_but_statuses(before);
                assert forall|e: EdgeIndex, d: Direction| !before.incident(e, node_indx, d) by {
                    if before.incident(e, node_indx, d) {
                        match d {
                            Direction::Incoming => {},
                            Direction::Outgoing => {},
                        }
                    }
                }
            }
        }
        r
    }

    /// The greatest slot among the edges found at `indx` in direction `dir`;
    /// 0 where there is none.
    #[verifier::loop_isolation(false)]
    pub fn max_slot(&self, indx: NodeIndex, dir: Direction) -> (r: u64)
        requires
            self@.is_listing(indx, dir, self@.listing(indx, dir)),
        ensures
            r == self@.max_slot(indx, dir),
    {
        let found = self.incident_edges(indx, dir);
        let mut best: u64 = 0;
        let mut k: usize = 0;
        while k < found.len()
            invariant
                k <= found@.len(),
                forall|i: int| 0 <= i < k ==> (#[trigger] found@[i]).slot <= best,
                best == 0 || exists|i: int| 0 <= i < k && found@[i].slot == best,
                k > 0 && best == 0 ==> exists|i: int| 0 <= i < k && found@[i].slot == best,
            decreases found@.len() - k,
        {
            if found[k].slot >= best {
                best = found[k].slot;
            }
            k += 1;
        }
        proof {
            let view = self@;
            let l = view.listing(indx, dir);
            view.lemma_max_slot(indx, dir);
            if l.len() == 0 {
                if found@.len() > 0 {
                    assert(view.incident(found@[0].edge, indx, dir));
                }
            } else {
                let last = l.last();
                let j = choose|j: int| 0 <= j < found@.len() && found@[j].edge == last;
                assert(found@[j].slot <= best);
                let i = choose|i: int| 0 <= i < found@.len() && found@[i].slot == best;
                assert(view.incident(found@[i].edge, indx, dir));
            }
        }
        best
    }

    /// The slot that the next edge found at `indx` in direction `dir` gets:
    /// one more than the greatest slot there. The index is handed back.
    #[inline]
    pub fn get_next_node(&self, indx: NodeIndex, dir: Direction) -> (r: (u64, NodeIndex))
        requires
            self@.is_listing(indx, dir, self@.listing(indx, dir)),
            self@.max_slot(indx, dir) < u64::MAX,
        ensures
            r.0 == self@.max_slot(indx, dir) + 1,
            r.1 == indx,
    {
        (self.max_slot(indx, dir) + 1, indx)
    }

    /// Adds an edge from `src_idx` to `dest_idx`, with `additional_info`
    /// attached, and brings the status of its gate up to date. The edge gets
    /// the slot after the greatest slot that its gate has in the edge's
    /// direction. Returns that gate, the new edge's index and its slot.
    ///
    /// `NotExistentNode` where an end is no node of the circuit, and
    /// `NonHeterogeneousEdge` where both ends are values or both are gates;
    /// the circuit is unchanged then.
    pub fn add_edge(&mut self, src_idx: NodeIndex, dest_idx: NodeIndex, additional_info: G) -> (r:
        Result<(NodeIndex, EdgeIndex, u64), GraphError>)
        requires
            old(self).wf(),
            old(self).spec_edge_count() < u32::MAX,
            old(self)@.joinable(src_idx, dest_idx) ==> old(self)@.max_slot(
                old(self)@.gate_end(src_idx, dest_idx).0,
                old(self)@.gate_end(src_idx, dest_idx).1,
            ) < u64::MAX,
        ensures
            final(self).wf(),
            final(self).free_nodes() == old(self).free_nodes(),
            !(old(self)@.nodes.contains_key(src_idx) && old(self)@.nodes.contains_key(dest_idx))
                ==> r == Err::<(NodeIndex, EdgeIndex, u64), GraphError>(
                GraphError::NotExistentNode,
            ),
            old(self)@.nodes.contains_key(src_idx) && old(self)@.nodes.contains_key(dest_idx)
                && !old(self)@.joinable(src_idx, dest_idx) ==> r == Err::<
                (NodeIndex, EdgeIndex, u64),
                GraphError,
            >(GraphError::NonHeterogeneousEdge),
            r is Err ==> final(self)@ == old(self)@ && final(self).spec_edge_count() == old(self).spec_edge_count(),
            old(self)@.joinable(src_idx, dest_idx) ==> r is Ok,
            r matches Ok((gate, e, slot)) ==> {
                let before = old(self)@;
                let after = final(self)@;
                let dir = before.gate_end(src_idx, dest_idx).1;
                &&& gate == before.gate_end(src_idx, dest_idx).0
                &&& !before.edges.contains_key(e)
                &&& slot == before.max_slot(gate, dir) + 1
                &&& forall|x: EdgeIndex| before.incident(x, gate, dir) ==> before.edges[x].slot < slot
                &&& after.edges == before.edges.insert(
                    e,
                    Edge { source: src_idx, target: dest_idx, slot, info: additional_info },
                )
                &&& after.listing(gate, dir) == before.listing(gate, dir).push(e)
                &&& before.same_nodes_but_statuses(after)
                &&& forall|m: NodeIndex|
                    m != gate && before.nodes.contains_key(m) ==> #[trigger] after.nodes[m]
                        == before.nodes[m]
                &&& final(self).spec_edge_count() == old(self).spec_edge_count() + 1
            },
            final(self).spec_node_count() == old(self).spec_node_count(),
            final(self)@.arity_flagged(),
    {
        proof {
            self@.lemma_arity_flagged();
        }
        let (src, dest) = match (self.node(src_idx), self.node(dest_idx)) {
            (Some(s), Some(d)) => (s, d),
            _ => {
                return Err(GraphError::NotExistentNode);
            },
        };
        if src.compare_types(dest) {
            return Err(GraphError::NonHeterogeneousEdge);
        }
        let (value, gate_idx) = if !src.is_gate() {
            self.get_next_node(dest_idx, Direction::Incoming)
        } else {
            self.get_next_node(src_idx, Direction::Outgoing)
        };
        let e = store_add_edge(&mut self.graph, src_idx.0, dest_idx.0, value);
        store_at(&mut self.edge_info, e as usize, additional_info);
        let ret = EdgeIndex(e);
        proof {
            let before = old(self)@;
            let mid = self@;
            let edge = Edge { source: src_idx, target: dest_idx, slot: value, info: additional_info };
            assert(mid.nodes =~= before.nodes);
            assert(mid.edges =~= before.edges.insert(ret, edge));
            before.lemma_edge_added(mid, ret, edge);
            before.lemma_max_slot(gate_idx, before.gate_end(src_idx, dest_idx).1);
        }
        let ghost mid = self@;
        let updated = self.update_node_status(gate_idx);
        proof {
            let before = old(self)@;
            let after = self@;
            assert(before.same_nodes_but_statuses(after));
            assert forall|m: NodeIndex| #[trigger] after.nodes.contains_key(m) implies after.status_ok(
                m,
            ) by {
                if m != gate_idx && after.is_gate(m) {
                    assert(before.nodes.contains_key(m));
                    assert(before.status_ok(m));
                    assert(mid.is_gate(m));
                    assert(after.expected_status(m) == mid.expected_status(m));
                    assert(mid.expected_status(m) == before.expected_status(m));
                }
            }
            let dir = before.gate_end(src_idx, dest_idx).1;
            assert(mid.is_listing(gate_idx, dir, mid.listing(gate_idx, dir)));
            assert(mid.same_wiring(after, gate_idx)) by {
                assert forall|x: EdgeIndex, d: Direction| #[trigger]
                    mid.incident(x, gate_idx, d) implies mid.value_at(mid.edges[x].far(d))
                    == after.value_at(mid.edges[x].far(d)) by {
                    assert(mid.edges.contains_key(x));
                    assert(mid.nodes.contains_key(mid.edges[x].far(d)));
                    match d {
                        Direction::Incoming => {},
                        Direction::Outgoing => {},
                    }
                }
            }
            mid.lemma_same_wiring(after, gate_idx);
            after.lemma_arity_flagged();
        }
        match updated {
            Ok(_) => Ok((gate_idx, ret, value)),
            Err(err) => Err(err),
        }
    }

    /// The nodes at the far ends of the edges found at `indx`, one entry for
    /// each edge: first those of the incoming edges, then those of the
    /// outgoing ones.
    #[verifier::loop_isolation(false)]
    pub fn get_all_neigh(&self, indx: NodeIndex) -> (r: Vec<NodeIndex>)
        ensures
            self@.lists_neighbours(indx, r@),
            forall|i: int| 0 <= i < r@.len() ==> self@.adjacent(indx, #[trigger] r@[i]),
            forall|m: NodeIndex| self@.adjacent(indx, m) ==> r@.contains(m),
    {
        let ins = self.incident_edges(indx, Direction::Incoming);
        let outs = self.incident_edges(indx, Direction::Outgoing);
        let mut r: Vec<NodeIndex> = Vec::new();
        let mut k: usize = 0;
        while k < ins.len()
            invariant
                k <= ins@.len(),
                r@.len() == k,
                forall|i: int| 0 <= i < k ==> r@[i] == ins@[i].far,
            decreases ins@.len() - k,
        {
            r.push(ins[k].far);
            k += 1;
        }
        let mut k: usize = 0;
        while k < outs.len()
            invariant
                k <= outs@.len(),
                r@.len() == ins@.len() + k,
                forall|i: int| 0 <= i < ins@.len() ==> r@[i] == ins@[i].far,
                forall|i: int| 0 <= i < k ==> r@[ins@.len() + i] == outs@[i].far,
            decreases outs@.len() - k,
        {
            r.push(outs[k].far);
            k += 1;
        }
        proof {
            let n = ins@.len() as int;
            let es = Seq::new(
                r@.len(),
                |i: int|
                    if i < n {
                        (ins@[i].edge, Direction::Incoming)
                    } else {
                        (outs@[i - n].edge, Direction::Outgoing)
                    },
            );
            assert forall|i: int| 0 <= i < es.len() implies self@.incident(
                (#[trigger] es[i]).0,
                indx,
                es[i].1,
            ) && r@[i] == self@.edges[es[i].0].far(es[i].1) by {
                if i < n {
                    assert(self@.incident(ins@[i].edge, indx, Direction::Incoming));
                } else {
                    assert(self@.incident(outs@[i - n].edge, indx, Direction::Outgoing));
                }
            }
            assert forall|e: EdgeIndex, d: Direction| self@.incident(e, indx, d) implies es.contains(
                (e, d),
            ) && r@.contains(self@.edges[e].far(d)) by {
                match d {
                    Direction::Incoming => {
                        let i = choose|i: int| 0 <= i < ins@.len() && ins@[i].edge == e;
                        assert(es[i] == (e, d));
                        assert(r@[i] == self@.edges[e].far(d));
                    },
                    Direction::Outgoing => {
                        let i = choose|i: int| 0 <= i < outs@.len() && outs@[i].edge == e;
                        assert(es[n + i] == (e, d));
                        assert(r@[n + i] == self@.edges[e].far(d));
                    },
                }
            }
            assert forall|i: int| 0 <= i < r@.len() implies self@.adjacent(
                indx,
                #[trigger] r@[i],
            ) by {
                assert(self@.incident(es[i].0, indx, es[i].1));
            }
            assert forall|m: NodeIndex| self@.adjacent(indx, m) implies r@.contains(m) by {
                let (e, d) = choose|e: EdgeIndex, d: Direction| #[trigger]
                    self@.incident(e, indx, d) && self@.edges[e].far(d) == m;
                assert(r@.contains(self@.edges[e].far(d)));
            }
            assert(es.no_duplicates()) by {
                assert forall|i: int, j: int|
                    0 <= i < es.len() && 0 <= j < es.len() && i != j implies es[i] != es[j] by {
                    if i < n && j < n {
                        if i < j {
                            assert(ins@[i].edge != ins@[j].edge);
                        } else {
                            assert(ins@[j].edge != ins@[i].edge);
                        }
                    } else if i >= n && j >= n {
                        if i < j {
                            assert(outs@[i - n].edge != outs@[j - n].edge);
                        } else {
                            assert(outs@[j - n].edge != outs@[i - n].edge);
                        }
                    }
                }
            }
            assert(self@.neighbours_by(indx, r@, es));
        }
        r
    }

    /// Brings the statuses of the given gates up to date, one after the
    /// other.
    #[verifier::loop_isolation(false)]
    fn update_statuses(&mut self, gates: &Vec<NodeIndex>) -> (r: Result<(), GraphError>)
        requires
            old(self).structure_wf(),
            forall|i: int| 0 <= i < gates@.len() ==> old(self)@.is_gate(#[trigger] gates@[i]),
            forall|m: NodeIndex|
                old(self)@.is_gate(m) ==> old(self)@.status_ok(m) || gates@.contains(m),
        ensures
            r is Ok,
            final(self).wf(),
            final(self).free_nodes() == old(self).free_nodes(),
            old(self)@.same_but_statuses(final(self)@),
            final(self).spec_node_count() == old(self).spec_node_count(),
            final(self).spec_edge_count() == old(self).spec_edge_count(),
            forall|m: NodeIndex|
                old(self)@.nodes.contains_key(m) && !gates@.contains(m) ==> #[trigger] final(self)@.nodes[m] == old(self)@.nodes[m],
    {
        let mut k: usize = 0;
        proof {
            old(self)@.lemma_same_but_statuses(old(self)@);
            assert forall|m: NodeIndex| self@.is_gate(m) implies self@.status_ok(m) || exists|
                j: int,
            | 0 <= j < gates@.len() && gates@[j] == m by {
                if !self@.status_ok(m) {
                    assert(gates@.contains(m));
                }
            }
        }
        while k < gates.len()
            invariant
                self.free_nodes() == old(self).free_nodes(),
                k <= gates@.len(),
                self.structure_wf(),
                old(self)@.structure_wf(),
                old(self)@.same_but_statuses(self@),
                self.spec_node_count() == old(self).spec_node_count(),
                self.spec_edge_count() == old(self).spec_edge_count(),
                forall|m: NodeIndex|
                    self@.is_gate(m) ==> self@.status_ok(m) || exists|j: int|
                        k <= j < gates@.len() && gates@[j] == m,
                forall|m: NodeIndex|
                    old(self)@.nodes.contains_key(m) && !gates@.contains(m) ==> #[trigger] self@.nodes[m]
                        == old(self)@.nodes[m],
            decreases gates@.len() - k,
        {
            let ghost before = self@;
            let g = gates[k];
            assert(old(self)@.nodes.contains_key(g));
            assert(before.is_gate(g));
            match self.update_node_status(g) {
                Ok(_) => {},
                Err(e) => {
                    return Err(e);
                },
            }
            proof {
                let after = self@;
                assert forall|m: NodeIndex| after.is_gate(m) implies after.status_ok(m) || exists|
                    j: int,
                | k + 1 <= j < gates@.len() && gates@[j] == m by {
                    assert(before.nodes.contains_key(m));
                    assert(before.is_gate(m));
                    if m != g {
                        assert(after.nodes[m] == before.nodes[m]);
                        assert(after.expected_status(m) == before.expected_status(m));
                        if !before.status_ok(m) {
                            let j = choose|j: int| k <= j < gates@.len() && gates@[j] == m;
                            assert(k + 1 <= j);
                        }
                    }
                }
                assert forall|m: NodeIndex|
                    old(self)@.nodes.contains_key(m) && !gates@.contains(m) implies #[trigger]
                    after.nodes[m] == old(self)@.nodes[m] by {
                    assert(gates@[k as int] == g);
                    assert(m != g);
                    assert(before.nodes.contains_key(m));
                }
                assert(old(self)@.same_but_statuses(after)) by {
                    assert forall|n: NodeIndex| #[trigger]
                        old(self)@.nodes.contains_key(n) implies {
                        &&& after.nodes[n].additional_info == old(self)@.nodes[n].additional_info
                        &&& after.is_gate(n) == old(self)@.is_gate(n)
                        &&& old(self)@.is_gate(n) ==> after.gate_at(n) == old(self)@.gate_at(n)
                        &&& old(self)@.is_value(n) ==> after.nodes[n].node == old(self)@.nodes[n].node
                    } by {
                        assert(before.nodes.contains_key(n));
                    }
                }
            }
            k += 1;
        }
        proof {
            assert forall|m: NodeIndex| #[trigger] self@.nodes.contains_key(m) implies self@.status_ok(
                m,
            ) by {}
        }
        Ok(())
    }

    /// Replaces the value of a value node, or the kind of a gate node, and
    /// brings up to date the status of every gate that this bears on: the
    /// gate itself, or the gates wired to the value. Returns these gates, the
    /// latter once for each edge.
    ///
    /// `NotExistentNode` where `index` is no node, `InvalidUpdate` where a
    /// value is to replace a gate or a gate a value; the circuit is unchanged
    /// then.
    pub fn update_node(&mut self, index: NodeIndex, new_value: NodeUnitialised) -> (r: Result<
        Vec<NodeIndex>,
        GraphError,
    >)
        requires
            old(self).wf(),
        ensures
            final(self).wf(),
            final(self).free_nodes() == old(self).free_nodes(),
            final(self)@.edges == old(self)@.edges,
            final(self).spec_node_count() == old(self).spec_node_count(),
            final(self).spec_edge_count() == old(self).spec_edge_count(),
            !old(self)@.nodes.contains_key(index) ==> r == Err::<Vec<NodeIndex>, GraphError>(
                GraphError::NotExistentNode,
            ),
            old(self)@.nodes.contains_key(index) && old(self)@.nodes[index].node.node_type()
                != new_value.node_type() ==> r == Err::<Vec<NodeIndex>, GraphError>(
                GraphError::InvalidUpdate,
            ),
            r is Err ==> final(self)@ == old(self)@,
            old(self)@.nodes.contains_key(index) && old(self)@.nodes[index].node.node_type()
                == new_value.node_type() ==> r is Ok,
            r matches Ok(touched) ==> {
                let before = old(self)@;
                let after = final(self)@;
                &&& after.nodes.dom() == before.nodes.dom()
                &&& forall|n: NodeIndex| #[trigger]
                    before.nodes.contains_key(n) ==> after.nodes[n].additional_info
                        == before.nodes[n].additional_info && after.is_gate(n) == before.is_gate(n)
                &&& forall|n: NodeIndex|
                    n != index && before.nodes.contains_key(n) && !before.adjacent(index, n)
                        ==> #[trigger] after.nodes[n] == before.nodes[n]
                &&& forall|n: NodeIndex|
                    n != index && before.is_value(n) ==> #[trigger] after.nodes[n] == before.nodes[n]
                &&& forall|n: NodeIndex|
                    n != index && before.is_gate(n) ==> #[trigger] after.gate_at(n)
                        == before.gate_at(n)
                &&& new_value matches NodeValue::ValueNode(v) ==> {
                    &&& after.nodes[index].node == GraphNode::ValueNode(v)
                    &&& before.lists_neighbours(index, touched@)
                    &&& forall|i: int|
                        0 <= i < touched@.len() ==> before.adjacent(index, #[trigger] touched@[i])
                    &&& forall|m: NodeIndex| before.adjacent(index, m) ==> touched@.contains(m)
                }
                &&& new_value matches NodeValue::GateNode { gate, .. } ==> {
                    &&& after.gate_at(index) == gate
                    &&& touched@ == seq![index]
                }
            },
    {
        let current = match self.node(index) {
            Some(node) => node,
            None => {
                return Err(GraphError::NotExistentNode);
            },
        };
        let replaced = match (current, new_value) {
            (NodeValue::GateNode { state_type, .. }, NodeValue::GateNode { gate: g, .. }) => {
                GraphNode::GateNode { gate: g, state_type }
            },
            (NodeValue::ValueNode(_), NodeValue::ValueNode(e)) => GraphNode::ValueNode(e),
            _ => {
                return Err(GraphError::InvalidUpdate);
            },
        };
        store_set_node_weight(&mut self.graph, index.0, replaced);
        proof {
            let before = old(self)@;
            let mid = self@;
            assert(mid.edges =~= before.edges);
            assert(mid.nodes.dom() =~= before.nodes.dom());
            assert(store_nodes(self.graph).dom() =~= store_nodes(old(self).graph).dom());
            before.lemma_node_replaced(mid, index);
        }
        let ghost mid = self@;
        match current {
            NodeValue::GateNode { .. } => {
                proof {
                    assert forall|m: NodeIndex|
                        m != index && mid.nodes.contains_key(m) implies mid.status_ok(m) by {
                        if mid.is_gate(m) {
                            let before = old(self)@;
                            assert(before.nodes.contains_key(m));
                            assert(before.status_ok(m));
                            if before.adjacent(index, m) {
                                let (e, d) = choose|e: EdgeIndex, d: Direction| #[trigger]
                                    before.incident(e, index, d) && before.edges[e].far(d) == m;
                                assert(before.edges.contains_key(e));
                                match d {
                                    Direction::Incoming => {},
                                    Direction::Outgoing => {},
                                }
                            }
                            assert(mid.expected_status(m) == before.expected_status(m));
                        }
                    }
                }
                match self.update_node_status(index) {
                    Ok(_) => {},
                    Err(e) => {
                        return Err(e);
                    },
                }
                let mut ret = Vec::new();
                ret.push(index);
                proof {
                    assert(ret@ =~= seq![index]);
                    assert(self@.nodes.dom() =~= old(self)@.nodes.dom());
                }
                Ok(ret)
            },
            NodeValue::ValueNode(_) => {
                let ret = self.get_all_neigh(index);
                proof {
                    let before = old(self)@;
                    let es = choose|es: Seq<(EdgeIndex, Direction)>|
                        mid.neighbours_by(index, ret@, es);
                    assert(before.neighbours_by(index, ret@, es)) by {
                        assert forall|e: EdgeIndex, d: Direction|
                            before.incident(e, index, d) implies es.contains((e, d)) by {
                            assert(mid.incident(e, index, d));
                        }
                    }
                    assert forall|m: NodeIndex| before.adjacent(index, m) == mid.adjacent(
                        index,
                        m,
                    ) by {
                        if before.adjacent(index, m) {
                            let (e, d) = choose|e: EdgeIndex, d: Direction| #[trigger]
                                before.incident(e, index, d) && before.edges[e].far(d) == m;
                            assert(mid.incident(e, index, d));
                        }
                        if mid.adjacent(index, m) {
                            let (e, d) = choose|e: EdgeIndex, d: Direction| #[trigger]
                                mid.incident(e, index, d) && mid.edges[e].far(d) == m;
                            assert(before.incident(e, index, d));
                        }
                    }
                    assert forall|i: int| 0 <= i < ret@.len() implies mid.is_gate(
                        #[trigger] ret@[i],
                    ) by {
                        let m = ret@[i];
                        assert(mid.adjacent(index, m));
                        let (e, d) = choose|e: EdgeIndex, d: Direction| #[trigger]
                            mid.incident(e, index, d) && mid.edges[e].far(d) == m;
                        assert(mid.edges.contains_key(e));
                        match d {
                            Direction::Incoming => {},
                            Direction::Outgoing => {},
                        }
                    }
                    assert forall|m: NodeIndex| mid.is_gate(m) implies mid.status_ok(m)
                        || ret@.contains(m) by {
                        if !mid.adjacent(index, m) {
                            assert(before.nodes.contains_key(m));
                            assert(before.status_ok(m));
                            assert(mid.expected_status(m) == before.expected_status(m));
                        }
                    }
                }
                match self.update_statuses(&ret) {
                    Ok(_) => {},
                    Err(e) => {
                        return Err(e);
                    },
                }
                proof {
                    let before = old(self)@;
                    let after = self@;
                    assert(after.nodes.dom() =~= before.nodes.dom());
                    assert forall|n: NodeIndex|
                        n != index && before.nodes.contains_key(n) && !before.adjacent(
                            index,
                            n,
                        ) implies #[trigger] after.nodes[n] == before.nodes[n] by {
                        assert(mid.nodes.contains_key(n));
                        if ret@.contains(n) {
                            let i = choose|i: int| 0 <= i < ret@.len() && ret@[i] == n;
                            assert(mid.adjacent(index, ret@[i]));
                        }
                    }
                    assert forall|n: NodeIndex| n != index && before.is_value(n) implies #[trigger]
                        after.nodes[n] == before.nodes[n] by {
                        assert(mid.nodes.contains_key(n));
                        assert(mid.is_value(n));
                    }
                    assert forall|n: NodeIndex| n != index && before.is_gate(n) implies #[trigger]
                        after.gate_at(n) == before.gate_at(n) by {
                        assert(mid.nodes.contains_key(n));
                    }
                    assert forall|n: NodeIndex| #[trigger]
                        before.nodes.contains_key(n) implies after.nodes[n].additional_info
                        == before.nodes[n].additional_info && after.is_gate(n) == before.is_gate(
                        n,
                    ) by {
                        assert(mid.nodes.contains_key(n));
                    }
                    assert(mid.is_value(index));
                }
                Ok(ret)
            },
        }
    }

    /// Removes the node at `node_idx` with all edges at it, and brings up to
    /// date the status of every gate that loses an edge. Returns those
    /// gates, once for each edge lost: the gates wired to a value node that
    /// is removed, and none where a gate is removed.
    ///
    /// The index of the node removed is the first that a new node gets.
    ///
    /// `NotExistentNode` where `node_idx` is no node; the circuit is
    /// unchanged then.
    pub fn remove_node(&mut self, node_idx: NodeIndex) -> (r: Result<Vec<NodeIndex>, GraphError>)
        requires
            old(self).wf(),
        ensures
            final(self).wf(),
            final(self).free_nodes() == (if old(self)@.nodes.contains_key(node_idx) {
                seq![node_idx] + old(self).free_nodes()
            } else {
                old(self).free_nodes()
            }),
            !old(self)@.nodes.contains_key(node_idx) ==> r == Err::<Vec<NodeIndex>, GraphError>(
                GraphError::NotExistentNode,
            ) && final(self)@ == old(self)@ && final(self).spec_node_count() == old(self).spec_node_count(),
            old(self)@.nodes.contains_key(node_idx) ==> r is Ok,
            final(self).spec_edge_count() <= old(self).spec_edge_count(),
            r matches Ok(touched) ==> {
                let before = old(self)@;
                let after = final(self)@;
                &&& final(self).spec_node_count() == old(self).spec_node_count() - 1
                &&& after.nodes.dom() == before.nodes.dom().remove(node_idx)
                &&& forall|e: EdgeIndex|
                    after.edges.contains_key(e) <==> before.edges.contains_key(e)
                        && before.edges[e].source != node_idx && before.edges[e].target != node_idx
                &&& forall|e: EdgeIndex| #[trigger]
                    after.edges.contains_key(e) ==> after.edges[e] == before.edges[e]
                &&& forall|n: NodeIndex| #[trigger]
                    after.nodes.contains_key(n) ==> after.nodes[n].additional_info
                        == before.nodes[n].additional_info && after.is_gate(n) == before.is_gate(n)
                &&& forall|n: NodeIndex|
                    after.nodes.contains_key(n) && !before.adjacent(node_idx, n)
                        ==> #[trigger] after.nodes[n] == before.nodes[n]
                &&& forall|n: NodeIndex|
                    after.is_gate(n) ==> #[trigger] after.gate_at(n) == before.gate_at(n)
                &&& before.is_gate(node_idx) ==> touched@.len() == 0
                &&& before.is_value(node_idx) ==> {
                    &&& before.lists_neighbours(node_idx, touched@)
                    &&& forall|i: int|
                        0 <= i < touched@.len() ==> before.adjacent(node_idx, #[trigger] touched@[i])
                    &&& forall|m: NodeIndex| before.adjacent(node_idx, m) ==> touched@.contains(m)
                }
            },
    {
        let weight = match self.node(node_idx) {
            Some(node) => node,
            None => {
                return Err(GraphError::NotExistentNode);
            },
        };
        let neigh = match weight {
            NodeValue::ValueNode(_) => self.get_all_neigh(node_idx),
            NodeValue::GateNode { .. } => Vec::new(),
        };
        let removed = store_remove_node(&mut self.graph, node_idx.0);
        if removed.is_none() {
            return Err(GraphError::NotExistentNode);
        }
        proof {
            let before = old(self)@;
            let mid = self@;
            let old_edges = store_edges(old(self).graph);
            assert(store_edges(self.graph).dom().subset_of(old_edges.dom()));
            vstd::set_lib::lemma_len_subset(store_edges(self.graph).dom(), old_edges.dom());
            assert(mid.nodes.dom() =~= before.nodes.dom().remove(node_idx));
            assert(before.shrunk_to(mid)) by {
                assert forall|e: EdgeIndex| #[trigger] mid.edges.contains_key(e) implies {
                    &&& before.edges.contains_key(e)
                    &&& mid.edges[e] == before.edges[e]
                    &&& mid.nodes.contains_key(before.edges[e].source)
                    &&& mid.nodes.contains_key(before.edges[e].target)
                } by {
                    assert(old_edges.contains_key(e.0));
                    assert(before.edges.contains_key(e));
                }
            }
            before.lemma_shrunk(mid);
            assert forall|i: int| 0 <= i < neigh@.len() implies mid.is_gate(#[trigger] neigh@[i]) by {
                let m = neigh@[i];
                assert(before.adjacent(node_idx, m));
                let (e, d) = choose|e: EdgeIndex, d: Direction| #[trigger]
                    before.incident(e, node_idx, d) && before.edges[e].far(d) == m;
                assert(before.edges.contains_key(e));
                match d {
                    Direction::Incoming => {},
                    Direction::Outgoing => {},
                }
            }
            assert forall|m: NodeIndex| mid.is_gate(m) implies mid.status_ok(m) || neigh@.contains(
                m,
            ) by {
                assert(before.nodes.contains_key(m));
                assert(before.status_ok(m));
                if !before.adjacent(node_idx, m) {
                    before.lemma_adjacent_symmetric(node_idx, m);
                    assert forall|e: EdgeIndex, d: Direction|
                        before.incident(e, m, d) implies mid.edges.contains_key(e) by {
                        assert(before.edges.contains_key(e));
                        if before.edges[e].far(d) == node_idx {
                            assert(before.adjacent(m, node_idx));
                        }
                        match d {
                            Direction::Incoming => {},
                            Direction::Outgoing => {},
                        }
                    }
                    assert(mid.expected_status(m) == before.expected_status(m));
                } else if before.is_gate(node_idx) {
                    let (e, d) = choose|e: EdgeIndex, d: Direction| #[trigger]
                        before.incident(e, node_idx, d) && before.edges[e].far(d) == m;
                    assert(before.edges.contains_key(e));
                    match d {
                        Direction::Incoming => {},
                        Direction::Outgoing => {},
                    }
                }
            }
        }
        let ghost mid = self@;
        match self.update_statuses(&neigh) {
            Ok(_) => {},
            Err(e) => {
                return Err(e);
            },
        }
        proof {
            let before = old(self)@;
            let after = self@;
            assert(after.nodes.dom() =~= before.nodes.dom().remove(node_idx));
            assert forall|n: NodeIndex| #[trigger] after.nodes.contains_key(n) implies {
                &&& after.nodes[n].additional_info == before.nodes[n].additional_info
                &&& after.is_gate(n) == before.is_gate(n)
            } by {
                assert(mid.nodes.contains_key(n));
            }
            assert forall|n: NodeIndex|
                after.nodes.contains_key(n) && !before.adjacent(node_idx, n) implies #[trigger]
                after.nodes[n] == before.nodes[n] by {
                assert(mid.nodes.contains_key(n));
                if neigh@.contains(n) {
                    let i = choose|i: int| 0 <= i < neigh@.len() && neigh@[i] == n;
                    assert(before.adjacent(node_idx, neigh@[i]));
                }
            }
            assert forall|n: NodeIndex| after.is_gate(n) implies #[trigger] after.gate_at(n)
                == before.gate_at(n) by {
                assert(mid.nodes.contains_key(n));
            }
            assert forall|e: EdgeIndex|
                after.edges.contains_key(e) <==> before.edges.contains_key(e)
                    && before.edges[e].source != node_idx && before.edges[e].target
                    != node_idx by {}
        }
        Ok(neigh)
    }

    /// Removes every edge from `src_idx` to `dest_idx` and brings the status
    /// of their gate up to date. Returns that gate and, for each edge
    /// removed, its slot and what was attached to it.
    ///
    /// `NotExistentNode` where an end is no node of the circuit,
    /// `NonHeterogeneousEdge` where both ends are values or both are gates,
    /// `NotExistentEdge` where no edge leads from `src_idx` to `dest_idx`;
    /// the circuit is unchanged then.
    #[verifier::loop_isolation(false)]
    pub fn remove_edge(&mut self, src_idx: NodeIndex, dest_idx: NodeIndex) -> (r: Result<
        (NodeIndex, Vec<(u64, G)>),
        GraphError,
    >) where G: Copy
        requires
            old(self).wf(),
        ensures
            final(self).wf(),
            final(self).free_nodes() == old(self).free_nodes(),
            final(self).spec_node_count() == old(self).spec_node_count(),
            !(old(self)@.nodes.contains_key(src_idx) && old(self)@.nodes.contains_key(dest_idx))
                ==> r matches Err(GraphError::NotExistentNode),
            old(self)@.nodes.contains_key(src_idx) && old(self)@.nodes.contains_key(dest_idx)
                && !old(self)@.joinable(src_idx, dest_idx) ==> r matches Err(
                GraphError::NonHeterogeneousEdge,
            ),
            old(self)@.joinable(src_idx, dest_idx) && !old(self)@.connected(src_idx, dest_idx)
                ==> r matches Err(GraphError::NotExistentEdge),
            old(self)@.joinable(src_idx, dest_idx) && old(self)@.connected(src_idx, dest_idx)
                ==> r is Ok,
            r is Err ==> final(self)@ == old(self)@ && final(self).spec_edge_count() == old(self).spec_edge_count(),
            r matches Ok((gate, removed)) ==> {
                let before = old(self)@;
                let after = final(self)@;
                &&& gate == before.gate_end(src_idx, dest_idx).0
                &&& forall|e: EdgeIndex|
                    after.edges.contains_key(e) <==> before.edges.contains_key(e) && !(
                    before.edges[e].source == src_idx && before.edges[e].target == dest_idx)
                &&& forall|e: EdgeIndex| #[trigger]
                    after.edges.contains_key(e) ==> after.edges[e] == before.edges[e]
                &&& before.same_nodes_but_statuses(after)
                &&& forall|m: NodeIndex|
                    m != gate && before.nodes.contains_key(m) ==> #[trigger] after.nodes[m]
                        == before.nodes[m]
                &&& final(self).spec_edge_count() + removed@.len() == old(self).spec_edge_count()
                &&& exists|ids: Seq<EdgeIndex>|
                    {
                        &&& ids.len() == removed@.len()
                        &&& ids.no_duplicates()
                        &&& forall|i: int|
                            0 <= i < ids.len() ==> {
                                let e = #[trigger] before.edges[ids[i]];
                                &&& before.edges.contains_key(ids[i])
                                &&& e.source == src_idx
                                &&& e.target == dest_idx
                                &&& removed@[i] == (e.slot, e.info)
                            }
                        &&& forall|e: EdgeIndex|
                            before.edges.contains_key(e) && before.edges[e].source == src_idx
                                && before.edges[e].target == dest_idx ==> ids.contains(e)
                    }
            },
    {
        let (src, dest) = match (self.node(src_idx), self.node(dest_idx)) {
            (Some(s), Some(d)) => (s, d),
            _ => {
                return Err(GraphError::NotExistentNode);
            },
        };
        if src.compare_types(dest) {
            return Err(GraphError::NonHeterogeneousEdge);
        }
        let ghost before = self@;
        let from_src = self.incident_edges(src_idx, Direction::Outgoing);
        let mut connecting: Vec<EdgeIndex> = Vec::new();
        let mut k: usize = 0;
        while k < from_src.len()
            invariant
                self.free_nodes() == old(self).free_nodes(),
                k <= from_src@.len(),
                forall|i: int|
                    0 <= i < connecting@.len() ==> {
                        let e = #[trigger] connecting@[i];
                        &&& before.edges.contains_key(e)
                        &&& before.edges[e].source == src_idx
                        &&& before.edges[e].target == dest_idx
                        &&& exists|j: int| 0 <= j < k && from_src@[j].edge == e
                    },
                forall|j: int|
                    0 <= j < k && (#[trigger] from_src@[j]).far == dest_idx ==> connecting@.contains(
                        from_src@[j].edge,
                    ),
                connecting@.no_duplicates(),
            decreases from_src@.len() - k,
        {
            if from_src[k].far == dest_idx {
                proof {
                    let e = from_src@[k as int].edge;
                    assert(before.incident(e, src_idx, Direction::Outgoing));
                    if connecting@.contains(e) {
                        let i = choose|i: int| 0 <= i < connecting@.len() && connecting@[i] == e;
                        let j = choose|j: int| 0 <= j < k && from_src@[j].edge == connecting@[i];
                        assert(from_src@[j].edge != from_src@[k as int].edge);
                    }
                }
                let ghost prior = connecting@;
                connecting.push(from_src[k].edge);
                proof {
                    assert forall|j: int|
                        0 <= j < k + 1 && (#[trigger] from_src@[j]).far
                            == dest_idx implies connecting@.contains(from_src@[j].edge) by {
                        if j < k {
                            assert(prior.contains(from_src@[j].edge));
                            let i = choose|i: int|
                                0 <= i < prior.len() && prior[i] == from_src@[j].edge;
                            assert(connecting@[i] == from_src@[j].edge);
                        } else {
                            assert(connecting@[prior.len() as int] == from_src@[j].edge);
                        }
                    }
                    assert forall|i: int| 0 <= i < connecting@.len() implies exists|j: int|
                        0 <= j < k + 1 && from_src@[j].edge == #[trigger] connecting@[i] by {
                        if i < prior.len() {
                            let j = choose|j: int| 0 <= j < k && from_src@[j].edge == prior[i];
                            assert(from_src@[j].edge == connecting@[i]);
                        } else {
                            assert(from_src@[k as int].edge == connecting@[i]);
                        }
                    }
                }
            }
            k += 1;
        }
        proof {
            assert forall|e: EdgeIndex|
                before.edges.contains_key(e) && before.edges[e].source == src_idx
                    && before.edges[e].target == dest_idx implies connecting@.contains(e) by {
                assert(before.incident(e, src_idx, Direction::Outgoing));
                let j = choose|j: int| 0 <= j < from_src@.len() && from_src@[j].edge == e;
                assert(from_src@[j].far == dest_idx);
            }
            if connecting@.len() > 0 {
                assert(before.connected(src_idx, dest_idx)) by {
                    let e = connecting@[0];
                    assert(before.edges.contains_key(e));
                }
            }
            if before.connected(src_idx, dest_idx) {
                let e = choose|e: EdgeIndex| #[trigger]
                    before.edges.contains_key(e) && before.edges[e].source == src_idx
                        && before.edges[e].target == dest_idx;
                assert(connecting@.contains(e));
            }
        }
        if connecting.len() == 0 {
            return Err(GraphError::NotExistentEdge);
        }
        let mut edges: Vec<(u64, G)> = Vec::new();
        let ghost old_edges = store_edges(self.graph);
        let mut k: usize = 0;
        while k < connecting.len()
            invariant
                self.free_nodes() == old(self).free_nodes(),
                k <= connecting@.len(),
                edges@.len() == k,
                self.node_info@ == old(self).node_info@,
                self.edge_info@ == old(self).edge_info@,
                store_nodes(self.graph) == store_nodes(old(self).graph),
                store_edges(self.graph).dom().finite(),
                store_edges(self.graph).len() + k == old_edges.len(),
                forall|x: u32|
                    store_edges(self.graph).contains_key(x) <==> old_edges.contains_key(x) && (
                    forall|j: int| 0 <= j < k ==> (#[trigger] connecting@[j]).0 != x),
                forall|x: u32| #[trigger]
                    store_edges(self.graph).contains_key(x) ==> store_edges(self.graph)[x]
                        == old_edges[x],
                forall|i: int|
                    0 <= i < k ==> (#[trigger] edges@[i]) == (
                        before.edges[connecting@[i]].slot,
                        before.edges[connecting@[i]].info,
                    ),
            decreases connecting@.len() - k,
        {
            let e = connecting[k];
            proof {
                assert(before.edges.contains_key(e));
                assert(old_edges.contains_key(e.0));
                assert forall|j: int| 0 <= j < k implies (#[trigger] connecting@[j]).0 != e.0 by {
                    assert(connecting@[j] != connecting@[k as int]);
                }
                assert(store_edges(self.graph).contains_key(e.0));
            }
            let info = self.edge_info[e.index()];
            let ghost prior = store_edges(self.graph);
            let slot = store_remove_edge(&mut self.graph, e.0);
            match (slot, info) {
                (Some(slot), Some(info)) => {
                    edges.push((slot, info));
                },
                _ => {
                    proof {
                        assert(false);
                    }
                    return Err(GraphError::NotExistentEdge);
                },
            }
            proof {
                assert(store_edges(self.graph).dom() =~= prior.dom().remove(e.0));
                assert forall|x: u32|
                    store_edges(self.graph).contains_key(x) <==> old_edges.contains_key(x) && (
                    forall|j: int| 0 <= j < k + 1 ==> (#[trigger] connecting@[j]).0 != x) by {
                    if old_edges.contains_key(x) && (forall|j: int|
                        0 <= j < k + 1 ==> (#[trigger] connecting@[j]).0 != x) {
                        assert(connecting@[k as int].0 != x);
                        assert(prior.contains_key(x));
                    }
                    if store_edges(self.graph).contains_key(x) {
                        assert(prior.contains_key(x));
                    }
                }
            }
            k += 1;
        }
        let gate_idx = if !src.is_gate() {
            dest_idx
        } else {
            src_idx
        };
        proof {
            let mid = self@;
            assert(self.stored()) by {
                assert forall|x: u32| #[trigger]
                    store_edges(self.graph).contains_key(x) implies x < self.edge_info@.len()
                    && self.edge_info@[x as int] is Some by {
                    assert(old_edges.contains_key(x));
                }
            }
            assert(mid.nodes =~= before.nodes);
            assert forall|e: EdgeIndex|
                mid.edges.contains_key(e) <==> before.edges.contains_key(e) && !(
                before.edges[e].source == src_idx && before.edges[e].target == dest_idx) by {
                if before.edges.contains_key(e) && !(before.edges[e].source == src_idx
                    && before.edges[e].target == dest_idx) {
                    assert forall|j: int| 0 <= j < connecting@.len() implies (
                    #[trigger] connecting@[j]).0 != e.0 by {
                        assert(before.edges[connecting@[j]].source == src_idx);
                        assert(connecting@[j] != e);
                    }
                    assert(store_edges(self.graph).contains_key(e.0));
                }
                if mid.edges.contains_key(e) {
                    assert(store_edges(self.graph).contains_key(e.0));
                    assert(old_edges.contains_key(e.0));
                    if before.edges[e].source == src_idx && before.edges[e].target == dest_idx {
                        assert(connecting@.contains(e));
                        let j = choose|j: int| 0 <= j < connecting@.len() && connecting@[j] == e;
                        assert(connecting@[j].0 == e.0);
                    }
                }
            }
            assert(before.shrunk_to(mid)) by {
                assert forall|e: EdgeIndex| #[trigger] mid.edges.contains_key(e) implies {
                    &&& before.edges.contains_key(e)
                    &&& mid.edges[e] == before.edges[e]
                    &&& mid.nodes.contains_key(before.edges[e].source)
                    &&& mid.nodes.contains_key(before.edges[e].target)
                } by {
                    assert(store_edges(self.graph).contains_key(e.0));
                    assert(before.edges.contains_key(e));
                }
            }
            before.lemma_shrunk(mid);
            assert forall|m: NodeIndex|
                m != gate_idx && mid.nodes.contains_key(m) implies mid.status_ok(m) by {
                if mid.is_gate(m) {
                    assert(before.nodes.contains_key(m));
                    assert(before.status_ok(m));
                    assert forall|e: EdgeIndex, d: Direction|
                        before.incident(e, m, d) implies mid.edges.contains_key(e) by {
                        match d {
                            Direction::Incoming => {},
                            Direction::Outgoing => {},
                        }
                    }
                    assert(mid.expected_status(m) == before.expected_status(m));
                }
            }
        }
        let ghost mid = self@;
        match self.update_node_status(gate_idx) {
            Ok(_) => {},
            Err(e) => {
                proof {
                    assert(false);
                }
                return Err(e);
            },
        }
        proof {
            let after = self@;
            assert(before.same_nodes_but_statuses(after));
            assert forall|m: NodeIndex|
                m != gate_idx && before.nodes.contains_key(m) implies #[trigger] after.nodes[m]
                == before.nodes[m] by {
                assert(mid.nodes.contains_key(m));
            }
            let ids = connecting@;
            assert forall|i: int| 0 <= i < ids.len() implies {
                let e = #[trigger] before.edges[ids[i]];
                &&& before.edges.contains_key(ids[i])
                &&& e.source == src_idx
                &&& e.target == dest_idx
                &&& edges@[i] == (e.slot, e.info)
            } by {
                assert(before.edges.contains_key(connecting@[i]));
            }
        }
        Ok((gate_idx, edges))
    }

    /// The number of edges found at `n` in direction `dir`.
    pub fn degree_at(&self, n: NodeIndex, dir: Direction) -> (r: usize)
        ensures
            self@.edges_at(n, dir).finite(),
            r == self@.edges_at(n, dir).len(),
    {
        let found = self.incident_edges(n, dir);
        proof {
            let ids = Seq::new(found@.len(), |i: int| found@[i].edge);
            assert(ids.no_duplicates()) by {
                assert forall|i: int, j: int|
                    0 <= i < ids.len() && 0 <= j < ids.len() && i != j implies ids[i] != ids[j] by {
                    if i < j {
                        assert(found@[i].edge != found@[j].edge);
                    } else {
                        assert(found@[j].edge != found@[i].edge);
                    }
                }
            }
            ids.unique_seq_to_set();
            assert(ids.to_set() =~= self@.edges_at(n, dir)) by {
                assert forall|e: EdgeIndex| ids.to_set().contains(e) <==> self@.edges_at(
                    n,
                    dir,
                ).contains(e) by {
                    if ids.contains(e) {
                        let i = choose|i: int| 0 <= i < ids.len() && ids[i] == e;
                        assert(self@.incident(found@[i].edge, n, dir));
                    }
                    if self@.incident(e, n, dir) {
                        let i = choose|i: int| 0 <= i < found@.len() && found@[i].edge == e;
                        assert(ids[i] == e);
                    }
                }
            }
        }
        found.len()
    }

    /// The indices of the nodes, in increasing order.
    #[verifier::loop_isolation(false)]
    pub fn node_indices(&self) -> (r: Vec<NodeIndex>)
        ensures
            r@ == self@.node_ids(),
            self@.is_node_listing(r@),
    {
        let found = store_node_indices(&self.graph);
        let mut r: Vec<NodeIndex> = Vec::new();
        let mut k: usize = 0;
        while k < found.len()
            invariant
                k <= found@.len(),
                r@.len() == k,
                forall|i: int| 0 <= i < k ==> (#[trigger] r@[i]).0 == found@[i],
            decreases found@.len() - k,
        {
            r.push(NodeIndex(found[k]));
            k += 1;
        }
        proof {
            assert forall|n: NodeIndex| self@.nodes.contains_key(n) implies r@.contains(n) by {
                assert(found@.contains(n.0));
                let i = choose|i: int| 0 <= i < found@.len() && found@[i] == n.0;
                assert(r@[i] == n);
            }
            assert forall|i: int, j: int| 0 <= i < j < r@.len() implies (
            CircuitView::<T, G>::index_key())(r@[i]) < (CircuitView::<T, G>::index_key())(
                r@[j],
            ) by {
                assert(found@[i] < found@[j]);
            }
            assert forall|i: int| 0 <= i < r@.len() implies self@.nodes.contains_key(
                #[trigger] r@[i],
            ) by {
                assert(store_nodes(self.graph).contains_key(found@[i]));
            }
            self@.lemma_node_listing_unique(r@);
        }
        r
    }

    /// The indices of the nodes of one kind, in increasing order.
    #[verifier::loop_isolation(false)]
    pub fn nodes_of_kind(&self, kind: NodeType) -> (r: Vec<NodeIndex>)
        ensures
            r@ == keep(self@.node_ids(), self@.of_kind(kind)),
            self@.is_node_listing(self@.node_ids()),
    {
        let ids = self.node_indices();
        let mut r: Vec<NodeIndex> = Vec::new();
        let mut k: usize = 0;
        while k < ids.len()
            invariant
                k <= ids@.len(),
                r@ == keep(ids@.take(k as int), self@.of_kind(kind)),
            decreases ids@.len() - k,
        {
            proof {
                lemma_keep_step(ids@, self@.of_kind(kind), k as int);
            }
            let is_gate = match self.node(ids[k]) {
                Some(node) => node.is_gate(),
                None => false,
            };
            let wanted = match kind {
                NodeType::Gate => is_gate,
                NodeType::Value => !is_gate,
            };
            if wanted {
                r.push(ids[k]);
            }
            k += 1;
        }
        assert(ids@.take(k as int) =~= ids@);
        r
    }

    /// The number of value nodes.
    pub fn count_values(&self) -> (r: usize)
        ensures
            r == self@.value_ids().len(),
            self@.is_node_listing(self@.node_ids()),
    {
        self.nodes_of_kind(NodeType::Value).len()
    }

    /// The number of value nodes.
    pub fn get_value_count(&self) -> (r: usize)
        ensures
            r == self@.value_ids().len(),
            self@.is_node_listing(self@.node_ids()),
    {
        self.count_values()
    }

    /// The gates whose status is not `Valid`, in increasing order of their
    /// indices.
    #[verifier::loop_isolation(false)]
    pub fn get_error_gates(&self) -> (r: Vec<NodeIndex>)
        ensures
            r@ == keep(self@.node_ids(), self@.failing()),
    {
        let ids = self.node_indices();
        let mut r: Vec<NodeIndex> = Vec::new();
        let mut k: usize = 0;
        while k < ids.len()
            invariant
                k <= ids@.len(),
                r@ == keep(ids@.take(k as int), self@.failing()),
            decreases ids@.len() - k,
        {
            proof {
                lemma_keep_step(ids@, self@.failing(), k as int);
            }
            match self.node(ids[k]) {
                Some(NodeValue::GateNode { state_type, .. }) => {
                    match state_type {
                        GateStatus::Valid => {},
                        _ => {
                            r.push(ids[k]);
                        },
                    }
                },
                _ => {},
            }
            k += 1;
        }
        assert(ids@.take(k as int) =~= ids@);
        r
    }

    /// All edges, in increasing order of their indices: source, target, and
    /// the slot with what is attached to the edge.
    #[verifier::loop_isolation(false)]
    pub fn get_edges(&self) -> (r: Vec<(NodeIndex, NodeIndex, (u64, G))>) where G: Copy
        requires
            self.stored(),
        ensures
            r@.len() == self@.edge_ids().len(),
            self@.is_edge_listing(self@.edge_ids()),
            forall|i: int|
                0 <= i < r@.len() ==> {
                    let e = self@.edges[self@.edge_ids()[i]];
                    #[trigger] r@[i] == (e.source, e.target, (e.slot, e.info))
                },
    {
        let found = store_edge_references(&self.graph);
        let mut r: Vec<(NodeIndex, NodeIndex, (u64, G))> = Vec::new();
        let mut k: usize = 0;
        while k < found.len()
            invariant
                k <= found@.len(),
                r@.len() == k,
                forall|i: int|
                    0 <= i < k ==> {
                        let e = self@.edges[EdgeIndex((#[trigger] found@[i]).0)];
                        r@[i] == (e.source, e.target, (e.slot, e.info))
                    },
            decreases found@.len() - k,
        {
            let (id, source, target, slot) = found[k];
            assert(store_edges(self.graph).contains_key(id));
            match self.edge_info[id as usize] {
                Some(info) => {
                    r.push((NodeIndex(source), NodeIndex(target), (slot, info)));
                },
                None => {
                    proof {
                        assert(false);
                    }
                },
            }
            k += 1;
        }
        proof {
            let ids = Seq::new(found@.len(), |i: int| EdgeIndex(found@[i].0));
            assert forall|e: EdgeIndex| self@.edges.contains_key(e) implies ids.contains(e) by {
                assert(store_edges(self.graph).contains_key(e.0));
                let i = choose|i: int| 0 <= i < found@.len() && (#[trigger] found@[i]).0 == e.0;
                assert(ids[i] == e);
            }
            assert forall|i: int| 0 <= i < ids.len() implies self@.edges.contains_key(
                #[trigger] ids[i],
            ) by {
                assert(store_edges(self.graph).contains_key(found@[i].0));
            }
            assert forall|i: int, j: int| 0 <= i < j < ids.len() implies (
            CircuitView::<T, G>::edge_key())(ids[i]) < (CircuitView::<T, G>::edge_key())(
                ids[j],
            ) by {
                assert(found@[i].0 < found@[j].0);
            }
            self@.lemma_edge_listing_unique(ids);
        }
        r
    }

    /// Adds the given nodes one after the other and returns their indices
    /// in that order: where no index is free, the numbers from the number of
    /// nodes on.
    pub fn add_nodes(&mut self, nodes: Vec<(NodeUnitialised, T)>) -> (r: Vec<NodeIndex>) where
        T: Copy,

        requires
            old(self).wf(),
            old(self).spec_node_count() + nodes@.len() <= u32::MAX,
        ensures
            final(self).wf(),
            old(self).free_nodes().len() == 0 ==> final(self).free_nodes().len() == 0 && forall|
                i: int,
            |
                0 <= i < r@.len() ==> (#[trigger] r@[i]).0 == old(self).spec_node_count() + i,
            r@.len() == nodes@.len(),
            final(self)@.edges == old(self)@.edges,
            final(self).spec_node_count() == old(self).spec_node_count() + nodes@.len(),
            final(self).spec_edge_count() == old(self).spec_edge_count(),
            r@.no_duplicates(),
            forall|i: int|
                0 <= i < r@.len() ==> !old(self)@.nodes.contains_key(#[trigger] r@[i]) && final(self)@.nodes.contains_key(r@[i]) && final(self)@.nodes[r@[i]] == (GraphStruct {
                    node: entered(nodes@[i].0),
                    additional_info: nodes@[i].1,
                }),
            forall|n: NodeIndex| #[trigger]
                old(self)@.nodes.contains_key(n) ==> final(self)@.nodes.contains_key(n) && final(self)@.nodes[n] == old(self)@.nodes[n],
            forall|n: NodeIndex| #[trigger]
                final(self)@.nodes.contains_key(n) ==> old(self)@.nodes.contains_key(n)
                    || r@.contains(n),
    {
        let mut r: Vec<NodeIndex> = Vec::new();
        let mut k: usize = 0;
        while k < nodes.len()
            invariant
                old(self).free_nodes().len() == 0 ==> self.free_nodes().len() == 0,
                forall|i: int|
                    0 <= i < k && old(self).free_nodes().len() == 0 ==> (#[trigger] r@[i]).0
                        == old(self).spec_node_count() + i,
                k <= nodes@.len(),
                self.wf(),
                r@.len() == k,
                self@.edges == old(self)@.edges,
                self.spec_node_count() == old(self).spec_node_count() + k,
                self.spec_edge_count() == old(self).spec_edge_count(),
                old(self).spec_node_count() + nodes@.len() <= u32::MAX,
                r@.no_duplicates(),
                forall|i: int|
                    0 <= i < k ==> !old(self)@.nodes.contains_key(#[trigger] r@[i])
                        && self@.nodes.contains_key(r@[i]) && self@.nodes[r@[i]] == (GraphStruct {
                        node: entered(nodes@[i].0),
                        additional_info: nodes@[i].1,
                    }),
                forall|n: NodeIndex| #[trigger]
                    old(self)@.nodes.contains_key(n) ==> self@.nodes.contains_key(n)
                        && self@.nodes[n] == old(self)@.nodes[n],
                forall|n: NodeIndex| #[trigger]
                    self@.nodes.contains_key(n) ==> old(self)@.nodes.contains_key(n) || r@.contains(
                        n,
                    ),
            decreases nodes@.len() - k,
        {
            let (node, info) = nodes[k];
            let ghost prior = r@;
            let ghost before = self@;
            let index = self.add_node(node, info);
            r.push(index);
            proof {
                assert forall|n: NodeIndex| #[trigger] self@.nodes.contains_key(n) implies old(self)@.nodes.contains_key(n) || r@.contains(n) by {
                    if n == index {
                        assert(r@[k as int] == n);
                    } else {
                        assert(before.nodes.contains_key(n));
                        if prior.contains(n) {
                            let i = choose|i: int| 0 <= i < prior.len() && prior[i] == n;
                            assert(r@[i] == n);
                        }
                    }
                }
                assert forall|i: int, j: int|
                    0 <= i < r@.len() && 0 <= j < r@.len() && i != j implies r@[i] != r@[j] by {
                    if i < k && j < k {
                        assert(prior[i] != prior[j]);
                    } else if i < k {
                        assert(before.nodes.contains_key(prior[i]));
                    } else {
                        assert(before.nodes.contains_key(prior[j]));
                    }
                }
            }
            k += 1;
        }
        r
    }

    /// A node's index is a position that a list can have.
    pub proof fn lemma_index_fits(&self, n: NodeIndex)
        requires
            self.stored(),
            self@.nodes.contains_key(n),
        ensures
            n.0 < usize::MAX,
    {
        assert(store_nodes(self.graph).contains_key(n.0));
        assert(self.node_info.len() == self.node_info@.len());
    }

    /// Gives each of the value nodes `ids` the value at its position in
    /// `values`, and brings the statuses of the gates up to date.
    #[verifier::loop_isolation(false)]
    pub fn assign_values(&mut self, ids: &Vec<NodeIndex>, values: &Vec<Value>)
        requires
            old(self).wf(),
            ids@.len() == values@.len(),
            ids@.no_duplicates(),
            forall|j: int| 0 <= j < ids@.len() ==> old(self)@.is_value(#[trigger] ids@[j]),
        ensures
            final(self).wf(),
            final(self).free_nodes() == old(self).free_nodes(),
            final(self)@.edges == old(self)@.edges,
            final(self)@.nodes.dom() == old(self)@.nodes.dom(),
            final(self).spec_node_count() == old(self).spec_node_count(),
            final(self).spec_edge_count() == old(self).spec_edge_count(),
            forall|n: NodeIndex| #[trigger]
                old(self)@.nodes.contains_key(n) ==> {
                    &&& final(self)@.nodes[n].additional_info == old(self)@.nodes[n].additional_info
                    &&& final(self)@.is_gate(n) == old(self)@.is_gate(n)
                    &&& old(self)@.is_gate(n) ==> final(self)@.gate_at(n) == old(self)@.gate_at(n)
                    &&& old(self)@.is_value(n) && !ids@.contains(n) ==> final(self)@.nodes[n]
                        == old(self)@.nodes[n]
                },
            forall|j: int|
                0 <= j < ids@.len() ==> final(self)@.value_at(#[trigger] ids@[j]) == values@[j],
    {
        let mut k: usize = 0;
        while k < ids.len()
            invariant
                self.free_nodes() == old(self).free_nodes(),
                k <= ids@.len(),
                self.wf(),
                self@.edges == old(self)@.edges,
                self@.nodes.dom() == old(self)@.nodes.dom(),
                self.spec_node_count() == old(self).spec_node_count(),
                self.spec_edge_count() == old(self).spec_edge_count(),
                forall|n: NodeIndex| #[trigger]
                    old(self)@.nodes.contains_key(n) ==> {
                        &&& self@.nodes[n].additional_info == old(self)@.nodes[n].additional_info
                        &&& self@.is_gate(n) == old(self)@.is_gate(n)
                        &&& old(self)@.is_gate(n) ==> self@.gate_at(n) == old(self)@.gate_at(n)
                        &&& old(self)@.is_value(n) && !(exists|j: int|
                            0 <= j < k && ids@[j] == n) ==> self@.nodes[n] == old(self)@.nodes[n]
                    },
                forall|j: int| 0 <= j < k ==> self@.value_at(#[trigger] ids@[j]) == values@[j],
            decreases ids@.len() - k,
        {
            let ghost before = self@;
            let index = ids[k];
            assert(old(self)@.nodes.contains_key(index));
            assert(before.is_value(index));
            let updated = self.update_node(index, NodeUnitialised::from_value(values[k]));
            assert(updated is Ok);
            proof {
                let after = self@;
                assert forall|n: NodeIndex| #[trigger]
                    old(self)@.nodes.contains_key(n) implies {
                    &&& after.nodes[n].additional_info == old(self)@.nodes[n].additional_info
                    &&& after.is_gate(n) == old(self)@.is_gate(n)
                    &&& old(self)@.is_gate(n) ==> after.gate_at(n) == old(self)@.gate_at(n)
                    &&& old(self)@.is_value(n) && !(exists|j: int|
                        0 <= j < k + 1 && ids@[j] == n) ==> after.nodes[n] == old(self)@.nodes[n]
                } by {
                    assert(before.nodes.contains_key(n));
                    if old(self)@.is_value(n) && !(exists|j: int| 0 <= j < k + 1 && ids@[j] == n) {
                        assert(n != index);
                        assert(!(exists|j: int| 0 <= j < k && ids@[j] == n));
                        assert(before.is_value(n));
                    }
                    if old(self)@.is_gate(n) {
                        assert(n != index);
                        assert(before.is_gate(n));
                    }
                }
                assert forall|j: int| 0 <= j < k + 1 implies after.value_at(#[trigger] ids@[j])
                    == values@[j] by {
                    if j < k {
                        assert(ids@[j] != ids@[k as int]);
                        assert(old(self)@.nodes.contains_key(ids@[j]));
                        assert(before.is_value(ids@[j]));
                    }
                }
            }
            k += 1;
        }
        proof {
            assert forall|n: NodeIndex|
                old(self)@.is_value(n) && !ids@.contains(n) implies #[trigger] self@.nodes[n] == old(self)@.nodes[n] by {
                assert(old(self)@.nodes.contains_key(n));
                if exists|j: int| 0 <= j < k && ids@[j] == n {
                    let j = choose|j: int| 0 <= j < k && ids@[j] == n;
                    assert(ids@.contains(n));
                }
            }
        }
    }
}

} // verus!
