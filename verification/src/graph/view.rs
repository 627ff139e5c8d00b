//! The circuit as a mathematical object: nodes and edges by index, the
//! ports of a gate in the order of their slots, and the status that a gate
//! ought to have.

use crate::gates::{Gate, GateStatus, GraphStruct, NodeType, Value};
use petgraph::Direction;
use vstd::prelude::*;

verus! {

/// The index of a node of a circuit.
#[derive(Debug, Clone, Copy, PartialEq, Eq, Structural, Hash, PartialOrd, Ord)]
pub struct NodeIndex(pub u32);

/// The index of an edge of a circuit.
#[derive(Debug, Clone, Copy, PartialEq, Eq, Structural, Hash, PartialOrd, Ord)]
pub struct EdgeIndex(pub u32);

impl NodeIndex {
    /// The index as a position in a list of nodes.
    pub fn index(self) -> (r: usize)
        ensures
            r == self.0,
    {
        self.0 as usize
    }
}

impl EdgeIndex {
    /// The index as a position in a list of edges.
    pub fn index(self) -> (r: usize)
        ensures
            r == self.0,
    {
        self.0 as usize
    }
}

/// An edge of a circuit: from `source` to `target`, at position `slot` among
/// the edges of its gate that point the same way, with what the owner
/// attached to it.
pub struct Edge<G> {
    pub source: NodeIndex,
    pub target: NodeIndex,
    pub slot: u64,
    pub info: G,
}

impl<G> Edge<G> {
    /// The end at which the edge is found when the edges of a node are
    /// listed in direction `dir`: its target if incoming, its source if
    /// outgoing.
    pub open spec fn near(self, dir: Direction) -> NodeIndex {
        match dir {
            Direction::Incoming => self.target,
            Direction::Outgoing => self.source,
        }
    }

    /// The other end.
    pub open spec fn far(self, dir: Direction) -> NodeIndex {
        match dir {
            Direction::Incoming => self.source,
            Direction::Outgoing => self.target,
        }
    }
}

/// Whether the keys of the items of `s` strictly increase.
pub open spec fn increasing<A>(s: Seq<A>, key: spec_fn(A) -> int) -> bool {
    forall|i: int, j: int| 0 <= i < j < s.len() ==> key(s[i]) < key(s[j])
}

/// Two lists with strictly increasing keys that hold the same items are the
/// same list.
pub proof fn lemma_increasing_unique<A>(s1: Seq<A>, s2: Seq<A>, key: spec_fn(A) -> int)
    requires
        increasing(s1, key),
        increasing(s2, key),
        forall|x: A| s1.contains(x) <==> s2.contains(x),
    ensures
        s1 == s2,
    decreases s1.len(),
{
    if s1.len() == 0 {
        if s2.len() > 0 {
            assert(s2.contains(s2[0]));
            assert(s1.contains(s2[0]));
        }
        assert(s1 =~= s2);
    } else {
        let x = s1.last();
        assert(s1[s1.len() - 1] == x);
        assert(s1.contains(x));
        assert(s2.contains(x));
        let j = choose|j: int| 0 <= j < s2.len() && s2[j] == x;
        let y = s2.last();
        assert(s2[s2.len() - 1] == y);
        assert(s2.contains(y));
        assert(s1.contains(y));
        let i = choose|i: int| 0 <= i < s1.len() && s1[i] == y;
        assert(key(y) <= key(x)) by {
            if i < s1.len() - 1 {
                assert(key(s1[i]) < key(s1[s1.len() - 1]));
            }
        }
        assert(key(x) <= key(y)) by {
            if j < s2.len() - 1 {
                assert(key(s2[j]) < key(s2[s2.len() - 1]));
            }
        }
        assert(i == s1.len() - 1) by {
            if i < s1.len() - 1 {
                assert(key(s1[i]) < key(s1[s1.len() - 1]));
            }
        }
        assert(x == y);
        let r1 = s1.drop_last();
        let r2 = s2.drop_last();
        assert forall|z: A| r1.contains(z) <==> r2.contains(z) by {
            if r1.contains(z) {
                let k = choose|k: int| 0 <= k < r1.len() && r1[k] == z;
                assert(s1[k] == z);
                assert(key(s1[k]) < key(s1[s1.len() - 1]));
                assert(s1.contains(z));
                assert(s2.contains(z));
                let m = choose|m: int| 0 <= m < s2.len() && s2[m] == z;
                assert(m < s2.len() - 1);
                assert(r2[m] == z);
            }
            if r2.contains(z) {
                let k = choose|k: int| 0 <= k < r2.len() && r2[k] == z;
                assert(s2[k] == z);
                assert(key(s2[k]) < key(s2[s2.len() - 1]));
                assert(s2.contains(z));
                assert(s1.contains(z));
                let m = choose|m: int| 0 <= m < s1.len() && s1[m] == z;
                assert(m < s1.len() - 1);
                assert(r1[m] == z);
            }
        }
        assert(increasing(r1, key)) by {
            assert forall|a: int, b: int| 0 <= a < b < r1.len() implies key(r1[a]) < key(
                r1[b],
            ) by {
                assert(key(s1[a]) < key(s1[b]));
            }
        }
        assert(increasing(r2, key)) by {
            assert forall|a: int, b: int| 0 <= a < b < r2.len() implies key(r2[a]) < key(
                r2[b],
            ) by {
                assert(key(s2[a]) < key(s2[b]));
            }
        }
        lemma_increasing_unique(r1, r2, key);
        assert(s1 =~= r1.push(x));
        assert(s2 =~= r2.push(y));
    }
}

/// A list with strictly increasing keys holds no item twice.
pub proof fn lemma_increasing_no_duplicates<A>(s: Seq<A>, key: spec_fn(A) -> int)
    requires
        increasing(s, key),
    ensures
        s.no_duplicates(),
{
    assert forall|i: int, j: int| 0 <= i < s.len() && 0 <= j < s.len() && i != j implies s[i]
        != s[j] by {
        if i < j {
            assert(key(s[i]) < key(s[j]));
        } else {
            assert(key(s[j]) < key(s[i]));
        }
    }
}

/// The items of `s` that lie in `kept`, in their order.
pub open spec fn keep<A>(s: Seq<A>, kept: Set<A>) -> Seq<A>
    decreases s.len(),
{
    if s.len() == 0 {
        s
    } else if kept.contains(s.last()) {
        keep(s.drop_last(), kept).push(s.last())
    } else {
        keep(s.drop_last(), kept)
    }
}

/// `keep` holds the items of `s` that lie in `kept` and no others, and keeps
/// keys increasing.
pub proof fn lemma_keep<A>(s: Seq<A>, kept: Set<A>, key: spec_fn(A) -> int)
    requires
        increasing(s, key),
    ensures
        increasing(keep(s, kept), key),
        forall|x: A| keep(s, kept).contains(x) <==> s.contains(x) && kept.contains(x),
        keep(s, kept).len() <= s.len(),
    decreases s.len(),
{
    if s.len() == 0 {
    } else {
        let r = s.drop_last();
        let x = s.last();
        assert(increasing(r, key)) by {
            assert forall|a: int, b: int| 0 <= a < b < r.len() implies key(r[a]) < key(r[b]) by {
                assert(key(s[a]) < key(s[b]));
            }
        }
        lemma_keep(r, kept, key);
        let kr = keep(r, kept);
        let k = keep(s, kept);
        assert forall|y: A| k.contains(y) <==> s.contains(y) && kept.contains(y) by {
            if k.contains(y) {
                let i = choose|i: int| 0 <= i < k.len() && k[i] == y;
                if kept.contains(x) && i == kr.len() {
                    assert(s[s.len() - 1] == y);
                } else {
                    assert(kr[i] == y);
                    assert(kr.contains(y));
                    assert(r.contains(y));
                    let j = choose|j: int| 0 <= j < r.len() && r[j] == y;
                    assert(s[j] == y);
                }
            }
            if s.contains(y) && kept.contains(y) {
                let j = choose|j: int| 0 <= j < s.len() && s[j] == y;
                if j == s.len() - 1 {
                    assert(k[kr.len() as int] == y);
                } else {
                    assert(r[j] == y);
                    assert(r.contains(y));
                    assert(kr.contains(y));
                    let i = choose|i: int| 0 <= i < kr.len() && kr[i] == y;
                    assert(k[i] == y);
                }
            }
        }
        assert forall|a: int, b: int| 0 <= a < b < k.len() implies key(k[a]) < key(k[b]) by {
            if b < kr.len() {
                assert(key(kr[a]) < key(kr[b]));
            } else {
                assert(k[b] == x);
                assert(kr[a] == k[a]);
                assert(kr.contains(kr[a]));
                assert(r.contains(kr[a]));
                let j = choose|j: int| 0 <= j < r.len() && r[j] == kr[a];
                assert(key(s[j]) < key(s[s.len() - 1]));
            }
        }
    }
}

/// `keep` on one more item of `s`.
pub proof fn lemma_keep_step<A>(s: Seq<A>, kept: Set<A>, k: int)
    requires
        0 <= k < s.len(),
    ensures
        keep(s.take(k + 1), kept) == if kept.contains(s[k]) {
            keep(s.take(k), kept).push(s[k])
        } else {
            keep(s.take(k), kept)
        },
{
    assert(s.take(k + 1).drop_last() =~= s.take(k));
    assert(s.take(k + 1).last() == s[k]);
}

/// What a circuit holds: its nodes and its edges, each by index.
pub struct CircuitView<T, G> {
    pub nodes: Map<NodeIndex, GraphStruct<T>>,
    pub edges: Map<EdgeIndex, Edge<G>>,
}

impl<T, G> CircuitView<T, G> {
    /// Whether `n` is a value node of the circuit.
    pub open spec fn is_value(self, n: NodeIndex) -> bool {
        self.nodes.contains_key(n) && self.nodes[n].node is ValueNode
    }

    /// Whether `n` is a gate node of the circuit.
    pub open spec fn is_gate(self, n: NodeIndex) -> bool {
        self.nodes.contains_key(n) && self.nodes[n].node is GateNode
    }

    /// The value that the value node `n` holds.
    pub open spec fn value_at(self, n: NodeIndex) -> Value
        recommends
            self.is_value(n),
    {
        self.nodes[n].node->ValueNode_0
    }

    /// The kind of gate that the node `n` is.
    pub open spec fn gate_at(self, n: NodeIndex) -> Gate
        recommends
            self.is_gate(n),
    {
        self.nodes[n].node->gate
    }

    /// The status recorded for the node `n`, a gate.
    pub open spec fn status_at(self, n: NodeIndex) -> GateStatus
        recommends
            self.is_gate(n),
    {
        self.nodes[n].node->state_type
    }

    /// Whether `e` is an edge that is found at `n` in direction `dir`.
    pub open spec fn incident(self, e: EdgeIndex, n: NodeIndex, dir: Direction) -> bool {
        self.edges.contains_key(e) && self.edges[e].near(dir) == n
    }

    /// Whether an edge joins `n` and `m`.
    pub open spec fn adjacent(self, n: NodeIndex, m: NodeIndex) -> bool {
        exists|e: EdgeIndex, d: Direction| #[trigger]
            self.incident(e, n, d) && self.edges[e].far(d) == m
    }

    /// Whether `es` holds each edge found at `n` once, with its direction,
    /// and `r` the nodes at their far ends in the same order.
    pub open spec fn neighbours_by(
        self,
        n: NodeIndex,
        r: Seq<NodeIndex>,
        es: Seq<(EdgeIndex, Direction)>,
    ) -> bool {
        &&& es.len() == r.len()
        &&& es.no_duplicates()
        &&& forall|i: int|
            0 <= i < es.len() ==> self.incident((#[trigger] es[i]).0, n, es[i].1) && r[i]
                == self.edges[es[i].0].far(es[i].1)
        &&& forall|e: EdgeIndex, d: Direction| self.incident(e, n, d) ==> es.contains((e, d))
    }

    /// Whether `r` lists the nodes at the far ends of the edges found at
    /// `n`, one entry for each edge.
    pub open spec fn lists_neighbours(self, n: NodeIndex, r: Seq<NodeIndex>) -> bool {
        exists|es: Seq<(EdgeIndex, Direction)>| self.neighbours_by(n, r, es)
    }

    /// A node with one edge has one neighbour listed.
    pub proof fn lemma_single_neighbour(
        self,
        n: NodeIndex,
        r: Seq<NodeIndex>,
        e: EdgeIndex,
        d: Direction,
    )
        requires
            self.lists_neighbours(n, r),
            self.incident(e, n, d),
            forall|x: EdgeIndex, y: Direction| self.incident(x, n, y) ==> x == e && y == d,
        ensures
            r == seq![self.edges[e].far(d)],
    {
        let es = choose|es: Seq<(EdgeIndex, Direction)>| self.neighbours_by(n, r, es);
        assert(es.contains((e, d)));
        if es.len() > 1 {
            assert(es[0] == (e, d));
            assert(es[1] == (e, d));
        }
        assert(es[0] == (e, d));
        assert(r =~= seq![self.edges[e].far(d)]);
    }

    /// Whether an edge leads from `src` to `dst`.
    pub open spec fn connected(self, src: NodeIndex, dst: NodeIndex) -> bool {
        exists|e: EdgeIndex| #[trigger]
            self.edges.contains_key(e) && self.edges[e].source == src && self.edges[e].target
                == dst
    }

    /// The edges found at `n` in direction `dir`.
    pub open spec fn edges_at(self, n: NodeIndex, dir: Direction) -> Set<EdgeIndex> {
        Set::new(|e: EdgeIndex| self.incident(e, n, dir))
    }

    /// The slot of an edge, as a key to order edges by.
    pub open spec fn slot_key(self) -> spec_fn(EdgeIndex) -> int {
        |e: EdgeIndex| self.edges[e].slot as int
    }

    /// Whether `s` lists the edges found at `n` in direction `dir`, all of
    /// them, by strictly increasing slot.
    pub open spec fn is_listing(self, n: NodeIndex, dir: Direction, s: Seq<EdgeIndex>) -> bool {
        &&& forall|i: int| 0 <= i < s.len() ==> self.incident(#[trigger] s[i], n, dir)
        &&& increasing(s, self.slot_key())
        &&& forall|e: EdgeIndex| self.incident(e, n, dir) ==> s.contains(e)
    }

    /// The edges found at `n` in direction `dir`, by increasing slot.
    pub open spec fn listing(self, n: NodeIndex, dir: Direction) -> Seq<EdgeIndex> {
        choose|s: Seq<EdgeIndex>| self.is_listing(n, dir, s)
    }

    /// The nodes at the far ends of the edges `s`.
    pub open spec fn far_ends(self, dir: Direction, s: Seq<EdgeIndex>) -> Seq<NodeIndex> {
        Seq::new(s.len(), |i: int| self.edges[s[i]].far(dir))
    }

    /// The values held at the far ends of the edges `s`.
    pub open spec fn far_values(self, dir: Direction, s: Seq<EdgeIndex>) -> Seq<Value> {
        Seq::new(s.len(), |i: int| self.value_at(self.edges[s[i]].far(dir)))
    }

    /// The nodes wired to `n` in direction `dir`, ordered by slot: the
    /// inputs of a gate if incoming, its outputs if outgoing.
    pub open spec fn ports(self, n: NodeIndex, dir: Direction) -> Seq<NodeIndex> {
        self.far_ends(dir, self.listing(n, dir))
    }

    /// The values wired to `n` in direction `dir`, ordered by slot.
    pub open spec fn port_values(self, n: NodeIndex, dir: Direction) -> Seq<Value> {
        self.far_values(dir, self.listing(n, dir))
    }

    /// The number of edges found at `n` in direction `dir`.
    pub open spec fn degree(self, n: NodeIndex, dir: Direction) -> nat {
        self.listing(n, dir).len()
    }

    /// Whether `n`, a gate, has as many inputs and outputs as its arity asks.
    pub open spec fn wired(self, n: NodeIndex) -> bool {
        &&& self.degree(n, Direction::Incoming) == self.gate_at(n).spec_arity().0
        &&& self.degree(n, Direction::Outgoing) == self.gate_at(n).spec_arity().1
    }

    /// The status that `n`, a gate, has by its wiring and the values at its
    /// ports, each taken in the order of the slots.
    pub open spec fn expected_status(self, n: NodeIndex) -> GateStatus {
        GateStatus::of(
            self.gate_at(n).spec_check(
                self.port_values(n, Direction::Incoming),
                self.port_values(n, Direction::Outgoing),
            ),
        )
    }

    /// Whether the status recorded for `n`, if `n` is a gate, is the one it
    /// ought to have.
    pub open spec fn status_ok(self, n: NodeIndex) -> bool {
        self.is_gate(n) ==> self.status_at(n) == self.expected_status(n)
    }

    /// Whether the edges make a circuit: every edge joins a value node and a
    /// gate node of the circuit and has a slot from 1 on, and no two edges
    /// found at a gate in the same direction share a slot.
    pub open spec fn structure_wf(self) -> bool {
        &&& forall|e: EdgeIndex| #[trigger]
            self.edges.contains_key(e) ==> {
                &&& self.nodes.contains_key(self.edges[e].source)
                &&& self.nodes.contains_key(self.edges[e].target)
                &&& self.is_gate(self.edges[e].source) != self.is_gate(self.edges[e].target)
                &&& self.edges[e].slot >= 1
            }
        &&& forall|n: NodeIndex, dir: Direction|
            self.is_gate(n) ==> #[trigger] self.is_listing(n, dir, self.listing(n, dir))
    }

    /// Whether this is a circuit in which every gate has the status that it
    /// ought to have.
    pub open spec fn wf(self) -> bool {
        &&& self.structure_wf()
        &&& forall|n: NodeIndex| #[trigger] self.nodes.contains_key(n) ==> self.status_ok(n)
    }

    /// There is one way only to list the edges at a node by slot.
    pub proof fn lemma_listing_unique(self, n: NodeIndex, dir: Direction, s: Seq<EdgeIndex>)
        requires
            self.is_listing(n, dir, s),
        ensures
            self.listing(n, dir) == s,
            self.is_listing(n, dir, self.listing(n, dir)),
    {
        let l = self.listing(n, dir);
        assert(self.is_listing(n, dir, l));
        assert forall|x: EdgeIndex| l.contains(x) <==> s.contains(x) by {
            if l.contains(x) {
                let k = choose|k: int| 0 <= k < l.len() && l[k] == x;
                assert(self.incident(l[k], n, dir));
            }
            if s.contains(x) {
                let k = choose|k: int| 0 <= k < s.len() && s[k] == x;
                assert(self.incident(s[k], n, dir));
            }
        }
        lemma_increasing_unique(l, s, self.slot_key());
    }

    /// The degree of a node is the number of edges found at it.
    pub proof fn lemma_degree_counts_edges(self, n: NodeIndex, dir: Direction)
        requires
            self.is_listing(n, dir, self.listing(n, dir)),
        ensures
            self.degree(n, dir) == Set::new(|e: EdgeIndex| self.incident(e, n, dir)).len(),
            Set::new(|e: EdgeIndex| self.incident(e, n, dir)).finite(),
    {
        let l = self.listing(n, dir);
        lemma_increasing_no_duplicates(l, self.slot_key());
        l.unique_seq_to_set();
        assert(l.to_set() =~= Set::new(|e: EdgeIndex| self.incident(e, n, dir))) by {
            assert forall|e: EdgeIndex| l.to_set().contains(e) <==> self.incident(e, n, dir) by {
                if l.contains(e) {
                    let k = choose|k: int| 0 <= k < l.len() && l[k] == e;
                    assert(self.incident(l[k], n, dir));
                }
            }
        }
    }

    /// The listing at a node depends on the edges found there only: where
    /// a second circuit has the same edges at `n`, with the same slots and
    /// far ends, it lists them alike.
    pub proof fn lemma_listing_frame(self, other: Self, n: NodeIndex, dir: Direction)
        requires
            self.is_listing(n, dir, self.listing(n, dir)),
            forall|e: EdgeIndex| self.incident(e, n, dir) <==> other.incident(e, n, dir),
            forall|e: EdgeIndex|
                self.incident(e, n, dir) ==> self.edges[e].slot == other.edges[e].slot
                    && self.edges[e].far(dir) == other.edges[e].far(dir),
        ensures
            other.listing(n, dir) == self.listing(n, dir),
            other.is_listing(n, dir, other.listing(n, dir)),
            other.ports(n, dir) == self.ports(n, dir),
    {
        let l = self.listing(n, dir);
        assert(other.is_listing(n, dir, l)) by {
            assert forall|i: int| 0 <= i < l.len() implies other.incident(
                #[trigger] l[i],
                n,
                dir,
            ) by {
                assert(self.incident(l[i], n, dir));
            }
            assert forall|i: int, j: int| 0 <= i < j < l.len() implies (other.slot_key())(l[i]) < (
            other.slot_key())(l[j]) by {
                assert(self.incident(l[i], n, dir));
                assert(self.incident(l[j], n, dir));
                assert((self.slot_key())(l[i]) < (self.slot_key())(l[j]));
            }
        }
        other.lemma_listing_unique(n, dir, l);
        assert(other.ports(n, dir) =~= self.ports(n, dir)) by {
            assert forall|i: int| 0 <= i < l.len() implies other.edges[l[i]].far(dir)
                == self.edges[l[i]].far(dir) by {
                assert(self.incident(l[i], n, dir));
            }
        }
    }

    /// The values at the ports of a node depend on the ports and on the
    /// values held there only.
    pub proof fn lemma_port_values_frame(self, other: Self, n: NodeIndex, dir: Direction)
        requires
            self.is_listing(n, dir, self.listing(n, dir)),
            other.listing(n, dir) == self.listing(n, dir),
            other.ports(n, dir) == self.ports(n, dir),
            forall|i: int|
                0 <= i < self.ports(n, dir).len() ==> other.value_at(
                    #[trigger] self.ports(n, dir)[i],
                ) == self.value_at(self.ports(n, dir)[i]),
        ensures
            other.port_values(n, dir) == self.port_values(n, dir),
    {
        let l = self.listing(n, dir);
        assert forall|i: int| 0 <= i < l.len() implies other.port_values(n, dir)[i]
            == self.port_values(n, dir)[i] by {
            assert(self.ports(n, dir)[i] == self.edges[l[i]].far(dir));
            assert(other.ports(n, dir)[i] == other.edges[l[i]].far(dir));
        }
        assert(other.port_values(n, dir) =~= self.port_values(n, dir));
    }

    /// Whether `other` has at `n` the same gate, the edges and the values at
    /// their far ends that `self` has there.
    pub open spec fn same_wiring(self, other: Self, n: NodeIndex) -> bool {
        &&& other.is_gate(n)
        &&& other.gate_at(n) == self.gate_at(n)
        &&& forall|e: EdgeIndex, dir: Direction|
            self.incident(e, n, dir) <==> other.incident(e, n, dir)
        &&& forall|e: EdgeIndex, dir: Direction| #[trigger]
            self.incident(e, n, dir) ==> {
                &&& self.edges[e].slot == other.edges[e].slot
                &&& self.edges[e].far(dir) == other.edges[e].far(dir)
                &&& self.value_at(self.edges[e].far(dir)) == other.value_at(
                    self.edges[e].far(dir),
                )
            }
    }

    /// A gate with the same wiring in two circuits ought to have the same
    /// status in both.
    pub proof fn lemma_same_wiring(self, other: Self, n: NodeIndex)
        requires
            self.is_gate(n),
            self.is_listing(n, Direction::Incoming, self.listing(n, Direction::Incoming)),
            self.is_listing(n, Direction::Outgoing, self.listing(n, Direction::Outgoing)),
            self.same_wiring(other, n),
        ensures
            other.is_listing(n, Direction::Incoming, other.listing(n, Direction::Incoming)),
            other.is_listing(n, Direction::Outgoing, other.listing(n, Direction::Outgoing)),
            other.listing(n, Direction::Incoming) == self.listing(n, Direction::Incoming),
            other.listing(n, Direction::Outgoing) == self.listing(n, Direction::Outgoing),
            other.port_values(n, Direction::Incoming) == self.port_values(n, Direction::Incoming),
            other.port_values(n, Direction::Outgoing) == self.port_values(n, Direction::Outgoing),
            other.ports(n, Direction::Incoming) == self.ports(n, Direction::Incoming),
            other.ports(n, Direction::Outgoing) == self.ports(n, Direction::Outgoing),
            other.expected_status(n) == self.expected_status(n),
    {
        self.lemma_same_wiring_towards(other, n, Direction::Incoming);
        self.lemma_same_wiring_towards(other, n, Direction::Outgoing);
    }

    /// One direction of `lemma_same_wiring`.
    proof fn lemma_same_wiring_towards(self, other: Self, n: NodeIndex, dir: Direction)
        requires
            self.is_listing(n, dir, self.listing(n, dir)),
            self.same_wiring(other, n),
        ensures
            other.is_listing(n, dir, other.listing(n, dir)),
            other.listing(n, dir) == self.listing(n, dir),
            other.ports(n, dir) == self.ports(n, dir),
            other.port_values(n, dir) == self.port_values(n, dir),
    {
        assert forall|e: EdgeIndex| self.incident(e, n, dir) implies self.edges[e].slot
            == other.edges[e].slot && self.edges[e].far(dir) == other.edges[e].far(dir) by {}
        self.lemma_listing_frame(other, n, dir);
        let l = self.listing(n, dir);
        assert forall|i: int| 0 <= i < self.ports(n, dir).len() implies other.value_at(
            #[trigger] self.ports(n, dir)[i],
        ) == self.value_at(self.ports(n, dir)[i]) by {
            assert(self.incident(l[i], n, dir));
        }
        self.lemma_port_values_frame(other, n, dir);
    }

    /// A node without edges has no ports.
    pub proof fn lemma_no_edges(self, n: NodeIndex, dir: Direction)
        requires
            forall|e: EdgeIndex| !self.incident(e, n, dir),
        ensures
            self.listing(n, dir) == Seq::<EdgeIndex>::empty(),
            self.is_listing(n, dir, self.listing(n, dir)),
            self.port_values(n, dir) == Seq::<Value>::empty(),
            self.ports(n, dir) == Seq::<NodeIndex>::empty(),
    {
        assert(self.is_listing(n, dir, Seq::<EdgeIndex>::empty()));
        self.lemma_listing_unique(n, dir, Seq::<EdgeIndex>::empty());
        assert(self.port_values(n, dir) =~= Seq::<Value>::empty());
        assert(self.ports(n, dir) =~= Seq::<NodeIndex>::empty());
    }

    /// Two edges found at a node in the same direction have different
    /// slots, provided the edges there can be listed.
    pub proof fn lemma_distinct_slots(self, n: NodeIndex, dir: Direction, e1: EdgeIndex, e2: EdgeIndex)
        requires
            self.is_listing(n, dir, self.listing(n, dir)),
            self.incident(e1, n, dir),
            self.incident(e2, n, dir),
            e1 != e2,
        ensures
            self.edges[e1].slot != self.edges[e2].slot,
    {
        let l = self.listing(n, dir);
        assert(l.contains(e1));
        assert(l.contains(e2));
        let i = choose|i: int| 0 <= i < l.len() && l[i] == e1;
        let j = choose|j: int| 0 <= j < l.len() && l[j] == e2;
        if i < j {
            assert((self.slot_key())(l[i]) < (self.slot_key())(l[j]));
        } else {
            assert((self.slot_key())(l[j]) < (self.slot_key())(l[i]));
        }
    }

    /// Whether `other` differs from `self` at most in the statuses recorded
    /// for its gates.
    pub open spec fn same_but_statuses(self, other: Self) -> bool {
        &&& other.edges == self.edges
        &&& self.same_nodes_but_statuses(other)
    }

    /// Whether `other` has the nodes of `self`, but for the statuses
    /// recorded for its gates.
    pub open spec fn same_nodes_but_statuses(self, other: Self) -> bool {
        &&& other.nodes.dom() == self.nodes.dom()
        &&& forall|n: NodeIndex| #[trigger]
            self.nodes.contains_key(n) ==> {
                &&& other.nodes[n].additional_info == self.nodes[n].additional_info
                &&& other.is_gate(n) == self.is_gate(n)
                &&& self.is_gate(n) ==> other.gate_at(n) == self.gate_at(n)
                &&& self.is_value(n) ==> other.nodes[n].node == self.nodes[n].node
            }
    }

    /// The statuses recorded for the gates bear on nothing else: a circuit
    /// that differs in them only is as sound, and its gates ought to have the
    /// same statuses.
    pub proof fn lemma_same_but_statuses(self, other: Self)
        requires
            self.structure_wf(),
            self.same_but_statuses(other),
        ensures
            other.structure_wf(),
            forall|n: NodeIndex|
                self.is_gate(n) ==> #[trigger] other.expected_status(n) == self.expected_status(n),
    {
        assert forall|n: NodeIndex| self.is_gate(n) implies #[trigger] other.expected_status(n)
            == self.expected_status(n) && other.is_listing(
            n,
            Direction::Incoming,
            other.listing(n, Direction::Incoming),
        ) && other.is_listing(n, Direction::Outgoing, other.listing(n, Direction::Outgoing)) by {
            assert(self.is_listing(n, Direction::Incoming, self.listing(n, Direction::Incoming)));
            assert(self.is_listing(n, Direction::Outgoing, self.listing(n, Direction::Outgoing)));
            assert(self.nodes.contains_key(n));
            assert(self.same_wiring(other, n)) by {
                assert forall|e: EdgeIndex, d: Direction| #[trigger]
                    self.incident(e, n, d) implies self.value_at(self.edges[e].far(d))
                    == other.value_at(self.edges[e].far(d)) by {
                    assert(self.edges.contains_key(e));
                    let f = self.edges[e].far(d);
                    assert(self.nodes.contains_key(f));
                    assert(self.is_value(f));
                }
            }
            self.lemma_same_wiring(other, n);
        }
        assert forall|n: NodeIndex, dir: Direction| other.is_gate(n) implies #[trigger]
            other.is_listing(n, dir, other.listing(n, dir)) by {
            assert(self.nodes.contains_key(n));
            assert(self.is_gate(n));
            assert(other.expected_status(n) == self.expected_status(n));
            match dir {
                Direction::Incoming => {},
                Direction::Outgoing => {},
            }
        }
        assert forall|e: EdgeIndex| #[trigger] other.edges.contains_key(e) implies {
            &&& other.nodes.contains_key(other.edges[e].source)
            &&& other.nodes.contains_key(other.edges[e].target)
            &&& other.is_gate(other.edges[e].source) != other.is_gate(other.edges[e].target)
            &&& other.edges[e].slot >= 1
        } by {
            assert(self.edges.contains_key(e));
            assert(self.nodes.contains_key(self.edges[e].source));
            assert(self.nodes.contains_key(self.edges[e].target));
        }
    }

    /// The greatest slot among the edges found at `n` in direction `dir`;
    /// 0 where there is none.
    pub open spec fn max_slot(self, n: NodeIndex, dir: Direction) -> u64 {
        let l = self.listing(n, dir);
        if l.len() == 0 {
            0
        } else {
            self.edges[l.last()].slot
        }
    }

    /// `max_slot` bounds the slots at the node, and is one of them unless
    /// there is no edge.
    pub proof fn lemma_max_slot(self, n: NodeIndex, dir: Direction)
        requires
            self.is_listing(n, dir, self.listing(n, dir)),
        ensures
            forall|e: EdgeIndex|
                self.incident(e, n, dir) ==> self.edges[e].slot <= self.max_slot(n, dir),
            self.listing(n, dir).len() > 0 ==> self.incident(self.listing(n, dir).last(), n, dir),
            self.listing(n, dir).len() == 0 ==> forall|e: EdgeIndex| !self.incident(e, n, dir),
    {
        let l = self.listing(n, dir);
        assert forall|e: EdgeIndex| self.incident(e, n, dir) implies self.edges[e].slot
            <= self.max_slot(n, dir) by {
            assert(l.contains(e));
            let i = choose|i: int| 0 <= i < l.len() && l[i] == e;
            if i < l.len() - 1 {
                assert((self.slot_key())(l[i]) < (self.slot_key())(l[l.len() - 1]));
            }
        }
        if l.len() > 0 {
            assert(self.incident(l[l.len() - 1], n, dir));
        } else {
            assert forall|e: EdgeIndex| !self.incident(e, n, dir) by {
                if self.incident(e, n, dir) {
                    assert(l.contains(e));
                }
            }
        }
    }

    /// The end that is a gate of an edge from `src` to `dst`, and the direction in
    /// which the edge is found there.
    pub open spec fn gate_end(self, src: NodeIndex, dst: NodeIndex) -> (NodeIndex, Direction) {
        if self.is_value(src) {
            (dst, Direction::Incoming)
        } else {
            (src, Direction::Outgoing)
        }
    }

    /// Whether `src` and `dst` are nodes of the circuit, one a value and one
    /// a gate.
    pub open spec fn joinable(self, src: NodeIndex, dst: NodeIndex) -> bool {
        &&& self.nodes.contains_key(src)
        &&& self.nodes.contains_key(dst)
        &&& self.is_gate(src) != self.is_gate(dst)
    }

    /// The circuit with one more edge, which is found last at its gate.
    pub proof fn lemma_edge_added(self, other: Self, e: EdgeIndex, edge: Edge<G>)
        requires
            self.structure_wf(),
            !self.edges.contains_key(e),
            other.nodes == self.nodes,
            other.edges == self.edges.insert(e, edge),
            self.joinable(edge.source, edge.target),
            edge.slot == self.max_slot(
                self.gate_end(edge.source, edge.target).0,
                self.gate_end(edge.source, edge.target).1,
            ) + 1,
        ensures
            other.structure_wf(),
            forall|m: NodeIndex|
                self.is_gate(m) && m != self.gate_end(edge.source, edge.target).0
                    ==> #[trigger] other.expected_status(m) == self.expected_status(m),
            ({
                let (g, d) = self.gate_end(edge.source, edge.target);
                other.listing(g, d) == self.listing(g, d).push(e)
            }),
    {
        let (g, d) = self.gate_end(edge.source, edge.target);
        assert(self.is_gate(g));
        assert(edge.near(d) == g);
        assert(self.is_value(edge.far(d)));
        let old_l = self.listing(g, d);
        assert(self.is_listing(g, d, old_l));
        self.lemma_max_slot(g, d);
        let new_l = old_l.push(e);
        assert(other.is_listing(g, d, new_l)) by {
            assert forall|i: int| 0 <= i < new_l.len() implies other.incident(
                #[trigger] new_l[i],
                g,
                d,
            ) by {
                if i < old_l.len() {
                    assert(self.incident(old_l[i], g, d));
                }
            }
            assert forall|i: int, j: int| 0 <= i < j < new_l.len() implies (other.slot_key())(
                new_l[i],
            ) < (other.slot_key())(new_l[j]) by {
                assert(self.incident(old_l[i], g, d));
                if j < old_l.len() {
                    assert(self.incident(old_l[j], g, d));
                    assert((self.slot_key())(old_l[i]) < (self.slot_key())(old_l[j]));
                }
            }
            assert forall|x: EdgeIndex| other.incident(x, g, d) implies new_l.contains(x) by {
                if x == e {
                    assert(new_l[old_l.len() as int] == e);
                } else {
                    assert(self.incident(x, g, d));
                    assert(old_l.contains(x));
                    let i = choose|i: int| 0 <= i < old_l.len() && old_l[i] == x;
                    assert(new_l[i] == x);
                }
            }
        }
        other.lemma_listing_unique(g, d, new_l);
        let o = match d {
            Direction::Incoming => Direction::Outgoing,
            Direction::Outgoing => Direction::Incoming,
        };
        assert(edge.near(o) != g);
        assert(self.is_listing(g, o, self.listing(g, o)));
        assert forall|x: EdgeIndex| self.incident(x, g, o) <==> other.incident(x, g, o) by {}
        self.lemma_listing_frame(other, g, o);
        assert forall|m: NodeIndex| self.is_gate(m) && m != g implies #[trigger]
            other.expected_status(m) == self.expected_status(m) && other.is_listing(
            m,
            Direction::Incoming,
            other.listing(m, Direction::Incoming),
        ) && other.is_listing(m, Direction::Outgoing, other.listing(m, Direction::Outgoing)) by {
            assert(self.is_listing(m, Direction::Incoming, self.listing(m, Direction::Incoming)));
            assert(self.is_listing(m, Direction::Outgoing, self.listing(m, Direction::Outgoing)));
            assert(self.same_wiring(other, m)) by {
                assert forall|x: EdgeIndex, dd: Direction|
                    self.incident(x, m, dd) <==> other.incident(x, m, dd) by {
                    if x == e {
                        match dd {
                            Direction::Incoming => {},
                            Direction::Outgoing => {},
                        }
                    }
                }
            }
            self.lemma_same_wiring(other, m);
        }
        assert forall|n: NodeIndex, dir: Direction| other.is_gate(n) implies #[trigger]
            other.is_listing(n, dir, other.listing(n, dir)) by {
            if n != g {
                assert(other.expected_status(n) == self.expected_status(n));
            }
            match dir {
                Direction::Incoming => {},
                Direction::Outgoing => {},
            }
        }
        assert forall|x: EdgeIndex| #[trigger] other.edges.contains_key(x) implies {
            &&& other.nodes.contains_key(other.edges[x].source)
            &&& other.nodes.contains_key(other.edges[x].target)
            &&& other.is_gate(other.edges[x].source) != other.is_gate(other.edges[x].target)
            &&& other.edges[x].slot >= 1
        } by {
            if x != e {
                assert(self.edges.contains_key(x));
            }
        }
    }

    /// Where `other` has, at `n` in direction `dir`, some of the edges that
    /// `self` has there and no others, with their slots, it can list them:
    /// as `self` does, without those that are gone.
    pub proof fn lemma_listing_after_drop(self, other: Self, n: NodeIndex, dir: Direction)
        requires
            self.is_listing(n, dir, self.listing(n, dir)),
            forall|e: EdgeIndex|
                other.incident(e, n, dir) ==> self.incident(e, n, dir) && other.edges[e].slot
                    == self.edges[e].slot,
        ensures
            other.is_listing(n, dir, other.listing(n, dir)),
            other.listing(n, dir) == keep(
                self.listing(n, dir),
                Set::new(|e: EdgeIndex| other.incident(e, n, dir)),
            ),
    {
        let l = self.listing(n, dir);
        let kept = Set::new(|e: EdgeIndex| other.incident(e, n, dir));
        let k = keep(l, kept);
        lemma_keep(l, kept, self.slot_key());
        assert(other.is_listing(n, dir, k)) by {
            assert forall|i: int| 0 <= i < k.len() implies other.incident(#[trigger] k[i], n, dir) by {
                assert(k.contains(k[i]));
                assert(kept.contains(k[i]));
            }
            assert forall|i: int, j: int| 0 <= i < j < k.len() implies (other.slot_key())(k[i]) < (
            other.slot_key())(k[j]) by {
                assert(k.contains(k[i]));
                assert(k.contains(k[j]));
                assert((self.slot_key())(k[i]) < (self.slot_key())(k[j]));
            }
            assert forall|e: EdgeIndex| other.incident(e, n, dir) implies k.contains(e) by {
                assert(self.incident(e, n, dir));
                assert(l.contains(e));
                assert(kept.contains(e));
            }
        }
        other.lemma_listing_unique(n, dir, k);
    }

    /// Whether `other` is `self` with some edges taken out, and possibly
    /// nodes at which no edge is left: what is still there is unchanged.
    pub open spec fn shrunk_to(self, other: Self) -> bool {
        &&& forall|n: NodeIndex| #[trigger]
            other.nodes.contains_key(n) ==> self.nodes.contains_key(n) && other.nodes[n]
                == self.nodes[n]
        &&& forall|e: EdgeIndex| #[trigger]
            other.edges.contains_key(e) ==> {
                &&& self.edges.contains_key(e)
                &&& other.edges[e] == self.edges[e]
                &&& other.nodes.contains_key(self.edges[e].source)
                &&& other.nodes.contains_key(self.edges[e].target)
            }
    }

    /// Taking edges out of a circuit, and nodes left without edges, leaves a
    /// circuit; a gate that keeps all its edges ought to keep its status.
    pub proof fn lemma_shrunk(self, other: Self)
        requires
            self.structure_wf(),
            self.shrunk_to(other),
        ensures
            other.structure_wf(),
            forall|m: NodeIndex|
                other.is_gate(m) && (forall|e: EdgeIndex, d: Direction|
                    self.incident(e, m, d) ==> other.edges.contains_key(e))
                    ==> #[trigger] other.expected_status(m) == self.expected_status(m),
    {
        assert forall|n: NodeIndex, dir: Direction| other.is_gate(n) implies #[trigger]
            other.is_listing(n, dir, other.listing(n, dir)) by {
            assert(self.is_gate(n));
            assert(self.is_listing(n, dir, self.listing(n, dir)));
            self.lemma_listing_after_drop(other, n, dir);
        }
        assert forall|m: NodeIndex|
            other.is_gate(m) && (forall|e: EdgeIndex, d: Direction|
                self.incident(e, m, d) ==> other.edges.contains_key(e)) implies #[trigger]
            other.expected_status(m) == self.expected_status(m) by {
            assert(self.is_gate(m));
            assert(self.is_listing(m, Direction::Incoming, self.listing(m, Direction::Incoming)));
            assert(self.is_listing(m, Direction::Outgoing, self.listing(m, Direction::Outgoing)));
            assert(self.same_wiring(other, m)) by {
                assert forall|e: EdgeIndex, d: Direction| #[trigger]
                    self.incident(e, m, d) implies {
                    &&& self.edges[e].slot == other.edges[e].slot
                    &&& self.edges[e].far(d) == other.edges[e].far(d)
                    &&& self.value_at(self.edges[e].far(d)) == other.value_at(
                        self.edges[e].far(d),
                    )
                } by {
                    assert(other.edges.contains_key(e));
                    assert(other.nodes.contains_key(self.edges[e].far(d))) by {
                        match d {
                            Direction::Incoming => {},
                            Direction::Outgoing => {},
                        }
                    }
                }
            }
            self.lemma_same_wiring(other, m);
        }
        assert forall|e: EdgeIndex| #[trigger] other.edges.contains_key(e) implies {
            &&& other.nodes.contains_key(other.edges[e].source)
            &&& other.nodes.contains_key(other.edges[e].target)
            &&& other.is_gate(other.edges[e].source) != other.is_gate(other.edges[e].target)
            &&& other.edges[e].slot >= 1
        } by {
            assert(self.edges.contains_key(e));
        }
    }

    /// An edge joins `n` and `m` exactly if it joins `m` and `n`.
    pub proof fn lemma_adjacent_symmetric(self, n: NodeIndex, m: NodeIndex)
        ensures
            self.adjacent(n, m) == self.adjacent(m, n),
    {
        if self.adjacent(n, m) {
            let (e, d) = choose|e: EdgeIndex, d: Direction| #[trigger]
                self.incident(e, n, d) && self.edges[e].far(d) == m;
            match d {
                Direction::Incoming => {
                    assert(self.incident(e, m, Direction::Outgoing));
                },
                Direction::Outgoing => {
                    assert(self.incident(e, m, Direction::Incoming));
                },
            }
        }
        if self.adjacent(m, n) {
            let (e, d) = choose|e: EdgeIndex, d: Direction| #[trigger]
                self.incident(e, m, d) && self.edges[e].far(d) == n;
            match d {
                Direction::Incoming => {
                    assert(self.incident(e, n, Direction::Outgoing));
                },
                Direction::Outgoing => {
                    assert(self.incident(e, n, Direction::Incoming));
                },
            }
        }
    }

    /// Replacing the node at `index` by one of its kind leaves a circuit; a
    /// gate elsewhere that no edge joins to `index` ought to keep its status.
    pub proof fn lemma_node_replaced(self, other: Self, index: NodeIndex)
        requires
            self.structure_wf(),
            self.nodes.contains_key(index),
            other.edges == self.edges,
            other.nodes.dom() == self.nodes.dom(),
            forall|n: NodeIndex|
                n != index && self.nodes.contains_key(n) ==> #[trigger] other.nodes[n]
                    == self.nodes[n],
            other.is_gate(index) == self.is_gate(index),
        ensures
            other.structure_wf(),
            forall|m: NodeIndex|
                self.is_gate(m) && m != index && !self.adjacent(index, m)
                    ==> #[trigger] other.expected_status(m) == self.expected_status(m),
    {
        assert forall|n: NodeIndex, dir: Direction| other.is_gate(n) implies #[trigger]
            other.is_listing(n, dir, other.listing(n, dir)) by {
            assert(self.nodes.contains_key(n));
            assert(self.is_gate(n));
            assert(self.is_listing(n, dir, self.listing(n, dir)));
            self.lemma_listing_frame(other, n, dir);
        }
        assert forall|m: NodeIndex|
            self.is_gate(m) && m != index && !self.adjacent(index, m) implies #[trigger]
            other.expected_status(m) == self.expected_status(m) by {
            assert(self.is_listing(m, Direction::Incoming, self.listing(m, Direction::Incoming)));
            assert(self.is_listing(m, Direction::Outgoing, self.listing(m, Direction::Outgoing)));
            self.lemma_adjacent_symmetric(index, m);
            assert(self.same_wiring(other, m)) by {
                assert forall|e: EdgeIndex, d: Direction| #[trigger]
                    self.incident(e, m, d) implies self.value_at(self.edges[e].far(d))
                    == other.value_at(self.edges[e].far(d)) by {
                    let f = self.edges[e].far(d);
                    assert(self.edges.contains_key(e));
                    assert(self.nodes.contains_key(f)) by {
                        match d {
                            Direction::Incoming => {},
                            Direction::Outgoing => {},
                        }
                    }
                    if f == index {
                        assert(self.adjacent(m, index));
                    }
                }
            }
            self.lemma_same_wiring(other, m);
        }
        assert forall|e: EdgeIndex| #[trigger] other.edges.contains_key(e) implies {
            &&& other.nodes.contains_key(other.edges[e].source)
            &&& other.nodes.contains_key(other.edges[e].target)
            &&& other.is_gate(other.edges[e].source) != other.is_gate(other.edges[e].target)
            &&& other.edges[e].slot >= 1
        } by {
            assert(self.edges.contains_key(e));
            assert(self.nodes.contains_key(self.edges[e].source));
            assert(self.nodes.contains_key(self.edges[e].target));
        }
    }

    /// The index of a node, as a key to order nodes by.
    pub open spec fn index_key() -> spec_fn(NodeIndex) -> int {
        |n: NodeIndex| n.0 as int
    }

    /// Whether `s` lists the nodes of the circuit, all of them, by strictly
    /// increasing index.
    pub open spec fn is_node_listing(self, s: Seq<NodeIndex>) -> bool {
        &&& forall|i: int| 0 <= i < s.len() ==> self.nodes.contains_key(#[trigger] s[i])
        &&& increasing(s, Self::index_key())
        &&& forall|n: NodeIndex| self.nodes.contains_key(n) ==> s.contains(n)
    }

    /// The nodes of the circuit by increasing index.
    pub open spec fn node_ids(self) -> Seq<NodeIndex> {
        choose|s: Seq<NodeIndex>| self.is_node_listing(s)
    }

    /// The nodes of one kind.
    pub open spec fn of_kind(self, kind: NodeType) -> Set<NodeIndex> {
        Set::new(|n: NodeIndex| self.nodes.contains_key(n) && self.nodes[n].node.node_type() == kind)
    }

    /// The value nodes of the circuit by increasing index.
    pub open spec fn value_ids(self) -> Seq<NodeIndex> {
        keep(self.node_ids(), self.of_kind(NodeType::Value))
    }

    /// The gates of the circuit by increasing index.
    pub open spec fn gate_ids(self) -> Seq<NodeIndex> {
        keep(self.node_ids(), self.of_kind(NodeType::Gate))
    }

    /// One more than the greatest index of a value node; 0 where there is
    /// no value node.
    pub open spec fn value_span(self) -> nat {
        if self.value_ids().len() == 0 {
            0
        } else {
            (self.value_ids().last().0 + 1) as nat
        }
    }

    /// The gates whose status is not `Valid`.
    pub open spec fn failing(self) -> Set<NodeIndex> {
        Set::new(|n: NodeIndex| self.is_gate(n) && self.status_at(n) != GateStatus::Valid)
    }

    /// The values that the value nodes hold, by increasing index of the
    /// nodes.
    pub open spec fn values(self) -> Seq<Value> {
        Seq::new(self.value_ids().len(), |i: int| self.value_at(self.value_ids()[i]))
    }

    /// There is one way only to list the nodes by index.
    pub proof fn lemma_node_listing_unique(self, s: Seq<NodeIndex>)
        requires
            self.is_node_listing(s),
        ensures
            self.node_ids() == s,
            self.is_node_listing(self.node_ids()),
    {
        let l = self.node_ids();
        assert(self.is_node_listing(l));
        assert forall|x: NodeIndex| l.contains(x) <==> s.contains(x) by {
            if l.contains(x) {
                let k = choose|k: int| 0 <= k < l.len() && l[k] == x;
                assert(self.nodes.contains_key(l[k]));
            }
            if s.contains(x) {
                let k = choose|k: int| 0 <= k < s.len() && s[k] == x;
                assert(self.nodes.contains_key(s[k]));
            }
        }
        lemma_increasing_unique(l, s, Self::index_key());
    }

    /// Whether the gates with the status `InvalidArity` are the gates that
    /// have not as many inputs and outputs as their arity asks.
    pub open spec fn arity_flagged(self) -> bool {
        forall|n: NodeIndex|
            self.is_gate(n) ==> (#[trigger] self.status_at(n) == GateStatus::InvalidArity
                <==> !self.wired(n))
    }

    /// In a sound circuit the gates with the status `InvalidArity` are the
    /// gates wired against their arity.
    pub proof fn lemma_arity_flagged(self)
        requires
            self.wf(),
        ensures
            self.arity_flagged(),
    {
        assert forall|n: NodeIndex| self.is_gate(n) implies (#[trigger] self.status_at(n)
            == GateStatus::InvalidArity <==> !self.wired(n)) by {
            self.lemma_invalid_arity_iff_miswired(n);
        }
    }

    /// In a sound circuit a gate has the status `InvalidArity` exactly if it
    /// has not as many inputs and outputs as its arity asks, where inputs
    /// and outputs are counted as the edges that end and start at it.
    /// So the gates with that status are the gates wired against their
    /// arity, and there are as many of the ones as of the others.
    pub proof fn lemma_invalid_arity_iff_miswired(self, n: NodeIndex)
        requires
            self.wf(),
            self.is_gate(n),
        ensures
            self.status_at(n) == GateStatus::InvalidArity <==> !self.wired(n),
            self.degree(n, Direction::Incoming) == Set::new(
                |e: EdgeIndex| self.edges.contains_key(e) && self.edges[e].target == n,
            ).len(),
            self.degree(n, Direction::Outgoing) == Set::new(
                |e: EdgeIndex| self.edges.contains_key(e) && self.edges[e].source == n,
            ).len(),
            Set::new(|m: NodeIndex| self.is_gate(m) && self.status_at(m) == GateStatus::InvalidArity)
                == Set::new(|m: NodeIndex| self.is_gate(m) && !self.wired(m)),
    {
        assert(self.nodes.contains_key(n));
        assert(self.status_ok(n));
        assert(self.is_listing(n, Direction::Incoming, self.listing(n, Direction::Incoming)));
        assert(self.is_listing(n, Direction::Outgoing, self.listing(n, Direction::Outgoing)));
        self.lemma_degree_counts_edges(n, Direction::Incoming);
        self.lemma_degree_counts_edges(n, Direction::Outgoing);
        assert(Set::new(|e: EdgeIndex| self.incident(e, n, Direction::Incoming)) =~= Set::new(
            |e: EdgeIndex| self.edges.contains_key(e) && self.edges[e].target == n,
        ));
        assert(Set::new(|e: EdgeIndex| self.incident(e, n, Direction::Outgoing)) =~= Set::new(
            |e: EdgeIndex| self.edges.contains_key(e) && self.edges[e].source == n,
        ));
        assert forall|m: NodeIndex| self.is_gate(m) implies (self.status_at(m)
            == GateStatus::InvalidArity <==> !self.wired(m)) by {
            assert(self.nodes.contains_key(m));
            assert(self.status_ok(m));
        }
        assert(Set::new(
            |m: NodeIndex| self.is_gate(m) && self.status_at(m) == GateStatus::InvalidArity,
        ) =~= Set::new(|m: NodeIndex| self.is_gate(m) && !self.wired(m)));
    }

    /// In a sound circuit a gate that is wired as its arity asks has the
    /// status `Valid` exactly if it accepts the values at its ports, taken in
    /// the order of the slots, and the status `InvalidValues` otherwise.
    pub proof fn lemma_valid_iff_check(self, n: NodeIndex)
        requires
            self.wf(),
            self.is_gate(n),
            self.wired(n),
        ensures
            self.status_at(n) == GateStatus::Valid <==> self.gate_at(n).spec_check(
                self.port_values(n, Direction::Incoming),
                self.port_values(n, Direction::Outgoing),
            ) == Ok::<bool, crate::gates::GateError>(true),
            self.status_at(n) == GateStatus::InvalidValues <==> self.gate_at(n).spec_check(
                self.port_values(n, Direction::Incoming),
                self.port_values(n, Direction::Outgoing),
            ) == Ok::<bool, crate::gates::GateError>(false),
            self.status_at(n) != GateStatus::InvalidArity,
    {
        assert(self.nodes.contains_key(n));
        assert(self.status_ok(n));
    }

    /// The index of an edge, as a key to order edges by.
    pub open spec fn edge_key() -> spec_fn(EdgeIndex) -> int {
        |e: EdgeIndex| e.0 as int
    }

    /// Whether `s` lists the edges of the circuit, all of them, by strictly
    /// increasing index.
    pub open spec fn is_edge_listing(self, s: Seq<EdgeIndex>) -> bool {
        &&& forall|i: int| 0 <= i < s.len() ==> self.edges.contains_key(#[trigger] s[i])
        &&& increasing(s, Self::edge_key())
        &&& forall|e: EdgeIndex| self.edges.contains_key(e) ==> s.contains(e)
    }

    /// The edges of the circuit by increasing index.
    pub open spec fn edge_ids(self) -> Seq<EdgeIndex> {
        choose|s: Seq<EdgeIndex>| self.is_edge_listing(s)
    }

    /// There is one way only to list the edges by index.
    pub proof fn lemma_edge_listing_unique(self, s: Seq<EdgeIndex>)
        requires
            self.is_edge_listing(s),
        ensures
            self.edge_ids() == s,
            self.is_edge_listing(self.edge_ids()),
    {
        let l = self.edge_ids();
        assert(self.is_edge_listing(l));
        assert forall|x: EdgeIndex| l.contains(x) <==> s.contains(x) by {
            if l.contains(x) {
                let k = choose|k: int| 0 <= k < l.len() && l[k] == x;
                assert(self.edges.contains_key(l[k]));
            }
            if s.contains(x) {
                let k = choose|k: int| 0 <= k < s.len() && s[k] == x;
                assert(self.edges.contains_key(s[k]));
            }
        }
        lemma_increasing_unique(l, s, Self::edge_key());
    }

    /// Each port of a node is joined to the node by an edge.
    pub proof fn lemma_ports_adjacent(self, n: NodeIndex, dir: Direction, i: int)
        requires
            self.is_listing(n, dir, self.listing(n, dir)),
            0 <= i < self.ports(n, dir).len(),
        ensures
            self.adjacent(n, self.ports(n, dir)[i]),
            self.adjacent(self.ports(n, dir)[i], n),
    {
        let e = self.listing(n, dir)[i];
        assert(self.incident(e, n, dir));
        assert(self.edges[e].far(dir) == self.ports(n, dir)[i]);
        self.lemma_adjacent_symmetric(n, self.ports(n, dir)[i]);
    }

    /// The ports of a gate are value nodes.
    pub proof fn lemma_ports_are_values(self, n: NodeIndex, dir: Direction)
        requires
            self.structure_wf(),
            self.is_gate(n),
        ensures
            forall|i: int|
                0 <= i < self.ports(n, dir).len() ==> self.is_value(#[trigger] self.ports(n, dir)[i]),
    {
        let l = self.listing(n, dir);
        assert(self.is_listing(n, dir, l));
        assert forall|i: int| 0 <= i < self.ports(n, dir).len() implies self.is_value(
            #[trigger] self.ports(n, dir)[i],
        ) by {
            assert(self.incident(l[i], n, dir));
            assert(self.edges.contains_key(l[i]));
            match dir {
                Direction::Incoming => {},
                Direction::Outgoing => {},
            }
        }
    }
}

} // verus!
