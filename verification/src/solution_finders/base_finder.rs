//! A circuit flattened into a score over assignments.

use crate::gates::{Gate, GateStatus, NodeType, NodeValue, Value};
use crate::graph::view::{lemma_increasing_no_duplicates, lemma_keep, CircuitView};
use crate::graph::{NodeIndex, PortEdge, PureCircuitGraph};
use petgraph::Direction;
use vstd::prelude::*;

verus! {

/// The most inputs, and the most outputs, that any gate has.
pub const MAX_DEGREE: usize = 2;

/// A gate with the places of its inputs and of its outputs in a list of
/// values; `None` where a gate has no further port.
pub type Inner = (Gate, [Option<usize>; MAX_DEGREE], [Option<usize>; MAX_DEGREE]);

/// The gates of a circuit, each with the places of its ports in the list of
/// the circuit's values.
#[derive(Debug, Clone)]
pub struct FitnessPureCircuit(pub Vec<Inner>);

impl Default for FitnessPureCircuit {
    /// No gates.
    fn default() -> (r: Self)
        ensures
            r.0@.len() == 0,
    {
        FitnessPureCircuit(Vec::new())
    }
}

/// The values of `t` at `places`, in their order, leaving out the places
/// that are `None`; `None` where a place lies beyond `t`.
pub open spec fn picked(places: Seq<Option<usize>>, t: Seq<Value>) -> Option<Seq<Value>>
    decreases places.len(),
{
    if places.len() == 0 {
        Some(Seq::empty())
    } else {
        match (picked(places.drop_last(), t), places.last()) {
            (None, _) => None,
            (Some(head), None) => Some(head),
            (Some(head), Some(at)) => if at < t.len() {
                Some(head.push(t[at as int]))
            } else {
                None
            },
        }
    }
}

/// Whether the values `t` violate a gate: `Some(true)` where that gate
/// rejects the values at its places, `Some(false)` where it accepts them,
/// `None` where a place lies beyond `t` or their number is not its arity.
pub open spec fn violated(entry: Inner, t: Seq<Value>) -> Option<bool> {
    match (picked(entry.1@, t), picked(entry.2@, t)) {
        (Some(ins), Some(outs)) => match entry.0.spec_check(ins, outs) {
            Ok(accepted) => Some(!accepted),
            Err(_) => None,
        },
        _ => None,
    }
}

/// The number of `gates` that the values `t` violate; `None` where one of
/// them cannot be checked.
pub open spec fn violations(gates: Seq<Inner>, t: Seq<Value>) -> Option<nat>
    decreases gates.len(),
{
    if gates.len() == 0 {
        Some(0)
    } else {
        match (violations(gates.drop_last(), t), violated(gates.last(), t)) {
            (Some(count), Some(bad)) => Some(count + if bad { 1nat } else { 0nat }),
            _ => None,
        }
    }
}

impl FitnessPureCircuit {
    /// The values at the places of one side of a gate.
    fn pick(places: &[Option<usize>; MAX_DEGREE], inputs: &[Value]) -> (r: Option<Vec<Value>>)
        ensures
            match r {
                Some(v) => picked(places@, inputs@) == Some(v@),
                None => picked(places@, inputs@) is None,
            },
    {
        let mut out: Vec<Value> = Vec::new();
        let mut k: usize = 0;
        assert(places@.take(0) =~= Seq::<Option<usize>>::empty());
        while k < MAX_DEGREE
            invariant
                k <= MAX_DEGREE,
                places@.len() == MAX_DEGREE,
                picked(places@.take(k as int), inputs@) == Some(out@),
            decreases MAX_DEGREE - k,
        {
            proof {
                assert(places@.take(k + 1).drop_last() =~= places@.take(k as int));
                assert(places@.take(k + 1).last() == places@[k as int]);
            }
            match places[k] {
                Some(at) => {
                    if at < inputs.len() {
                        out.push(inputs[at]);
                    } else {
                        proof {
                            Self::lemma_picked_fails(places@, inputs@, k as int + 1);
                        }
                        return None;
                    }
                },
                None => {},
            }
            k += 1;
        }
        assert(places@.take(k as int) =~= places@);
        Some(out)
    }

    /// Once a start of the places cannot be picked, none that is longer can.
    proof fn lemma_picked_fails(places: Seq<Option<usize>>, t: Seq<Value>, k: int)
        requires
            0 <= k <= places.len(),
            picked(places.take(k), t) is None,
        ensures
            picked(places, t) is None,
        decreases places.len() - k,
    {
        if k < places.len() {
            assert(places.take(k + 1).drop_last() =~= places.take(k));
            Self::lemma_picked_fails(places, t, k + 1);
        } else {
            assert(places.take(k) =~= places);
        }
    }

    /// Once a start of the gates cannot be scored, none that is longer can.
    proof fn lemma_violations_fail(gates: Seq<Inner>, t: Seq<Value>, k: int)
        requires
            0 <= k <= gates.len(),
            violations(gates.take(k), t) is None,
        ensures
            violations(gates, t) is None,
        decreases gates.len() - k,
    {
        if k < gates.len() {
            assert(gates.take(k + 1).drop_last() =~= gates.take(k));
            Self::lemma_violations_fail(gates, t, k + 1);
        } else {
            assert(gates.take(k) =~= gates);
        }
    }

    /// The number of gates that the values `inputs` violate. `None` where a
    /// gate cannot be checked: a place of it lies beyond `inputs`, or it has
    /// not as many places as its arity asks.
    pub fn evaluate(&self, inputs: &[Value]) -> (r: Option<usize>)
        ensures
            match r {
                Some(errors) => violations(self.0@, inputs@) == Some(errors as nat),
                None => violations(self.0@, inputs@) is None,
            },
    {
        let mut errors: usize = 0;
        let mut k: usize = 0;
        assert(self.0@.take(0) =~= Seq::<Inner>::empty());
        while k < self.0.len()
            invariant
                k <= self.0@.len(),
                errors <= k,
                violations(self.0@.take(k as int), inputs@) == Some(errors as nat),
            decreases self.0@.len() - k,
        {
            proof {
                assert(self.0@.take(k + 1).drop_last() =~= self.0@.take(k as int));
                assert(self.0@.take(k + 1).last() == self.0@[k as int]);
            }
            let (g, ins, outs) = self.0[k];
            let checked = match (Self::pick(&ins, inputs), Self::pick(&outs, inputs)) {
                (Some(ins), Some(outs)) => g.check(ins.as_slice(), outs.as_slice()),
                _ => {
                    proof {
                        Self::lemma_violations_fail(self.0@, inputs@, k as int + 1);
                    }
                    return None;
                },
            };
            match checked {
                Err(_) => {
                    proof {
                        Self::lemma_violations_fail(self.0@, inputs@, k as int + 1);
                    }
                    return None;
                },
                Ok(b) => {
                    if !b {
                        errors += 1;
                    }
                },
            }
            k += 1;
        }
        assert(self.0@.take(k as int) =~= self.0@);
        Some(errors)
    }
}

/// The places, in the list of the circuit's values, of the nodes wired to
/// `n`, a gate, in direction `dir`, ordered by slot and filled up with
/// `None`.
pub open spec fn port_places<T, G>(view: CircuitView<T, G>, n: NodeIndex, dir: Direction) -> Seq<
    Option<usize>,
> {
    Seq::new(
        MAX_DEGREE as nat,
        |i: int|
            if i < view.ports(n, dir).len() {
                Some(view.value_ids().index_of(view.ports(n, dir)[i]) as usize)
            } else {
                None
            },
    )
}

impl<T, G> PureCircuitGraph<T, G> {
    /// What is known of the list of value nodes.
    pub proof fn lemma_value_ids(&self)
        requires
            self@.is_node_listing(self@.node_ids()),
        ensures
            self@.value_ids().no_duplicates(),
            forall|n: NodeIndex| self@.is_value(n) <==> self@.value_ids().contains(n),
            forall|j: int|
                0 <= j < self@.value_ids().len() ==> self@.is_value(#[trigger] self@.value_ids()[j])
                    && self@.value_ids().index_of(self@.value_ids()[j]) == j,
            self@.gate_ids().no_duplicates(),
            forall|n: NodeIndex| self@.is_gate(n) <==> self@.gate_ids().contains(n),
    {
        let view = self@;
        lemma_keep(view.node_ids(), view.of_kind(NodeType::Value), CircuitView::<T, G>::index_key());
        lemma_keep(view.node_ids(), view.of_kind(NodeType::Gate), CircuitView::<T, G>::index_key());
        lemma_increasing_no_duplicates(view.value_ids(), CircuitView::<T, G>::index_key());
        lemma_increasing_no_duplicates(view.gate_ids(), CircuitView::<T, G>::index_key());
        assert forall|n: NodeIndex| view.is_value(n) <==> view.value_ids().contains(n) by {
            if view.is_value(n) {
                assert(view.node_ids().contains(n));
                assert(view.of_kind(NodeType::Value).contains(n));
            }
            if view.value_ids().contains(n) {
                assert(view.of_kind(NodeType::Value).contains(n));
            }
        }
        assert forall|n: NodeIndex| view.is_gate(n) <==> view.gate_ids().contains(n) by {
            if view.is_gate(n) {
                assert(view.node_ids().contains(n));
                assert(view.of_kind(NodeType::Gate).contains(n));
            }
            if view.gate_ids().contains(n) {
                assert(view.of_kind(NodeType::Gate).contains(n));
            }
        }
        assert forall|j: int| 0 <= j < view.value_ids().len() implies view.is_value(
            #[trigger] view.value_ids()[j],
        ) && view.value_ids().index_of(view.value_ids()[j]) == j by {
            let ids = view.value_ids();
            assert(ids.contains(ids[j]));
            let found = ids.index_of(ids[j]);
            assert(0 <= found < ids.len() && ids[found] == ids[j]);
        }
    }

    /// The values of the value nodes, by increasing index of the nodes.
    #[verifier::loop_isolation(false)]
    pub fn to_chromosone(&self) -> (r: Vec<Value>)
        ensures
            r@ == self@.values(),
    {
        let ids = self.nodes_of_kind(NodeType::Value);
        proof {
            self.lemma_value_ids();
        }
        let mut r: Vec<Value> = Vec::new();
        let mut k: usize = 0;
        while k < ids.len()
            invariant
                k <= ids@.len(),
                r@.len() == k,
                forall|j: int| 0 <= j < k ==> r@[j] == self@.value_at(ids@[j]),
            decreases ids@.len() - k,
        {
            assert(self@.is_value(ids@[k as int]));
            match self.node(ids[k]) {
                Some(NodeValue::ValueNode(value)) => {
                    r.push(value);
                },
                _ => {
                    proof {
                        assert(false);
                    }
                },
            }
            k += 1;
        }
        assert(r@ =~= self@.values());
        r
    }

    /// Gives the value nodes, by increasing index, the values of
    /// `chromosome`, and brings the statuses of the gates up to date. `None`,
    /// and nothing changes, where `chromosome` has not one value for each
    /// value node. Writing back the values that the circuit holds changes
    /// nothing.
    pub fn from_chromosone(&mut self, chromosome: &[Value]) -> (r: Option<()>)
        requires
            old(self).wf(),
        ensures
            final(self).wf(),
            final(self).free_nodes() == old(self).free_nodes(),
            final(self)@.edges == old(self)@.edges,
            final(self)@.nodes.dom() == old(self)@.nodes.dom(),
            r is Some <==> chromosome@.len() == old(self)@.value_ids().len(),
            r is None ==> final(self)@ == old(self)@,
            r is Some ==> {
                &&& final(self)@.values() == chromosome@
                &&& final(self)@.value_ids() == old(self)@.value_ids()
                &&& forall|n: NodeIndex| #[trigger]
                    old(self)@.nodes.contains_key(n) ==> {
                        &&& final(self)@.nodes[n].additional_info == old(self)@.nodes[n].additional_info
                        &&& final(self)@.is_gate(n) == old(self)@.is_gate(n)
                        &&& old(self)@.is_gate(n) ==> final(self)@.gate_at(n) == old(self)@.gate_at(n)
                    }
            },
            chromosome@ == old(self)@.values() ==> final(self)@ == old(self)@,
    {
        let ids = self.nodes_of_kind(NodeType::Value);
        if ids.len() != chromosome.len() {
            return None;
        }
        let mut values: Vec<Value> = Vec::new();
        let mut k: usize = 0;
        while k < chromosome.len()
            invariant
                k <= chromosome@.len(),
                values@ == chromosome@.take(k as int),
            decreases chromosome@.len() - k,
        {
            values.push(chromosome[k]);
            assert(chromosome@.take(k + 1) =~= chromosome@.take(k as int).push(chromosome@[k as int]));
            k += 1;
        }
        assert(chromosome@.take(k as int) =~= chromosome@);
        proof {
            self.lemma_value_ids();
        }
        self.assign_values(&ids, &values);
        proof {
            let before = old(self)@;
            let after = self@;
            assert(after.is_node_listing(before.node_ids())) by {
                assert forall|i: int| 0 <= i < before.node_ids().len() implies after.nodes.contains_key(
                    #[trigger] before.node_ids()[i],
                ) by {
                    assert(before.nodes.contains_key(before.node_ids()[i]));
                }
                assert forall|n: NodeIndex| after.nodes.contains_key(n) implies before.node_ids().contains(
                    n,
                ) by {
                    assert(before.nodes.contains_key(n));
                }
            }
            after.lemma_node_listing_unique(before.node_ids());
            assert(after.of_kind(NodeType::Value) =~= before.of_kind(NodeType::Value)) by {
                assert forall|n: NodeIndex| after.of_kind(NodeType::Value).contains(n)
                    <==> before.of_kind(NodeType::Value).contains(n) by {
                    if after.nodes.contains_key(n) {
                        assert(before.nodes.contains_key(n));
                    }
                }
            }
            assert(after.values() =~= chromosome@);
            if chromosome@ == before.values() {
                assert(after.nodes =~= before.nodes) by {
                    assert forall|n: NodeIndex| before.nodes.contains_key(n) implies after.nodes[n]
                        == before.nodes[n] by {
                        if before.is_value(n) {
                            assert(ids@.contains(n));
                            let j = choose|j: int| 0 <= j < ids@.len() && ids@[j] == n;
                            assert(after.value_at(ids@[j]) == values@[j]);
                            assert(before.values()[j] == before.value_at(ids@[j]));
                        } else {
                            assert(before.is_gate(n));
                            assert(before.status_ok(n));
                            assert(after.nodes.contains_key(n));
                            assert(after.status_ok(n));
                            assert(before.is_listing(
                                n,
                                Direction::Incoming,
                                before.listing(n, Direction::Incoming),
                            ));
                            assert(before.is_listing(
                                n,
                                Direction::Outgoing,
                                before.listing(n, Direction::Outgoing),
                            ));
                            assert(before.same_wiring(after, n)) by {
                                assert forall|e: crate::graph::EdgeIndex, d: Direction| #[trigger]
                                    before.incident(e, n, d) implies before.value_at(
                                    before.edges[e].far(d),
                                ) == after.value_at(before.edges[e].far(d)) by {
                                    let f = before.edges[e].far(d);
                                    assert(before.edges.contains_key(e));
                                    assert(before.is_value(f)) by {
                                        match d {
                                            Direction::Incoming => {},
                                            Direction::Outgoing => {},
                                        }
                                    }
                                    assert(ids@.contains(f));
                                    let j = choose|j: int| 0 <= j < ids@.len() && ids@[j] == f;
                                    assert(after.value_at(ids@[j]) == values@[j]);
                                    assert(before.values()[j] == before.value_at(ids@[j]));
                                }
                            }
                            before.lemma_same_wiring(after, n);
                        }
                    }
                }
                assert(after == before);
            }
        }
        Some(())
    }

    /// The places of the value nodes at the far ends of `ports` in the list
    /// of value nodes, looked up in `dense`, which holds the place of each
    /// value node at the node's index. `None` where the ports are more than
    /// a gate has.
    fn places_of(ports: &Vec<PortEdge>, dense: &Vec<Option<usize>>) -> (r: Option<
        [Option<usize>; MAX_DEGREE],
    >)
        requires
            forall|i: int|
                0 <= i < ports@.len() ==> (#[trigger] ports@[i]).far.0 < dense@.len()
                    && dense@[ports@[i].far.0 as int] is Some,
        ensures
            r is Some <==> ports@.len() <= MAX_DEGREE,
            r matches Some(places) ==> forall|i: int|
                0 <= i < MAX_DEGREE ==> (#[trigger] places@[i]) == if i < ports@.len() {
                    dense@[ports@[i].far.0 as int]
                } else {
                    None
                },
    {
        if ports.len() > MAX_DEGREE {
            return None;
        }
        let first = if ports.len() > 0 {
            dense[ports[0].far.index()]
        } else {
            None
        };
        let second = if ports.len() > 1 {
            dense[ports[1].far.index()]
        } else {
            None
        };
        Some([first, second])
    }

    /// The circuit as a list of its gates, by increasing index, each with
    /// the places that the nodes at its ports have in the list of value
    /// nodes, ordered by slot. `None` exactly when some gate has not as many
    /// inputs and outputs as its arity asks.
    #[verifier::loop_isolation(false)]
    pub fn to_fitness_function(&self) -> (r: Option<FitnessPureCircuit>)
        requires
            self.structure_wf(),
        ensures
            r is Some <==> forall|n: NodeIndex| self@.is_gate(n) ==> self@.wired(n),
            r matches Some(fitness) ==> {
                &&& fitness.0@.len() == self@.gate_ids().len()
                &&& forall|j: int|
                    0 <= j < fitness.0@.len() ==> {
                        let entry = #[trigger] fitness.0@[j];
                        let n = self@.gate_ids()[j];
                        &&& entry.0 == self@.gate_at(n)
                        &&& entry.1@ == port_places(self@, n, Direction::Incoming)
                        &&& entry.2@ == port_places(self@, n, Direction::Outgoing)
                    }
            },
    {
        let view = Ghost(self@);
        let values = self.nodes_of_kind(NodeType::Value);
        let gates = self.nodes_of_kind(NodeType::Gate);
        proof {
            self.lemma_value_ids();
        }
        let mut bound: usize = 0;
        if values.len() > 0 {
            let last = values[values.len() - 1];
            proof {
                self.lemma_index_fits(last);
            }
            bound = last.index() + 1;
        }
        proof {
            assert forall|j: int| 0 <= j < values@.len() implies (#[trigger] values@[j]).0 < bound by {
                if j < values@.len() - 1 {
                    lemma_keep(
                        view@.node_ids(),
                        view@.of_kind(NodeType::Value),
                        CircuitView::<T, G>::index_key(),
                    );
                    assert((CircuitView::<T, G>::index_key())(values@[j]) < (CircuitView::<
                        T,
                        G,
                    >::index_key())(values@[values@.len() - 1]));
                }
            }
        }
        let mut dense: Vec<Option<usize>> = Vec::new();
        let mut k: usize = 0;
        while k < bound
            invariant
                k <= bound,
                dense@.len() == k,
                forall|i: int| 0 <= i < k ==> (#[trigger] dense@[i]) is None,
            decreases bound - k,
        {
            dense.push(None);
            k += 1;
        }
        let mut k: usize = 0;
        while k < values.len()
            invariant
                k <= values@.len(),
                dense@.len() == bound,
                forall|j: int| 0 <= j < k ==> dense@[(#[trigger] values@[j]).0 as int] == Some(j as usize),
            decreases values@.len() - k,
        {
            let ghost prior = dense@;
            dense[values[k].index()] = Some(k);
            proof {
                assert forall|j: int| 0 <= j < k + 1 implies dense@[(#[trigger] values@[j]).0 as int]
                    == Some(j as usize) by {
                    if j < k {
                        assert(values@[j] != values@[k as int]);
                    }
                }
            }
            k += 1;
        }
        let mut mapper: Vec<Inner> = Vec::new();
        let mut k: usize = 0;
        while k < gates.len()
            invariant
                k <= gates@.len(),
                mapper@.len() == k,
                forall|j: int| 0 <= j < k ==> view@.wired(#[trigger] gates@[j]),
                forall|j: int|
                    0 <= j < k ==> {
                        let entry = #[trigger] mapper@[j];
                        let n = gates@[j];
                        &&& entry.0 == view@.gate_at(n)
                        &&& entry.1@ == port_places(view@, n, Direction::Incoming)
                        &&& entry.2@ == port_places(view@, n, Direction::Outgoing)
                    },
            decreases gates@.len() - k,
        {
            let n = gates[k];
            assert(view@.gate_ids().contains(n));
            assert(view@.is_gate(n));
            let gate = match self.node(n) {
                Some(NodeValue::GateNode { gate, .. }) => gate,
                _ => {
                    proof {
                        assert(false);
                    }
                    return None;
                },
            };
            assert(view@.is_listing(n, Direction::Incoming, view@.listing(n, Direction::Incoming)));
            assert(view@.is_listing(n, Direction::Outgoing, view@.listing(n, Direction::Outgoing)));
            let ins = self.ordered_ports(n, Direction::Incoming);
            let outs = self.ordered_ports(n, Direction::Outgoing);
            let (arity_in, arity_out) = gate.arity();
            if ins.len() != arity_in || outs.len() != arity_out {
                return None;
            }
            proof {
                view@.lemma_ports_are_values(n, Direction::Incoming);
                view@.lemma_ports_are_values(n, Direction::Outgoing);
                assert forall|i: int| 0 <= i < ins@.len() implies (#[trigger] ins@[i]).far.0
                    < dense@.len() && dense@[ins@[i].far.0 as int] == Some(
                    view@.value_ids().index_of(ins@[i].far) as usize,
                ) by {
                    let p = ins@[i].far;
                    assert(p == view@.ports(n, Direction::Incoming)[i]);
                    assert(view@.value_ids().contains(p));
                    let j = choose|j: int| 0 <= j < values@.len() && values@[j] == p;
                    assert(dense@[values@[j].0 as int] == Some(j as usize));
                }
                assert forall|i: int| 0 <= i < outs@.len() implies (#[trigger] outs@[i]).far.0
                    < dense@.len() && dense@[outs@[i].far.0 as int] == Some(
                    view@.value_ids().index_of(outs@[i].far) as usize,
                ) by {
                    let p = outs@[i].far;
                    assert(p == view@.ports(n, Direction::Outgoing)[i]);
                    assert(view@.value_ids().contains(p));
                    let j = choose|j: int| 0 <= j < values@.len() && values@[j] == p;
                    assert(dense@[values@[j].0 as int] == Some(j as usize));
                }
            }
            let in_ind = match Self::places_of(&ins, &dense) {
                Some(places) => places,
                None => {
                    return None;
                },
            };
            let out_ind = match Self::places_of(&outs, &dense) {
                Some(places) => places,
                None => {
                    return None;
                },
            };
            proof {
                assert(in_ind@ =~= port_places(view@, n, Direction::Incoming));
                assert(out_ind@ =~= port_places(view@, n, Direction::Outgoing));
            }
            mapper.push((gate, in_ind, out_ind));
            k += 1;
        }
        proof {
            assert forall|n: NodeIndex| view@.is_gate(n) implies view@.wired(n) by {
                assert(gates@.contains(n));
                let j = choose|j: int| 0 <= j < gates@.len() && gates@[j] == n;
                assert(view@.wired(gates@[j]));
            }
        }
        Some(FitnessPureCircuit(mapper))
    }
}

/// The number of `gates` whose status is not `Valid`.
pub open spec fn failing_among<T, G>(view: CircuitView<T, G>, gates: Seq<NodeIndex>) -> nat
    decreases gates.len(),
{
    if gates.len() == 0 {
        0
    } else {
        failing_among(view, gates.drop_last()) + if view.status_at(gates.last())
            != GateStatus::Valid {
            1nat
        } else {
            0nat
        }
    }
}

/// Whether `entries` lists `gates` as `to_fitness_function` does.
pub open spec fn lists_gates<T, G>(
    view: CircuitView<T, G>,
    entries: Seq<Inner>,
    gates: Seq<NodeIndex>,
) -> bool {
    &&& entries.len() == gates.len()
    &&& forall|j: int|
        0 <= j < entries.len() ==> {
            let entry = #[trigger] entries[j];
            &&& view.is_gate(gates[j])
            &&& view.wired(gates[j])
            &&& entry.0 == view.gate_at(gates[j])
            &&& entry.1@ == port_places(view, gates[j], Direction::Incoming)
            &&& entry.2@ == port_places(view, gates[j], Direction::Outgoing)
        }
}

/// The places of the ports of a gate pick the values at its ports out of
/// the values of the circuit.
pub proof fn lemma_places_pick_port_values<T, G>(
    view: CircuitView<T, G>,
    n: NodeIndex,
    dir: Direction,
)
    requires
        view.structure_wf(),
        view.is_node_listing(view.node_ids()),
        view.is_gate(n),
        view.ports(n, dir).len() <= MAX_DEGREE,
        view.value_ids().len() <= usize::MAX,
    ensures
        picked(port_places(view, n, dir), view.values()) == Some(view.port_values(n, dir)),
{
    let ports = view.ports(n, dir);
    let ids = view.value_ids();
    let places = port_places(view, n, dir);
    let t = view.values();
    let l = view.listing(n, dir);
    assert(view.is_listing(n, dir, l));
    lemma_keep(view.node_ids(), view.of_kind(NodeType::Value), CircuitView::<T, G>::index_key());
    assert forall|i: int| 0 <= i < ports.len() implies {
        let at = ids.index_of(#[trigger] ports[i]);
        &&& 0 <= at < t.len()
        &&& t[at] == view.port_values(n, dir)[i]
    } by {
        assert(view.incident(l[i], n, dir));
        assert(view.edges.contains_key(l[i]));
        assert(view.is_value(ports[i])) by {
            match dir {
                Direction::Incoming => {},
                Direction::Outgoing => {},
            }
        }
        assert(view.node_ids().contains(ports[i]));
        assert(view.of_kind(NodeType::Value).contains(ports[i]));
        assert(ids.contains(ports[i]));
        let at = ids.index_of(ports[i]);
        assert(0 <= at < ids.len() && ids[at] == ports[i]);
    }
    reveal_with_fuel(picked, 4);
    let first = places.drop_last();
    assert(first.len() == 1);
    assert(first[0] == places[0]);
    assert(first.drop_last() =~= Seq::<Option<usize>>::empty());
    assert(picked(first.drop_last(), t) == Some(Seq::<Value>::empty()));
    assert(first.last() == places[0]);
    assert(places.last() == places[1]);
    assert(picked(first, t) == if ports.len() > 0 {
        Some(Seq::<Value>::empty().push(view.port_values(n, dir)[0]))
    } else {
        Some(Seq::<Value>::empty())
    }) by {
        if ports.len() > 0 {
            let at = ids.index_of(ports[0]);
            assert(places[0] == Some(at as usize));
            assert(t[at] == view.port_values(n, dir)[0]);
        }
    }
    if ports.len() > 1 {
        let at = ids.index_of(ports[1]);
        assert(places[1] == Some(at as usize));
        assert(t[at] == view.port_values(n, dir)[1]);
    }
    if ports.len() == 0 {
        assert(view.port_values(n, dir) =~= Seq::<Value>::empty());
    } else if ports.len() == 1 {
        assert(view.port_values(n, dir) =~= Seq::<Value>::empty().push(view.port_values(n, dir)[0]));
    } else {
        assert(view.port_values(n, dir) =~= Seq::<Value>::empty().push(
            view.port_values(n, dir)[0],
        ).push(view.port_values(n, dir)[1]));
    }
}

/// The values that a sound circuit holds violate exactly the gates whose
/// status is `InvalidValues`, so their score is the number of the gates that
/// are not valid: the score of a circuit in which every gate is wired as its
/// arity asks counts the gates that reject the values at their ports.
pub proof fn lemma_score_counts_invalid_gates<T, G>(
    view: CircuitView<T, G>,
    entries: Seq<Inner>,
    gates: Seq<NodeIndex>,
)
    requires
        view.wf(),
        view.is_node_listing(view.node_ids()),
        view.value_ids().len() <= usize::MAX,
        lists_gates(view, entries, gates),
    ensures
        violations(entries, view.values()) == Some(failing_among(view, gates)),
        forall|j: int|
            0 <= j < entries.len() ==> violated(#[trigger] entries[j], view.values()) == Some(
                view.status_at(gates[j]) == GateStatus::InvalidValues,
            ),
    decreases entries.len(),
{
    assert forall|j: int| 0 <= j < entries.len() implies violated(
        #[trigger] entries[j],
        view.values(),
    ) == Some(view.status_at(gates[j]) == GateStatus::InvalidValues) && (view.status_at(gates[j])
        != GateStatus::Valid <==> view.status_at(gates[j]) == GateStatus::InvalidValues) by {
        let n = gates[j];
        assert(view.nodes.contains_key(n));
        assert(view.status_ok(n));
        lemma_places_pick_port_values(view, n, Direction::Incoming);
        lemma_places_pick_port_values(view, n, Direction::Outgoing);
    }
    if entries.len() > 0 {
        let head = entries.drop_last();
        let head_gates = gates.drop_last();
        assert(lists_gates(view, head, head_gates)) by {
            assert forall|j: int| 0 <= j < head.len() implies {
                let entry = #[trigger] head[j];
                &&& view.is_gate(head_gates[j])
                &&& view.wired(head_gates[j])
                &&& entry.0 == view.gate_at(head_gates[j])
                &&& entry.1@ == port_places(view, head_gates[j], Direction::Incoming)
                &&& entry.2@ == port_places(view, head_gates[j], Direction::Outgoing)
            } by {
                assert(head[j] == entries[j]);
            }
        }
        lemma_score_counts_invalid_gates(view, head, head_gates);
        let last = entries.len() - 1;
        assert(entries.last() == entries[last]);
        assert(gates.last() == gates[last]);
    }
}

} // verus!
