//! What the exact search is about: assignments, solutions, the state of a
//! search, and why the search finds what it finds.

use crate::gates::{Gate, GateStatus, Value};
use crate::graph::view::CircuitView;
use crate::graph::{EdgeIndex, NodeIndex};
use crate::solution_finders::backtracking::BitString;
use crate::solution_finders::base_finder::MAX_DEGREE;
use crate::solution_finders::gate_backtrack::{known_less, purifies, Known};
use crate::solution_finders::queue::Rank;
use petgraph::Direction;
use vstd::prelude::*;

verus! {

/// What `sol` assigns to the node `n`, if anything.
pub open spec fn assigned(sol: Seq<Option<Value>>, n: NodeIndex) -> Option<Value> {
    if (n.0 as int) < sol.len() {
        sol[n.0 as int]
    } else {
        None
    }
}

/// Whether `sol` assigns a value to each of `ports`.
pub open spec fn all_assigned(sol: Seq<Option<Value>>, ports: Seq<NodeIndex>) -> bool {
    forall|i: int| 0 <= i < ports.len() ==> assigned(sol, #[trigger] ports[i]) is Some
}

/// The values that `sol` assigns to `ports`.
pub open spec fn values_at(sol: Seq<Option<Value>>, ports: Seq<NodeIndex>) -> Seq<Value> {
    Seq::new(ports.len(), |i: int| assigned(sol, ports[i]).unwrap())
}

/// Whether `n` is a gate wired as its arity asks, with its inputs at the
/// slots 1, 2, .. and its outputs at the slots 1, 2, ..
pub open spec fn tidy<T, G>(view: CircuitView<T, G>, n: NodeIndex) -> bool {
    &&& view.is_gate(n)
    &&& view.wired(n)
    &&& forall|d: Direction, i: int|
        0 <= i < view.listing(n, d).len() ==> (#[trigger] view.edges[view.listing(
            n,
            d,
        )[i]]).slot == i + 1
}

/// Whether `n` is a gate whose edges the search can tell apart by slot: in
/// each direction they are no more than a gate has ports, and their slots
/// are 1, 2, ..
pub open spec fn indexed<T, G>(view: CircuitView<T, G>, n: NodeIndex) -> bool {
    &&& view.is_gate(n)
    &&& forall|d: Direction| #[trigger] view.listing(n, d).len() <= MAX_DEGREE
    &&& forall|d: Direction, i: int|
        0 <= i < view.listing(n, d).len() ==> (#[trigger] view.edges[view.listing(
            n,
            d,
        )[i]]).slot == i + 1
}

/// Whether every gate is wired as its arity asks, with slots 1, 2, ..
pub open spec fn all_tidy<T, G>(view: CircuitView<T, G>) -> bool {
    forall|n: NodeIndex| view.is_gate(n) ==> #[trigger] tidy(view, n)
}

/// Whether the search can tell the edges of every gate apart by slot.
pub open spec fn all_indexed<T, G>(view: CircuitView<T, G>) -> bool {
    forall|n: NodeIndex| view.is_gate(n) ==> #[trigger] indexed(view, n)
}

/// Whether `n`, a gate, accepts what `sol` assigns to its ports, or `sol`
/// leaves one of them open.
pub open spec fn satisfied<T, G>(
    view: CircuitView<T, G>,
    sol: Seq<Option<Value>>,
    n: NodeIndex,
) -> bool {
    all_assigned(sol, view.ports(n, Direction::Incoming)) && all_assigned(
        sol,
        view.ports(n, Direction::Outgoing),
    ) ==> view.gate_at(n).accepts(
        values_at(sol, view.ports(n, Direction::Incoming)),
        values_at(sol, view.ports(n, Direction::Outgoing)),
    )
}

/// Whether no tidy gate has all its ports assigned and rejects them.
pub open spec fn consistent<T, G>(view: CircuitView<T, G>, sol: Seq<Option<Value>>) -> bool {
    forall|n: NodeIndex| tidy(view, n) ==> #[trigger] satisfied(view, sol, n)
}

/// Whether `sol` assigns a value to every value node and to nothing else.
pub open spec fn is_total<T, G>(view: CircuitView<T, G>, sol: Seq<Option<Value>>) -> bool {
    &&& forall|n: NodeIndex| view.is_value(n) ==> assigned(sol, n) is Some
    &&& forall|i: int|
        0 <= i < sol.len() && (#[trigger] sol[i]) is Some ==> i <= u32::MAX && view.is_value(
            NodeIndex(i as u32),
        )
}

/// Whether `sol` assigns a value to every value node, to nothing else, and
/// so that every tidy gate accepts the values at its ports.
pub open spec fn is_solution<T, G>(view: CircuitView<T, G>, sol: Seq<Option<Value>>) -> bool {
    is_total(view, sol) && consistent(view, sol)
}

/// The state of a search: `sol` holds the values decided so far, `doms`
/// the candidates of every value node, and `items` the value nodes that are
/// not decided, but for `pending`, which is about to be.
pub open spec fn search_state<T, G>(
    view: CircuitView<T, G>,
    sol: Seq<Option<Value>>,
    doms: Seq<Option<BitString>>,
    items: Map<u32, Rank>,
    pending: Option<u32>,
) -> bool {
    &&& sol.len() == doms.len()
    &&& sol.len() <= u32::MAX + 1
    &&& items.dom().finite()
    &&& forall|n: NodeIndex| view.is_value(n) ==> n.0 < sol.len()
    &&& forall|i: int|
        0 <= i < doms.len() ==> ((#[trigger] doms[i]) is Some <==> view.is_value(
            NodeIndex(i as u32),
        ))
    &&& forall|i: int| 0 <= i < sol.len() && (#[trigger] sol[i]) is Some ==> doms[i] is Some
    &&& forall|x: u32| #[trigger]
        items.contains_key(x) <==> x < sol.len() && doms[x as int] is Some && sol[x as int] is None
            && pending != Some(x)
    &&& forall|x: u32| #[trigger]
        items.contains_key(x) ==> items[x].0 == -(doms[x as int].unwrap().spec_len() as int)
}

/// Whether `a` has the length of `sol` and holds what `sol` has decided.
pub open spec fn extends(a: Seq<Option<Value>>, sol: Seq<Option<Value>>) -> bool {
    &&& a.len() == sol.len()
    &&& forall|i: int| 0 <= i < sol.len() && (#[trigger] sol[i]) is Some ==> a[i] == sol[i]
}

/// Whether every value of `a` is a candidate in `doms`.
pub open spec fn within(a: Seq<Option<Value>>, doms: Seq<Option<BitString>>) -> bool {
    &&& a.len() == doms.len()
    &&& forall|i: int|
        0 <= i < a.len() && (#[trigger] a[i]) is Some ==> doms[i] is Some && doms[i].unwrap().has(
            a[i].unwrap(),
        )
}

/// What `a` assigns to the port at position `i`, if there is such a port.
pub open spec fn at_port(a: Seq<Option<Value>>, ports: Seq<NodeIndex>, i: int) -> Option<Value> {
    if i < ports.len() {
        assigned(a, ports[i])
    } else {
        None
    }
}

/// Whether what `a` assigns at the ports of `n`, a gate node, can be
/// completed to an assignment that such a gate may have, as propagation
/// reads it. The ports that count are those that are wired: the first two
/// inputs and the first two outputs by slot.
pub open spec fn passes<T, G>(view: CircuitView<T, G>, a: Seq<Option<Value>>, n: NodeIndex) -> bool {
    view.gate_at(n).completable(known_at(view, a, n))
}

/// Whether every gate passes under `a`.
pub open spec fn passes_all<T, G>(view: CircuitView<T, G>, a: Seq<Option<Value>>) -> bool {
    forall|n: NodeIndex| view.is_gate(n) ==> #[trigger] passes(view, a, n)
}

/// Whether `a` is an assignment that a search in the state `sol`, `doms`
/// has yet to find: it assigns a value to every value node and to nothing
/// else, holds what is decided, keeps to the candidates, and lets every gate
/// pass.
pub open spec fn survivor<T, G>(
    view: CircuitView<T, G>,
    a: Seq<Option<Value>>,
    sol: Seq<Option<Value>>,
    doms: Seq<Option<BitString>>,
) -> bool {
    &&& is_total(view, a)
    &&& extends(a, sol)
    &&& within(a, doms)
    &&& passes_all(view, a)
}

/// Whether nothing is left to find for a search in the state `sol`, `doms`.
pub open spec fn dead<T, G>(
    view: CircuitView<T, G>,
    sol: Seq<Option<Value>>,
    doms: Seq<Option<BitString>>,
) -> bool {
    forall|a: Seq<Option<Value>>| !#[trigger] survivor(view, a, sol, doms)
}

/// Whether nothing is left to find for a search in the state `sol`, `doms`
/// that has the value `v` at `at`.
pub open spec fn dead_at<T, G>(
    view: CircuitView<T, G>,
    sol: Seq<Option<Value>>,
    doms: Seq<Option<BitString>>,
    at: int,
    v: Value,
) -> bool {
    forall|a: Seq<Option<Value>>| #[trigger] survivor(view, a, sol, doms) ==> a[at] != Some(v)
}

/// Whether the sets `sets` hold, for each place in `places`, the value that
/// `a` has there.
pub open spec fn admits(
    sets: Seq<Option<BitString>>,
    places: Seq<Option<usize>>,
    a: Seq<Option<Value>>,
) -> bool {
    forall|i: int|
        0 <= i < MAX_DEGREE && (#[trigger] sets[i]) is Some && places[i] is Some ==> {
            let p = places[i].unwrap();
            &&& p < a.len()
            &&& a[p as int] is Some
            &&& sets[i].unwrap().has(a[p as int].unwrap())
        }
}

/// Whether `vals` and `places` are what a gate sees at `ports` under `sol`:
/// at each position the value decided for the port and the port's index,
/// `None` beyond the ports.
pub open spec fn seen_at(
    ports: Seq<NodeIndex>,
    sol: Seq<Option<Value>>,
    vals: Seq<Option<Value>>,
    places: Seq<Option<usize>>,
) -> bool {
    &&& ports.len() <= MAX_DEGREE
    &&& vals.len() == MAX_DEGREE
    &&& places.len() == MAX_DEGREE
    &&& forall|i: int|
        0 <= i < MAX_DEGREE ==> if i < ports.len() {
            &&& ports[i].0 < sol.len()
            &&& (#[trigger] places[i]) == Some(ports[i].0 as usize)
            &&& vals[i] == sol[ports[i].0 as int]
        } else {
            places[i] is None && vals[i] is None
        }
}

/// Propagation through a gate node succeeds on what is decided wherever
/// an assignment holds what is decided and lets that node pass.
pub proof fn lemma_gate_fits<T, G>(
    view: CircuitView<T, G>,
    a: Seq<Option<Value>>,
    sol: Seq<Option<Value>>,
    n: NodeIndex,
    ins_vals: Seq<Option<Value>>,
    ins_idx: Seq<Option<usize>>,
    outs_vals: Seq<Option<Value>>,
    outs_idx: Seq<Option<usize>>,
)
    requires
        view.structure_wf(),
        view.is_gate(n),
        is_total(view, a),
        extends(a, sol),
        passes(view, a, n),
        seen_at(view.ports(n, Direction::Incoming), sol, ins_vals, ins_idx),
        seen_at(view.ports(n, Direction::Outgoing), sol, outs_vals, outs_idx),
    ensures
        view.gate_at(n).propagated(ins_vals, outs_vals) is Some,
{
    let gate = view.gate_at(n);
    let ins = view.ports(n, Direction::Incoming);
    let outs = view.ports(n, Direction::Outgoing);
    let ka = known_at(view, a, n);
    let ks: Known = (ins_vals[0], ins_vals[1], outs_vals[0], outs_vals[1]);
    lemma_ports_hold_values(view, a, n, Direction::Incoming);
    lemma_ports_hold_values(view, a, n, Direction::Outgoing);
    assert(ins_vals =~= seq![ks.0, ks.1]);
    assert(outs_vals =~= seq![ks.2, ks.3]);
    assert(known_less(ks, ka)) by {
        assert(ins_idx[0] is Some || ins_vals[0] is None);
        assert(ins_idx[1] is Some || ins_vals[1] is None);
        assert(outs_idx[0] is Some || outs_vals[0] is None);
        assert(outs_idx[1] is Some || outs_vals[1] is None);
        if 0 < ins.len() && ins_vals[0] is Some {
            assert(sol[ins[0].0 as int] is Some);
        }
        if 1 < ins.len() && ins_vals[1] is Some {
            assert(sol[ins[1].0 as int] is Some);
        }
        if 0 < outs.len() && outs_vals[0] is Some {
            assert(sol[outs[0].0 as int] is Some);
        }
        if 1 < outs.len() && outs_vals[1] is Some {
            assert(sol[outs[1].0 as int] is Some);
        }
    }
    gate.lemma_completable_propagates(ka, ks);
}

/// Where propagation through a gate node fails on what is decided,
/// nothing is left to find.
pub proof fn lemma_gate_unfit<T, G>(
    view: CircuitView<T, G>,
    sol: Seq<Option<Value>>,
    doms: Seq<Option<BitString>>,
    n: NodeIndex,
    ins_vals: Seq<Option<Value>>,
    ins_idx: Seq<Option<usize>>,
    outs_vals: Seq<Option<Value>>,
    outs_idx: Seq<Option<usize>>,
)
    requires
        view.structure_wf(),
        view.is_gate(n),
        seen_at(view.ports(n, Direction::Incoming), sol, ins_vals, ins_idx),
        seen_at(view.ports(n, Direction::Outgoing), sol, outs_vals, outs_idx),
        view.gate_at(n).propagated(ins_vals, outs_vals) is None,
    ensures
        dead(view, sol, doms),
{
    assert forall|a: Seq<Option<Value>>| !#[trigger] survivor(view, a, sol, doms) by {
        if survivor(view, a, sol, doms) {
            assert(passes(view, a, n));
            lemma_gate_fits(view, a, sol, n, ins_vals, ins_idx, outs_vals, outs_idx);
        }
    }
}

/// Propagation through a gate node keeps every assignment under which
/// that node passes: the sets that it gives hold what the assignment has at the
/// ports.
pub proof fn lemma_gate_admits<T, G>(
    view: CircuitView<T, G>,
    a: Seq<Option<Value>>,
    sol: Seq<Option<Value>>,
    n: NodeIndex,
    ins_vals: Seq<Option<Value>>,
    ins_idx: Seq<Option<usize>>,
    outs_vals: Seq<Option<Value>>,
    outs_idx: Seq<Option<usize>>,
)
    requires
        view.structure_wf(),
        view.is_gate(n),
        is_total(view, a),
        extends(a, sol),
        passes(view, a, n),
        seen_at(view.ports(n, Direction::Incoming), sol, ins_vals, ins_idx),
        seen_at(view.ports(n, Direction::Outgoing), sol, outs_vals, outs_idx),
        view.gate_at(n).propagated(ins_vals, outs_vals) is Some,
    ensures
        admits(view.gate_at(n).propagated(ins_vals, outs_vals).unwrap().0, ins_idx, a),
        admits(view.gate_at(n).propagated(ins_vals, outs_vals).unwrap().1, outs_idx, a),
{
    let gate = view.gate_at(n);
    let ins = view.ports(n, Direction::Incoming);
    let outs = view.ports(n, Direction::Outgoing);
    let ka = known_at(view, a, n);
    let ks: Known = (ins_vals[0], ins_vals[1], outs_vals[0], outs_vals[1]);
    lemma_ports_hold_values(view, a, n, Direction::Incoming);
    lemma_ports_hold_values(view, a, n, Direction::Outgoing);
    assert(ins_vals =~= seq![ks.0, ks.1]);
    assert(outs_vals =~= seq![ks.2, ks.3]);
    assert(known_less(ks, ka)) by {
        assert(ins_idx[0] is Some || ins_vals[0] is None);
        assert(ins_idx[1] is Some || ins_vals[1] is None);
        assert(outs_idx[0] is Some || outs_vals[0] is None);
        assert(outs_idx[1] is Some || outs_vals[1] is None);
        if 0 < ins.len() && ins_vals[0] is Some {
            assert(sol[ins[0].0 as int] is Some);
        }
        if 1 < ins.len() && ins_vals[1] is Some {
            assert(sol[ins[1].0 as int] is Some);
        }
        if 0 < outs.len() && outs_vals[0] is Some {
            assert(sol[outs[0].0 as int] is Some);
        }
        if 1 < outs.len() && outs_vals[1] is Some {
            assert(sol[outs[1].0 as int] is Some);
        }
    }
    gate.lemma_propagated_keeps_known(ins_vals, outs_vals);
    let d = gate.propagated(ins_vals, outs_vals).unwrap();
    assert forall|i: int|
        0 <= i < MAX_DEGREE && (#[trigger] d.0[i]) is Some && ins_idx[i] is Some implies {
        let p = ins_idx[i].unwrap();
        &&& p < a.len()
        &&& a[p as int] is Some
        &&& d.0[i].unwrap().has(a[p as int].unwrap())
    } by {
        assert(i < ins.len());
        assert(view.is_value(ins[i]));
        let held = assigned(a, ins[i]).unwrap();
        assert(Gate::known_port(ka, i) == Some(held));
        gate.lemma_may_be_with_less(ka, ks, i, held);
        gate.lemma_propagated_keeps(ks, i, held);
    }
    assert forall|i: int|
        0 <= i < MAX_DEGREE && (#[trigger] d.1[i]) is Some && outs_idx[i] is Some implies {
        let p = outs_idx[i].unwrap();
        &&& p < a.len()
        &&& a[p as int] is Some
        &&& d.1[i].unwrap().has(a[p as int].unwrap())
    } by {
        assert(i < outs.len());
        assert(view.is_value(outs[i]));
        let held = assigned(a, outs[i]).unwrap();
        assert(Gate::known_port(ka, i + 2) == Some(held));
        gate.lemma_may_be_with_less(ka, ks, i + 2, held);
        gate.lemma_propagated_keeps(ks, i + 2, held);
    }
}

/// A total assignment has a value at every port of a gate.
pub proof fn lemma_ports_hold_values<T, G>(
    view: CircuitView<T, G>,
    a: Seq<Option<Value>>,
    n: NodeIndex,
    dir: Direction,
)
    requires
        view.structure_wf(),
        view.is_gate(n),
        is_total(view, a),
    ensures
        forall|i: int|
            0 <= i < view.ports(n, dir).len() ==> view.is_value(#[trigger] view.ports(n, dir)[i])
                && assigned(a, view.ports(n, dir)[i]) is Some,
{
    let l = view.listing(n, dir);
    assert(view.is_listing(n, dir, l));
    assert forall|i: int| 0 <= i < view.ports(n, dir).len() implies view.is_value(
        #[trigger] view.ports(n, dir)[i],
    ) && assigned(a, view.ports(n, dir)[i]) is Some by {
        assert(view.incident(l[i], n, dir));
        assert(view.edges.contains_key(l[i]));
        match dir {
            Direction::Incoming => {},
            Direction::Outgoing => {},
        }
    }
}

/// The state in which nothing is decided for `n` nodes.
pub open spec fn undecided(n: nat) -> Seq<Option<Value>> {
    Seq::new(n, |i: int| None::<Value>)
}

/// Whether `a` is one of `sols`.
pub open spec fn found_in(sols: Seq<Vec<Option<Value>>>, a: Seq<Option<Value>>) -> bool {
    exists|k: int| 0 <= k < sols.len() && (#[trigger] sols[k])@ == a
}

/// What `s` has decided at those ports of `n`, a gate node, that
/// propagation reads: at the first two inputs and at the first two outputs, by slot.
pub open spec fn known_at<T, G>(view: CircuitView<T, G>, s: Seq<Option<Value>>, n: NodeIndex)
    -> Known {
    (
        at_port(s, view.ports(n, Direction::Incoming), 0),
        at_port(s, view.ports(n, Direction::Incoming), 1),
        at_port(s, view.ports(n, Direction::Outgoing), 0),
        at_port(s, view.ports(n, Direction::Outgoing), 1),
    )
}

/// The node wired to `n`, a gate node, at the position `port`: 0 and 1 for
/// the first two inputs, 2 and 3 for the first two outputs.
pub open spec fn port_node<T, G>(view: CircuitView<T, G>, n: NodeIndex, port: int) -> Option<
    NodeIndex,
> {
    let ins = view.ports(n, Direction::Incoming);
    let outs = view.ports(n, Direction::Outgoing);
    if 0 <= port < 2 {
        if port < ins.len() {
            Some(ins[port])
        } else {
            None
        }
    } else if 2 <= port < 4 {
        if port - 2 < outs.len() {
            Some(outs[port - 2])
        } else {
            None
        }
    } else {
        None
    }
}

/// Whether propagation through `n`, a gate node, succeeds on what `s` has
/// decided, and what is decided of a purifier is what a purifier may have.
pub open spec fn ready<T, G>(view: CircuitView<T, G>, s: Seq<Option<Value>>, n: NodeIndex) -> bool {
    let k = known_at(view, s, n);
    &&& view.gate_at(n).propagated(seq![k.0, k.1], seq![k.2, k.3]) is Some
    &&& view.gate_at(n).settled_right(k)
}

/// Whether `v` is a candidate of the node `p`.
pub open spec fn candidate(doms: Seq<Option<BitString>>, p: NodeIndex, v: Value) -> bool {
    p.0 < doms.len() && doms[p.0 as int] is Some && doms[p.0 as int].unwrap().has(v)
}

/// Whether `v` is a candidate of the node that is wired to `n`, a gate
/// node, at the position `port`, and `s` has not decided that node.
pub open spec fn open_candidate<T, G>(
    view: CircuitView<T, G>,
    s: Seq<Option<Value>>,
    doms: Seq<Option<BitString>>,
    n: NodeIndex,
    port: int,
    v: Value,
) -> bool {
    &&& port_node(view, n, port) is Some
    &&& Gate::known_port(known_at(view, s, n), port) is None
    &&& candidate(doms, port_node(view, n, port).unwrap(), v)
}

/// Whether the candidates of the undecided ports of `n`, a gate node, are
/// among the values that such a gate lets them have, given what `s` has
/// decided at its other ports, and what `s` has decided of a purifier is
/// what a purifier may have. Of the candidates nothing is asked where `s`
/// has decided none of the ports.
pub open spec fn arc_ok<T, G>(
    view: CircuitView<T, G>,
    s: Seq<Option<Value>>,
    doms: Seq<Option<BitString>>,
    n: NodeIndex,
) -> bool {
    let k = known_at(view, s, n);
    let gate = view.gate_at(n);
    &&& gate.settled_right(k)
    &&& gate.any_known(k) ==> forall|port: int, v: Value|
        0 <= port < 4 && #[trigger] open_candidate(view, s, doms, n, port, v) ==> gate.may_be(
            k,
            port,
            v,
        )
}

/// Whether no node is wired to two ports of `n`, a gate node.
pub open spec fn ports_distinct<T, G>(view: CircuitView<T, G>, n: NodeIndex) -> bool {
    let ins = view.ports(n, Direction::Incoming);
    let outs = view.ports(n, Direction::Outgoing);
    &&& forall|i: int, j: int| 0 <= i < j < ins.len() ==> ins[i] != ins[j]
    &&& forall|i: int, j: int| 0 <= i < j < outs.len() ==> outs[i] != outs[j]
    &&& forall|i: int, j: int| 0 <= i < ins.len() && 0 <= j < outs.len() ==> ins[i] != outs[j]
}

/// Whether the circuit is one on which the search cannot fail: every gate
/// is tidy, and no node is wired to two ports of a gate.
pub open spec fn clean<T, G>(view: CircuitView<T, G>) -> bool {
    forall|n: NodeIndex| #[trigger] view.is_gate(n) ==> tidy(view, n) && ports_distinct(view, n)
}

/// Whether the candidates of every undecided node are among the values
/// that each gate lets the node have.
pub open spec fn arc_all<T, G>(
    view: CircuitView<T, G>,
    s: Seq<Option<Value>>,
    doms: Seq<Option<BitString>>,
) -> bool {
    forall|n: NodeIndex| view.is_gate(n) ==> #[trigger] arc_ok(view, s, doms, n)
}

/// Whether propagation from the node `x` is bound to succeed: the circuit is
/// clean, propagation through each gate at the value node `x` can succeed,
/// and the candidates at every other gate are among what that gate lets
/// them be.
pub open spec fn propagation_owed<T, G>(
    view: CircuitView<T, G>,
    x: NodeIndex,
    s: Seq<Option<Value>>,
    doms: Seq<Option<BitString>>,
) -> bool {
    &&& clean(view)
    &&& forall|m: NodeIndex| #[trigger]
        view.adjacent(x, m) ==> view.is_gate(m) && ready(view, s, m)
    &&& forall|n: NodeIndex|
        view.is_gate(n) && !view.adjacent(x, n) ==> #[trigger] arc_ok(view, s, doms, n)
}

/// Whether deciding the node `x` on `v` is bound to succeed: the circuit is
/// clean, `x` is an undecided value node with the candidate `v`, and the
/// candidates at every gate are among what the gates let them be.
pub open spec fn assignment_owed<T, G>(
    view: CircuitView<T, G>,
    x: NodeIndex,
    v: Value,
    s: Seq<Option<Value>>,
    doms: Seq<Option<BitString>>,
) -> bool {
    &&& clean(view)
    &&& view.is_value(x)
    &&& x.0 < s.len()
    &&& s[x.0 as int] is None
    &&& candidate(doms, x, v)
    &&& arc_all(view, s, doms)
}

/// Deciding a node on one of its candidates leaves propagation from the
/// node bound to succeed.
pub proof fn lemma_assignment_owed<T, G>(
    view: CircuitView<T, G>,
    x: NodeIndex,
    v: Value,
    s: Seq<Option<Value>>,
    doms: Seq<Option<BitString>>,
)
    requires
        view.structure_wf(),
        assignment_owed(view, x, v, s, doms),
        s.len() == doms.len(),
    ensures
        propagation_owed(
            view,
            x,
            s.update(x.0 as int, Some(v)),
            doms.update(x.0 as int, Some(BitString::single(v))),
        ),
{
    let s2 = s.update(x.0 as int, Some(v));
    let doms2 = doms.update(x.0 as int, Some(BitString::single(v)));
    assert(narrowed(doms, doms2));
    assert forall|m: NodeIndex| #[trigger] view.adjacent(x, m) implies view.is_gate(m) && ready(
        view,
        s2,
        m,
    ) by {
        let (e, d) = choose|e: EdgeIndex, d: Direction| #[trigger]
            view.incident(e, x, d) && view.edges[e].far(d) == m;
        assert(view.edges.contains_key(e));
        assert(view.is_gate(m)) by {
            match d {
                Direction::Incoming => {},
                Direction::Outgoing => {},
            }
        }
        assert(arc_ok(view, s, doms, m));
        lemma_ready_after_assign(view, s, doms, x, v, m);
    }
    assert forall|n: NodeIndex| view.is_gate(n) && !view.adjacent(x, n) implies #[trigger] arc_ok(
        view,
        s2,
        doms2,
        n,
    ) by {
        assert(arc_ok(view, s, doms, n));
        lemma_arc_unrelated(view, s, doms, x, v, n);
        lemma_arc_narrowed(view, s2, doms, doms2, n);
    }
}

/// Narrowing the candidates keeps them among what a gate lets them be.
pub proof fn lemma_arc_narrowed<T, G>(
    view: CircuitView<T, G>,
    s: Seq<Option<Value>>,
    doms: Seq<Option<BitString>>,
    doms2: Seq<Option<BitString>>,
    n: NodeIndex,
)
    requires
        arc_ok(view, s, doms, n),
        narrowed(doms, doms2),
    ensures
        arc_ok(view, s, doms2, n),
{
    assert forall|port: int, v: Value|
        0 <= port < 4 && #[trigger] open_candidate(view, s, doms2, n, port, v) implies open_candidate(
        view,
        s,
        doms,
        n,
        port,
        v,
    ) by {
        let p = port_node(view, n, port).unwrap();
        assert(doms2[p.0 as int].unwrap().has(v));
    }
}

/// Whether propagation through `n`, a gate node, succeeds on what `s` has
/// decided.
pub open spec fn fitting<T, G>(view: CircuitView<T, G>, s: Seq<Option<Value>>, n: NodeIndex)
    -> bool {
    let k = known_at(view, s, n);
    view.gate_at(n).propagated(seq![k.0, k.1], seq![k.2, k.3]) is Some
}

/// Whether propagation through every gate succeeds on what `s` has decided.
pub open spec fn fit_all<T, G>(view: CircuitView<T, G>, s: Seq<Option<Value>>) -> bool {
    forall|n: NodeIndex| view.is_gate(n) ==> #[trigger] fitting(view, s, n)
}

/// Whether the circuit has no purifier.
pub open spec fn purifier_free<T, G>(view: CircuitView<T, G>) -> bool {
    forall|n: NodeIndex| #[trigger] view.is_gate(n) ==> view.gate_at(n) != Gate::Purify
}

/// Deciding a node changes nothing that is known at a gate with no port
/// at the node.
pub proof fn lemma_known_unrelated<T, G>(
    view: CircuitView<T, G>,
    s: Seq<Option<Value>>,
    x: NodeIndex,
    v: Value,
    n: NodeIndex,
)
    requires
        view.structure_wf(),
        view.is_gate(n),
        !view.adjacent(x, n),
        0 <= x.0 < s.len(),
    ensures
        known_at(view, s.update(x.0 as int, Some(v)), n) == known_at(view, s, n),
{
    let s2 = s.update(x.0 as int, Some(v));
    assert(view.is_listing(n, Direction::Incoming, view.listing(n, Direction::Incoming)));
    assert(view.is_listing(n, Direction::Outgoing, view.listing(n, Direction::Outgoing)));
    let ins = view.ports(n, Direction::Incoming);
    let outs = view.ports(n, Direction::Outgoing);
    assert forall|i: int| 0 <= i < ins.len() implies ins[i] != x by {
        view.lemma_ports_adjacent(n, Direction::Incoming, i);
    }
    assert forall|i: int| 0 <= i < outs.len() implies outs[i] != x by {
        view.lemma_ports_adjacent(n, Direction::Outgoing, i);
    }
    if ins.len() > 0 {
        assert(assigned(s2, ins[0]) == assigned(s, ins[0]));
    }
    if ins.len() > 1 {
        assert(assigned(s2, ins[1]) == assigned(s, ins[1]));
    }
    if outs.len() > 0 {
        assert(assigned(s2, outs[0]) == assigned(s, outs[0]));
    }
    if outs.len() > 1 {
        assert(assigned(s2, outs[1]) == assigned(s, outs[1]));
    }
}

/// Deciding a node leaves propagation able to succeed at every gate with no
/// port at the node.
pub proof fn lemma_fit_after_assign<T, G>(
    view: CircuitView<T, G>,
    s: Seq<Option<Value>>,
    x: NodeIndex,
    v: Value,
)
    requires
        view.structure_wf(),
        fit_all(view, s),
        0 <= x.0 < s.len(),
    ensures
        forall|n: NodeIndex|
            view.is_gate(n) && !view.adjacent(x, n) ==> #[trigger] fitting(
                view,
                s.update(x.0 as int, Some(v)),
                n,
            ),
{
    assert forall|n: NodeIndex| view.is_gate(n) && !view.adjacent(x, n) implies #[trigger] fitting(
        view,
        s.update(x.0 as int, Some(v)),
        n,
    ) by {
        assert(fitting(view, s, n));
        lemma_known_unrelated(view, s, x, v, n);
    }
}

/// Before anything is decided, propagation through every gate succeeds.
pub proof fn lemma_fit_start<T, G>(view: CircuitView<T, G>, len: nat)
    ensures
        fit_all(view, undecided(len)),
{
    assert forall|n: NodeIndex| view.is_gate(n) implies #[trigger] fitting(
        view,
        undecided(len),
        n,
    ) by {
        let k = known_at(view, undecided(len), n);
        assert(k == (None::<Value>, None::<Value>, None::<Value>, None::<Value>));
        view.gate_at(n).lemma_nothing_known();
    }
}

/// On a circuit without purifiers every gate passes under what is decided
/// wherever propagation through every gate succeeds on it.
pub proof fn lemma_fit_passes<T, G>(view: CircuitView<T, G>, sol: Seq<Option<Value>>)
    requires
        purifier_free(view),
        fit_all(view, sol),
    ensures
        passes_all(view, sol),
{
    assert forall|n: NodeIndex| view.is_gate(n) implies #[trigger] passes(view, sol, n) by {
        assert(fitting(view, sol, n));
        view.gate_at(n).lemma_propagated_completable(known_at(view, sol, n));
    }
}

/// Deciding a node that is at no port of a gate changes nothing for the
/// gate.
pub proof fn lemma_arc_unrelated<T, G>(
    view: CircuitView<T, G>,
    s: Seq<Option<Value>>,
    doms: Seq<Option<BitString>>,
    x: NodeIndex,
    v: Value,
    n: NodeIndex,
)
    requires
        view.structure_wf(),
        view.is_gate(n),
        !view.adjacent(x, n),
        0 <= x.0 < s.len(),
        arc_ok(view, s, doms, n),
    ensures
        known_at(view, s.update(x.0 as int, Some(v)), n) == known_at(view, s, n),
        arc_ok(view, s.update(x.0 as int, Some(v)), doms, n),
{
    let s2 = s.update(x.0 as int, Some(v));
    lemma_known_unrelated(view, s, x, v, n);
    assert forall|port: int, w: Value|
        0 <= port < 4 && #[trigger] open_candidate(view, s2, doms, n, port, w) implies open_candidate(
        view,
        s,
        doms,
        n,
        port,
        w,
    ) by {}
}

/// The ports of a tidy gate are those that a gate of its kind has, and
/// nothing more is decided at it.
pub proof fn lemma_tidy_ports<T, G>(view: CircuitView<T, G>, s: Seq<Option<Value>>, n: NodeIndex)
    requires
        tidy(view, n),
    ensures
        forall|port: int|
            0 <= port < 4 ==> (#[trigger] port_node(view, n, port) is Some <==> view.gate_at(
                n,
            ).has_port(port)),
        view.gate_at(n).own(known_at(view, s, n)) == known_at(view, s, n),
{
    let gate = view.gate_at(n);
    assert(view.ports(n, Direction::Incoming).len() == gate.spec_arity().0);
    assert(view.ports(n, Direction::Outgoing).len() == gate.spec_arity().1);
}

/// On a clean circuit, deciding a node on one of its candidates leaves
/// propagation through each gate at the node able to succeed.
pub proof fn lemma_ready_after_assign<T, G>(
    view: CircuitView<T, G>,
    s: Seq<Option<Value>>,
    doms: Seq<Option<BitString>>,
    x: NodeIndex,
    v: Value,
    n: NodeIndex,
)
    requires
        view.structure_wf(),
        clean(view),
        view.is_gate(n),
        view.adjacent(x, n),
        0 <= x.0 < s.len(),
        s[x.0 as int] is None,
        candidate(doms, x, v),
        arc_ok(view, s, doms, n),
    ensures
        ready(view, s.update(x.0 as int, Some(v)), n),
{
    let s2 = s.update(x.0 as int, Some(v));
    let gate = view.gate_at(n);
    let ins = view.ports(n, Direction::Incoming);
    let outs = view.ports(n, Direction::Outgoing);
    let k = known_at(view, s, n);
    let k2 = known_at(view, s2, n);
    assert(tidy(view, n));
    assert(ports_distinct(view, n));
    lemma_tidy_ports(view, s, n);
    assert(view.is_listing(n, Direction::Incoming, view.listing(n, Direction::Incoming)));
    assert(view.is_listing(n, Direction::Outgoing, view.listing(n, Direction::Outgoing)));
    view.lemma_adjacent_symmetric(x, n);
    let (e, d) = choose|e: EdgeIndex, d: Direction| #[trigger]
        view.incident(e, n, d) && view.edges[e].far(d) == x;
    let l = view.listing(n, d);
    assert(l.contains(e));
    let at = choose|at: int| 0 <= at < l.len() && l[at] == e;
    assert(view.ports(n, d)[at] == x);
    let port = match d {
        Direction::Incoming => at,
        Direction::Outgoing => at + 2,
    };
    assert(0 <= port < 4);
    assert(port_node(view, n, port) == Some(x));
    // what is decided at the other ports stays as it is
    assert forall|q: int| 0 <= q < 4 && q != port implies Gate::known_port(k2, q)
        == Gate::known_port(k, q) by {
        if port_node(view, n, q) is Some {
            let p = port_node(view, n, q).unwrap();
            assert(p != x) by {
                if q < 2 && port < 2 {
                    if q < port {
                        assert(ins[q] != ins[port]);
                    } else {
                        assert(ins[port] != ins[q]);
                    }
                } else if q >= 2 && port >= 2 {
                    if q < port {
                        assert(outs[q - 2] != outs[port - 2]);
                    } else {
                        assert(outs[port - 2] != outs[q - 2]);
                    }
                } else if q < 2 {
                    assert(ins[q] != outs[port - 2]);
                } else {
                    assert(ins[port] != outs[q - 2]);
                }
            }
            assert(assigned(s2, p) == assigned(s, p));
        }
    }
    assert(Gate::known_port(k, port) is None);
    assert(Gate::known_port(k2, port) == Some(v));
    assert(k2 == Gate::with_port(k, port, v)) by {
        assert(Gate::known_port(k2, 0) == Gate::known_port(Gate::with_port(k, port, v), 0));
        assert(Gate::known_port(k2, 1) == Gate::known_port(Gate::with_port(k, port, v), 1));
        assert(Gate::known_port(k2, 2) == Gate::known_port(Gate::with_port(k, port, v), 2));
        assert(Gate::known_port(k2, 3) == Gate::known_port(Gate::with_port(k, port, v), 3));
    }
    if gate.any_known(k) {
        assert(open_candidate(view, s, doms, n, port, v));
    }
    gate.lemma_propagated_again(k, port, v);
}

/// Whether the candidates of the undecided nodes at the first `upto` of
/// `places` are among the values of `sets`.
pub open spec fn bounded(
    doms: Seq<Option<BitString>>,
    sol: Seq<Option<Value>>,
    sets: Seq<Option<BitString>>,
    places: Seq<Option<usize>>,
    upto: int,
) -> bool {
    forall|i: int, v: Value|
        0 <= i < upto && sets[i] is Some && places[i] is Some && places[i].unwrap() < sol.len()
            && sol[places[i].unwrap() as int] is None && #[trigger] candidate(
            doms,
            NodeIndex(places[i].unwrap() as u32),
            v,
        ) ==> #[trigger] sets[i].unwrap().has(v)
}

/// Narrowing keeps the candidates among the values of the sets.
pub proof fn lemma_bounded_narrowed(
    doms: Seq<Option<BitString>>,
    doms2: Seq<Option<BitString>>,
    sol: Seq<Option<Value>>,
    sets: Seq<Option<BitString>>,
    places: Seq<Option<usize>>,
    upto: int,
)
    requires
        bounded(doms, sol, sets, places, upto),
        narrowed(doms, doms2),
        0 <= upto <= sets.len(),
        upto <= places.len(),
    ensures
        bounded(doms2, sol, sets, places, upto),
{
    assert forall|i: int, v: Value|
        0 <= i < upto && sets[i] is Some && places[i] is Some && places[i].unwrap() < sol.len()
            && sol[places[i].unwrap() as int] is None && #[trigger] candidate(
            doms2,
            NodeIndex(places[i].unwrap() as u32),
            v,
        ) implies #[trigger] sets[i].unwrap().has(v) by {
        let node = NodeIndex(places[i].unwrap() as u32);
        assert(doms2[node.0 as int].unwrap().has(v));
        assert(candidate(doms, node, v));
    }
}

/// Narrowing the candidates of the node at one more place to the set for
/// that place bounds them there too.
pub proof fn lemma_bounded_step(
    prior: Seq<Option<BitString>>,
    after: Seq<Option<BitString>>,
    sol: Seq<Option<Value>>,
    sets: Seq<Option<BitString>>,
    places: Seq<Option<usize>>,
    i: int,
)
    requires
        0 <= i < MAX_DEGREE,
        sets.len() == MAX_DEGREE,
        places.len() == MAX_DEGREE,
        bounded(prior, sol, sets, places, i),
        sets[i] is Some && places[i] is Some && places[i].unwrap() < sol.len()
            && sol[places[i].unwrap() as int] is None ==> places[i].unwrap() < prior.len()
            && places[i].unwrap() <= u32::MAX && prior[places[i].unwrap() as int] is Some && after
            == prior.update(
            places[i].unwrap() as int,
            Some(prior[places[i].unwrap() as int].unwrap().spec_op_inter(sets[i].unwrap())),
        ),
        !(sets[i] is Some && places[i] is Some && places[i].unwrap() < sol.len()
            && sol[places[i].unwrap() as int] is None) ==> after == prior,
    ensures
        bounded(after, sol, sets, places, i + 1),
        narrowed(prior, after),
{
    if sets[i] is Some && places[i] is Some && places[i].unwrap() < sol.len()
        && sol[places[i].unwrap() as int] is None {
        lemma_narrowed_step(prior, places[i].unwrap() as int, sets[i].unwrap());
    }
    lemma_bounded_narrowed(prior, after, sol, sets, places, i);
    assert forall|j: int, v: Value|
        0 <= j < i + 1 && sets[j] is Some && places[j] is Some && places[j].unwrap() < sol.len()
            && sol[places[j].unwrap() as int] is None && #[trigger] candidate(
            after,
            NodeIndex(places[j].unwrap() as u32),
            v,
        ) implies #[trigger] sets[j].unwrap().has(v) by {
        if j == i {
            let p = places[i].unwrap() as int;
            assert(after[p].unwrap().has(v));
        }
    }
}

/// Once the candidates at the ports of a tidy gate are among the sets that
/// propagation gave for them, they are among what such a gate lets them be.
pub proof fn lemma_arc_after_gate<T, G>(
    view: CircuitView<T, G>,
    sol: Seq<Option<Value>>,
    doms: Seq<Option<BitString>>,
    n: NodeIndex,
    ins_vals: Seq<Option<Value>>,
    ins_idx: Seq<Option<usize>>,
    outs_vals: Seq<Option<Value>>,
    outs_idx: Seq<Option<usize>>,
)
    requires
        view.structure_wf(),
        view.is_gate(n),
        tidy(view, n),
        ready(view, sol, n),
        sol.len() <= u32::MAX + 1,
        seen_at(view.ports(n, Direction::Incoming), sol, ins_vals, ins_idx),
        seen_at(view.ports(n, Direction::Outgoing), sol, outs_vals, outs_idx),
        view.gate_at(n).propagated(ins_vals, outs_vals) is Some,
        bounded(
            doms,
            sol,
            view.gate_at(n).propagated(ins_vals, outs_vals).unwrap().0,
            ins_idx,
            MAX_DEGREE as int,
        ),
        bounded(
            doms,
            sol,
            view.gate_at(n).propagated(ins_vals, outs_vals).unwrap().1,
            outs_idx,
            MAX_DEGREE as int,
        ),
    ensures
        arc_ok(view, sol, doms, n),
{
    let gate = view.gate_at(n);
    let ins = view.ports(n, Direction::Incoming);
    let outs = view.ports(n, Direction::Outgoing);
    let d = gate.propagated(ins_vals, outs_vals).unwrap();
    let k = known_at(view, sol, n);
    lemma_known_seen(view, sol, n, ins_vals, ins_idx, outs_vals, outs_idx);
    lemma_tidy_ports(view, sol, n);
    gate.lemma_propagated_keeps_known(ins_vals, outs_vals);
    assert forall|port: int, v: Value|
        0 <= port < 4 && #[trigger] open_candidate(view, sol, doms, n, port, v) implies gate.may_be(
        k,
        port,
        v,
    ) by {
        let p = port_node(view, n, port).unwrap();
        if port < 2 {
            assert(ins_idx[port] == Some(p.0 as usize));
            assert(NodeIndex(ins_idx[port].unwrap() as u32) == p);
            assert(d.0[port] is Some);
            assert(d.0[port].unwrap().has(v));
        } else {
            assert(outs_idx[port - 2] == Some(p.0 as usize));
            assert(NodeIndex(outs_idx[port - 2].unwrap() as u32) == p);
            assert(d.1[port - 2] is Some);
            assert(d.1[port - 2].unwrap().has(v));
        }
        gate.lemma_propagated_within(k, port, v);
    }
}

/// What a gate sees at its ports is what is decided there.
pub proof fn lemma_known_seen<T, G>(
    view: CircuitView<T, G>,
    sol: Seq<Option<Value>>,
    n: NodeIndex,
    ins_vals: Seq<Option<Value>>,
    ins_idx: Seq<Option<usize>>,
    outs_vals: Seq<Option<Value>>,
    outs_idx: Seq<Option<usize>>,
)
    requires
        seen_at(view.ports(n, Direction::Incoming), sol, ins_vals, ins_idx),
        seen_at(view.ports(n, Direction::Outgoing), sol, outs_vals, outs_idx),
    ensures
        known_at(view, sol, n) == (ins_vals[0], ins_vals[1], outs_vals[0], outs_vals[1]),
        ins_vals == seq![known_at(view, sol, n).0, known_at(view, sol, n).1],
        outs_vals == seq![known_at(view, sol, n).2, known_at(view, sol, n).3],
{
    assert(ins_idx[0] is Some || ins_vals[0] is None);
    assert(ins_idx[1] is Some || ins_vals[1] is None);
    assert(outs_idx[0] is Some || outs_vals[0] is None);
    assert(outs_idx[1] is Some || outs_vals[1] is None);
    let k = known_at(view, sol, n);
    assert(ins_vals =~= seq![k.0, k.1]);
    assert(outs_vals =~= seq![k.2, k.3]);
}

/// Narrowing twice narrows.
pub proof fn lemma_narrowed_trans(
    first: Seq<Option<BitString>>,
    second: Seq<Option<BitString>>,
    third: Seq<Option<BitString>>,
)
    requires
        narrowed(first, second),
        narrowed(second, third),
    ensures
        narrowed(first, third),
{
    assert forall|i: int, v: Value|
        0 <= i < third.len() && third[i] is Some && #[trigger] third[i].unwrap().has(
            v,
        ) implies first[i] is Some && first[i].unwrap().has(v) by {
        assert(second[i] is Some && second[i].unwrap().has(v));
    }
}

/// Taking the candidates of one node that lie in a given set narrows.
pub proof fn lemma_narrowed_step(prior: Seq<Option<BitString>>, at: int, set: BitString)
    requires
        0 <= at < prior.len(),
        prior[at] is Some,
    ensures
        narrowed(prior, prior.update(at, Some(prior[at].unwrap().spec_op_inter(set)))),
{
}

/// Whether every assignment that a search in the state `sol`, `doms` has
/// yet to find keeps to the candidates `doms2`.
pub open spec fn kept<T, G>(
    view: CircuitView<T, G>,
    sol: Seq<Option<Value>>,
    doms: Seq<Option<BitString>>,
    doms2: Seq<Option<BitString>>,
) -> bool {
    forall|a: Seq<Option<Value>>| #[trigger] survivor(view, a, sol, doms) ==> within(a, doms2)
}

/// Whether the sets `sets` hold, at the places `places`, what every
/// assignment has there that a search in the state `sol`, `doms` has yet to
/// find.
pub open spec fn admitted<T, G>(
    view: CircuitView<T, G>,
    sol: Seq<Option<Value>>,
    doms: Seq<Option<BitString>>,
    sets: Seq<Option<BitString>>,
    places: Seq<Option<usize>>,
) -> bool {
    forall|a: Seq<Option<Value>>| #[trigger] survivor(view, a, sol, doms) ==> admits(sets, places, a)
}

/// What is yet to be found keeps to the candidates that it is found among.
pub proof fn lemma_kept_start<T, G>(
    view: CircuitView<T, G>,
    sol: Seq<Option<Value>>,
    doms: Seq<Option<BitString>>,
)
    ensures
        kept(view, sol, doms, doms),
{
}

/// Narrowing twice without losing an assignment loses none.
pub proof fn lemma_kept_trans<T, G>(
    view: CircuitView<T, G>,
    sol: Seq<Option<Value>>,
    doms: Seq<Option<BitString>>,
    doms1: Seq<Option<BitString>>,
    doms2: Seq<Option<BitString>>,
)
    requires
        kept(view, sol, doms, doms1),
        kept(view, sol, doms1, doms2),
    ensures
        kept(view, sol, doms, doms2),
{
    assert forall|a: Seq<Option<Value>>| #[trigger] survivor(view, a, sol, doms) implies within(
        a,
        doms2,
    ) by {
        assert(within(a, doms1));
        assert(survivor(view, a, sol, doms1));
    }
}

/// Narrowing the candidates of one node to a set that holds what every
/// assignment has there loses no assignment.
pub proof fn lemma_kept_step<T, G>(
    view: CircuitView<T, G>,
    sol: Seq<Option<Value>>,
    doms: Seq<Option<BitString>>,
    prior: Seq<Option<BitString>>,
    sets: Seq<Option<BitString>>,
    places: Seq<Option<usize>>,
    i: int,
    after: Seq<Option<BitString>>,
)
    requires
        0 <= i < MAX_DEGREE,
        kept(view, sol, doms, prior),
        admitted(view, sol, doms, sets, places),
        sets[i] is Some,
        places[i] is Some,
        places[i].unwrap() < prior.len(),
        prior[places[i].unwrap() as int] is Some,
        after == prior.update(
            places[i].unwrap() as int,
            Some(prior[places[i].unwrap() as int].unwrap().spec_op_inter(sets[i].unwrap())),
        ),
    ensures
        kept(view, sol, doms, after),
{
    assert forall|a: Seq<Option<Value>>| #[trigger] survivor(view, a, sol, doms) implies within(
        a,
        after,
    ) by {
        assert(within(a, prior));
        assert(admits(sets, places, a));
        assert(sets[i] is Some);
    }
}

/// A tidy gate whose ports are all decided, and at which propagation
/// succeeds, accepts the values at its ports.
pub proof fn lemma_gate_settled<T, G>(
    view: CircuitView<T, G>,
    sol: Seq<Option<Value>>,
    n: NodeIndex,
    ins_vals: Seq<Option<Value>>,
    ins_idx: Seq<Option<usize>>,
    outs_vals: Seq<Option<Value>>,
    outs_idx: Seq<Option<usize>>,
)
    requires
        view.is_gate(n),
        seen_at(view.ports(n, Direction::Incoming), sol, ins_vals, ins_idx),
        seen_at(view.ports(n, Direction::Outgoing), sol, outs_vals, outs_idx),
        view.gate_at(n).propagated(ins_vals, outs_vals) is Some,
    ensures
        tidy(view, n) ==> satisfied(view, sol, n),
{
    let gate = view.gate_at(n);
    if tidy(view, n) {
        let in_ports = view.ports(n, Direction::Incoming);
        let out_ports = view.ports(n, Direction::Outgoing);
        if all_assigned(sol, in_ports) && all_assigned(sol, out_ports) {
            let in_vals = values_at(sol, in_ports);
            let out_vals = values_at(sol, out_ports);
            assert forall|i: int| 0 <= i < in_vals.len() implies ins_vals[i] == Some(in_vals[i]) by {
                assert(ins_idx[i] == Some(in_ports[i].0 as usize));
                assert(assigned(sol, in_ports[i]) is Some);
            }
            assert forall|i: int| 0 <= i < out_vals.len() implies outs_vals[i] == Some(
                out_vals[i],
            ) by {
                assert(outs_idx[i] == Some(out_ports[i].0 as usize));
                assert(assigned(sol, out_ports[i]) is Some);
            }
            gate.lemma_propagated_all_known(ins_vals, outs_vals, in_vals, out_vals);
        }
    }
}

/// Propagation through a gate keeps, at its ports, what every
/// assignment has there that is yet to be found.
pub proof fn lemma_gate_admits_all<T, G>(
    view: CircuitView<T, G>,
    sol: Seq<Option<Value>>,
    doms: Seq<Option<BitString>>,
    n: NodeIndex,
    ins_vals: Seq<Option<Value>>,
    ins_idx: Seq<Option<usize>>,
    outs_vals: Seq<Option<Value>>,
    outs_idx: Seq<Option<usize>>,
)
    requires
        view.structure_wf(),
        view.is_gate(n),
        seen_at(view.ports(n, Direction::Incoming), sol, ins_vals, ins_idx),
        seen_at(view.ports(n, Direction::Outgoing), sol, outs_vals, outs_idx),
        view.gate_at(n).propagated(ins_vals, outs_vals) is Some,
    ensures
        admitted(
            view,
            sol,
            doms,
            view.gate_at(n).propagated(ins_vals, outs_vals).unwrap().0,
            ins_idx,
        ),
        admitted(
            view,
            sol,
            doms,
            view.gate_at(n).propagated(ins_vals, outs_vals).unwrap().1,
            outs_idx,
        ),
{
    let d = view.gate_at(n).propagated(ins_vals, outs_vals).unwrap();
    assert forall|a: Seq<Option<Value>>| #[trigger] survivor(view, a, sol, doms) implies admits(
        d.0,
        ins_idx,
        a,
    ) && admits(d.1, outs_idx, a) by {
        assert(passes(view, a, n));
        lemma_gate_admits(view, a, sol, n, ins_vals, ins_idx, outs_vals, outs_idx);
    }
}

/// Whether each of `sols` is a solution of the length `len`.
pub open spec fn all_solutions<T, G>(
    view: CircuitView<T, G>,
    sols: Seq<Vec<Option<Value>>>,
    len: nat,
) -> bool {
    forall|k: int|
        0 <= k < sols.len() ==> is_solution(view, (#[trigger] sols[k])@) && sols[k]@.len() == len
}

/// Whether each of `sols` holds what `sol` has decided, and no two of them
/// are the same.
pub open spec fn distinct_from(sols: Seq<Vec<Option<Value>>>, sol: Seq<Option<Value>>) -> bool {
    &&& forall|k: int| 0 <= k < sols.len() ==> extends((#[trigger] sols[k])@, sol)
    &&& forall|i: int, j: int|
        0 <= i < j < sols.len() ==> (#[trigger] sols[i])@ != (#[trigger] sols[j])@
}

/// Whether `sols` holds every assignment that a search in the state `sol`,
/// `doms` has yet to find.
pub open spec fn complete<T, G>(
    view: CircuitView<T, G>,
    sol: Seq<Option<Value>>,
    doms: Seq<Option<BitString>>,
    sols: Seq<Vec<Option<Value>>>,
) -> bool {
    forall|a: Seq<Option<Value>>| #[trigger] survivor(view, a, sol, doms) ==> found_in(sols, a)
}

/// Whether every assignment that a search in the state `sol`, `doms` has yet
/// to find and that has the value `v` at `at` is as well to be found in the
/// state `sol2`, `doms2`.
pub open spec fn carried<T, G>(
    view: CircuitView<T, G>,
    sol: Seq<Option<Value>>,
    doms: Seq<Option<BitString>>,
    at: int,
    v: Value,
    sol2: Seq<Option<Value>>,
    doms2: Seq<Option<BitString>>,
) -> bool {
    forall|a: Seq<Option<Value>>| #[trigger]
        survivor(view, a, sol, doms) && a[at] == Some(v) ==> survivor(view, a, sol2, doms2)
}

/// Whether `sols` holds every assignment that a search in the state `sol`,
/// `doms` has yet to find and that has one of the first `c` of `candidates`
/// at `at`.
pub open spec fn tried<T, G>(
    view: CircuitView<T, G>,
    sol: Seq<Option<Value>>,
    doms: Seq<Option<BitString>>,
    at: int,
    candidates: Seq<Value>,
    c: int,
    sols: Seq<Vec<Option<Value>>>,
) -> bool {
    forall|a: Seq<Option<Value>>| #[trigger]
        survivor(view, a, sol, doms) && (exists|j: int|
            0 <= j < c && a[at] == Some(candidates[j])) ==> found_in(sols, a)
}

/// Whether each of `sols` has one of the first `c` of `candidates` at `at`.
pub open spec fn among(
    sols: Seq<Vec<Option<Value>>>,
    at: int,
    candidates: Seq<Value>,
    c: int,
) -> bool {
    forall|k: int|
        0 <= k < sols.len() ==> exists|j: int|
            0 <= j < c && (#[trigger] sols[k])@[at] == Some(candidates[j])
}

/// With every value node decided, what is decided is a solution, and the
/// only one left to find.
pub proof fn lemma_leaf<T, G>(
    view: CircuitView<T, G>,
    sol: Seq<Option<Value>>,
    doms: Seq<Option<BitString>>,
    items: Map<u32, Rank>,
    found: Seq<Vec<Option<Value>>>,
)
    requires
        search_state(view, sol, doms, items, None),
        consistent(view, sol),
        forall|x: u32| !items.contains_key(x),
        found.len() == 1,
        found[0]@ == sol,
    ensures
        all_solutions(view, found, sol.len()),
        complete(view, sol, doms, found),
        distinct_from(found, sol),
{
    assert forall|n: NodeIndex| view.is_value(n) implies assigned(sol, n) is Some by {
        if sol[n.0 as int] is None {
            assert(items.contains_key(n.0));
        }
    }
    assert forall|i: int| 0 <= i < sol.len() && (#[trigger] sol[i]) is Some implies i <= u32::MAX
        && view.is_value(NodeIndex(i as u32)) by {
        assert(doms[i] is Some);
    }
    assert forall|a: Seq<Option<Value>>| #[trigger] survivor(view, a, sol, doms) implies found_in(
        found,
        a,
    ) by {
        assert forall|i: int| 0 <= i < a.len() implies a[i] == sol[i] by {
            if sol[i] is None && a[i] is Some {
                assert(view.is_value(NodeIndex(i as u32)));
                assert(assigned(sol, NodeIndex(i as u32)) is Some);
            }
        }
        assert(a =~= sol);
        assert(found[0]@ == a);
    }
}

/// Before any candidate is tried nothing is owed.
pub proof fn lemma_none_tried<T, G>(
    view: CircuitView<T, G>,
    sol: Seq<Option<Value>>,
    doms: Seq<Option<BitString>>,
    at: int,
    candidates: Seq<Value>,
    sols: Seq<Vec<Option<Value>>>,
)
    requires
        sols.len() == 0,
    ensures
        tried(view, sol, doms, at, candidates, 0, sols),
        all_solutions(view, sols, sol.len()),
        distinct_from(sols, sol),
        among(sols, at, candidates, 0),
{
}

/// A branch that has been searched adds what it found to the solutions
/// and settles its candidate.
pub proof fn lemma_branch_searched<T, G>(
    view: CircuitView<T, G>,
    sol: Seq<Option<Value>>,
    doms: Seq<Option<BitString>>,
    at: int,
    candidates: Seq<Value>,
    c: int,
    branch_sol: Seq<Option<Value>>,
    branch_doms: Seq<Option<BitString>>,
    earlier: Seq<Vec<Option<Value>>>,
    added: Seq<Vec<Option<Value>>>,
    sols: Seq<Vec<Option<Value>>>,
)
    requires
        0 <= c < candidates.len(),
        sols == earlier + added,
        branch_sol.len() == sol.len(),
        all_solutions(view, earlier, sol.len()),
        all_solutions(view, added, branch_sol.len()),
        tried(view, sol, doms, at, candidates, c, earlier),
        carried(view, sol, doms, at, candidates[c], branch_sol, branch_doms),
        complete(view, branch_sol, branch_doms, added),
        0 <= at < sol.len(),
        extends(branch_sol, sol),
        branch_sol[at] == Some(candidates[c]),
        candidates.no_duplicates(),
        distinct_from(earlier, sol),
        among(earlier, at, candidates, c),
        distinct_from(added, branch_sol),
    ensures
        all_solutions(view, sols, sol.len()),
        tried(view, sol, doms, at, candidates, c + 1, sols),
        distinct_from(sols, sol),
        among(sols, at, candidates, c + 1),
{
    assert forall|k: int| 0 <= k < sols.len() implies extends((#[trigger] sols[k])@, sol) && (
    exists|j: int| 0 <= j < c + 1 && sols[k]@[at] == Some(candidates[j])) by {
        if k < earlier.len() {
            assert(sols[k] == earlier[k]);
            let j = choose|j: int| 0 <= j < c && earlier[k]@[at] == Some(candidates[j]);
            assert(0 <= j < c + 1 && sols[k]@[at] == Some(candidates[j]));
        } else {
            let m = k - earlier.len();
            assert(sols[k] == added[m]);
            assert(extends(added[m]@, branch_sol));
            assert(added[m]@[at] == Some(candidates[c]));
        }
    }
    assert forall|i: int, j: int| 0 <= i < j < sols.len() implies (#[trigger] sols[i])@ != (
    #[trigger] sols[j])@ by {
        if j < earlier.len() {
            assert(sols[i] == earlier[i] && sols[j] == earlier[j]);
        } else if i >= earlier.len() {
            assert(sols[i] == added[i - earlier.len()] && sols[j] == added[j - earlier.len()]);
        } else {
            assert(sols[i] == earlier[i]);
            let m = j - earlier.len();
            assert(sols[j] == added[m]);
            assert(extends(added[m]@, branch_sol));
            let w = choose|w: int| 0 <= w < c && earlier[i]@[at] == Some(candidates[w]);
            assert(candidates[w] != candidates[c]);
        }
    }
    assert forall|k: int| 0 <= k < sols.len() implies is_solution(view, (#[trigger] sols[k])@)
        && sols[k]@.len() == sol.len() by {
        if k < earlier.len() {
            assert(sols[k] == earlier[k]);
        } else {
            assert(sols[k] == added[k - earlier.len()]);
        }
    }
    assert forall|a: Seq<Option<Value>>| #[trigger]
        survivor(view, a, sol, doms) && (exists|j: int|
            0 <= j < c + 1 && a[at] == Some(candidates[j])) implies found_in(sols, a) by {
        let j = choose|j: int| 0 <= j < c + 1 && a[at] == Some(candidates[j]);
        if j < c {
            assert(found_in(earlier, a));
            let k = choose|k: int| 0 <= k < earlier.len() && (#[trigger] earlier[k])@ == a;
            assert(sols[k] == earlier[k]);
        } else {
            assert(survivor(view, a, branch_sol, branch_doms));
            assert(found_in(added, a));
            let k = choose|k: int| 0 <= k < added.len() && (#[trigger] added[k])@ == a;
            assert(sols[earlier.len() + k] == added[k]);
        }
    }
}

/// Where narrowing lost nothing and nothing is left to find among the
/// narrowed candidates, nothing was left to find before.
pub proof fn lemma_dead_kept<T, G>(
    view: CircuitView<T, G>,
    sol: Seq<Option<Value>>,
    doms: Seq<Option<BitString>>,
    doms2: Seq<Option<BitString>>,
)
    requires
        kept(view, sol, doms, doms2),
        dead(view, sol, doms2),
    ensures
        dead(view, sol, doms),
{
    assert forall|a: Seq<Option<Value>>| !#[trigger] survivor(view, a, sol, doms) by {
        if survivor(view, a, sol, doms) {
            assert(within(a, doms2));
            assert(survivor(view, a, sol, doms2));
        }
    }
}

/// An edge at a value node leads to a gate.
pub proof fn lemma_value_meets_gates<T, G>(view: CircuitView<T, G>, x: NodeIndex, m: NodeIndex)
    requires
        view.structure_wf(),
        view.is_value(x),
        view.adjacent(x, m),
    ensures
        view.is_gate(m),
{
    let (e, d) = choose|e: EdgeIndex, d: Direction| #[trigger]
        view.incident(e, x, d) && view.edges[e].far(d) == m;
    assert(view.edges.contains_key(e));
    match d {
        Direction::Incoming => {},
        Direction::Outgoing => {},
    }
}

/// A gate wired as its arity asks, with slots 1, 2, .., is one whose edges
/// the search can tell apart.
pub proof fn lemma_tidy_indexed<T, G>(view: CircuitView<T, G>, n: NodeIndex)
    requires
        view.structure_wf(),
        tidy(view, n),
    ensures
        indexed(view, n),
{
    assert forall|d: Direction| #[trigger] view.listing(n, d).len() <= MAX_DEGREE by {
        match d {
            Direction::Incoming => {
                assert(view.ports(n, Direction::Incoming).len() == view.gate_at(n).spec_arity().0);
            },
            Direction::Outgoing => {
                assert(view.ports(n, Direction::Outgoing).len() == view.gate_at(n).spec_arity().1);
            },
        }
    }
}

/// A branch that holds nothing to find adds nothing.
pub proof fn lemma_branch_dead<T, G>(
    view: CircuitView<T, G>,
    sol: Seq<Option<Value>>,
    doms: Seq<Option<BitString>>,
    at: int,
    candidates: Seq<Value>,
    c: int,
    sols: Seq<Vec<Option<Value>>>,
)
    requires
        0 <= c < candidates.len(),
        tried(view, sol, doms, at, candidates, c, sols),
        dead_at(view, sol, doms, at, candidates[c]),
        among(sols, at, candidates, c),
    ensures
        tried(view, sol, doms, at, candidates, c + 1, sols),
        among(sols, at, candidates, c + 1),
{
    assert forall|k: int| 0 <= k < sols.len() implies exists|j: int|
        0 <= j < c + 1 && (#[trigger] sols[k])@[at] == Some(candidates[j]) by {
        let j = choose|j: int| 0 <= j < c && sols[k]@[at] == Some(candidates[j]);
        assert(0 <= j < c + 1 && sols[k]@[at] == Some(candidates[j]));
    }
    assert forall|a: Seq<Option<Value>>| #[trigger]
        survivor(view, a, sol, doms) && (exists|j: int|
            0 <= j < c + 1 && a[at] == Some(candidates[j])) implies found_in(sols, a) by {
        let j = choose|j: int| 0 <= j < c + 1 && a[at] == Some(candidates[j]);
        assert(j != c);
    }
}

/// A state in which an undecided node is left without candidate holds
/// nothing to find.
pub proof fn lemma_no_candidate_dead<T, G>(
    view: CircuitView<T, G>,
    sol: Seq<Option<Value>>,
    doms: Seq<Option<BitString>>,
    items: Map<u32, Rank>,
    x: u32,
)
    requires
        search_state(view, sol, doms, items, None),
        items.contains_key(x),
        doms[x as int].unwrap().spec_len() == 0,
    ensures
        dead(view, sol, doms),
{
    assert forall|a: Seq<Option<Value>>| !#[trigger] survivor(view, a, sol, doms) by {
        if survivor(view, a, sol, doms) {
            assert(view.is_value(NodeIndex(x)));
            assert(assigned(a, NodeIndex(x)) is Some);
            assert(a[x as int] is Some);
            assert(false);
        }
    }
}

/// With every candidate of a node tried, nothing is left to find.
pub proof fn lemma_all_tried<T, G>(
    view: CircuitView<T, G>,
    sol: Seq<Option<Value>>,
    doms: Seq<Option<BitString>>,
    items: Map<u32, Rank>,
    at: u32,
    sols: Seq<Vec<Option<Value>>>,
)
    requires
        search_state(view, sol, doms, items, None),
        items.contains_key(at),
        tried(
            view,
            sol,
            doms,
            at as int,
            doms[at as int].unwrap().values(),
            doms[at as int].unwrap().values().len() as int,
            sols,
        ),
    ensures
        complete(view, sol, doms, sols),
{
    let set = doms[at as int].unwrap();
    let candidates = set.values();
    assert forall|a: Seq<Option<Value>>| #[trigger] survivor(view, a, sol, doms) implies found_in(
        sols,
        a,
    ) by {
        assert(view.is_value(NodeIndex(at)));
        assert(assigned(a, NodeIndex(at)) is Some);
        let held = a[at as int].unwrap();
        assert(set.has(held));
        let j = if held == Value::Zero {
            0int
        } else if held == Value::Bot {
            if set.0 {
                1int
            } else {
                0int
            }
        } else {
            candidates.len() - 1
        };
        assert(0 <= j < candidates.len() && candidates[j] == held);
    }
}

/// Whether every node has in `after` no candidate that it has not in
/// `before`.
pub open spec fn narrowed(before: Seq<Option<BitString>>, after: Seq<Option<BitString>>) -> bool {
    &&& after.len() == before.len()
    &&& forall|i: int, v: Value|
        0 <= i < after.len() && after[i] is Some && #[trigger] after[i].unwrap().has(v)
            ==> before[i] is Some && before[i].unwrap().has(v)
}

/// Whether every node but the one at `at` has in `after` no candidate that
/// it has not in `before`.
pub open spec fn narrowed_but(
    before: Seq<Option<BitString>>,
    after: Seq<Option<BitString>>,
    at: int,
) -> bool {
    &&& after.len() == before.len()
    &&& forall|i: int, v: Value|
        0 <= i < after.len() && i != at && after[i] is Some && #[trigger] after[i].unwrap().has(v)
            ==> before[i] is Some && before[i].unwrap().has(v)
}

/// A tidy gate that is no purifier passes under a total assignment exactly
/// when it accepts the values at its ports.
pub proof fn lemma_gate_passes_iff_accepts<T, G>(
    view: CircuitView<T, G>,
    a: Seq<Option<Value>>,
    n: NodeIndex,
)
    requires
        view.structure_wf(),
        tidy(view, n),
        view.gate_at(n) != Gate::Purify,
        is_total(view, a),
    ensures
        passes(view, a, n) <==> satisfied(view, a, n),
{
    let gate = view.gate_at(n);
    let ins = view.ports(n, Direction::Incoming);
    let outs = view.ports(n, Direction::Outgoing);
    lemma_ports_hold_values(view, a, n, Direction::Incoming);
    lemma_ports_hold_values(view, a, n, Direction::Outgoing);
    assert(ins.len() == gate.spec_arity().0);
    assert(outs.len() == gate.spec_arity().1);
    assert(all_assigned(a, ins));
    assert(all_assigned(a, outs));
    let in_vals = values_at(a, ins);
    let out_vals = values_at(a, outs);
    let x = in_vals[0];
    let y = if ins.len() == 2 {
        in_vals[1]
    } else {
        Value::Zero
    };
    assert(gate.eval(seq![x, y]) == gate.eval(in_vals)) by {
        if ins.len() == 2 {
            assert(seq![x, y] =~= in_vals);
        }
    }
    assert(at_port(a, ins, 0) == Some(x));
    assert(at_port(a, outs, 0) == Some(out_vals[0]));
    if ins.len() == 2 {
        assert(at_port(a, ins, 1) == Some(y));
    }
    assert(gate.eval(seq![x, Value::Zero]) == gate.eval(seq![x, y]) || ins.len() == 2);
    assert(gate.eval(seq![x, Value::Bot]) == gate.eval(seq![x, y]) || ins.len() == 2);
    assert(gate.eval(seq![x, Value::One]) == gate.eval(seq![x, y]) || ins.len() == 2);
}

/// A tidy purifier passes under a total assignment exactly when its input
/// and its outputs are what the search lets a purifier have: a determined
/// input on both outputs, and after `Bot` a first output of lower voltage
/// than the second.
pub proof fn lemma_purifier_passes<T, G>(
    view: CircuitView<T, G>,
    a: Seq<Option<Value>>,
    n: NodeIndex,
)
    requires
        view.structure_wf(),
        tidy(view, n),
        view.gate_at(n) == Gate::Purify,
        is_total(view, a),
    ensures
        all_assigned(a, view.ports(n, Direction::Incoming)),
        all_assigned(a, view.ports(n, Direction::Outgoing)),
        passes(view, a, n) <==> purifies(
            values_at(a, view.ports(n, Direction::Incoming))[0],
            values_at(a, view.ports(n, Direction::Outgoing))[0],
            values_at(a, view.ports(n, Direction::Outgoing))[1],
        ),
        passes(view, a, n) <==> view.gate_at(n).settled_right(known_at(view, a, n)),
{
    let ins = view.ports(n, Direction::Incoming);
    let outs = view.ports(n, Direction::Outgoing);
    lemma_ports_hold_values(view, a, n, Direction::Incoming);
    lemma_ports_hold_values(view, a, n, Direction::Outgoing);
    assert(ins.len() == 1);
    assert(outs.len() == 2);
    assert(all_assigned(a, ins));
    assert(all_assigned(a, outs));
    assert(at_port(a, ins, 0) == Some(values_at(a, ins)[0]));
    assert(at_port(a, outs, 0) == Some(values_at(a, outs)[0]));
    assert(at_port(a, outs, 1) == Some(values_at(a, outs)[1]));
}

/// On a circuit without purifiers whose gates are all tidy, the gates pass
/// under a total assignment exactly when each of them accepts the values at
/// its ports. So what `calculate` returns for such a circuit, where it
/// returns a list, are the assignments that every gate accepts, all of them
/// and no others.
pub proof fn lemma_passes_iff_accepted<T, G>(view: CircuitView<T, G>, a: Seq<Option<Value>>)
    requires
        view.structure_wf(),
        forall|n: NodeIndex| view.is_gate(n) ==> tidy(view, n) && view.gate_at(n) != Gate::Purify,
        is_total(view, a),
    ensures
        passes_all(view, a) <==> consistent(view, a),
        passes_all(view, a) <==> is_solution(view, a),
{
    assert forall|n: NodeIndex| view.is_gate(n) implies (#[trigger] passes(view, a, n)
        <==> satisfied(view, a, n)) by {
        assert(tidy(view, n));
        lemma_gate_passes_iff_accepts(view, a, n);
    }
    if consistent(view, a) {
        assert forall|n: NodeIndex| view.is_gate(n) implies #[trigger] passes(view, a, n) by {
            assert(tidy(view, n));
            assert(satisfied(view, a, n));
        }
    }
    if passes_all(view, a) {
        assert forall|n: NodeIndex| tidy(view, n) implies #[trigger] satisfied(view, a, n) by {
            assert(passes(view, a, n));
        }
    }
}

/// Whether every gate passes under each of `sols`.
pub open spec fn all_pass<T, G>(view: CircuitView<T, G>, sols: Seq<Vec<Option<Value>>>) -> bool {
    forall|k: int| 0 <= k < sols.len() ==> passes_all(view, (#[trigger] sols[k])@)
}

/// On a clean circuit every gate passes under a solution that the search
/// has reached: one at which what is decided of each purifier is what a
/// purifier may have.
pub proof fn lemma_leaf_passes<T, G>(
    view: CircuitView<T, G>,
    sol: Seq<Option<Value>>,
    doms: Seq<Option<BitString>>,
)
    requires
        view.structure_wf(),
        clean(view),
        is_solution(view, sol),
        arc_all(view, sol, doms),
    ensures
        passes_all(view, sol),
{
    assert forall|n: NodeIndex| view.is_gate(n) implies #[trigger] passes(view, sol, n) by {
        assert(tidy(view, n));
        assert(arc_ok(view, sol, doms, n));
        if view.gate_at(n) == Gate::Purify {
            lemma_purifier_passes(view, sol, n);
        } else {
            assert(satisfied(view, sol, n));
            lemma_gate_passes_iff_accepts(view, sol, n);
        }
    }
}

/// Lists under which every gate passes, put one after the other.
pub proof fn lemma_all_pass_joined<T, G>(
    view: CircuitView<T, G>,
    earlier: Seq<Vec<Option<Value>>>,
    added: Seq<Vec<Option<Value>>>,
)
    requires
        all_pass(view, earlier),
        all_pass(view, added),
    ensures
        all_pass(view, earlier + added),
{
    let both = earlier + added;
    assert forall|k: int| 0 <= k < both.len() implies passes_all(view, (#[trigger] both[k])@) by {
        if k < earlier.len() {
            assert(both[k] == earlier[k]);
        } else {
            assert(both[k] == added[k - earlier.len()]);
        }
    }
}

/// Once a solution is written into a circuit, every tidy gate is valid:
/// where `after` is a sound circuit with the edges and gates of `before`
/// whose value nodes hold what the solution `sol` of `before` assigns, the
/// tidy gate `n` has the status `Valid` in it.
pub proof fn lemma_solution_makes_valid<T, G>(
    before: CircuitView<T, G>,
    after: CircuitView<T, G>,
    sol: Seq<Option<Value>>,
    n: NodeIndex,
)
    requires
        before.structure_wf(),
        after.wf(),
        after.edges == before.edges,
        after.nodes.dom() == before.nodes.dom(),
        forall|m: NodeIndex| #[trigger]
            before.nodes.contains_key(m) ==> after.is_gate(m) == before.is_gate(m) && (
            before.is_gate(m) ==> after.gate_at(m) == before.gate_at(m)),
        forall|m: NodeIndex|
            before.is_value(m) ==> assigned(sol, m) == Some(#[trigger] after.value_at(m)),
        is_solution(before, sol),
        tidy(before, n),
    ensures
        after.status_at(n) == GateStatus::Valid,
        tidy(after, n),
{
    assert(before.nodes.contains_key(n));
    assert(satisfied(before, sol, n));
    lemma_ports_frame(before, after, sol, n, Direction::Incoming);
    lemma_ports_frame(before, after, sol, n, Direction::Outgoing);
    assert(after.nodes.contains_key(n));
    assert(after.status_ok(n));
    assert forall|d: Direction, i: int| 0 <= i < after.listing(n, d).len() implies (
    #[trigger] after.edges[after.listing(n, d)[i]]).slot == i + 1 by {
        match d {
            Direction::Incoming => {
                assert(before.edges[before.listing(n, d)[i]].slot == i + 1);
            },
            Direction::Outgoing => {
                assert(before.edges[before.listing(n, d)[i]].slot == i + 1);
            },
        }
    }
}

/// One direction of `lemma_solution_makes_valid`: the ports are the same,
/// all assigned, and hold what `sol` assigns.
proof fn lemma_ports_frame<T, G>(
    before: CircuitView<T, G>,
    after: CircuitView<T, G>,
    sol: Seq<Option<Value>>,
    n: NodeIndex,
    dir: Direction,
)
    requires
        before.structure_wf(),
        before.is_gate(n),
        after.edges == before.edges,
        forall|m: NodeIndex|
            before.is_value(m) ==> assigned(sol, m) == Some(#[trigger] after.value_at(m)),
    ensures
        after.listing(n, dir) == before.listing(n, dir),
        after.is_listing(n, dir, after.listing(n, dir)),
        after.ports(n, dir) == before.ports(n, dir),
        all_assigned(sol, before.ports(n, dir)),
        after.port_values(n, dir) == values_at(sol, before.ports(n, dir)),
{
    assert(before.is_listing(n, dir, before.listing(n, dir)));
    before.lemma_listing_frame(after, n, dir);
    let l = before.listing(n, dir);
    let ports = before.ports(n, dir);
    assert forall|i: int| 0 <= i < ports.len() implies before.is_value(#[trigger] ports[i]) by {
        assert(before.incident(l[i], n, dir));
        assert(before.edges.contains_key(l[i]));
        match dir {
            Direction::Incoming => {},
            Direction::Outgoing => {},
        }
    }
    assert forall|i: int| 0 <= i < ports.len() implies assigned(sol, #[trigger] ports[i])
        == Some(after.value_at(ports[i])) by {
        assert(before.is_value(ports[i]));
        let held = after.value_at(ports[i]);
    }
    assert(after.port_values(n, dir) =~= values_at(sol, ports)) by {
        assert forall|i: int| 0 <= i < ports.len() implies after.port_values(n, dir)[i]
            == values_at(sol, ports)[i] by {
            assert(before.is_value(ports[i]));
            assert(assigned(sol, ports[i]) == Some(after.value_at(ports[i])));
            assert(after.edges[l[i]].far(dir) == ports[i]);
        }
    }
}

} // verus!
