use petgraph::Direction;
use pure_circuit_lib::gates::{Gate, GateStatus, NodeUnitialised, NodeValue, Value};
use pure_circuit_lib::graph::{NodeIndex, PureCircuitGraph};
use pure_circuit_lib::solution_finders::backtracking::{
    BacktrackAlgorithm, BacktrackError, BacktrackKey, BitString,
};
use pure_circuit_lib::solution_finders::queue::Queue;

fn sorted(mut sols: Vec<Vec<Option<Value>>>) -> Vec<Vec<Option<Value>>> {
    sols.sort_by_key(|s| format!("{:?}", s));
    sols
}

fn pairs(at: &[NodeIndex], sols: &[Vec<Option<Value>>]) -> Vec<Vec<Value>> {
    let mut out: Vec<Vec<Value>> = sols
        .iter()
        .map(|s| at.iter().map(|n| s[n.index()].unwrap()).collect())
        .collect();
    out.sort_by_key(|s| format!("{:?}", s));
    out
}

#[test]
fn backtracking_test_copy() {
    let mut pc = PureCircuitGraph::<(), ()>::new();
    let v1 = pc.add_node(NodeUnitialised::from_value(Value::Bot), ());
    let v2 = pc.add_node(NodeUnitialised::from_value(Value::Bot), ());
    let g = pc.add_node(NodeUnitialised::from_gate(Gate::Copy), ());
    pc.add_edge(v1, g, ()).unwrap();
    pc.add_edge(g, v2, ()).unwrap();

    let back = BacktrackAlgorithm.calculate(&pc).expect("Should be valid");
    assert_eq!(3, back.len())
}

#[test]
fn backtracking_test_not() {
    let mut pc = PureCircuitGraph::<(), ()>::new();
    let v1 = pc.add_node(NodeUnitialised::from_value(Value::Bot), ());
    let v2 = pc.add_node(NodeUnitialised::from_value(Value::Bot), ());
    let g = pc.add_node(NodeUnitialised::from_gate(Gate::Not), ());
    pc.add_edge(v1, g, ()).unwrap();
    pc.add_edge(g, v2, ()).unwrap();

    let back = BacktrackAlgorithm.calculate(&pc).expect("Should be valid");
    assert_eq!(3, back.len())
}

#[test]
fn backtracking_test_purify() {
    let mut pc = PureCircuitGraph::<(), ()>::new();
    let v1 = pc.add_node(NodeUnitialised::from_value(Value::Bot), ());
    let v2 = pc.add_node(NodeUnitialised::from_value(Value::Bot), ());
    let v3 = pc.add_node(NodeUnitialised::from_value(Value::Bot), ());
    let g = pc.add_node(NodeUnitialised::from_gate(Gate::Purify), ());
    pc.add_edge(v1, g, ()).unwrap();
    pc.add_edge(g, v2, ()).unwrap();
    pc.add_edge(g, v3, ()).unwrap();

    let back = BacktrackAlgorithm.calculate(&pc).expect("Should be valid");
    assert_eq!(5, back.len())
}

#[test]
fn backtracking_test_and() {
    let mut pc = PureCircuitGraph::<(), ()>::new();
    let v1 = pc.add_node(NodeUnitialised::from_value(Value::Bot), ());
    let v2 = pc.add_node(NodeUnitialised::from_value(Value::Bot), ());
    let v3 = pc.add_node(NodeUnitialised::from_value(Value::Bot), ());
    let g = pc.add_node(NodeUnitialised::from_gate(Gate::And), ());
    pc.add_edge(v1, g, ()).unwrap();
    pc.add_edge(v2, g, ()).unwrap();
    pc.add_edge(g, v3, ()).unwrap();

    let back = BacktrackAlgorithm.calculate(&pc).expect("Should be valid");
    assert_eq!(9, back.len())
}

#[test]
fn backtracking_test_or() {
    let mut pc = PureCircuitGraph::<(), ()>::new();
    let v1 = pc.add_node(NodeUnitialised::from_value(Value::Bot), ());
    let v2 = pc.add_node(NodeUnitialised::from_value(Value::Bot), ());
    let v3 = pc.add_node(NodeUnitialised::from_value(Value::Bot), ());
    let g = pc.add_node(NodeUnitialised::from_gate(Gate::Or), ());
    pc.add_edge(v1, g, ()).unwrap();
    pc.add_edge(v2, g, ()).unwrap();
    pc.add_edge(g, v3, ()).unwrap();

    let back = BacktrackAlgorithm.calculate(&pc).expect("Should be valid");
    assert_eq!(9, back.len())
}

#[test]
fn backtracking_test_nand() {
    let mut pc = PureCircuitGraph::<(), ()>::new();
    let v1 = pc.add_node(NodeUnitialised::from_value(Value::Bot), ());
    let v2 = pc.add_node(NodeUnitialised::from_value(Value::Bot), ());
    let v3 = pc.add_node(NodeUnitialised::from_value(Value::Bot), ());
    let g = pc.add_node(NodeUnitialised::from_gate(Gate::Nand), ());
    pc.add_edge(v1, g, ()).unwrap();
    pc.add_edge(v2, g, ()).unwrap();
    pc.add_edge(g, v3, ()).unwrap();

    let back = BacktrackAlgorithm.calculate(&pc).expect("Should be valid");
    assert_eq!(9, back.len())
}

#[test]
fn backtracking_test_nor() {
    let mut pc: PureCircuitGraph = PureCircuitGraph::<(), ()>::new();
    let v1 = pc.add_node(NodeUnitialised::from_value(Value::Bot), ());
    let v2 = pc.add_node(NodeUnitialised::from_value(Value::Bot), ());
    let v3 = pc.add_node(NodeUnitialised::from_value(Value::Bot), ());
    let g = pc.add_node(NodeUnitialised::from_gate(Gate::Nor), ());
    pc.add_edge(v1, g, ()).unwrap();
    pc.add_edge(v2, g, ()).unwrap();
    pc.add_edge(g, v3, ()).unwrap();

    let back = BacktrackAlgorithm.calculate(&pc).expect("Should be valid");
    assert_eq!(9, back.len())
}

#[test]
fn test_purify_chain() {
    let mut pc: PureCircuitGraph = PureCircuitGraph::<(), ()>::new();
    let v1 = pc.add_node(NodeUnitialised::from_value(Value::Bot), ());
    let v2 = pc.add_node(NodeUnitialised::from_value(Value::Bot), ());
    let v3 = pc.add_node(NodeUnitialised::from_value(Value::Bot), ());
    let g1 = pc.add_node(NodeUnitialised::from_gate(Gate::Purify), ());
    let v4 = pc.add_node(NodeUnitialised::from_value(Value::Bot), ());
    let v5 = pc.add_node(NodeUnitialised::from_value(Value::Bot), ());
    let g2 = pc.add_node(NodeUnitialised::from_gate(Gate::Purify), ());
    pc.add_edge(v1, g1, ()).unwrap();
    pc.add_edge(g1, v2, ()).unwrap();
    pc.add_edge(g1, v3, ()).unwrap();
    pc.add_edge(v3, g2, ()).unwrap();
    pc.add_edge(g2, v4, ()).unwrap();
    pc.add_edge(g2, v5, ()).unwrap();

    let back = BacktrackAlgorithm.calculate(&pc).expect("Should be valid");
    assert_eq!(7, back.len())
}

#[test]
fn test_copy_purify() {
    let mut pc: PureCircuitGraph = PureCircuitGraph::<(), ()>::new();
    let v1 = pc.add_node(NodeUnitialised::from_value(Value::Bot), ());
    let v2 = pc.add_node(NodeUnitialised::from_value(Value::Bot), ());
    let v3 = pc.add_node(NodeUnitialised::from_value(Value::Bot), ());
    let g1 = pc.add_node(NodeUnitialised::from_gate(Gate::Purify), ());
    let g2 = pc.add_node(NodeUnitialised::from_gate(Gate::Copy), ());
    pc.add_edge(v1, g1, ()).unwrap();
    pc.add_edge(g1, v2, ()).unwrap();
    pc.add_edge(g1, v3, ()).unwrap();
    pc.add_edge(v3, g2, ()).unwrap();
    pc.add_edge(g2, v1, ()).unwrap();

    let back = match BacktrackAlgorithm.calculate(&pc) {
        Ok(back) => back,
        Err(e) => panic!("{:?}", e),
    };
    assert_eq!(3, back.len())
}

#[test]
fn copy_solutions_are_the_three_equal_pairs() {
    let mut pc = PureCircuitGraph::<(), ()>::new();
    let v1 = pc.add_node(NodeUnitialised::from_value(Value::Bot), ());
    let v2 = pc.add_node(NodeUnitialised::from_value(Value::Bot), ());
    let g = pc.add_node(NodeUnitialised::from_gate(Gate::Copy), ());
    pc.add_edge(v1, g, ()).unwrap();
    pc.add_edge(g, v2, ()).unwrap();
    let back = BacktrackAlgorithm.calculate(&pc).unwrap();
    assert_eq!(
        pairs(&[v1, v2], &back),
        vec![
            vec![Value::Bot, Value::Bot],
            vec![Value::One, Value::One],
            vec![Value::Zero, Value::Zero],
        ]
    );
    for s in &back {
        assert_eq!(s.len(), 2);
        assert_eq!(s.iter().filter(|x| x.is_some()).count(), 2);
    }
}

#[test]
fn not_solutions_are_the_three_inverted_pairs() {
    let mut pc = PureCircuitGraph::<(), ()>::new();
    let v1 = pc.add_node(NodeUnitialised::from_value(Value::Bot), ());
    let v2 = pc.add_node(NodeUnitialised::from_value(Value::Bot), ());
    let g = pc.add_node(NodeUnitialised::from_gate(Gate::Not), ());
    pc.add_edge(v1, g, ()).unwrap();
    pc.add_edge(g, v2, ()).unwrap();
    let back = BacktrackAlgorithm.calculate(&pc).unwrap();
    assert_eq!(
        pairs(&[v1, v2], &back),
        vec![
            vec![Value::Bot, Value::Bot],
            vec![Value::One, Value::Zero],
            vec![Value::Zero, Value::One],
        ]
    );
}

#[test]
fn and_solutions_satisfy_the_gate() {
    let mut pc = PureCircuitGraph::<(), ()>::new();
    let g = pc.add_node(NodeUnitialised::from_gate(Gate::And), ());
    let v1 = pc.add_node(NodeUnitialised::from_value(Value::Bot), ());
    let v2 = pc.add_node(NodeUnitialised::from_value(Value::Bot), ());
    let v3 = pc.add_node(NodeUnitialised::from_value(Value::Bot), ());
    pc.add_edge(v1, g, ()).unwrap();
    pc.add_edge(v2, g, ()).unwrap();
    pc.add_edge(g, v3, ()).unwrap();
    let back = sorted(BacktrackAlgorithm.calculate(&pc).unwrap());
    assert_eq!(back.len(), 9);
    for (i, s) in back.iter().enumerate() {
        if i > 0 {
            assert_ne!(*s, back[i - 1]);
        }
        assert_eq!(s.len(), 4);
        assert_eq!(s[g.index()], None);
        let a = s[v1.index()].unwrap();
        let b = s[v2.index()].unwrap();
        let c = s[v3.index()].unwrap();
        assert_eq!(Gate::And.check(&[a, b], &[c]), Ok(true));
        let mut copy = PureCircuitGraph::<(), ()>::new();
        let cg = copy.add_node(NodeUnitialised::from_gate(Gate::And), ());
        let c1 = copy.add_node(NodeUnitialised::from_value(Value::Bot), ());
        let c2 = copy.add_node(NodeUnitialised::from_value(Value::Bot), ());
        let c3 = copy.add_node(NodeUnitialised::from_value(Value::Bot), ());
        copy.add_edge(c1, cg, ()).unwrap();
        copy.add_edge(c2, cg, ()).unwrap();
        copy.add_edge(cg, c3, ()).unwrap();
        copy.from_backtrack_sol(s).unwrap();
        assert_eq!(
            copy.node(cg),
            Some(NodeValue::GateNode { gate: Gate::And, state_type: GateStatus::Valid })
        );
        assert_eq!(copy.node(c1), Some(NodeValue::ValueNode(a)));
        assert_eq!(copy.node(c3), Some(NodeValue::ValueNode(c)));
    }
}

#[test]
fn empty_circuit_is_an_error() {
    let pc = PureCircuitGraph::<(), ()>::new();
    assert_eq!(BacktrackAlgorithm.calculate(&pc), Err(BacktrackError::EmptyGraph));
    let mut pc = PureCircuitGraph::<(), ()>::new();
    pc.add_node(NodeUnitialised::from_gate(Gate::And), ());
    assert_eq!(BacktrackAlgorithm.calculate(&pc), Err(BacktrackError::EmptyGraph));
}

#[test]
fn lone_value_has_three_solutions() {
    let mut pc = PureCircuitGraph::<(), ()>::new();
    pc.add_node(NodeUnitialised::from_gate(Gate::And), ());
    let v = pc.add_node(NodeUnitialised::from_value(Value::One), ());
    let back = BacktrackAlgorithm.calculate(&pc).unwrap();
    assert_eq!(
        pairs(&[v], &back),
        vec![vec![Value::Bot], vec![Value::One], vec![Value::Zero]]
    );
}

#[test]
fn over_constrained_circuit_has_no_solution() {
    // v1 -> Copy -> v2 and v1 -> Not -> v2 leave Bot only; a third gate
    // Purify from v2 to (v1, v1) then asks Bot to be determined.
    let mut pc = PureCircuitGraph::<(), ()>::new();
    let v1 = pc.add_node(NodeUnitialised::from_value(Value::Bot), ());
    let v2 = pc.add_node(NodeUnitialised::from_value(Value::Bot), ());
    let c = pc.add_node(NodeUnitialised::from_gate(Gate::Copy), ());
    let n = pc.add_node(NodeUnitialised::from_gate(Gate::Not), ());
    pc.add_edge(v1, c, ()).unwrap();
    pc.add_edge(c, v2, ()).unwrap();
    pc.add_edge(v1, n, ()).unwrap();
    pc.add_edge(n, v2, ()).unwrap();
    let back = BacktrackAlgorithm.calculate(&pc).unwrap();
    assert_eq!(pairs(&[v1, v2], &back), vec![vec![Value::Bot, Value::Bot]]);
}

#[test]
fn gap_in_slots_is_an_index_issue() {
    let mut pc = PureCircuitGraph::<(), ()>::new();
    let v1 = pc.add_node(NodeUnitialised::from_value(Value::Bot), ());
    let v2 = pc.add_node(NodeUnitialised::from_value(Value::Bot), ());
    let v3 = pc.add_node(NodeUnitialised::from_value(Value::Bot), ());
    let g = pc.add_node(NodeUnitialised::from_gate(Gate::And), ());
    pc.add_edge(v1, g, ()).unwrap();
    let (_, _, slot) = pc.add_edge(v2, g, ()).unwrap();
    assert_eq!(slot, 2);
    pc.add_edge(g, v3, ()).unwrap();
    pc.remove_edge(v1, g).unwrap();
    assert_eq!(BacktrackAlgorithm.calculate(&pc), Err(BacktrackError::IndexIssue));
}

#[test]
fn too_many_edges_are_an_index_issue() {
    let mut pc = PureCircuitGraph::<(), ()>::new();
    let v1 = pc.add_node(NodeUnitialised::from_value(Value::Bot), ());
    let g = pc.add_node(NodeUnitialised::from_gate(Gate::And), ());
    pc.add_edge(v1, g, ()).unwrap();
    pc.add_edge(v1, g, ()).unwrap();
    pc.add_edge(v1, g, ()).unwrap();
    assert_eq!(BacktrackAlgorithm.calculate(&pc), Err(BacktrackError::IndexIssue));
}

#[test]
fn a_value_that_contradicts_its_gate_is_a_dead_branch() {
    // one node is input and output of a `Not`: only `Bot` is its own inverse
    let mut pc = PureCircuitGraph::<(), ()>::default();
    let g = pc.add_node(NodeUnitialised::from_gate(Gate::Not), ());
    let v = pc.add_node(NodeUnitialised::from_value(Value::Zero), ());
    pc.add_edge(v, g, ()).unwrap();
    pc.add_edge(g, v, ()).unwrap();
    assert_eq!(BacktrackAlgorithm.calculate(&pc), Ok(vec![vec![None, Some(Value::Bot)]]));
    assert_eq!(BacktrackAlgorithm.calculate(&pc), Ok(by_trial(&pc)));
}

#[test]
fn values_that_contradict_each_other_leave_no_solution() {
    // `x` is its own inverse, so `Bot`, and both outputs of a purifier,
    // which are never both `Bot`
    let mut pc = PureCircuitGraph::<(), ()>::new();
    let x = pc.add_node(NodeUnitialised::from_value(Value::Bot), ());
    let y = pc.add_node(NodeUnitialised::from_value(Value::Bot), ());
    let not = pc.add_node(NodeUnitialised::from_gate(Gate::Not), ());
    let purify = pc.add_node(NodeUnitialised::from_gate(Gate::Purify), ());
    pc.add_edge(x, not, ()).unwrap();
    pc.add_edge(not, x, ()).unwrap();
    pc.add_edge(y, purify, ()).unwrap();
    pc.add_edge(purify, x, ()).unwrap();
    pc.add_edge(purify, x, ()).unwrap();
    assert_eq!(BacktrackAlgorithm.calculate(&pc), Ok(vec![]));
    assert!(by_trial(&pc).is_empty());
}

#[test]
fn slots_that_do_not_start_at_one_are_an_index_issue() {
    let mut pc = PureCircuitGraph::<(), ()>::new();
    let g = pc.add_node(NodeUnitialised::from_gate(Gate::And), ());
    let a = pc.add_node(NodeUnitialised::from_value(Value::Bot), ());
    let b = pc.add_node(NodeUnitialised::from_value(Value::Bot), ());
    let c = pc.add_node(NodeUnitialised::from_value(Value::Bot), ());
    pc.add_edge(a, g, ()).unwrap();
    pc.add_edge(b, g, ()).unwrap();
    pc.add_edge(g, c, ()).unwrap();
    assert!(pc.gates_indexed());
    pc.remove_edge(a, g).unwrap();
    assert_eq!(pc.add_edge(a, g, ()).unwrap().2, 3);
    assert!(!pc.gates_indexed());
    let before = pc.clone();
    assert_eq!(BacktrackAlgorithm.calculate(&pc), Err(BacktrackError::IndexIssue));
    assert_eq!(BacktrackAlgorithm.calculate_within(&pc, 20), Some(Err(BacktrackError::IndexIssue)));
    assert_eq!(pc.get_edges(), before.get_edges());
    assert_eq!(pc.to_chromosone(), before.to_chromosone());
}

#[test]
fn a_gate_out_of_order_is_found_before_the_search() {
    // the contradiction at `x` would end the search before it came to `z`
    let mut pc = PureCircuitGraph::<(), ()>::new();
    let x = pc.add_node(NodeUnitialised::from_value(Value::Bot), ());
    let y = pc.add_node(NodeUnitialised::from_value(Value::Bot), ());
    let z = pc.add_node(NodeUnitialised::from_value(Value::Bot), ());
    let not = pc.add_node(NodeUnitialised::from_gate(Gate::Not), ());
    let purify = pc.add_node(NodeUnitialised::from_gate(Gate::Purify), ());
    let copy = pc.add_node(NodeUnitialised::from_gate(Gate::Copy), ());
    pc.add_edge(x, not, ()).unwrap();
    pc.add_edge(not, x, ()).unwrap();
    pc.add_edge(y, purify, ()).unwrap();
    pc.add_edge(purify, x, ()).unwrap();
    pc.add_edge(purify, x, ()).unwrap();
    pc.add_edge(z, copy, ()).unwrap();
    pc.add_edge(z, copy, ()).unwrap();
    pc.remove_edge(z, copy).unwrap();
    pc.add_edge(z, copy, ()).unwrap();
    pc.add_edge(z, copy, ()).unwrap();
    pc.add_edge(z, copy, ()).unwrap();
    assert_eq!(BacktrackAlgorithm.calculate(&pc), Err(BacktrackError::IndexIssue));
}

#[test]
fn a_gate_with_fewer_edges_than_ports_is_searched() {
    let mut pc = PureCircuitGraph::<(), ()>::new();
    let a = pc.add_node(NodeUnitialised::from_value(Value::Bot), ());
    let c = pc.add_node(NodeUnitialised::from_value(Value::Bot), ());
    let and = pc.add_node(NodeUnitialised::from_gate(Gate::And), ());
    let lone = pc.add_node(NodeUnitialised::from_gate(Gate::Or), ());
    pc.add_edge(a, and, ()).unwrap();
    pc.add_edge(and, c, ()).unwrap();
    assert!(matches!(pc.node(lone), Some(NodeValue::GateNode { gate: Gate::Or, .. })));
    assert!(pc.gates_indexed());
    // the output is at most the one input
    let back = BacktrackAlgorithm.calculate(&pc).unwrap();
    assert_eq!(
        pairs(&[a, c], &back),
        vec![
            vec![Value::Bot, Value::Bot],
            vec![Value::Bot, Value::Zero],
            vec![Value::One, Value::Bot],
            vec![Value::One, Value::One],
            vec![Value::One, Value::Zero],
            vec![Value::Zero, Value::Zero],
        ]
    );
}

#[test]
fn write_back_needs_a_value_for_every_value_node() {
    let mut pc = PureCircuitGraph::<(), ()>::new();
    let v1 = pc.add_node(NodeUnitialised::from_value(Value::Zero), ());
    let g = pc.add_node(NodeUnitialised::from_gate(Gate::Copy), ());
    let v2 = pc.add_node(NodeUnitialised::from_value(Value::One), ());
    pc.add_edge(v1, g, ()).unwrap();
    pc.add_edge(g, v2, ()).unwrap();
    assert_eq!(
        pc.from_backtrack_sol(&[Some(Value::One), None]),
        Err(BacktrackError::IndexMismatch)
    );
    assert_eq!(
        pc.from_backtrack_sol(&[Some(Value::One), None, None]),
        Err(BacktrackError::IndexMismatch)
    );
    assert_eq!(pc.node(v1), Some(NodeValue::ValueNode(Value::Zero)));
    assert_eq!(pc.node(v2), Some(NodeValue::ValueNode(Value::One)));
    assert_eq!(pc.from_backtrack_sol(&[Some(Value::One), None, Some(Value::One)]), Ok(()));
    assert_eq!(pc.node(v1), Some(NodeValue::ValueNode(Value::One)));
    assert_eq!(
        pc.node(g),
        Some(NodeValue::GateNode { gate: Gate::Copy, state_type: GateStatus::Valid })
    );
}

#[test]
fn key_rank_orders_as_the_search_wants() {
    let few = BacktrackKey { value_len: 1, is_start: false, neighbours: 0 }.rank();
    let many = BacktrackKey { value_len: 3, is_start: true, neighbours: 9 }.rank();
    assert_eq!(few, (-1, 0, 0));
    assert_eq!(many, (-3, 1, 9));
    assert!(few > many);
    let start = BacktrackKey { value_len: 2, is_start: true, neighbours: 0 }.rank();
    let inner = BacktrackKey { value_len: 2, is_start: false, neighbours: 5 }.rank();
    assert!(start > inner);
    let busy = BacktrackKey { value_len: 2, is_start: false, neighbours: 6 }.rank();
    assert!(busy > inner);
}

#[test]
fn keys_compare_as_their_ranks() {
    let mut keys = Vec::new();
    for value_len in 0..=3 {
        for is_start in [false, true] {
            for neighbours in [0, 1, 7] {
                keys.push(BacktrackKey { value_len, is_start, neighbours });
            }
        }
    }
    for a in &keys {
        for b in &keys {
            assert_eq!(a.partial_cmp(b), a.rank().partial_cmp(&b.rank()), "{a:?} {b:?}");
        }
    }
    let few = BacktrackKey { value_len: 1, is_start: false, neighbours: 0 };
    let many = BacktrackKey { value_len: 3, is_start: true, neighbours: 9 };
    assert!(few > many);
    assert!(many < few);
    assert!(few >= few);
}

#[test]
fn node_facts_of_a_small_circuit() {
    let mut pc = PureCircuitGraph::<(), ()>::new();
    let g = pc.add_node(NodeUnitialised::from_gate(Gate::And), ());
    let v1 = pc.add_node(NodeUnitialised::from_value(Value::Bot), ());
    let v2 = pc.add_node(NodeUnitialised::from_value(Value::Bot), ());
    let lone_gate = pc.add_node(NodeUnitialised::from_gate(Gate::Not), ());
    pc.add_edge(v1, g, ()).unwrap();
    pc.add_edge(v1, g, ()).unwrap();
    pc.add_edge(g, v2, ()).unwrap();
    let facts = pc.extract_node_graph();
    assert_eq!(facts, vec![None, Some((v1, true, 2)), Some((v2, false, 1))]);
    assert_eq!(lone_gate.index(), 3);
    assert_eq!(PureCircuitGraph::<(), ()>::new().extract_node_graph(), vec![]);
}

fn all_assignments(n: usize) -> Vec<Vec<Value>> {
    let values = Value::iter();
    let mut out = vec![vec![]];
    for _ in 0..n {
        out = out
            .into_iter()
            .flat_map(|head| {
                values.iter().map(move |v| {
                    let mut next = head.clone();
                    next.push(*v);
                    next
                })
            })
            .collect();
    }
    out
}

/// The assignments under which every gate of the circuit is valid, found by
/// trying them all.
fn by_trial(pc: &PureCircuitGraph<(), ()>) -> Vec<Vec<Option<Value>>> {
    let mut trial = PureCircuitGraph::<(), ()>::new();
    for at in pc.node_indices() {
        let node = match pc.node(at).unwrap() {
            NodeValue::ValueNode(v) => NodeUnitialised::from_value(v),
            NodeValue::GateNode { gate, .. } => NodeUnitialised::from_gate(gate),
        };
        assert_eq!(trial.add_node(node, ()), at);
    }
    for (source, target, _) in pc.get_edges() {
        trial.add_edge(source, target, ()).unwrap();
    }
    let span = pc.extract_node_graph().len();
    let mut found = Vec::new();
    for chromosome in all_assignments(trial.count_values()) {
        trial.from_chromosone(&chromosome).unwrap();
        if trial.get_error_gates().is_empty() {
            let mut sol = vec![None; span];
            for (at, value) in trial.nodes_of_kind(pure_circuit_lib::gates::NodeType::Value).into_iter().zip(chromosome) {
                sol[at.index()] = Some(value);
            }
            found.push(sol);
        }
    }
    sorted(found)
}

#[test]
fn search_finds_exactly_the_valid_assignments_without_purifiers() {
    // a chain and a diamond of gates with one output each
    let mut pc = PureCircuitGraph::<(), ()>::new();
    let a = pc.add_node(NodeUnitialised::from_value(Value::Bot), ());
    let b = pc.add_node(NodeUnitialised::from_value(Value::Bot), ());
    let and = pc.add_node(NodeUnitialised::from_gate(Gate::And), ());
    let c = pc.add_node(NodeUnitialised::from_value(Value::Bot), ());
    let not = pc.add_node(NodeUnitialised::from_gate(Gate::Not), ());
    let d = pc.add_node(NodeUnitialised::from_value(Value::Bot), ());
    let nor = pc.add_node(NodeUnitialised::from_gate(Gate::Nor), ());
    let e = pc.add_node(NodeUnitialised::from_value(Value::Bot), ());
    pc.add_edge(a, and, ()).unwrap();
    pc.add_edge(b, and, ()).unwrap();
    pc.add_edge(and, c, ()).unwrap();
    pc.add_edge(c, not, ()).unwrap();
    pc.add_edge(not, d, ()).unwrap();
    pc.add_edge(d, nor, ()).unwrap();
    pc.add_edge(a, nor, ()).unwrap();
    pc.add_edge(nor, e, ()).unwrap();
    let back = sorted(BacktrackAlgorithm.calculate(&pc).unwrap());
    let trial = by_trial(&pc);
    assert_eq!(trial.len(), 9);
    assert_eq!(back, trial);
}

#[test]
fn search_finds_exactly_the_valid_assignments_of_each_gate() {
    for gate in [Gate::Copy, Gate::Not, Gate::And, Gate::Or, Gate::Nand, Gate::Nor] {
        let mut pc = PureCircuitGraph::<(), ()>::new();
        let g = pc.add_node(NodeUnitialised::from_gate(gate), ());
        for _ in 0..gate.arity().0 {
            let v = pc.add_node(NodeUnitialised::from_value(Value::One), ());
            pc.add_edge(v, g, ()).unwrap();
        }
        let out = pc.add_node(NodeUnitialised::from_value(Value::One), ());
        pc.add_edge(g, out, ()).unwrap();
        let back = sorted(BacktrackAlgorithm.calculate(&pc).unwrap());
        assert_eq!(back, by_trial(&pc), "{gate:?}");
        assert_eq!(back.len(), if gate.arity().0 == 1 { 3 } else { 9 });
    }
}

#[test]
fn purifier_solutions_are_valid_but_not_all() {
    let mut pc = PureCircuitGraph::<(), ()>::new();
    let v1 = pc.add_node(NodeUnitialised::from_value(Value::Bot), ());
    let v2 = pc.add_node(NodeUnitialised::from_value(Value::Bot), ());
    let v3 = pc.add_node(NodeUnitialised::from_value(Value::Bot), ());
    let g = pc.add_node(NodeUnitialised::from_gate(Gate::Purify), ());
    pc.add_edge(v1, g, ()).unwrap();
    pc.add_edge(g, v2, ()).unwrap();
    pc.add_edge(g, v3, ()).unwrap();
    let back = sorted(BacktrackAlgorithm.calculate(&pc).unwrap());
    let trial = by_trial(&pc);
    assert_eq!(back.len(), 5);
    assert_eq!(trial.len(), 10);
    for s in &back {
        assert!(trial.contains(s));
    }
}

/// The assignments under which every purifier has a determined input on
/// both outputs, or after `Bot` a first output of lower voltage than the
/// second, and every other gate accepts its ports; found by trying them all.
fn by_trial_sorted(pc: &PureCircuitGraph<(), ()>) -> Vec<Vec<Option<Value>>> {
    let span = pc.extract_node_graph().len();
    let values = pc.nodes_of_kind(pure_circuit_lib::gates::NodeType::Value);
    let gates = pc.nodes_of_kind(pure_circuit_lib::gates::NodeType::Gate);
    let mut found = Vec::new();
    for chromosome in all_assignments(values.len()) {
        let mut sol = vec![None; span];
        for (at, value) in values.iter().zip(chromosome) {
            sol[at.index()] = Some(value);
        }
        let passes = gates.iter().all(|g| {
            let gate = match pc.node(*g).unwrap() {
                NodeValue::GateNode { gate, .. } => gate,
                NodeValue::ValueNode(_) => unreachable!(),
            };
            let ins: Vec<Value> = pc
                .ordered_ports(*g, Direction::Incoming)
                .iter()
                .map(|p| sol[p.far.index()].unwrap())
                .collect();
            let outs: Vec<Value> = pc
                .ordered_ports(*g, Direction::Outgoing)
                .iter()
                .map(|p| sol[p.far.index()].unwrap())
                .collect();
            if gate == Gate::Purify {
                if ins[0] == Value::Bot {
                    outs[0].voltage_rank() < outs[1].voltage_rank()
                } else {
                    outs[0] == ins[0] && outs[1] == ins[0]
                }
            } else {
                gate.check(&ins, &outs) == Ok(true)
            }
        });
        if passes {
            found.push(sol);
        }
    }
    sorted(found)
}

#[test]
fn search_finds_exactly_the_sorted_assignments_with_purifiers() {
    // a purifier whose outputs meet again in a gate, and a second purifier
    // behind the first
    let mut pc = PureCircuitGraph::<(), ()>::new();
    let a = pc.add_node(NodeUnitialised::from_value(Value::Bot), ());
    let p = pc.add_node(NodeUnitialised::from_gate(Gate::Purify), ());
    let b = pc.add_node(NodeUnitialised::from_value(Value::Bot), ());
    let c = pc.add_node(NodeUnitialised::from_value(Value::Bot), ());
    let or = pc.add_node(NodeUnitialised::from_gate(Gate::Or), ());
    let d = pc.add_node(NodeUnitialised::from_value(Value::Bot), ());
    let q = pc.add_node(NodeUnitialised::from_gate(Gate::Purify), ());
    let e = pc.add_node(NodeUnitialised::from_value(Value::Bot), ());
    let f = pc.add_node(NodeUnitialised::from_value(Value::Bot), ());
    let not = pc.add_node(NodeUnitialised::from_gate(Gate::Not), ());
    let g = pc.add_node(NodeUnitialised::from_value(Value::Bot), ());
    pc.add_edge(a, p, ()).unwrap();
    pc.add_edge(p, b, ()).unwrap();
    pc.add_edge(p, c, ()).unwrap();
    pc.add_edge(b, or, ()).unwrap();
    pc.add_edge(c, or, ()).unwrap();
    pc.add_edge(or, d, ()).unwrap();
    pc.add_edge(c, q, ()).unwrap();
    pc.add_edge(q, e, ()).unwrap();
    pc.add_edge(q, f, ()).unwrap();
    pc.add_edge(f, not, ()).unwrap();
    pc.add_edge(not, g, ()).unwrap();
    let back = sorted(BacktrackAlgorithm.calculate(&pc).unwrap());
    let trial = by_trial_sorted(&pc);
    // a = 0: one way; a = 1: one way; a = Bot: (0, Bot) with three ways
    // behind c = Bot, (0, 1) and (Bot, 1) with one each
    assert_eq!(trial.len(), 7);
    assert_eq!(back, trial);
}

#[test]
fn search_finds_exactly_the_sorted_assignments_of_a_purifier() {
    let mut pc = PureCircuitGraph::<(), ()>::new();
    let v1 = pc.add_node(NodeUnitialised::from_value(Value::Bot), ());
    let g = pc.add_node(NodeUnitialised::from_gate(Gate::Purify), ());
    let v2 = pc.add_node(NodeUnitialised::from_value(Value::Bot), ());
    let v3 = pc.add_node(NodeUnitialised::from_value(Value::Bot), ());
    pc.add_edge(v1, g, ()).unwrap();
    pc.add_edge(g, v2, ()).unwrap();
    pc.add_edge(g, v3, ()).unwrap();
    let back = sorted(BacktrackAlgorithm.calculate(&pc).unwrap());
    assert_eq!(back, by_trial_sorted(&pc));
    assert_eq!(
        pairs(&[v1, v2, v3], &back),
        vec![
            vec![Value::Bot, Value::Bot, Value::One],
            vec![Value::Bot, Value::Zero, Value::Bot],
            vec![Value::Bot, Value::Zero, Value::One],
            vec![Value::One, Value::One, Value::One],
            vec![Value::Zero, Value::Zero, Value::Zero],
        ]
    );
}

#[test]
fn search_within_a_limit() {
    let mut pc = PureCircuitGraph::<(), ()>::new();
    pc.add_node(NodeUnitialised::from_value(Value::Bot), ());
    pc.add_node(NodeUnitialised::from_value(Value::Bot), ());
    assert_eq!(BacktrackAlgorithm.calculate_within(&pc, 1), None);
    assert_eq!(BacktrackAlgorithm.calculate_within(&pc, 2).unwrap().unwrap().len(), 9);
    assert_eq!(pure_circuit_lib::solution_finders::backtracking::MAX_LIMIT, 20);
    let empty = PureCircuitGraph::<(), ()>::new();
    assert_eq!(
        BacktrackAlgorithm.calculate_within(&empty, 0),
        Some(Err(BacktrackError::EmptyGraph))
    );
}

fn two_values_and_a_copy() -> (PureCircuitGraph<(), ()>, NodeIndex, NodeIndex) {
    let mut pc = PureCircuitGraph::<(), ()>::new();
    let v1 = pc.add_node(NodeUnitialised::from_value(Value::Bot), ());
    let v2 = pc.add_node(NodeUnitialised::from_value(Value::Bot), ());
    let g = pc.add_node(NodeUnitialised::from_gate(Gate::Copy), ());
    pc.add_edge(v1, g, ()).unwrap();
    pc.add_edge(g, v2, ()).unwrap();
    (pc, v1, v2)
}

#[test]
fn assign_node_decides_and_dequeues() {
    let mut sol = vec![None, None, None];
    let mut doms = vec![Some(BitString::all()), Some(BitString::all()), None];
    let mut queue = Queue::new();
    queue.push(0, (-3, 1, 1));
    queue.push(1, (-3, 0, 1));
    assert_eq!(
        BacktrackAlgorithm.assign_node(NodeIndex(1), Value::One, &mut sol, &mut doms, &mut queue),
        Ok(())
    );
    assert_eq!(sol, vec![None, Some(Value::One), None]);
    assert_eq!(doms, vec![Some(BitString::all()), Some(BitString::from(Value::One)), None]);
    assert_eq!(queue.len(), 1);
    assert_eq!(queue.peek(), Some((&0, &(-3, 1, 1))));
    for gone in [NodeIndex(2), NodeIndex(3)] {
        assert_eq!(
            BacktrackAlgorithm.assign_node(gone, Value::One, &mut sol, &mut doms, &mut queue),
            Err(BacktrackError::NodeMapping)
        );
    }
    assert_eq!(sol, vec![None, Some(Value::One), None]);
    assert_eq!(queue.len(), 1);
}

#[test]
fn prop_node_narrows_and_reorders() {
    let mut doms = vec![Some(BitString::all()), Some(BitString::all()), None];
    let mut queue = Queue::new();
    queue.push(0, (-3, 1, 1));
    queue.push(1, (-3, 0, 1));
    assert_eq!(
        BacktrackAlgorithm.prop_node(1, BitString::smaller_than(Value::Bot), &mut queue, &mut doms),
        Ok(())
    );
    assert_eq!(doms[1], Some(BitString(true, true, false)));
    assert_eq!(queue.peek(), Some((&1, &(-2, 0, 1))));
    assert_eq!(
        BacktrackAlgorithm.prop_node(1, BitString::from(Value::One), &mut queue, &mut doms),
        Ok(())
    );
    assert_eq!(doms[1], Some(BitString::default()));
    assert_eq!(queue.peek(), Some((&1, &(0, 0, 1))));
    for gone in [2, 3] {
        assert_eq!(
            BacktrackAlgorithm.prop_node(gone, BitString::all(), &mut queue, &mut doms),
            Err(BacktrackError::NodeMapping)
        );
    }
    assert_eq!(queue.len(), 2);
}

#[test]
fn unit_propagate_decides_what_is_forced() {
    let (pc, v1, v2) = two_values_and_a_copy();
    let mut sol = vec![None, None];
    let mut doms = vec![Some(BitString::all()), Some(BitString::all())];
    let mut queue = Queue::new();
    queue.push(v2.0, (-3, 0, 1));
    let whole =
        BacktrackAlgorithm.unit_propagate(v1, Value::Zero, &mut sol, &mut doms, &mut queue, &pc);
    assert_eq!(whole, Ok(true));
    assert_eq!(sol, vec![Some(Value::Zero), Some(Value::Zero)]);
    assert!(queue.is_empty());
}

#[test]
fn unit_propagate_tells_when_a_node_has_no_candidate() {
    let (pc, v1, v2) = two_values_and_a_copy();
    let mut sol = vec![None, None];
    let mut doms = vec![Some(BitString::all()), Some(BitString::from(Value::One))];
    let mut queue = Queue::new();
    queue.push(v2.0, (-1, 0, 1));
    let whole =
        BacktrackAlgorithm.unit_propagate(v1, Value::Zero, &mut sol, &mut doms, &mut queue, &pc);
    assert_eq!(whole, Ok(false));
    assert_eq!(doms[1], Some(BitString::default()));
    assert_eq!(sol, vec![Some(Value::Zero), None]);
}

#[test]
fn a_wrong_count_in_the_queue_is_found_out() {
    let mut pc = PureCircuitGraph::<(), ()>::new();
    let v1 = pc.add_node(NodeUnitialised::from_value(Value::Bot), ());
    let v2 = pc.add_node(NodeUnitialised::from_value(Value::Bot), ());
    let mut sol = vec![None, None];
    let mut doms = vec![Some(BitString::all()), Some(BitString::all())];
    let mut queue = Queue::new();
    queue.push(v2.0, (-1, 1, 0));
    assert_eq!(
        BacktrackAlgorithm.unit_propagate(v1, Value::Zero, &mut sol, &mut doms, &mut queue, &pc),
        Err(BacktrackError::IncorrectMeasurement)
    );
}

#[test]
fn propagation_narrows_the_other_ports() {
    let mut pc = PureCircuitGraph::<(), ()>::new();
    let a = pc.add_node(NodeUnitialised::from_value(Value::Bot), ());
    let b = pc.add_node(NodeUnitialised::from_value(Value::Bot), ());
    let c = pc.add_node(NodeUnitialised::from_value(Value::Bot), ());
    let g = pc.add_node(NodeUnitialised::from_gate(Gate::And), ());
    pc.add_edge(a, g, ()).unwrap();
    pc.add_edge(b, g, ()).unwrap();
    pc.add_edge(g, c, ()).unwrap();
    let sol = vec![Some(Value::Bot), None, None, None];
    let mut doms = vec![
        Some(BitString::from(Value::Bot)),
        Some(BitString::all()),
        Some(BitString::all()),
        None,
    ];
    let mut queue = Queue::new();
    queue.push(b.0, (-3, 1, 1));
    queue.push(c.0, (-3, 0, 1));
    assert_eq!(
        BacktrackAlgorithm.propagate_value_node(a, &sol, &mut doms, &mut queue, &pc),
        Ok(true)
    );
    assert_eq!(
        BacktrackAlgorithm.propagate_gate(g, &sol, &mut doms, &mut queue, &pc),
        Ok(true)
    );
    assert_eq!(
        BacktrackAlgorithm.propagate_gate(a, &sol, &mut doms, &mut queue, &pc),
        Err(BacktrackError::NodeMapping)
    );
    // an output above the input contradicts an `And`, and nothing is narrowed
    let wrong = vec![Some(Value::Bot), None, Some(Value::One), None];
    let kept = doms.clone();
    assert_eq!(
        BacktrackAlgorithm.propagate_gate(g, &wrong, &mut doms, &mut queue, &pc),
        Ok(false)
    );
    assert_eq!(
        BacktrackAlgorithm.propagate_value_node(a, &wrong, &mut doms, &mut queue, &pc),
        Ok(false)
    );
    assert_eq!(doms, kept);
    assert_eq!(doms[b.index()], Some(BitString::all()));
    assert_eq!(doms[c.index()], Some(BitString::smaller_than(Value::Bot)));
    assert_eq!(queue.get_priority(&c.0), Some(&(-2, 0, 1)));
    assert_eq!(queue.get_priority(&b.0), Some(&(-3, 1, 1)));
    let short = vec![Some(Value::Bot)];
    assert_eq!(
        BacktrackAlgorithm.propagate_value_node(a, &short, &mut doms, &mut queue, &pc),
        Err(BacktrackError::NodeMapping)
    );
}

#[test]
fn root_and_inner_search_agree() {
    let (pc, v1, v2) = two_values_and_a_copy();
    let doms = vec![Some(BitString::all()), Some(BitString::all())];
    let mut queue = Queue::new();
    queue.push(v1.0, (-3, 1, 1));
    queue.push(v2.0, (-3, 0, 1));
    let from_root = BacktrackAlgorithm.backtrack_root(&pc, doms.clone(), queue.clone()).unwrap();
    let inner = BacktrackAlgorithm
        .backtrack_inner(&pc, doms.clone(), queue, vec![None, None])
        .unwrap();
    assert_eq!(sorted(from_root), sorted(inner.clone()));
    assert_eq!(inner.len(), 3);
    assert_eq!(
        BacktrackAlgorithm.backtrack_root(&PureCircuitGraph::<(), ()>::new(), vec![], Queue::new()),
        Err(BacktrackError::EmptyGraph)
    );
}
