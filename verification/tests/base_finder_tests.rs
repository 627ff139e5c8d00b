use pure_circuit_lib::gates::{Gate, GateStatus, NodeUnitialised, NodeValue, Value};
use pure_circuit_lib::graph::PureCircuitGraph;
use pure_circuit_lib::solution_finders::base_finder::{FitnessPureCircuit, MAX_DEGREE};

#[test]
fn check_mapping_1() {
    let mut pc = PureCircuitGraph::<(), ()>::new();
    let val_1 = pc.add_node(NodeUnitialised::from_value(Value::One), ());
    let gate_1 = pc.add_node(NodeUnitialised::from_gate(Gate::And), ());
    let val_2 = pc.add_node(NodeUnitialised::from_value(Value::One), ());
    let val_3 = pc.add_node(NodeUnitialised::from_value(Value::One), ());
    pc.add_edge(val_2, gate_1, ()).unwrap();
    pc.add_edge(val_1, gate_1, ()).unwrap();
    pc.add_edge(gate_1, val_3, ()).unwrap();
    let fitness = pc.to_fitness_function().unwrap();
    assert_eq!(fitness.0, vec![(Gate::And, [Some(1), Some(0)], [Some(2), None])]);
}

#[test]
fn check_mapping_2() {
    let mut pc = PureCircuitGraph::<(), ()>::new();
    let val_1 = pc.add_node(NodeUnitialised::from_value(Value::One), ());
    let gate_1 = pc.add_node(NodeUnitialised::from_gate(Gate::And), ());
    let val_2 = pc.add_node(NodeUnitialised::from_value(Value::One), ());
    let val_3 = pc.add_node(NodeUnitialised::from_value(Value::One), ());
    pc.add_edge(val_1, gate_1, ()).unwrap();
    pc.add_edge(val_2, gate_1, ()).unwrap();
    pc.add_edge(gate_1, val_3, ()).unwrap();
    let fitness = pc.to_fitness_function().unwrap();
    assert_eq!(fitness.0, vec![(Gate::And, [Some(0), Some(1)], [Some(2), None])]);
}

#[test]
fn check_mapping_3() {
    let mut pc = PureCircuitGraph::<(), ()>::new();
    let val_1 = pc.add_node(NodeUnitialised::from_value(Value::One), ());
    let gate_1 = pc.add_node(NodeUnitialised::from_gate(Gate::And), ());
    let val_2 = pc.add_node(NodeUnitialised::from_value(Value::One), ());
    let val_3 = pc.add_node(NodeUnitialised::from_value(Value::One), ());
    pc.add_edge(val_1, gate_1, ()).unwrap();
    pc.add_edge(val_3, gate_1, ()).unwrap();
    pc.add_edge(gate_1, val_2, ()).unwrap();
    let fitness = pc.to_fitness_function().unwrap();
    assert_eq!(fitness.0, vec![(Gate::And, [Some(0), Some(2)], [Some(1), None])]);
}

#[test]
fn check_mapping_4() {
    let mut pc = PureCircuitGraph::<(), ()>::new();
    let val_1 = pc.add_node(NodeUnitialised::from_value(Value::One), ());
    let gate_1 = pc.add_node(NodeUnitialised::from_gate(Gate::And), ());
    let val_2 = pc.add_node(NodeUnitialised::from_value(Value::One), ());
    pc.add_edge(val_1, gate_1, ()).unwrap();
    pc.add_edge(gate_1, val_2, ()).unwrap();
    assert!(matches!(pc.to_fitness_function(), None));
}

#[test]
fn check_mapping_big_1() {
    let mut pc = PureCircuitGraph::<(), ()>::new();
    let val_1 = pc.add_node(NodeUnitialised::from_value(Value::One), ());
    let val_2 = pc.add_node(NodeUnitialised::from_value(Value::One), ());
    let val_3 = pc.add_node(NodeUnitialised::from_value(Value::One), ());
    let val_4 = pc.add_node(NodeUnitialised::from_value(Value::One), ());
    let gate_1 = pc.add_node(NodeUnitialised::from_gate(Gate::And), ());
    let gate_2 = pc.add_node(NodeUnitialised::from_gate(Gate::Copy), ());
    pc.add_edge(val_1, gate_1, ()).unwrap();
    pc.add_edge(val_2, gate_1, ()).unwrap();
    pc.add_edge(gate_1, val_3, ()).unwrap();
    pc.add_edge(val_3, gate_2, ()).unwrap();
    pc.add_edge(gate_2, val_4, ()).unwrap();
    let fit = pc.to_fitness_function().unwrap();
    assert_eq!(
        fit.0,
        vec![
            (Gate::And, [Some(0), Some(1)], [Some(2), None]),
            (Gate::Copy, [Some(2), None], [Some(3), None]),
        ]
    );
}

#[test]
fn check_mapping_big_2() {
    let mut pc = PureCircuitGraph::<(), ()>::new();
    let val_1 = pc.add_node(NodeUnitialised::from_value(Value::One), ()); // 0
    let val_3 = pc.add_node(NodeUnitialised::from_value(Value::One), ()); // 1
    let gate_1 = pc.add_node(NodeUnitialised::from_gate(Gate::And), ());
    let val_4 = pc.add_node(NodeUnitialised::from_value(Value::One), ()); // 2
    let gate_2 = pc.add_node(NodeUnitialised::from_gate(Gate::Copy), ());
    let val_2 = pc.add_node(NodeUnitialised::from_value(Value::One), ()); //3
    pc.add_edge(gate_2, val_4, ()).unwrap();
    pc.add_edge(val_1, gate_1, ()).unwrap();
    pc.add_edge(gate_1, val_3, ()).unwrap();
    pc.add_edge(val_2, gate_1, ()).unwrap();
    pc.add_edge(val_3, gate_2, ()).unwrap();
    let fit = pc.to_fitness_function().unwrap();
    assert_eq!(
        fit.0,
        vec![
            (Gate::And, [Some(0), Some(3)], [Some(1), None]),
            (Gate::Copy, [Some(1), None], [Some(2), None]),
        ]
    );
}

#[test]
fn chromosome_skips_the_gates() {
    let mut pc = PureCircuitGraph::<(), ()>::new();
    pc.add_node(NodeUnitialised::from_value(Value::One), ());
    pc.add_node(NodeUnitialised::from_gate(Gate::And), ());
    pc.add_node(NodeUnitialised::from_value(Value::Zero), ());
    pc.add_node(NodeUnitialised::from_gate(Gate::Not), ());
    pc.add_node(NodeUnitialised::from_value(Value::Bot), ());
    assert_eq!(pc.to_chromosone(), vec![Value::One, Value::Zero, Value::Bot]);
    assert_eq!(PureCircuitGraph::<(), ()>::new().to_chromosone(), vec![]);
}

#[test]
fn chromosome_round_trip_changes_nothing() {
    let mut pc = PureCircuitGraph::<(), ()>::new();
    let a = pc.add_node(NodeUnitialised::from_value(Value::One), ());
    let g = pc.add_node(NodeUnitialised::from_gate(Gate::And), ());
    let b = pc.add_node(NodeUnitialised::from_value(Value::Zero), ());
    let c = pc.add_node(NodeUnitialised::from_value(Value::One), ());
    pc.add_edge(a, g, ()).unwrap();
    pc.add_edge(b, g, ()).unwrap();
    pc.add_edge(g, c, ()).unwrap();
    let nodes: Vec<_> = pc.node_indices().into_iter().map(|n| pc.node(n)).collect();
    let edges = pc.get_edges();
    let chromosome = pc.to_chromosone();
    assert_eq!(pc.from_chromosone(&chromosome), Some(()));
    let after: Vec<_> = pc.node_indices().into_iter().map(|n| pc.node(n)).collect();
    assert_eq!(nodes, after);
    assert_eq!(edges, pc.get_edges());
    assert_eq!(pc.to_chromosone(), chromosome);
}

#[test]
fn chromosome_of_wrong_length_is_refused() {
    let mut pc = PureCircuitGraph::<(), ()>::new();
    let a = pc.add_node(NodeUnitialised::from_value(Value::One), ());
    let g = pc.add_node(NodeUnitialised::from_gate(Gate::Not), ());
    let b = pc.add_node(NodeUnitialised::from_value(Value::One), ());
    pc.add_edge(a, g, ()).unwrap();
    pc.add_edge(g, b, ()).unwrap();
    assert_eq!(pc.from_chromosone(&[Value::Zero]), None);
    assert_eq!(pc.from_chromosone(&[Value::Zero, Value::Zero, Value::Zero]), None);
    assert_eq!(pc.to_chromosone(), vec![Value::One, Value::One]);
    assert_eq!(pc.from_chromosone(&[Value::Zero, Value::One]), Some(()));
    assert_eq!(pc.to_chromosone(), vec![Value::Zero, Value::One]);
    assert_eq!(
        pc.node(g),
        Some(NodeValue::GateNode { gate: Gate::Not, state_type: GateStatus::Valid })
    );
}

#[test]
fn evaluate_counts_violated_gates() {
    for x in Value::iter() {
        for y in Value::iter() {
            for z in Value::iter() {
                let mut pc = PureCircuitGraph::<(), ()>::new();
                let gate_1 = pc.add_node(NodeUnitialised::from_gate(Gate::And), ());
                let val_1 = pc.add_node(NodeUnitialised::from_value(x), ());
                let val_2 = pc.add_node(NodeUnitialised::from_value(y), ());
                let val_3 = pc.add_node(NodeUnitialised::from_value(z), ());
                pc.add_edge(val_2, gate_1, ()).unwrap();
                pc.add_edge(val_1, gate_1, ()).unwrap();
                pc.add_edge(gate_1, val_3, ()).unwrap();
                let fitness = pc.to_fitness_function().unwrap();
                let s = fitness.evaluate(&vec![x, y, z]);
                let expected = if Gate::And.check(&[y, x], &[z]).unwrap() { 0 } else { 1 };
                assert_eq!(s, Some(expected));
                assert_eq!(pc.get_error_gates().len(), expected);
            }
        }
    }
}

#[test]
fn evaluate_two_gates() {
    let all = Value::iter();
    for code in 0..243usize {
        let s: Vec<Value> = (0..5).map(|i| all[(code / 3usize.pow(i)) % 3]).collect();
        let mut pc = PureCircuitGraph::<(), ()>::new();
        let gate_1 = pc.add_node(NodeUnitialised::from_gate(Gate::Purify), ());
        let val_1 = pc.add_node(NodeUnitialised::from_value(s[0]), ());
        let val_2 = pc.add_node(NodeUnitialised::from_value(s[1]), ());
        let gate_2 = pc.add_node(NodeUnitialised::from_gate(Gate::Or), ());
        let val_3 = pc.add_node(NodeUnitialised::from_value(s[2]), ());
        let val_4 = pc.add_node(NodeUnitialised::from_value(s[3]), ());
        let val_5 = pc.add_node(NodeUnitialised::from_value(s[4]), ());
        pc.add_edge(val_2, gate_1, ()).unwrap();
        pc.add_edge(gate_1, val_1, ()).unwrap();
        pc.add_edge(gate_1, val_3, ()).unwrap();
        pc.add_edge(val_3, gate_2, ()).unwrap();
        pc.add_edge(val_4, gate_2, ()).unwrap();
        pc.add_edge(gate_2, val_5, ()).unwrap();
        let fitness = pc.to_fitness_function().unwrap();
        let res = fitness.evaluate(&s);
        let bad = |ok: bool| if ok { 0usize } else { 1 };
        assert_eq!(
            res,
            Some(
                bad(Gate::Purify.check(&[s[1]], &[s[0], s[2]]).unwrap())
                    + bad(Gate::Or.check(&[s[2], s[3]], &[s[4]]).unwrap())
            )
        );
    }
}

#[test]
fn evaluate_gives_up_on_what_it_cannot_check() {
    assert_eq!(MAX_DEGREE, 2);
    let short = FitnessPureCircuit(vec![(Gate::Not, [Some(0), None], [Some(3), None])]);
    assert_eq!(short.evaluate(&[Value::One, Value::Zero]), None);
    let arity = FitnessPureCircuit(vec![(Gate::And, [Some(0), None], [Some(1), None])]);
    assert_eq!(arity.evaluate(&[Value::One, Value::Zero]), None);
    let skip = FitnessPureCircuit(vec![
        (Gate::Not, [None, Some(0)], [Some(1), None]),
        (Gate::Copy, [Some(0), None], [Some(1), None]),
    ]);
    assert_eq!(skip.evaluate(&[Value::One, Value::Zero]), Some(1));
    assert_eq!(FitnessPureCircuit::default().evaluate(&[]), Some(0));
}
