use petgraph::Direction;
use pure_circuit_lib::gates::{Gate, GateStatus, GraphStruct, NodeType, NodeUnitialised, NodeValue, Value};
use pure_circuit_lib::graph::{sorted_by_slot, EdgeIndex, GraphError, NodeIndex, PortEdge, PureCircuitGraph};

fn status(pc: &PureCircuitGraph<(), ()>, at: NodeIndex) -> GateStatus {
    match pc.node(at) {
        Some(NodeValue::GateNode { state_type, .. }) => state_type,
        _ => panic!("no gate"),
    }
}

#[test]
fn test_simple_arity_incorrect_assignment() {
    let mut pc = PureCircuitGraph::<(), ()>::default();
    let gt_indx = pc.add_node(NodeUnitialised::from_gate(Gate::Not), ());
    let val_indx = pc.add_node(NodeUnitialised::from_value(Value::Zero), ());
    pc.add_edge(val_indx, gt_indx, ()).unwrap();
    pc.add_edge(gt_indx, val_indx, ()).unwrap();
    let Some(NodeValue::GateNode { gate: _, state_type: status }) =
        pc.node_weight(gt_indx).map(|w| w.into_node())
    else {
        panic!("Ignore");
    };
    assert_eq!(status, GateStatus::InvalidValues);
}

#[test]
fn test_simple_arity_correct_assignment() {
    let mut pc = PureCircuitGraph::<(), ()>::default();
    let gt_indx = pc.add_node(NodeUnitialised::from_gate(Gate::Not), ());
    let val_indx = pc.add_node(NodeUnitialised::from_value(Value::Bot), ());
    pc.add_edge(val_indx, gt_indx, ()).unwrap();
    pc.add_edge(gt_indx, val_indx, ()).unwrap();

    let Some(NodeValue::GateNode { state_type: status, .. }) =
        pc.node_weight(gt_indx).map(|w| w.into_node())
    else {
        panic!("Ignore");
    };
    assert_eq!(status, GateStatus::Valid);
}

#[test]
fn test_duplicates() {
    let mut pc = PureCircuitGraph::default();
    let gate_idx = pc.add_node(NodeUnitialised::from_gate(Gate::And), ());
    let val_idx = pc.add_node(NodeUnitialised::from_value(Value::Bot), ());
    let (i1, _, w1) = pc.add_edge(gate_idx, val_idx, ()).expect("No errors");
    assert_eq!(gate_idx, i1);
    let (i2, _, w2) = pc.add_edge(gate_idx, val_idx, ()).expect("No errors");
    assert_eq!(gate_idx, i2);
    assert!(w1 < w2)
}

#[test]
fn every_new_gate_is_invalid_by_arity() {
    let mut pc = PureCircuitGraph::<(), ()>::new();
    let mut gates = 0;
    for (i, g) in Gate::iter().into_iter().enumerate() {
        pc.add_node(NodeUnitialised::from_gate(g), ());
        gates += 1;
        if i % 2 == 0 {
            pc.add_node(NodeUnitialised::from_value(Value::One), ());
        }
    }
    assert_eq!(pc.get_error_gates().len(), gates);
    assert_eq!(pc.node_count(), gates + 4);
    assert_eq!(pc.count_values(), 4);
    assert_eq!(pc.get_value_count(), 4);
    for at in pc.get_error_gates() {
        assert_eq!(status(&pc, at), GateStatus::InvalidArity);
    }
}

#[test]
fn edges_between_like_nodes_are_refused() {
    let mut pc = PureCircuitGraph::<(), ()>::new();
    let v1 = pc.add_node(NodeUnitialised::from_value(Value::One), ());
    let v2 = pc.add_node(NodeUnitialised::from_value(Value::One), ());
    let g1 = pc.add_node(NodeUnitialised::from_gate(Gate::Or), ());
    let g2 = pc.add_node(NodeUnitialised::from_gate(Gate::Or), ());
    assert_eq!(pc.add_edge(v1, v2, ()), Err(GraphError::NonHeterogeneousEdge));
    assert_eq!(pc.add_edge(g1, g2, ()), Err(GraphError::NonHeterogeneousEdge));
    assert_eq!(pc.add_edge(v1, v1, ()), Err(GraphError::NonHeterogeneousEdge));
    assert_eq!(pc.add_edge(v1, NodeIndex(17), ()), Err(GraphError::NotExistentNode));
    assert_eq!(pc.add_edge(NodeIndex(17), g1, ()), Err(GraphError::NotExistentNode));
    assert_eq!(pc.remove_edge(v1, v2), Err(GraphError::NonHeterogeneousEdge));
    assert_eq!(pc.remove_edge(v1, NodeIndex(17)), Err(GraphError::NotExistentNode));
    assert_eq!(pc.remove_edge(v1, g1), Err(GraphError::NotExistentEdge));
    assert_eq!(pc.edge_count(), 0);
    assert_eq!(pc.add_edge(v1, g1, ()), Ok((g1, EdgeIndex(0), 1)));
    assert_eq!(pc.add_edge(g1, v1, ()), Ok((g1, EdgeIndex(1), 1)));
    assert_eq!(pc.add_edge(v2, g1, ()), Ok((g1, EdgeIndex(2), 2)));
    assert_eq!(pc.edge_count(), 3);
    assert_eq!(pc.remove_edge(g1, v2), Err(GraphError::NotExistentEdge));
}

#[test]
fn status_follows_every_change() {
    let mut pc = PureCircuitGraph::<(), ()>::new();
    let a = pc.add_node(NodeUnitialised::from_value(Value::One), ());
    let b = pc.add_node(NodeUnitialised::from_value(Value::Zero), ());
    let c = pc.add_node(NodeUnitialised::from_value(Value::Zero), ());
    let g = pc.add_node(NodeUnitialised::from_gate(Gate::And), ());
    assert_eq!(status(&pc, g), GateStatus::InvalidArity);
    pc.add_edge(a, g, ()).unwrap();
    assert_eq!(status(&pc, g), GateStatus::InvalidArity);
    pc.add_edge(b, g, ()).unwrap();
    assert_eq!(status(&pc, g), GateStatus::InvalidArity);
    pc.add_edge(g, c, ()).unwrap();
    assert_eq!(status(&pc, g), GateStatus::Valid);
    assert_eq!(pc.get_error_gates(), vec![]);
    assert_eq!(pc.update_node(c, NodeUnitialised::from_value(Value::One)), Ok(vec![g]));
    assert_eq!(status(&pc, g), GateStatus::InvalidValues);
    assert_eq!(pc.get_error_gates(), vec![g]);
    assert_eq!(pc.update_node(g, NodeUnitialised::from_gate(Gate::Or)), Ok(vec![g]));
    assert_eq!(status(&pc, g), GateStatus::Valid);
    assert_eq!(pc.update_node(g, NodeUnitialised::from_value(Value::One)), Err(GraphError::InvalidUpdate));
    assert_eq!(pc.update_node(a, NodeUnitialised::from_gate(Gate::Or)), Err(GraphError::InvalidUpdate));
    assert_eq!(
        pc.update_node(NodeIndex(9), NodeUnitialised::from_gate(Gate::Or)),
        Err(GraphError::NotExistentNode)
    );
    assert_eq!(pc.remove_edge(b, g), Ok((g, vec![(2, ())])));
    assert_eq!(status(&pc, g), GateStatus::InvalidArity);
    assert_eq!(pc.add_edge(b, g, ()), Ok((g, EdgeIndex(1), 2)));
    assert_eq!(status(&pc, g), GateStatus::Valid);
    assert_eq!(pc.remove_node(a), Ok(vec![g]));
    assert_eq!(status(&pc, g), GateStatus::InvalidArity);
    assert_eq!(pc.node(a), None);
    assert_eq!(pc.remove_node(a), Err(GraphError::NotExistentNode));
    assert_eq!(pc.remove_node(g), Ok(vec![]));
    assert_eq!(pc.edge_count(), 0);
    assert_eq!(pc.node_count(), 2);
    assert_eq!(pc.node_indices(), vec![b, c]);
}

#[test]
fn values_are_read_in_the_order_of_the_slots() {
    // The outputs of a purifier are told apart by their position.
    let mut pc = PureCircuitGraph::<(), ()>::new();
    let i = pc.add_node(NodeUnitialised::from_value(Value::Bot), ());
    let o1 = pc.add_node(NodeUnitialised::from_value(Value::Zero), ());
    let o2 = pc.add_node(NodeUnitialised::from_value(Value::One), ());
    let g = pc.add_node(NodeUnitialised::from_gate(Gate::Purify), ());
    pc.add_edge(i, g, ()).unwrap();
    pc.add_edge(g, o2, ()).unwrap();
    pc.add_edge(g, o1, ()).unwrap();
    assert_eq!(pc.get_neigh(g, Direction::Outgoing), Ok(vec![Value::One, Value::Zero]));
    assert_eq!(pc.get_neigh(g, Direction::Incoming), Ok(vec![Value::Bot]));
    assert_eq!(pc.get_neigh(i, Direction::Outgoing), Err(GraphError::NonHeterogeneousEdge));
    assert_eq!(pc.get_neigh(i, Direction::Incoming), Ok(vec![]));
    assert_eq!(pc.get_neigh(NodeIndex(40), Direction::Incoming), Ok(vec![]));
    assert_eq!(pc.max_slot(g, Direction::Outgoing), 2);
    assert_eq!(pc.max_slot(g, Direction::Incoming), 1);
    assert_eq!(pc.get_next_node(g, Direction::Outgoing), (3, g));
    assert_eq!(pc.degree_at(g, Direction::Outgoing), 2);
    let mut around = pc.get_all_neigh(g);
    around.sort();
    assert_eq!(around, vec![i, o1, o2]);
    assert_eq!(pc.get_all_neigh(o1), vec![g]);
    assert_eq!(
        pc.get_edges(),
        vec![(i, g, (1, ())), (g, o2, (1, ())), (g, o1, (2, ()))]
    );
    assert_eq!(
        pc.update_node_status(g),
        Ok(NodeValue::GateNode { gate: Gate::Purify, state_type: GateStatus::Valid })
    );
    assert_eq!(pc.update_node_status(i), Err(GraphError::NonHeterogeneousEdge));
    assert_eq!(pc.update_node_status(NodeIndex(40)), Err(GraphError::NotExistentNode));
    assert_eq!(pc.nodes_of_kind(NodeType::Gate), vec![g]);
    assert_eq!(pc.nodes_of_kind(NodeType::Value), vec![i, o1, o2]);
}

#[test]
fn what_is_attached_comes_back() {
    let mut pc = PureCircuitGraph::<u8, char>::new();
    let ids = pc.add_nodes(vec![
        (NodeUnitialised::from_value(Value::One), 10),
        (NodeUnitialised::from_gate(Gate::Copy), 20),
    ]);
    assert_eq!(ids, vec![NodeIndex(0), NodeIndex(1)]);
    let w = pc.node_weight(ids[1]).unwrap();
    assert_eq!(w.additional_info, 20);
    assert_eq!(
        w.node,
        NodeValue::GateNode { gate: Gate::Copy, state_type: GateStatus::InvalidArity }
    );
    assert_eq!(pc.node_weight(ids[0]).unwrap().additional_info, 10);
    assert!(pc.node_weight(NodeIndex(2)).is_none());
    pc.add_edge(ids[0], ids[1], 'a').unwrap();
    pc.add_edge(ids[0], ids[1], 'b').unwrap();
    let (gate, mut gone) = pc.remove_edge(ids[0], ids[1]).unwrap();
    gone.sort();
    assert_eq!(gate, ids[1]);
    assert_eq!(gone, vec![(1, 'a'), (2, 'b')]);
    let fresh = GraphStruct::new(NodeValue::ValueNode(Value::One), 10u8);
    assert_eq!(fresh.node, pc.node(ids[0]).unwrap());
}

#[test]
fn sort_by_slot_is_stable() {
    let e = |edge, far, slot| PortEdge { edge: EdgeIndex(edge), far: NodeIndex(far), slot };
    let v = vec![e(0, 5, 3), e(1, 6, 1), e(2, 7, 3), e(3, 8, 2)];
    assert_eq!(sorted_by_slot(&v), vec![e(1, 6, 1), e(3, 8, 2), e(0, 5, 3), e(2, 7, 3)]);
    assert_eq!(sorted_by_slot(&vec![]), vec![]);
}

#[test]
fn edges_at_a_node_by_slot() {
    let mut pc = PureCircuitGraph::<(), ()>::new();
    let g = pc.add_node(NodeUnitialised::from_gate(Gate::And), ());
    let a = pc.add_node(NodeUnitialised::from_value(Value::One), ());
    let b = pc.add_node(NodeUnitialised::from_value(Value::Zero), ());
    pc.add_edge(b, g, ()).unwrap();
    pc.add_edge(a, g, ()).unwrap();
    let e = |edge, far, slot| PortEdge { edge: EdgeIndex(edge), far, slot };
    assert_eq!(pc.ordered_ports(g, Direction::Incoming), vec![e(0, b, 1), e(1, a, 2)]);
    assert_eq!(pc.ordered_ports(g, Direction::Outgoing), vec![]);
    let mut found = pc.incident_edges(g, Direction::Incoming);
    found.sort_by_key(|p| p.slot);
    assert_eq!(found, vec![e(0, b, 1), e(1, a, 2)]);
    assert_eq!(pc.incident_edges(a, Direction::Outgoing), vec![e(1, g, 2)]);
}

#[test]
fn a_clone_is_a_circuit_of_its_own() {
    let mut pc = PureCircuitGraph::<u8, u8>::new();
    let v = pc.add_node(NodeUnitialised::from_value(Value::One), 1);
    let g = pc.add_node(NodeUnitialised::from_gate(Gate::Not), 2);
    pc.add_edge(v, g, 3).unwrap();
    let mut copy = pc.clone();
    assert_eq!(copy.node_indices(), pc.node_indices());
    assert_eq!(copy.get_edges(), pc.get_edges());
    assert_eq!(copy.node_weight(g).unwrap().additional_info, 2);
    copy.remove_node(v).unwrap();
    assert_eq!(copy.node_count(), 1);
    assert_eq!(pc.node_count(), 2);
    assert_eq!(pc.get_edges(), vec![(v, g, (1, 3))]);
}

#[test]
fn removing_a_value_lists_its_gate_once_for_each_edge() {
    let mut pc = PureCircuitGraph::<(), ()>::new();
    let v1 = pc.add_node(NodeUnitialised::from_value(Value::Bot), ());
    let v2 = pc.add_node(NodeUnitialised::from_value(Value::Bot), ());
    let g = pc.add_node(NodeUnitialised::from_gate(Gate::Copy), ());
    pc.add_edge(v1, g, ()).unwrap();
    pc.add_edge(g, v2, ()).unwrap();
    assert_eq!(
        pc.node(g),
        Some(NodeValue::GateNode { gate: Gate::Copy, state_type: GateStatus::Valid })
    );
    assert_eq!(pc.remove_node(v1), Ok(vec![g]));
    assert_eq!(
        pc.node(g),
        Some(NodeValue::GateNode { gate: Gate::Copy, state_type: GateStatus::InvalidArity })
    );
    // two edges to one gate list it twice
    let and = pc.add_node(NodeUnitialised::from_gate(Gate::And), ());
    pc.add_edge(v2, and, ()).unwrap();
    pc.add_edge(v2, and, ()).unwrap();
    assert_eq!(pc.get_all_neigh(v2), vec![g, and, and]);
    assert_eq!(
        pc.update_node(v2, NodeUnitialised::from_value(Value::One)),
        Ok(vec![g, and, and])
    );
    assert_eq!(pc.remove_node(v2), Ok(vec![g, and, and]));
    assert_eq!(pc.remove_node(and), Ok(vec![]));
}

#[test]
fn new_nodes_get_the_next_index_or_the_one_freed_last() {
    let mut pc = PureCircuitGraph::<(), ()>::new();
    let a = pc.add_node(NodeUnitialised::from_value(Value::Bot), ());
    let b = pc.add_node(NodeUnitialised::from_gate(Gate::And), ());
    let c = pc.add_node(NodeUnitialised::from_value(Value::Bot), ());
    let d = pc.add_node(NodeUnitialised::from_value(Value::Bot), ());
    assert_eq!((a.index(), b.index(), c.index(), d.index()), (0, 1, 2, 3));
    pc.remove_node(b).unwrap();
    pc.remove_node(d).unwrap();
    let mut copy = pc.clone();
    assert_eq!(pc.add_node(NodeUnitialised::from_value(Value::One), ()), d);
    assert_eq!(pc.add_node(NodeUnitialised::from_value(Value::One), ()), b);
    assert_eq!(pc.add_node(NodeUnitialised::from_value(Value::One), ()).index(), 4);
    assert_eq!(
        copy.add_nodes(vec![
            (NodeUnitialised::from_value(Value::One), ()),
            (NodeUnitialised::from_value(Value::One), ()),
            (NodeUnitialised::from_value(Value::One), ()),
        ]),
        vec![d, b, pure_circuit_lib::graph::NodeIndex(4)]
    );
    let mut fresh = PureCircuitGraph::<(), ()>::new();
    let made = fresh.add_nodes(vec![
        (NodeUnitialised::from_value(Value::One), ()),
        (NodeUnitialised::from_gate(Gate::Not), ()),
    ]);
    assert_eq!(made.iter().map(|n| n.index()).collect::<Vec<_>>(), vec![0, 1]);
}
