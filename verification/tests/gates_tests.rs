use pure_circuit_lib::gates::{
    Gate, GateError, GateStatus, GraphStruct, InformationOrdering, NewNode, NodeUnitialised,
    NodeValue, Value, VoltageOrdering,
};
use std::cmp::Ordering;

fn data_generator_uni() -> Vec<(Value, Value)> {
    let mut out = Vec::new();
    for a in Value::iter() {
        for b in Value::iter() {
            out.push((a, b));
        }
    }
    out
}

fn data_generator_bin() -> Vec<(Value, Value, Value)> {
    let mut out = Vec::new();
    for (a, b) in data_generator_uni() {
        for c in Value::iter() {
            out.push((a, b, c));
        }
    }
    out
}

#[test]
fn test_nondeterministic() {
    for gate in Gate::iter() {
        let inps = [Value::Bot, Value::Bot, Value::Bot];
        let (s1, s2) = gate.arity();
        let (inps, _) = (&inps[0..s1], &inps[s1..s1 + s2]);
        let res = gate.apply(inps);
        if gate != Gate::Purify {
            assert!(res.is_ok());
        } else {
            assert_eq!(res, Err(GateError::NonDeterminsticGate));
        }
    }
}

#[test]
fn gates_test_not() {
    for (u, v) in data_generator_uni() {
        let res = Gate::Not.check(&[u], &[v]);
        assert!(res.is_ok());
        assert_eq!(
            res,
            Gate::Nor.check(&[u, u], &[v]),
            "Value in {:?} Value out {:?}",
            u,
            v
        );
        assert_eq!(
            res,
            Gate::Nand.check(&[u, u], &[v]),
            "Value in {:?} Value out {:?}",
            u,
            v
        );
    }
}

#[test]
fn gates_test_copy() {
    for (u, v) in data_generator_uni() {
        let res = Gate::Copy.check(&[u], &[v]);
        assert!(res.is_ok());
        assert_eq!(res, Gate::Or.check(&[u, u], &[v]));
        assert_eq!(res, Gate::And.check(&[u, u], &[v]));
    }
}

#[test]
fn gates_test_and() {
    for (u, v, w) in data_generator_bin() {
        let res = Gate::And.check(&[u, v], &[w]);
        assert!(res.is_ok());
        assert_eq!(res, Gate::Nor.check(&[u.inverse(), v.inverse()], &[w]));
    }
}

#[test]
fn gates_test_nand() {
    for (u, v, w) in data_generator_bin() {
        let res = Gate::Nand.check(&[u, v], &[w]);
        assert!(res.is_ok());
        assert_eq!(res, Gate::Or.check(&[u.inverse(), v.inverse()], &[w]));
    }
}

#[test]
fn gates_test_or() {
    for (u, v, w) in data_generator_bin() {
        let res = Gate::Or.check(&[u, v], &[w]);
        assert!(res.is_ok());
        assert_eq!(res, Gate::Nand.check(&[u.inverse(), v.inverse()], &[w]));
    }
}

#[test]
fn gates_test_nor() {
    for (u, v, w) in data_generator_bin() {
        let res = Gate::Nor.check(&[u, v], &[w]);
        assert!(res.is_ok(), "{:?}", res);
        assert_eq!(res, Gate::And.check(&[u.inverse(), v.inverse()], &[w]));
    }
}

#[test]
fn gates_test_purify() {
    for (u, v, w) in data_generator_bin() {
        let res = Gate::Purify.check(&[u], &[v, w]);
        assert!(res.is_ok());
        let cp1 = Gate::Copy.check(&[u], &[v]).unwrap();
        let cp2 = Gate::Copy.check(&[u], &[w]).unwrap();
        assert_eq!(
            res,
            Ok((u != Value::Bot && cp1 && cp2)
                || (u == Value::Bot && ((v != Value::Bot) || (w != Value::Bot)))),
            "Value in [{:?}] Value out [{:?}, {:?}]",
            u,
            v,
            w
        );
    }
}

#[test]
fn arity_of_every_gate() {
    assert_eq!(Gate::Copy.arity(), (1, 1));
    assert_eq!(Gate::Not.arity(), (1, 1));
    assert_eq!(Gate::Purify.arity(), (1, 2));
    assert_eq!(Gate::And.arity(), (2, 1));
    assert_eq!(Gate::Or.arity(), (2, 1));
    assert_eq!(Gate::Nand.arity(), (2, 1));
    assert_eq!(Gate::Nor.arity(), (2, 1));
}

#[test]
fn check_rejects_wrong_arity() {
    for gate in Gate::iter() {
        let pool = [Value::Zero; 4];
        for n_in in 0..4usize {
            for n_out in 0..4usize {
                let res = gate.check(&pool[..n_in], &pool[..n_out]);
                assert_eq!(gate.check_arity(&pool[..n_in], &pool[..n_out]), (n_in, n_out) == gate.arity());
                if (n_in, n_out) == gate.arity() {
                    assert_ne!(res, Err(GateError::ArityError));
                } else {
                    assert_eq!(res, Err(GateError::ArityError));
                }
            }
        }
    }
}

#[test]
fn apply_exact_values() {
    let (bot, one, zero) = (Value::Bot, Value::One, Value::Zero);
    assert_eq!(Gate::And.apply(&[zero, one]), Ok(zero));
    assert_eq!(Gate::And.apply(&[bot, one]), Ok(bot));
    assert_eq!(Gate::And.apply(&[one, one]), Ok(one));
    assert_eq!(Gate::Or.apply(&[zero, bot]), Ok(bot));
    assert_eq!(Gate::Or.apply(&[zero, one]), Ok(one));
    assert_eq!(Gate::Or.apply(&[zero, zero]), Ok(zero));
    assert_eq!(Gate::Nand.apply(&[one, one]), Ok(zero));
    assert_eq!(Gate::Nand.apply(&[bot, one]), Ok(bot));
    assert_eq!(Gate::Nor.apply(&[zero, zero]), Ok(one));
    assert_eq!(Gate::Nor.apply(&[zero, one]), Ok(zero));
    assert_eq!(Gate::Not.apply(&[zero]), Ok(one));
    assert_eq!(Gate::Not.apply(&[bot]), Ok(bot));
    assert_eq!(Gate::Copy.apply(&[one]), Ok(one));
    assert_eq!(Gate::Purify.apply(&[one]), Err(GateError::NonDeterminsticGate));
    assert_eq!(Gate::Purify.apply(&[]), Err(GateError::ArityError));
    assert_eq!(Gate::Purify.apply(&[one, one]), Err(GateError::ArityError));
    assert_eq!(Gate::And.apply(&[one]), Err(GateError::ArityError));
    assert_eq!(Gate::Not.apply(&[]), Err(GateError::ArityError));
}

#[test]
fn inverse_is_an_involution() {
    for v in Value::iter() {
        assert_eq!(v.inverse().inverse(), v);
    }
    assert_eq!(Value::Zero.inverse(), Value::One);
    assert_eq!(Value::One.inverse(), Value::Zero);
    assert_eq!(Value::Bot.inverse(), Value::Bot);
    assert_eq!(Value::default(), Value::Bot);
    assert_eq!(Gate::default(), Gate::Copy);
}

#[test]
fn voltage_order_is_total() {
    let v = |x| VoltageOrdering(x);
    assert_eq!(v(Value::Zero).partial_cmp(&v(Value::Bot)), Some(Ordering::Less));
    assert_eq!(v(Value::Bot).partial_cmp(&v(Value::One)), Some(Ordering::Less));
    assert_eq!(v(Value::One).partial_cmp(&v(Value::Zero)), Some(Ordering::Greater));
    assert_eq!(v(Value::Bot).partial_cmp(&v(Value::Bot)), Some(Ordering::Equal));
    assert!(v(Value::Zero) < v(Value::One));
    assert!(v(Value::Bot) <= v(Value::Bot));
    assert_eq!(v(Value::Zero).max(v(Value::Bot)).0, Value::Bot);
    assert_eq!(v(Value::One).min(v(Value::Bot)).0, Value::Bot);
    assert_eq!(Value::One.voltage_rank(), 2);
    assert_eq!(Value::Bot.voltage_rank(), 1);
    assert_eq!(Value::Zero.voltage_rank(), 0);
    assert_eq!(Value::Zero.voltage_max(Value::One), Value::One);
    assert_eq!(Value::Zero.voltage_min(Value::One), Value::Zero);
}

#[test]
fn information_order_is_partial() {
    let i = |x| InformationOrdering(x);
    assert_eq!(i(Value::Bot).partial_cmp(&i(Value::Zero)), Some(Ordering::Less));
    assert_eq!(i(Value::Bot).partial_cmp(&i(Value::One)), Some(Ordering::Less));
    assert_eq!(i(Value::Zero).partial_cmp(&i(Value::Bot)), Some(Ordering::Greater));
    assert_eq!(i(Value::One).partial_cmp(&i(Value::Bot)), Some(Ordering::Greater));
    assert_eq!(i(Value::Zero).partial_cmp(&i(Value::One)), None);
    assert_eq!(i(Value::One).partial_cmp(&i(Value::Zero)), None);
    assert_eq!(i(Value::Bot).partial_cmp(&i(Value::Bot)), None);
}

#[test]
fn node_kinds() {
    let v = NodeUnitialised::from_value(Value::One);
    let g = NodeUnitialised::from_gate(Gate::And);
    assert!(!v.is_gate());
    assert!(g.is_gate());
    assert!(v.compare_types(NodeUnitialised::from_value(Value::Zero)));
    assert!(g.compare_types(NodeValue::GateNode { gate: Gate::Not, state_type: GateStatus::Valid }));
    assert!(!g.compare_types(v));
    assert_eq!(g, NodeValue::GateNode { gate: Gate::And, state_type: NewNode });
    let s = GraphStruct::new(NodeValue::ValueNode(Value::Zero), 7u8);
    assert_eq!(s.into_node(), NodeValue::ValueNode(Value::Zero));
    assert_eq!(s.additional_info, 7);
    assert_eq!(Gate::Purify.name(), "Purify");
}

#[test]
fn values_have_numbers() {
    assert_eq!(usize::from(Value::One), 0);
    assert_eq!(usize::from(Value::Bot), 1);
    assert_eq!(usize::from(Value::Zero), 2);
    let n: usize = Value::Bot.into();
    assert_eq!(n, 1);
    assert_eq!(Value::iter(), vec![Value::Bot, Value::Zero, Value::One]);
    assert_eq!(Gate::iter().len(), 7);
}
