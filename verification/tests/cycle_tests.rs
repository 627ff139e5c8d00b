use pure_circuit_lib::gates::{Gate, NewNode, NodeValue, Value};
use pure_circuit_lib::EnumCycle;

#[derive(Debug, Clone, Copy, PartialEq, Eq, PartialOrd, Ord)]
enum RGB {
    Red,
    Green,
    Blue,
}

impl Default for RGB {
    fn default() -> Self {
        RGB::Red
    }
}

impl EnumCycle for RGB {
    fn toggle(&self) -> Self {
        match self {
            RGB::Red => RGB::Green,
            RGB::Green => RGB::Blue,
            RGB::Blue => RGB::Red,
        }
    }
}

#[derive(Debug, Clone, Copy, PartialEq, Eq)]
enum RedBlack {
    Red,
    Black,
}

impl EnumCycle for RedBlack {
    fn toggle(&self) -> Self {
        match self {
            RedBlack::Red => RedBlack::Black,
            RedBlack::Black => RedBlack::Red,
        }
    }
}

fn toggle_state<T: EnumCycle + Default>() -> Option<T> {
    Some(T::default().toggle())
}

#[test]
fn rgb_cycle() {
    let start = RGB::Red;
    assert_eq!(start.toggle().toggle().toggle(), start);
}

#[test]
fn rb_cycle() {
    let start = RedBlack::Red;
    assert_eq!(start.toggle().toggle().toggle(), start.toggle());
}

#[test]
fn func_cycle() {
    assert_eq!(toggle_state::<RGB>().unwrap(), RGB::Green);
}

#[test]
fn value_cycle_returns_after_three_steps() {
    for v in Value::iter() {
        assert_eq!(v.toggle().toggle().toggle(), v);
        assert_ne!(v.toggle(), v);
    }
    assert_eq!(Value::Bot.toggle(), Value::Zero);
    assert_eq!(Value::Zero.toggle(), Value::One);
    assert_eq!(Value::One.toggle(), Value::Bot);
    assert_eq!(toggle_state::<Value>().unwrap(), Value::Zero);
}

#[test]
fn gate_cycle_visits_all_seven() {
    let mut seen = vec![Gate::Copy];
    let mut g = Gate::Copy.toggle();
    while g != Gate::Copy {
        assert!(!seen.contains(&g));
        seen.push(g);
        g = g.toggle();
    }
    assert_eq!(seen, Gate::iter());
    assert_eq!(toggle_state::<Gate>().unwrap(), Gate::Not);
}

#[test]
fn node_cycle_steps_what_the_node_holds() {
    let v = NodeValue::<NewNode>::ValueNode(Value::Zero);
    assert_eq!(v.toggle(), NodeValue::ValueNode(Value::One));
    let g = NodeValue::<NewNode>::from_gate(Gate::Purify);
    assert_eq!(g.toggle(), NodeValue::from_gate(Gate::Copy));
}
