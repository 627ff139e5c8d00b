//! Kleene values and the gates that relate them.

use crate::cycle::EnumCycle;
use std::cmp::Ordering;
use std::fmt::Debug;
use std::hash::Hash;
use vstd::prelude::*;
use vstd::std_specs::cmp::PartialOrdSpecImpl;
use vstd::std_specs::convert::FromSpecImpl;

verus! {

/// A three-valued truth value. `Bot` stands for "not determined".
#[derive(Debug, Clone, Copy, PartialEq, Eq, Structural, Hash)]
pub enum Value {
    Bot,
    Zero,
    One,
}

impl Default for Value {
    fn default() -> (r: Self)
        ensures
            r == Value::Bot,
    {
        Value::Bot
    }
}

impl Value {
    /// Position in the voltage order `Zero < Bot < One`.
    pub open spec fn voltage(self) -> int {
        match self {
            Value::Zero => 0,
            Value::Bot => 1,
            Value::One => 2,
        }
    }

    /// The value with `Zero` and `One` exchanged.
    pub open spec fn spec_inverse(self) -> Value {
        match self {
            Value::One => Value::Zero,
            Value::Zero => Value::One,
            Value::Bot => Value::Bot,
        }
    }

    /// The smaller of two values in the voltage order.
    pub open spec fn spec_voltage_min(self, other: Value) -> Value {
        if self.voltage() <= other.voltage() {
            self
        } else {
            other
        }
    }

    /// The greater of two values in the voltage order.
    pub open spec fn spec_voltage_max(self, other: Value) -> Value {
        if self.voltage() >= other.voltage() {
            self
        } else {
            other
        }
    }

    /// All values, `Bot` first.
    pub fn iter() -> (r: Vec<Value>)
        ensures
            r@ == seq![Value::Bot, Value::Zero, Value::One],
    {
        let mut r = Vec::new();
        r.push(Value::Bot);
        r.push(Value::Zero);
        r.push(Value::One);
        assert(r@ =~= seq![Value::Bot, Value::Zero, Value::One]);
        r
    }

    /// Exchanges `Zero` and `One` and keeps `Bot`.
    #[verifier::when_used_as_spec(spec_inverse)]
    pub fn inverse(self) -> (r: Value)
        ensures
            r == self.spec_inverse(),
    {
        match self {
            Value::One => Value::Zero,
            Value::Zero => Value::One,
            Value::Bot => Value::Bot,
        }
    }

    /// Position in the voltage order as a machine integer.
    pub fn voltage_rank(self) -> (r: u8)
        ensures
            r == self.voltage(),
    {
        match self {
            Value::Zero => 0,
            Value::Bot => 1,
            Value::One => 2,
        }
    }

    /// The smaller of two values in the voltage order.
    #[verifier::when_used_as_spec(spec_voltage_min)]
    pub fn voltage_min(self, other: Value) -> (r: Value)
        ensures
            r == self.spec_voltage_min(other),
    {
        if self.voltage_rank() <= other.voltage_rank() {
            self
        } else {
            other
        }
    }

    /// The greater of two values in the voltage order.
    #[verifier::when_used_as_spec(spec_voltage_max)]
    pub fn voltage_max(self, other: Value) -> (r: Value)
        ensures
            r == self.spec_voltage_max(other),
    {
        if self.voltage_rank() >= other.voltage_rank() {
            self
        } else {
            other
        }
    }
}

impl From<Value> for usize {
    /// The number of a value: 0 for `One`, 1 for `Bot`, 2 for `Zero`.
    fn from(value: Value) -> (r: usize) {
        match value {
            Value::One => 0,
            Value::Bot => 1,
            Value::Zero => 2,
        }
    }
}

impl FromSpecImpl<Value> for usize {
    open spec fn obeys_from_spec() -> bool {
        true
    }

    open spec fn from_spec(value: Value) -> usize {
        match value {
            Value::One => 0,
            Value::Bot => 1,
            Value::Zero => 2,
        }
    }
}

impl EnumCycle for Value {
    fn toggle(&self) -> (r: Self)
        ensures
            r == match *self {
                Value::Bot => Value::Zero,
                Value::Zero => Value::One,
                Value::One => Value::Bot,
            },
    {
        match self {
            Value::Bot => Value::Zero,
            Value::Zero => Value::One,
            Value::One => Value::Bot,
        }
    }
}


/// A value compared by information: `Bot` lies below `Zero` and below `One`,
/// which are not comparable with each other, nor is a value with itself.
#[derive(Debug, Clone, Copy, PartialEq, Eq, Structural, Hash)]
pub struct InformationOrdering(pub Value);

/// A value compared by voltage: `Zero < Bot < One`.
#[derive(Debug, Clone, Copy, PartialEq, Eq, Structural, Hash)]
pub struct VoltageOrdering(pub Value);

impl Default for InformationOrdering {
    fn default() -> (r: Self)
        ensures
            r.0 == Value::Bot,
    {
        InformationOrdering(Value::Bot)
    }
}

impl Default for VoltageOrdering {
    fn default() -> (r: Self)
        ensures
            r.0 == Value::Bot,
    {
        VoltageOrdering(Value::Bot)
    }
}

impl PartialOrd for InformationOrdering {
    fn partial_cmp(&self, other: &Self) -> (r: Option<Ordering>) {
        match (self.0, other.0) {
            (Value::Bot, Value::Zero) => Some(Ordering::Less),
            (Value::Zero, Value::Bot) => Some(Ordering::Greater),
            (Value::Bot, Value::One) => Some(Ordering::Less),
            (Value::One, Value::Bot) => Some(Ordering::Greater),
            _ => None,
        }
    }
}

impl PartialOrdSpecImpl for InformationOrdering {
    open spec fn obeys_partial_cmp_spec() -> bool {
        true
    }

    open spec fn partial_cmp_spec(&self, other: &Self) -> Option<Ordering> {
        if self.0 == Value::Bot && other.0 != Value::Bot {
            Some(Ordering::Less)
        } else if self.0 != Value::Bot && other.0 == Value::Bot {
            Some(Ordering::Greater)
        } else {
            None
        }
    }
}

impl PartialOrd for VoltageOrdering {
    fn partial_cmp(&self, other: &Self) -> (r: Option<Ordering>) {
        let fst = self.0.voltage_rank();
        let snd = other.0.voltage_rank();
        if fst < snd {
            Some(Ordering::Less)
        } else if fst == snd {
            Some(Ordering::Equal)
        } else {
            Some(Ordering::Greater)
        }
    }
}

impl PartialOrdSpecImpl for VoltageOrdering {
    open spec fn obeys_partial_cmp_spec() -> bool {
        true
    }

    open spec fn partial_cmp_spec(&self, other: &Self) -> Option<Ordering> {
        if self.0.voltage() < other.0.voltage() {
            Some(Ordering::Less)
        } else if self.0.voltage() == other.0.voltage() {
            Some(Ordering::Equal)
        } else {
            Some(Ordering::Greater)
        }
    }
}

impl VoltageOrdering {
    /// The greater of the two by voltage; `self` where they are equal.
    pub fn max(self, other: Self) -> (r: Self)
        ensures
            r.0 == self.0.spec_voltage_max(other.0),
    {
        VoltageOrdering(self.0.voltage_max(other.0))
    }

    /// The smaller of the two by voltage; `self` where they are equal.
    pub fn min(self, other: Self) -> (r: Self)
        ensures
            r.0 == self.0.spec_voltage_min(other.0),
    {
        VoltageOrdering(self.0.voltage_min(other.0))
    }
}

/// Why a number could not be read as a set of values.
#[derive(Debug, Clone, Copy, PartialEq, Eq, Structural)]
pub enum ConversionError {
    OutOfRange,
    InvalidFormat,
}

/// The kinds of gate.
#[derive(Debug, Clone, Copy, PartialEq, Eq, Structural, Hash)]
pub enum Gate {
    Copy,
    Not,
    And,
    Or,
    Nor,
    Nand,
    Purify,
}

impl Default for Gate {
    fn default() -> (r: Self)
        ensures
            r == Gate::Copy,
    {
        Gate::Copy
    }
}

impl EnumCycle for Gate {
    fn toggle(&self) -> (r: Self)
        ensures
            r == match *self {
                Gate::Copy => Gate::Not,
                Gate::Not => Gate::And,
                Gate::And => Gate::Or,
                Gate::Or => Gate::Nor,
                Gate::Nor => Gate::Nand,
                Gate::Nand => Gate::Purify,
                Gate::Purify => Gate::Copy,
            },
    {
        match self {
            Gate::Copy => Gate::Not,
            Gate::Not => Gate::And,
            Gate::And => Gate::Or,
            Gate::Or => Gate::Nor,
            Gate::Nor => Gate::Nand,
            Gate::Nand => Gate::Purify,
            Gate::Purify => Gate::Copy,
        }
    }
}

/// Why a gate could not be evaluated.
#[derive(Debug, Clone, Copy, PartialEq, Eq, Structural)]
pub enum GateError {
    /// The inputs or the outputs are not as many as a gate of this kind has.
    ArityError,
    /// A gate of this kind has more than one admissible output.
    NonDeterminsticGate,
}

impl Gate {
    /// The number of inputs and the number of outputs of a gate of this kind.
    pub open spec fn spec_arity(&self) -> (usize, usize) {
        match self {
            Gate::Copy => (1, 1),
            Gate::Not => (1, 1),
            Gate::Purify => (1, 2),
            _ => (2, 1),
        }
    }

    /// The output that a gate with a single admissible output gives on `ins`.
    /// Only the first inputs, as many as such a gate has, are read.
    pub open spec fn eval(self, ins: Seq<Value>) -> Value
        recommends
            self != Gate::Purify,
            ins.len() >= self.spec_arity().0,
    {
        match self {
            Gate::Copy => ins[0],
            Gate::Not => ins[0].spec_inverse(),
            Gate::And => ins[0].spec_voltage_min(ins[1]),
            Gate::Or => ins[0].spec_voltage_max(ins[1]),
            Gate::Nand => ins[0].spec_voltage_min(ins[1]).spec_inverse(),
            Gate::Nor => ins[0].spec_voltage_max(ins[1]).spec_inverse(),
            Gate::Purify => ins[0],
        }
    }

    /// What `apply` returns on `ins`.
    pub open spec fn spec_apply(self, ins: Seq<Value>) -> Result<Value, GateError> {
        if self == Gate::Purify {
            if ins.len() != 1 {
                Err(GateError::ArityError)
            } else {
                Err(GateError::NonDeterminsticGate)
            }
        } else if ins.len() < self.spec_arity().0 {
            Err(GateError::ArityError)
        } else {
            Ok(self.eval(ins))
        }
    }

    /// Whether the relation of this kind of gate holds between `ins` and
    /// `outs`, which are taken to have its arity. A purifier hands a determined input to
    /// both outputs and turns `Bot` into at least one determined output; every
    /// other gate fixes its one output by `eval`.
    pub open spec fn accepts(self, ins: Seq<Value>, outs: Seq<Value>) -> bool
        recommends
            ins.len() == self.spec_arity().0,
            outs.len() == self.spec_arity().1,
    {
        match self {
            Gate::Purify => if ins[0] == Value::Bot {
                outs[0] != Value::Bot || outs[1] != Value::Bot
            } else {
                outs[0] == ins[0] && outs[1] == ins[0]
            },
            _ => outs[0] == self.eval(ins),
        }
    }

    /// The name of this kind of gate.
    pub open spec fn spec_name(self) -> Seq<char> {
        match self {
            Gate::Copy => "Copy"@,
            Gate::Not => "Not"@,
            Gate::And => "And"@,
            Gate::Or => "Or"@,
            Gate::Nor => "Nor"@,
            Gate::Nand => "Nand"@,
            Gate::Purify => "Purify"@,
        }
    }

    /// What `check` returns on `ins` and `outs`.
    pub open spec fn spec_check(self, ins: Seq<Value>, outs: Seq<Value>) -> Result<
        bool,
        GateError,
    > {
        if ins.len() == self.spec_arity().0 && outs.len() == self.spec_arity().1 {
            Ok(self.accepts(ins, outs))
        } else {
            Err(GateError::ArityError)
        }
    }

    /// All gates, `Copy` first.
    pub fn iter() -> (r: Vec<Gate>)
        ensures
            r@ == seq![
                Gate::Copy,
                Gate::Not,
                Gate::And,
                Gate::Or,
                Gate::Nor,
                Gate::Nand,
                Gate::Purify,
            ],
    {
        let mut r = Vec::new();
        r.push(Gate::Copy);
        r.push(Gate::Not);
        r.push(Gate::And);
        r.push(Gate::Or);
        r.push(Gate::Nor);
        r.push(Gate::Nand);
        r.push(Gate::Purify);
        assert(r@ =~= seq![
            Gate::Copy,
            Gate::Not,
            Gate::And,
            Gate::Or,
            Gate::Nor,
            Gate::Nand,
            Gate::Purify,
        ]);
        r
    }

    /// The number of inputs and the number of outputs of a gate of this kind.
    #[verifier::when_used_as_spec(spec_arity)]
    pub fn arity(&self) -> (r: (usize, usize))
        ensures
            r == self.spec_arity(),
    {
        match self {
            Gate::Copy => (1, 1),
            Gate::Not => (1, 1),
            Gate::Purify => (1, 2),
            _ => (2, 1),
        }
    }

    /// Whether the two lists have the arity of this kind of gate.
    #[inline]
    pub fn check_arity(&self, in_vals: &[Value], out_vals: &[Value]) -> (r: bool)
        ensures
            r == (in_vals@.len() == self.spec_arity().0 && out_vals@.len() == self.spec_arity().1),
    {
        let (ins, outs) = self.arity();
        in_vals.len() == ins && out_vals.len() == outs
    }

    /// The output of such a gate on the given inputs. A purifier has none that is
    /// fixed by its input: it gives `ArityError` unless it is handed one input,
    /// and `NonDeterminsticGate` then. Every other gate gives `ArityError` on
    /// fewer inputs than it has, and reads no more than it has.
    pub fn apply(self, in_vals: &[Value]) -> (r: Result<Value, GateError>)
        ensures
            r == self.spec_apply(in_vals@),
    {
        let needed = self.arity().0;
        if self == Gate::Purify {
            if in_vals.len() != needed {
                return Err(GateError::ArityError);
            }
            return Err(GateError::NonDeterminsticGate);
        }
        if in_vals.len() < needed {
            return Err(GateError::ArityError);
        }
        match self {
            Gate::Or => Ok(VoltageOrdering(in_vals[0]).max(VoltageOrdering(in_vals[1])).0),
            Gate::And => Ok(VoltageOrdering(in_vals[0]).min(VoltageOrdering(in_vals[1])).0),
            Gate::Copy => Ok(in_vals[0]),
            Gate::Not => Ok(in_vals[0].inverse()),
            Gate::Nor => Ok(
                VoltageOrdering(in_vals[0]).max(VoltageOrdering(in_vals[1])).0.inverse(),
            ),
            Gate::Nand => Ok(
                VoltageOrdering(in_vals[0]).min(VoltageOrdering(in_vals[1])).0.inverse(),
            ),
            Gate::Purify => Err(GateError::NonDeterminsticGate),
        }
    }

    /// Whether the relation of this kind of gate holds between the inputs and
    /// the outputs; `ArityError` exactly when their numbers are not its arity.
    pub fn check(&self, in_vals: &[Value], out_vals: &[Value]) -> (r: Result<bool, GateError>)
        ensures
            r == self.spec_check(in_vals@, out_vals@),
    {
        if !self.check_arity(in_vals, out_vals) {
            Err(GateError::ArityError)
        } else {
            match self {
                Gate::Purify => Ok(
                    match in_vals[0] {
                        Value::Bot => out_vals[0] != Value::Bot || out_vals[1] != Value::Bot,
                        b => out_vals[0] == b && out_vals[1] == b,
                    },
                ),
                b => match b.apply(in_vals) {
                    Ok(val) => Ok(val == out_vals[0]),
                    Err(e) => Err(e),
                },
            }
        }
    }

    /// The name of this kind of gate.
    pub fn name(&self) -> (r: &'static str)
        ensures
            r@ == self.spec_name(),
    {
        match self {
            Gate::Copy => "Copy",
            Gate::Not => "Not",
            Gate::And => "And",
            Gate::Or => "Or",
            Gate::Nor => "Nor",
            Gate::Nand => "Nand",
            Gate::Purify => "Purify",
        }
    }
}

/// What is known of a gate in a circuit.
#[derive(Debug, Clone, Copy, PartialEq, Eq, Structural, Hash)]
pub enum GateStatus {
    /// A gate that is wired as its arity asks and accepts the values at its ports.
    Valid,
    /// A gate that has not as many inputs and outputs as its arity asks.
    InvalidArity,
    /// A gate that is wired as its arity asks and rejects the values at its ports.
    InvalidValues,
}

impl GateStatus {
    /// The status that the outcome of a check stands for.
    pub open spec fn of(outcome: Result<bool, GateError>) -> GateStatus {
        match outcome {
            Ok(true) => GateStatus::Valid,
            Ok(false) => GateStatus::InvalidValues,
            Err(_) => GateStatus::InvalidArity,
        }
    }
}

/// The two kinds of node.
#[derive(Debug, Clone, Copy, PartialEq, Eq, Structural, Hash)]
pub enum NodeType {
    Value,
    Gate,
}

/// What a gate node carries beside its gate.
pub trait NodeStateTrait: Debug + Clone + Copy + PartialEq + Eq + Hash {

}

/// The state of a gate that is not part of a circuit yet.
#[derive(Debug, Clone, Copy, PartialEq, Eq, Structural, Hash)]
pub struct NewNode;

impl NodeStateTrait for NewNode {

}

impl NodeStateTrait for GateStatus {

}

/// A node: a value, or a gate with its state.
#[derive(Debug, Clone, Copy, PartialEq, Eq, Hash)]
pub enum NodeValue<I: NodeStateTrait> {
    ValueNode(Value),
    GateNode { gate: Gate, state_type: I },
}

/// A node before it enters a circuit.
pub type NodeUnitialised = NodeValue<NewNode>;

/// A node of a circuit.
pub type GraphNode = NodeValue<GateStatus>;

impl<T: NodeStateTrait> NodeValue<T> {
    /// Value or gate.
    pub open spec fn node_type(self) -> NodeType {
        match self {
            NodeValue::ValueNode(_) => NodeType::Value,
            NodeValue::GateNode { .. } => NodeType::Gate,
        }
    }

    /// Whether both nodes are values or both are gates.
    pub fn compare_types<I: NodeStateTrait>(&self, other: NodeValue<I>) -> (r: bool)
        ensures
            r == (self.node_type() == other.node_type()),
    {
        match (self, other) {
            (NodeValue::GateNode { .. }, NodeValue::<I>::GateNode { .. }) => true,
            (NodeValue::ValueNode(_), NodeValue::<I>::ValueNode(_)) => true,
            _ => false,
        }
    }

    /// Whether the node is a gate.
    pub fn is_gate(&self) -> (r: bool)
        ensures
            r == (self.node_type() == NodeType::Gate),
    {
        match self {
            NodeValue::GateNode { .. } => true,
            NodeValue::ValueNode(_) => false,
        }
    }
}

impl<T: NodeStateTrait> EnumCycle for NodeValue<T> {
    /// Steps the value of a value node, or the kind of a gate node.
    fn toggle(&self) -> (r: Self)
        ensures
            r == match *self {
                NodeValue::GateNode { gate, state_type } => NodeValue::GateNode {
                    gate: match gate {
                        Gate::Copy => Gate::Not,
                        Gate::Not => Gate::And,
                        Gate::And => Gate::Or,
                        Gate::Or => Gate::Nor,
                        Gate::Nor => Gate::Nand,
                        Gate::Nand => Gate::Purify,
                        Gate::Purify => Gate::Copy,
                    },
                    state_type,
                },
                NodeValue::ValueNode(b) => NodeValue::ValueNode(
                    match b {
                        Value::Bot => Value::Zero,
                        Value::Zero => Value::One,
                        Value::One => Value::Bot,
                    },
                ),
            },
    {
        match *self {
            NodeValue::GateNode { gate, state_type } => NodeValue::GateNode {
                gate: gate.toggle(),
                state_type,
            },
            NodeValue::ValueNode(b) => NodeValue::ValueNode(b.toggle()),
        }
    }
}

impl NodeValue<NewNode> {
    /// A value node that holds `value`.
    pub fn from_value(value: Value) -> (r: Self)
        ensures
            r == NodeValue::<NewNode>::ValueNode(value),
    {
        NodeValue::ValueNode(value)
    }

    /// A gate node for `gate`.
    pub fn from_gate(gate: Gate) -> (r: Self)
        ensures
            r == (NodeValue::<NewNode>::GateNode { gate, state_type: NewNode }),
    {
        NodeValue::GateNode { gate: gate, state_type: NewNode }
    }
}

/// A node of a circuit together with what its owner attached to it.
#[derive(Debug, Clone, Copy)]
pub struct GraphStruct<T> {
    pub node: GraphNode,
    pub additional_info: T,
}

impl<T> GraphStruct<T> {
    pub fn new(node: GraphNode, additional_info: T) -> (r: Self)
        ensures
            r.node == node,
            r.additional_info == additional_info,
    {
        Self { node, additional_info }
    }

    /// The node without what is attached to it.
    pub fn into_node(&self) -> (r: GraphNode)
        ensures
            r == self.node,
    {
        self.node
    }
}

} // verus!
