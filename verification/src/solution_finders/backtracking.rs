//! Sets of Kleene values and the exact search that narrows them.

use crate::gates::{ConversionError, Gate, NodeType, NodeValue, Value};
use crate::graph::view::{lemma_keep, CircuitView};
use crate::graph::{copied, NodeIndex, PortEdge, PureCircuitGraph};
use crate::solution_finders::base_finder::MAX_DEGREE;
use crate::solution_finders::queue::{
    queue_clone, queue_is_empty, queue_items, queue_new, queue_peek, queue_pop, queue_push,
    queue_remove, queue_set_first, rank_le, Queue, Rank,
};
use crate::solution_finders::search::{
    admitted, all_indexed, all_pass, all_solutions, all_tidy, among, arc_all, arc_ok, assigned,
    assignment_owed, bounded, candidate, carried, clean, complete, consistent, dead, dead_at,
    distinct_from, extends, fit_all, fitting, found_in, indexed, is_solution, is_total, kept,
    lemma_all_pass_joined, lemma_all_tried, lemma_arc_after_gate, lemma_arc_narrowed,
    lemma_assignment_owed, lemma_bounded_narrowed, lemma_bounded_step, lemma_branch_dead,
    lemma_branch_searched, lemma_dead_kept, lemma_fit_after_assign, lemma_fit_passes,
    lemma_fit_start, lemma_gate_admits_all, lemma_gate_settled, lemma_gate_unfit,
    lemma_kept_start, lemma_kept_step, lemma_kept_trans, lemma_known_seen, lemma_leaf,
    lemma_leaf_passes, lemma_narrowed_trans, lemma_no_candidate_dead, lemma_none_tried,
    lemma_passes_iff_accepted, lemma_solution_makes_valid, lemma_value_meets_gates, narrowed,
    narrowed_but, passes_all, propagation_owed, purifier_free, ready, satisfied, search_state,
    seen_at, survivor, tidy, tried, undecided, values_at, within,
};
use petgraph::Direction;
use std::cmp::Ordering;
use vstd::prelude::*;
use vstd::std_specs::cmp::{PartialOrdSpec, PartialOrdSpecImpl};
use vstd::std_specs::convert::{FromSpecImpl, TryFromSpecImpl};

verus! {

/// Why a search, or writing one of its results back, gave up.
#[derive(Debug, Clone, Copy, PartialEq, Eq, Structural)]
pub enum BacktrackError {
    /// The circuit has no value node to start from.
    EmptyGraph,
    /// A node that the search reached has no set of candidates.
    NodeMapping,
    /// The values known at a gate contradict it.
    IncorrectAssignment(Gate),
    /// An edge's slot is not a position among the ports of a gate.
    IndexIssue,
    /// A node was queued as decided while its candidates are not exactly one.
    IncorrectMeasurement,
    /// An assignment has no value for a value node of the circuit.
    IndexMismatch,
}

impl BacktrackError {
    /// Whether the error is one that arises while a search is under way.
    pub open spec fn in_search(self) -> bool {
        match self {
            BacktrackError::NodeMapping
            | BacktrackError::IncorrectAssignment(_)
            | BacktrackError::IndexIssue
            | BacktrackError::IncorrectMeasurement => true,
            _ => false,
        }
    }
}

/// A subset of `{Zero, Bot, One}`: one flag for each value, in that order.
#[derive(Debug, Clone, Copy, PartialEq, Eq, Structural, Hash)]
pub struct BitString(pub bool, pub bool, pub bool);

impl View for BitString {
    type V = Set<Value>;

    /// The values that the set holds.
    open spec fn view(&self) -> Set<Value> {
        Set::new(|v: Value| self.has(v))
    }
}

impl Default for BitString {
    /// The empty set.
    fn default() -> (r: Self)
        ensures
            r == BitString::spec_empty(),
    {
        BitString(false, false, false)
    }
}

impl TryFrom<u8> for BitString {
    type Error = ConversionError;

    /// Reads the three low bits of `value` as the flags for `Zero`, `Bot` and
    /// `One`; a number from 8 on is out of range.
    fn try_from(value: u8) -> (r: Result<Self, ConversionError>) {
        if value < 8 {
            assert(((value & 0b1) == 1) == (value % 2 == 1)) by (bit_vector);
            assert(((value & 0b10) == 2) == ((value / 2) % 2 == 1)) by (bit_vector);
            assert(((value & 0b100) == 4) == ((value / 4) % 2 == 1)) by (bit_vector)
                requires
                    value < 8,
            ;
            Ok(BitString((value & 0b1) == 1, (value & 0b10) == 2, (value & 0b100) == 4))
        } else {
            Err(ConversionError::OutOfRange)
        }
    }
}

impl TryFromSpecImpl<u8> for BitString {
    open spec fn obeys_try_from_spec() -> bool {
        true
    }

    open spec fn try_from_spec(value: u8) -> Result<Self, ConversionError> {
        if value < 8 {
            Ok(BitString::spec_from_bits(value as int))
        } else {
            Err(ConversionError::OutOfRange)
        }
    }
}

impl From<Value> for BitString {
    /// The set that holds `value` alone.
    fn from(value: Value) -> (r: Self) {
        match value {
            Value::Zero => BitString(true, false, false),
            Value::Bot => BitString(false, true, false),
            Value::One => BitString(false, false, true),
        }
    }
}

impl FromSpecImpl<Value> for BitString {
    open spec fn obeys_from_spec() -> bool {
        true
    }

    open spec fn from_spec(value: Value) -> Self {
        BitString::single(value)
    }
}

impl BitString {
    /// Whether the set holds `v`.
    pub open spec fn has(self, v: Value) -> bool {
        match v {
            Value::Zero => self.0,
            Value::Bot => self.1,
            Value::One => self.2,
        }
    }

    /// The set that holds exactly the values of which `p` is true.
    pub open spec fn of(p: spec_fn(Value) -> bool) -> BitString {
        BitString(p(Value::Zero), p(Value::Bot), p(Value::One))
    }

    /// The empty set.
    pub open spec fn spec_empty() -> BitString {
        BitString(false, false, false)
    }

    /// The set that holds `v` alone.
    pub open spec fn single(v: Value) -> BitString {
        BitString::of(|x: Value| x == v)
    }

    /// The number that has bit 0 set for `Zero`, bit 1 for `Bot`, bit 2 for `One`.
    pub open spec fn bits(self) -> int {
        (if self.0 { 1int } else { 0 }) + (if self.1 { 2int } else { 0 }) + (if self.2 {
            4int
        } else {
            0
        })
    }

    /// The set whose `bits` are `n`, for `n` below 8.
    pub open spec fn spec_from_bits(n: int) -> BitString {
        BitString(n % 2 == 1, (n / 2) % 2 == 1, (n / 4) % 2 == 1)
    }

    /// The number of values in the set.
    pub open spec fn spec_len(self) -> nat {
        ((if self.0 { 1int } else { 0 }) + (if self.1 { 1int } else { 0 }) + (if self.2 {
            1int
        } else {
            0
        })) as nat
    }

    /// The values of the set in the order `Zero`, `Bot`, `One`.
    pub open spec fn values(self) -> Seq<Value> {
        (if self.0 { seq![Value::Zero] } else { seq![] }) + (if self.1 { seq![Value::Bot] } else {
            seq![]
        }) + (if self.2 { seq![Value::One] } else { seq![] })
    }

    pub open spec fn spec_all() -> BitString {
        BitString(true, true, true)
    }

    pub open spec fn spec_op_union(self, other: Self) -> Self {
        BitString::of(|v: Value| self.has(v) || other.has(v))
    }

    pub open spec fn spec_op_inter(self, other: Self) -> Self {
        BitString::of(|v: Value| self.has(v) && other.has(v))
    }

    pub open spec fn spec_insert(self, value: Value) -> Self {
        BitString::of(|v: Value| self.has(v) || v == value)
    }

    pub open spec fn spec_remove(self, value: Value) -> Self {
        BitString::of(|v: Value| self.has(v) && v != value)
    }

    pub open spec fn spec_reverse(self) -> Self {
        BitString::of(|v: Value| !self.has(v))
    }

    pub open spec fn spec_flip(self) -> Self {
        BitString::of(|v: Value| self.has(v.spec_inverse()))
    }

    pub open spec fn spec_smaller_than(value: Value) -> Self {
        BitString::of(|v: Value| v.voltage() <= value.voltage())
    }

    pub open spec fn spec_greater_than(value: Value) -> Self {
        BitString::of(|v: Value| v.voltage() >= value.voltage())
    }

    /// The number of values in the set.
    pub fn len(self) -> (r: usize)
        ensures
            r == self.spec_len(),
            r == self@.len(),
            r <= 3,
    {
        proof {
            self.lemma_view_len();
        }
        let a: usize = if self.0 { 1 } else { 0 };
        let b: usize = if self.1 { 1 } else { 0 };
        let c: usize = if self.2 { 1 } else { 0 };
        a + b + c
    }

    /// Whether the set holds no value.
    pub fn is_empty(self) -> (r: bool)
        ensures
            r == (self == BitString::spec_empty()),
            r == (self.spec_len() == 0),
    {
        self.len() == 0
    }

    /// The values of the set in the order `Zero`, `Bot`, `One`.
    pub fn to_value_iter(self) -> (r: Vec<Value>)
        ensures
            r@ == self.values(),
    {
        let mut ret = Vec::with_capacity(3);
        if self.0 {
            ret.push(Value::Zero);
        }
        if self.1 {
            ret.push(Value::Bot);
        }
        if self.2 {
            ret.push(Value::One);
        }
        assert(ret@ =~= self.values());
        ret
    }

    /// The set of all three values.
    #[verifier::when_used_as_spec(spec_all)]
    pub fn all() -> (r: Self)
        ensures
            r == BitString::spec_all(),
    {
        BitString(true, true, true)
    }

    /// The values of the set in the order `Zero`, `Bot`, `One`.
    pub fn into_values(self) -> (r: Vec<Value>)
        ensures
            r@ == self.values(),
    {
        self.to_value_iter()
    }

    /// The values that are in `self` or in `other`.
    #[verifier::when_used_as_spec(spec_op_union)]
    pub fn op_union(self, other: Self) -> (r: Self)
        ensures
            r == self.spec_op_union(other),
    {
        BitString(self.0 || other.0, self.1 || other.1, self.2 || other.2)
    }

    /// The values that are in `self` and in `other`.
    #[verifier::when_used_as_spec(spec_op_inter)]
    pub fn op_inter(self, other: Self) -> (r: Self)
        ensures
            r == self.spec_op_inter(other),
    {
        BitString(self.0 && other.0, self.1 && other.1, self.2 && other.2)
    }

    /// The set with `value` added.
    #[verifier::when_used_as_spec(spec_insert)]
    pub fn insert(self, value: Value) -> (r: Self)
        ensures
            r == self.spec_insert(value),
    {
        self.op_union(BitString::from(value))
    }

    /// The complement of the set.
    #[verifier::when_used_as_spec(spec_reverse)]
    pub fn reverse(self) -> (r: Self)
        ensures
            r == self.spec_reverse(),
    {
        BitString(!self.0, !self.1, !self.2)
    }

    /// The set with `Zero` and `One` exchanged.
    #[verifier::when_used_as_spec(spec_flip)]
    pub fn flip(self) -> (r: Self)
        ensures
            r == self.spec_flip(),
    {
        BitString(self.2, self.1, self.0)
    }

    /// The set without `value`.
    #[verifier::when_used_as_spec(spec_remove)]
    pub fn remove(self, value: Value) -> (r: Self)
        ensures
            r == self.spec_remove(value),
    {
        self.op_inter(BitString::from(value).reverse())
    }

    /// The values that are at most `value` in the voltage order.
    #[verifier::when_used_as_spec(spec_smaller_than)]
    pub fn smaller_than(value: Value) -> (r: Self)
        ensures
            r == BitString::spec_smaller_than(value),
    {
        let limit = value.voltage_rank();
        let mut acc = BitString::default();
        if Value::Bot.voltage_rank() <= limit {
            acc = acc.insert(Value::Bot);
        }
        if Value::Zero.voltage_rank() <= limit {
            acc = acc.insert(Value::Zero);
        }
        if Value::One.voltage_rank() <= limit {
            acc = acc.insert(Value::One);
        }
        acc
    }

    /// The values that are at least `value` in the voltage order.
    #[verifier::when_used_as_spec(spec_greater_than)]
    pub fn greater_than(value: Value) -> (r: Self)
        ensures
            r == BitString::spec_greater_than(value),
    {
        Self::smaller_than(value).reverse().insert(value)
    }

    /// The list of the values holds no value twice, and holds the values of
    /// the set.
    pub proof fn lemma_values_distinct(self)
        ensures
            self.values().no_duplicates(),
            self.values().len() == self.spec_len(),
            forall|v: Value| self.values().contains(v) <==> self.has(v),
    {
        let l = self.values();
        assert forall|v: Value| l.contains(v) <==> self.has(v) by {
            if self.has(v) {
                let j = if v == Value::Zero {
                    0int
                } else if v == Value::Bot {
                    if self.0 {
                        1int
                    } else {
                        0int
                    }
                } else {
                    l.len() - 1
                };
                assert(l[j] == v);
            }
            if l.contains(v) {
                let j = choose|j: int| 0 <= j < l.len() && l[j] == v;
                assert(self.has(l[j]));
            }
        }
    }

    /// The view has as many elements as flags are set, and holds what `has` says.
    pub proof fn lemma_view_len(self)
        ensures
            self@.finite(),
            self@.len() == self.spec_len(),
            forall|v: Value| self@.contains(v) == self.has(v),
    {
        let s0: Set<Value> = if self.0 { set![Value::Zero] } else { Set::empty() };
        let s1 = if self.1 { s0.insert(Value::Bot) } else { s0 };
        let s2 = if self.2 { s1.insert(Value::One) } else { s1 };
        assert(s2 =~= self@);
    }

    /// Two sets with the same view are the same set.
    pub proof fn lemma_view_injective(self, other: Self)
        requires
            self@ == other@,
        ensures
            self == other,
    {
        self.lemma_view_len();
        other.lemma_view_len();
        assert(self.has(Value::Zero) == other.has(Value::Zero));
        assert(self.has(Value::Bot) == other.has(Value::Bot));
        assert(self.has(Value::One) == other.has(Value::One));
    }

    /// Union and intersection are idempotent and commutative.
    pub proof fn lemma_union_inter_laws(a: Self, b: Self)
        ensures
            a.op_union(a) == a,
            a.op_inter(a) == a,
            a.op_union(b) == b.op_union(a),
            a.op_inter(b) == b.op_inter(a),
            a.op_union(b)@ == a@.union(b@),
            a.op_inter(b)@ == a@.intersect(b@),
    {
        assert(a.op_union(b)@ =~= a@.union(b@));
        assert(a.op_inter(b)@ =~= a@.intersect(b@));
    }

    /// Taking the complement twice gives the set back, and so does `flip`.
    pub proof fn lemma_reverse_involution(a: Self)
        ensures
            a.reverse().reverse() == a,
            a.flip().flip() == a,
            a.reverse()@ == Set::<Value>::full().difference(a@),
    {
        assert(a.reverse()@ =~= Set::<Value>::full().difference(a@));
    }

    /// Every value is at most `One`, and only `Zero` is at most `Zero`.
    pub proof fn lemma_smaller_than_bounds()
        ensures
            BitString::smaller_than(Value::One) == BitString::all(),
            BitString::smaller_than(Value::Zero) == BitString::single(Value::Zero),
            BitString::greater_than(Value::Zero) == BitString::all(),
            BitString::greater_than(Value::One) == BitString::single(Value::One),
    {
    }

    /// `insert` and `remove` act on the view as on a set.
    pub proof fn lemma_insert_remove(a: Self, v: Value)
        ensures
            a.insert(v)@ == a@.insert(v),
            a.remove(v)@ == a@.remove(v),
            a.insert(v) == a.op_union(BitString::single(v)),
            a.remove(v) == a.op_inter(BitString::single(v).reverse()),
    {
        assert(a.insert(v)@ =~= a@.insert(v));
        assert(a.remove(v)@ =~= a@.remove(v));
    }
}

/// The exact solver: a search through the candidates of every value node
/// that narrows the candidates of the others as it goes.
pub struct BacktrackAlgorithm;

/// What the search orders the undecided nodes by: the number of candidates
/// left, whether the node has no incoming edge, and the number of its edges.
#[derive(Debug, Clone, Copy, PartialEq, Eq, Structural)]
pub struct BacktrackKey {
    pub value_len: usize,
    pub is_start: bool,
    pub neighbours: usize,
}

impl BacktrackKey {
    /// The priority of the key: fewer candidates first, then nodes without
    /// incoming edge, then nodes with more edges.
    pub open spec fn spec_rank(self) -> Rank {
        ((-(self.value_len as int)) as isize, if self.is_start { 1usize } else { 0usize }, self.neighbours)
    }

    /// The priority of the key: fewer candidates first, then nodes without
    /// incoming edge, then nodes with more edges.
    pub fn rank(&self) -> (r: Rank)
        requires
            self.value_len <= 3,
        ensures
            r == self.spec_rank(),
    {
        let len: isize = if self.value_len == 0 {
            0
        } else if self.value_len == 1 {
            1
        } else if self.value_len == 2 {
            2
        } else {
            3
        };
        let start: usize = if self.is_start { 1 } else { 0 };
        (-len, start, self.neighbours)
    }
}

impl PartialOrd for BacktrackKey {
    fn partial_cmp(&self, other: &Self) -> (r: Option<Ordering>) {
        if self.value_len > other.value_len {
            Some(Ordering::Less)
        } else if self.value_len < other.value_len {
            Some(Ordering::Greater)
        } else if !self.is_start && other.is_start {
            Some(Ordering::Less)
        } else if self.is_start && !other.is_start {
            Some(Ordering::Greater)
        } else if self.neighbours < other.neighbours {
            Some(Ordering::Less)
        } else if self.neighbours > other.neighbours {
            Some(Ordering::Greater)
        } else {
            Some(Ordering::Equal)
        }
    }
}

impl PartialOrdSpecImpl for BacktrackKey {
    open spec fn obeys_partial_cmp_spec() -> bool {
        true
    }

    /// A key is the greater one where it has fewer candidates; with as many
    /// candidates, where it alone is a start; else where it has more edges.
    open spec fn partial_cmp_spec(&self, other: &Self) -> Option<Ordering> {
        if self.value_len > other.value_len {
            Some(Ordering::Less)
        } else if self.value_len < other.value_len {
            Some(Ordering::Greater)
        } else if !self.is_start && other.is_start {
            Some(Ordering::Less)
        } else if self.is_start && !other.is_start {
            Some(Ordering::Greater)
        } else if self.neighbours < other.neighbours {
            Some(Ordering::Less)
        } else if self.neighbours > other.neighbours {
            Some(Ordering::Greater)
        } else {
            Some(Ordering::Equal)
        }
    }
}

/// Keys compare as their priorities do in the queue.
pub proof fn lemma_key_order_is_rank_order(a: BacktrackKey, b: BacktrackKey)
    requires
        a.value_len <= 3,
        b.value_len <= 3,
    ensures
        PartialOrdSpec::partial_cmp_spec(&a, &b) != Some(Ordering::Greater) <==> rank_le(
            a.spec_rank(),
            b.spec_rank(),
        ),
        PartialOrdSpec::partial_cmp_spec(&a, &b) == Some(Ordering::Equal) <==> a.spec_rank()
            == b.spec_rank(),
        a.spec_rank() == b.spec_rank() <==> a == b,
{
}

/// What a gate sees at its ports in one direction: for each position, the
/// value decided for the node wired there, and the node's index.
/// `IndexIssue` where the edges are more than a gate has ports or their
/// slots are not 1, 2, ..; `NodeMapping` where a node lies beyond `sol`.
fn port_arrays(ports: &Vec<PortEdge>, sol: &Vec<Option<Value>>) -> (r: Result<
    ([Option<Value>; MAX_DEGREE], [Option<usize>; MAX_DEGREE]),
    BacktrackError,
>)
    ensures
        r is Ok ==> ports@.len() <= MAX_DEGREE,
        r matches Ok((vals, places)) ==> forall|i: int|
            0 <= i < MAX_DEGREE ==> if i < ports@.len() {
                &&& ports@[i].slot == i + 1
                &&& ports@[i].far.0 < sol@.len()
                &&& (#[trigger] places@[i]) == Some(ports@[i].far.0 as usize)
                &&& vals@[i] == sol@[ports@[i].far.0 as int]
            } else {
                places@[i] is None && vals@[i] is None
            },
        r matches Ok((vals, places)) ==> seen_at(
            Seq::new(ports@.len(), |i: int| ports@[i].far),
            sol@,
            vals@,
            places@,
        ),
        r matches Err(e) ==> e == BacktrackError::IndexIssue || e == BacktrackError::NodeMapping,
        (r matches Err(BacktrackError::NodeMapping)) ==> exists|i: int|
            0 <= i < ports@.len() && (#[trigger] ports@[i]).far.0 >= sol@.len(),
        (r matches Err(BacktrackError::IndexIssue)) <==> ports@.len() > MAX_DEGREE || exists|
            i: int,
        | 0 <= i < ports@.len() && (#[trigger] ports@[i]).slot != i + 1,
{
    if ports.len() > MAX_DEGREE {
        return Err(BacktrackError::IndexIssue);
    }
    let mut k: usize = 0;
    while k < ports.len()
        invariant
            k <= ports@.len(),
            ports@.len() <= MAX_DEGREE,
            forall|i: int| 0 <= i < k ==> (#[trigger] ports@[i]).slot == i + 1,
        decreases ports@.len() - k,
    {
        if ports[k].slot != (k as u64) + 1 {
            return Err(BacktrackError::IndexIssue);
        }
        k += 1;
    }
    let mut first: (Option<Value>, Option<usize>) = (None, None);
    let mut second: (Option<Value>, Option<usize>) = (None, None);
    if ports.len() > 0 {
        let at = ports[0].far.index();
        if at >= sol.len() {
            return Err(BacktrackError::NodeMapping);
        }
        first = (sol[at], Some(at));
    }
    if ports.len() > 1 {
        let at = ports[1].far.index();
        if at >= sol.len() {
            return Err(BacktrackError::NodeMapping);
        }
        second = (sol[at], Some(at));
    }
    Ok(([first.0, second.0], [first.1, second.1]))
}

impl BacktrackAlgorithm {
    /// Decides the node: records the value, leaves it as the node's only
    /// candidate, and takes the node out of the queue. `NodeMapping`, and
    /// nothing changes, where the node has no candidates.
    pub fn assign_node(
        &self,
        node_indx: NodeIndex,
        new_value: Value,
        sol_map: &mut Vec<Option<Value>>,
        value_map: &mut Vec<Option<BitString>>,
        queue: &mut Queue,
    ) -> (r: Result<(), BacktrackError>)
        requires
            old(sol_map)@.len() == old(value_map)@.len(),
        ensures
            r is Ok <==> node_indx.0 < old(value_map)@.len() && old(value_map)@[node_indx.0 as int] is Some,
            r matches Err(e) ==> e == BacktrackError::NodeMapping && final(sol_map)@ == old(sol_map)@ && final(value_map)@ == old(value_map)@ && queue_items(*final(queue))
                == queue_items(*old(queue)),
            r is Ok ==> {
                &&& final(sol_map)@ == old(sol_map)@.update(node_indx.0 as int, Some(new_value))
                &&& final(value_map)@ == old(value_map)@.update(
                    node_indx.0 as int,
                    Some(BitString::single(new_value)),
                )
                &&& queue_items(*final(queue)) == queue_items(*old(queue)).remove(node_indx.0)
            },
    {
        let at = node_indx.index();
        if at >= value_map.len() {
            return Err(BacktrackError::NodeMapping);
        }
        if value_map[at].is_some() {
            sol_map[at] = Some(new_value);
            value_map[at] = Some(BitString::from(new_value));
            queue_remove(queue, node_indx.0);
            Ok(())
        } else {
            Err(BacktrackError::NodeMapping)
        }
    }

    /// Narrows the candidates of the node at `indx` to those in `new_set`
    /// and tells the queue how many are left. `NodeMapping`, and nothing
    /// changes, where the node has no candidates.
    pub fn prop_node(
        &self,
        indx: usize,
        new_set: BitString,
        queue: &mut Queue,
        value_map: &mut Vec<Option<BitString>>,
    ) -> (r: Result<(), BacktrackError>)
        ensures
            r is Ok <==> indx < old(value_map)@.len() && indx <= u32::MAX && old(value_map)@[indx as int] is Some,
            r matches Err(e) ==> e == BacktrackError::NodeMapping && final(value_map)@ == old(value_map)@ && queue_items(*final(queue)) == queue_items(*old(queue)),
            r is Ok ==> {
                let narrowed = old(value_map)@[indx as int].unwrap().spec_op_inter(new_set);
                &&& final(value_map)@ == old(value_map)@.update(indx as int, Some(narrowed))
                &&& queue_items(*final(queue)).dom() == queue_items(*old(queue)).dom()
                &&& forall|x: u32|
                    x != indx && queue_items(*old(queue)).contains_key(x) ==> #[trigger] queue_items(
                        *final(queue),
                    )[x] == queue_items(*old(queue))[x]
                &&& queue_items(*old(queue)).contains_key(indx as u32) ==> queue_items(
                    *final(queue),
                )[indx as u32] == (
                    (-(narrowed.spec_len() as int)) as isize,
                    queue_items(*old(queue))[indx as u32].1,
                    queue_items(*old(queue))[indx as u32].2,
                )
            },
    {
        if indx >= value_map.len() || indx > u32::MAX as usize {
            return Err(BacktrackError::NodeMapping);
        }
        let current = match value_map[indx] {
            Some(set) => set,
            None => {
                return Err(BacktrackError::NodeMapping);
            },
        };
        let new_set = current.op_inter(new_set);
        value_map[indx] = Some(new_set);
        let key = BacktrackKey { value_len: new_set.len(), is_start: false, neighbours: 0 };
        let ghost before = queue_items(*queue);
        queue_set_first(queue, indx as u32, key.rank().0);
        proof {
            assert(queue_items(*queue).dom() =~= before.dom());
        }
        Ok(())
    }

    /// Narrows the candidates of the undecided nodes at the ports of the
    /// gate at `gate_indx`, by what that gate lets its ports be given the
    /// values decided so far.
    ///
    /// Returns `false`, and leaves the candidates as they are, where what
    /// is decided contradicts that gate: nothing is then left to find.
    /// `IndexIssue` where the edges of that gate, in one direction, are more
    /// than a gate has ports or have other slots than 1, 2, ..;
    /// `NodeMapping` where `gate_indx` is no gate.
    pub fn propagate_gate<T, G>(
        &self,
        gate_indx: NodeIndex,
        sol_map: &Vec<Option<Value>>,
        value_map: &mut Vec<Option<BitString>>,
        queue: &mut Queue,
        pc_instance: &PureCircuitGraph<T, G>,
    ) -> (r: Result<bool, BacktrackError>)
        requires
            pc_instance.structure_wf(),
            search_state(
                pc_instance@,
                sol_map@,
                old(value_map)@,
                queue_items(*old(queue)),
                None,
            ),
        ensures
            r is Ok ==> {
                &&& search_state(
                    pc_instance@,
                    sol_map@,
                    final(value_map)@,
                    queue_items(*final(queue)),
                    None,
                )
                &&& queue_items(*final(queue)).dom() == queue_items(*old(queue)).dom()
                &&& narrowed(old(value_map)@, final(value_map)@)
                &&& kept(pc_instance@, sol_map@, old(value_map)@, final(value_map)@)
                &&& indexed(pc_instance@, gate_indx)
            },
            r matches Ok(true) ==> (tidy(pc_instance@, gate_indx) ==> satisfied(
                pc_instance@,
                sol_map@,
                gate_indx,
            )),
            r matches Ok(true) ==> fitting(pc_instance@, sol_map@, gate_indx),
            r matches Ok(false) ==> final(value_map)@ == old(value_map)@ && queue_items(
                *final(queue),
            ) == queue_items(*old(queue)) && dead(pc_instance@, sol_map@, old(value_map)@),
            r matches Err(e) ==> e == (if pc_instance@.is_gate(gate_indx) {
                BacktrackError::IndexIssue
            } else {
                BacktrackError::NodeMapping
            }),
            r is Ok <==> indexed(pc_instance@, gate_indx),
            clean(pc_instance@) && pc_instance@.is_gate(gate_indx) && ready(
                pc_instance@,
                sol_map@,
                gate_indx,
            ) ==> r == Ok::<bool, BacktrackError>(true) && arc_ok(
                pc_instance@,
                sol_map@,
                final(value_map)@,
                gate_indx,
            ),
    {
        let view = Ghost(pc_instance@);
        let ghost owed = clean(view@) && view@.is_gate(gate_indx) && ready(
            view@,
            sol_map@,
            gate_indx,
        );
        let gate = match pc_instance.node(gate_indx) {
            Some(NodeValue::GateNode { gate, .. }) => gate,
            _ => {
                return Err(BacktrackError::NodeMapping);
            },
        };
        assert(view@.is_listing(
            gate_indx,
            Direction::Incoming,
            view@.listing(gate_indx, Direction::Incoming),
        ));
        assert(view@.is_listing(
            gate_indx,
            Direction::Outgoing,
            view@.listing(gate_indx, Direction::Outgoing),
        ));
        let ins = pc_instance.ordered_ports(gate_indx, Direction::Incoming);
        let outs = pc_instance.ordered_ports(gate_indx, Direction::Outgoing);
        proof {
            assert(view@.ports(gate_indx, Direction::Incoming) =~= Seq::new(
                ins@.len(),
                |i: int| ins@[i].far,
            ));
            assert(view@.ports(gate_indx, Direction::Outgoing) =~= Seq::new(
                outs@.len(),
                |i: int| outs@[i].far,
            ));
            view@.lemma_ports_are_values(gate_indx, Direction::Incoming);
            view@.lemma_ports_are_values(gate_indx, Direction::Outgoing);
            assert forall|i: int| 0 <= i < ins@.len() implies (#[trigger] ins@[i]).far.0
                < sol_map@.len() by {
                assert(view@.is_value(view@.ports(gate_indx, Direction::Incoming)[i]));
            }
            assert forall|i: int| 0 <= i < outs@.len() implies (#[trigger] outs@[i]).far.0
                < sol_map@.len() by {
                assert(view@.is_value(view@.ports(gate_indx, Direction::Outgoing)[i]));
            }
            if owed {
                assert(tidy(view@, gate_indx));
                assert forall|i: int| 0 <= i < ins@.len() implies (#[trigger] ins@[i]).slot == i
                    + 1 by {
                    assert(view@.edges[view@.listing(gate_indx, Direction::Incoming)[i]].slot == i + 1);
                }
                assert forall|i: int| 0 <= i < outs@.len() implies (#[trigger] outs@[i]).slot == i
                    + 1 by {
                    assert(view@.edges[view@.listing(gate_indx, Direction::Outgoing)[i]].slot == i + 1);
                }
            }
        }
        let (ins_vals, ins_idx) = match port_arrays(&ins, sol_map) {
            Ok(found) => found,
            Err(e) => {
                proof {
                    if indexed(view@, gate_indx) {
                        assert(view@.listing(gate_indx, Direction::Incoming).len() <= MAX_DEGREE);
                        let i = choose|i: int|
                            0 <= i < ins@.len() && (#[trigger] ins@[i]).slot != i + 1;
                        assert(view@.edges[view@.listing(gate_indx, Direction::Incoming)[i]].slot
                            == i + 1);
                    }
                }
                return Err(e);
            },
        };
        let (outs_vals, outs_idx) = match port_arrays(&outs, sol_map) {
            Ok(found) => found,
            Err(e) => {
                proof {
                    if indexed(view@, gate_indx) {
                        assert(view@.listing(gate_indx, Direction::Outgoing).len() <= MAX_DEGREE);
                        let i = choose|i: int|
                            0 <= i < outs@.len() && (#[trigger] outs@[i]).slot != i + 1;
                        assert(view@.edges[view@.listing(gate_indx, Direction::Outgoing)[i]].slot
                            == i + 1);
                    }
                }
                return Err(e);
            },
        };
        proof {
            assert(indexed(view@, gate_indx)) by {
                assert forall|d: Direction| #[trigger]
                    view@.listing(gate_indx, d).len() <= MAX_DEGREE by {
                    match d {
                        Direction::Incoming => {},
                        Direction::Outgoing => {},
                    }
                }
                assert forall|d: Direction, i: int|
                    0 <= i < view@.listing(gate_indx, d).len() implies (
                #[trigger] view@.edges[view@.listing(gate_indx, d)[i]]).slot == i + 1 by {
                    match d {
                        Direction::Incoming => {
                            assert(ins@[i].slot == i + 1);
                        },
                        Direction::Outgoing => {
                            assert(outs@[i].slot == i + 1);
                        },
                    }
                }
            }
            lemma_known_seen(
                view@,
                sol_map@,
                gate_indx,
                ins_vals@,
                ins_idx@,
                outs_vals@,
                outs_idx@,
            );
        }
        let (checked_ins, checked_outs) = match gate.set_value(ins_vals, outs_vals) {
            Ok(state) => state,
            Err(_) => {
                proof {
                    lemma_gate_unfit(
                        view@,
                        sol_map@,
                        value_map@,
                        gate_indx,
                        ins_vals@,
                        ins_idx@,
                        outs_vals@,
                        outs_idx@,
                    );
                    lemma_kept_start(view@, sol_map@, value_map@);
                }
                return Ok(false);
            },
        };
        proof {
            lemma_gate_settled(
                view@,
                sol_map@,
                gate_indx,
                ins_vals@,
                ins_idx@,
                outs_vals@,
                outs_idx@,
            );
            lemma_gate_admits_all(
                view@,
                sol_map@,
                old(value_map)@,
                gate_indx,
                ins_vals@,
                ins_idx@,
                outs_vals@,
                outs_idx@,
            );
            lemma_kept_start(view@, sol_map@, value_map@);
            gate.lemma_propagated_keeps_known(ins_vals@, outs_vals@);
        }
        let mut i: usize = 0;
        while i < MAX_DEGREE
            invariant
                i <= MAX_DEGREE,
                checked_ins@.len() == MAX_DEGREE,
                ins_idx@.len() == MAX_DEGREE,
                search_state(view@, sol_map@, value_map@, queue_items(*queue), None),
                queue_items(*queue).dom() == queue_items(*old(queue)).dom(),
                narrowed(old(value_map)@, value_map@),
                kept(view@, sol_map@, old(value_map)@, value_map@),
                admitted(view@, sol_map@, old(value_map)@, checked_ins@, ins_idx@),
                bounded(value_map@, sol_map@, checked_ins@, ins_idx@, i as int),
                forall|j: int|
                    0 <= j < MAX_DEGREE && (#[trigger] ins_idx@[j]) is Some ==> view@.is_value(
                        NodeIndex(ins_idx@[j].unwrap() as u32),
                    ) && ins_idx@[j].unwrap() < sol_map@.len(),
            decreases MAX_DEGREE - i,
        {
            let ghost prior = value_map@;
            match (checked_ins[i], ins_idx[i]) {
                (Some(val), Some(indx)) => {
                    if indx < sol_map.len() && sol_map[indx].is_none() {
                        assert(value_map@[indx as int] is Some);
                        match self.prop_node(indx, val, queue, value_map) {
                            Ok(()) => {},
                            Err(e) => {
                                return Err(e);
                            },
                        }
                        proof {
                            lemma_kept_step(
                                view@,
                                sol_map@,
                                old(value_map)@,
                                prior,
                                checked_ins@,
                                ins_idx@,
                                i as int,
                                value_map@,
                            );
                        }
                    }
                },
                _ => {},
            }
            proof {
                lemma_bounded_step(prior, value_map@, sol_map@, checked_ins@, ins_idx@, i as int);
                lemma_narrowed_trans(old(value_map)@, prior, value_map@);
            }
            i += 1;
        }
        let mut i: usize = 0;
        while i < MAX_DEGREE
            invariant
                i <= MAX_DEGREE,
                checked_outs@.len() == MAX_DEGREE,
                outs_idx@.len() == MAX_DEGREE,
                checked_ins@.len() == MAX_DEGREE,
                ins_idx@.len() == MAX_DEGREE,
                search_state(view@, sol_map@, value_map@, queue_items(*queue), None),
                queue_items(*queue).dom() == queue_items(*old(queue)).dom(),
                narrowed(old(value_map)@, value_map@),
                kept(view@, sol_map@, old(value_map)@, value_map@),
                admitted(view@, sol_map@, old(value_map)@, checked_outs@, outs_idx@),
                bounded(value_map@, sol_map@, checked_ins@, ins_idx@, MAX_DEGREE as int),
                bounded(value_map@, sol_map@, checked_outs@, outs_idx@, i as int),
                forall|j: int|
                    0 <= j < MAX_DEGREE && (#[trigger] outs_idx@[j]) is Some ==> view@.is_value(
                        NodeIndex(outs_idx@[j].unwrap() as u32),
                    ) && outs_idx@[j].unwrap() < sol_map@.len(),
            decreases MAX_DEGREE - i,
        {
            let ghost prior = value_map@;
            match (checked_outs[i], outs_idx[i]) {
                (Some(val), Some(indx)) => {
                    if indx < sol_map.len() && sol_map[indx].is_none() {
                        assert(value_map@[indx as int] is Some);
                        match self.prop_node(indx, val, queue, value_map) {
                            Ok(()) => {},
                            Err(e) => {
                                return Err(e);
                            },
                        }
                        proof {
                            lemma_kept_step(
                                view@,
                                sol_map@,
                                old(value_map)@,
                                prior,
                                checked_outs@,
                                outs_idx@,
                                i as int,
                                value_map@,
                            );
                        }
                    }
                },
                _ => {},
            }
            proof {
                lemma_bounded_step(prior, value_map@, sol_map@, checked_outs@, outs_idx@, i as int);
                lemma_narrowed_trans(old(value_map)@, prior, value_map@);
                lemma_bounded_narrowed(
                    prior,
                    value_map@,
                    sol_map@,
                    checked_ins@,
                    ins_idx@,
                    MAX_DEGREE as int,
                );
            }
            i += 1;
        }
        proof {
            if owed {
                lemma_arc_after_gate(
                    view@,
                    sol_map@,
                    value_map@,
                    gate_indx,
                    ins_vals@,
                    ins_idx@,
                    outs_vals@,
                    outs_idx@,
                );
            }
        }
        Ok(true)
    }

    /// Narrows the candidates of the undecided nodes at every gate wired to
    /// the node at `index_pc`, by what each gate lets its ports be given the
    /// values decided so far. Returns `false` where what is decided
    /// contradicts one of these gates: nothing is then left to find. The
    /// errors are those of `propagate_gate`.
    pub fn propagate_value_node<T, G>(
        &self,
        index_pc: NodeIndex,
        sol_map: &Vec<Option<Value>>,
        value_map: &mut Vec<Option<BitString>>,
        queue: &mut Queue,
        pc_instance: &PureCircuitGraph<T, G>,
    ) -> (r: Result<bool, BacktrackError>)
        requires
            pc_instance.structure_wf(),
            search_state(
                pc_instance@,
                sol_map@,
                old(value_map)@,
                queue_items(*old(queue)),
                None,
            ),
            forall|n: NodeIndex|
                tidy(pc_instance@, n) && !pc_instance@.adjacent(index_pc, n) ==> #[trigger] satisfied(
                    pc_instance@,
                    sol_map@,
                    n,
                ),
        ensures
            r is Ok ==> {
                &&& search_state(
                    pc_instance@,
                    sol_map@,
                    final(value_map)@,
                    queue_items(*final(queue)),
                    None,
                )
                &&& queue_items(*final(queue)).dom() == queue_items(*old(queue)).dom()
                &&& narrowed(old(value_map)@, final(value_map)@)
                &&& kept(pc_instance@, sol_map@, old(value_map)@, final(value_map)@)
            },
            r matches Ok(true) ==> consistent(pc_instance@, sol_map@),
            (forall|n: NodeIndex|
                pc_instance@.is_gate(n) && !pc_instance@.adjacent(index_pc, n) ==> #[trigger] fitting(
                    pc_instance@,
                    sol_map@,
                    n,
                )) ==> (r matches Ok(true) ==> fit_all(pc_instance@, sol_map@)),
            r matches Ok(false) ==> dead(pc_instance@, sol_map@, old(value_map)@),
            r matches Err(e) ==> e == BacktrackError::IndexIssue || e
                == BacktrackError::NodeMapping,
            pc_instance@.is_value(index_pc) && all_indexed(pc_instance@) ==> r is Ok,
            propagation_owed(pc_instance@, index_pc, sol_map@, old(value_map)@) ==> r == Ok::<
                bool,
                BacktrackError,
            >(true) && arc_all(pc_instance@, sol_map@, final(value_map)@),
    {
        let view = Ghost(pc_instance@);
        let ghost owed = propagation_owed(view@, index_pc, sol_map@, old(value_map)@);
        let gates = pc_instance.get_all_neigh(index_pc);
        let mut k: usize = 0;
        proof {
            lemma_kept_start(view@, sol_map@, value_map@);
            if owed {
                assert forall|j: int| 0 <= j < gates@.len() implies view@.is_gate(
                    #[trigger] gates@[j],
                ) && ready(view@, sol_map@, gates@[j]) by {
                    assert(view@.adjacent(index_pc, gates@[j]));
                }
            }
            if view@.is_value(index_pc) {
                assert forall|j: int| 0 <= j < gates@.len() implies view@.is_gate(
                    #[trigger] gates@[j],
                ) by {
                    lemma_value_meets_gates(view@, index_pc, gates@[j]);
                }
            }
        }
        while k < gates.len()
            invariant
                k <= gates@.len(),
                pc_instance.structure_wf(),
                view@ == pc_instance@,
                search_state(view@, sol_map@, value_map@, queue_items(*queue), None),
                queue_items(*queue).dom() == queue_items(*old(queue)).dom(),
                narrowed(old(value_map)@, value_map@),
                kept(view@, sol_map@, old(value_map)@, value_map@),
                forall|n: NodeIndex|
                    tidy(view@, n) && !view@.adjacent(index_pc, n) ==> #[trigger] satisfied(
                        view@,
                        sol_map@,
                        n,
                    ),
                forall|j: int|
                    0 <= j < k && tidy(view@, #[trigger] gates@[j]) ==> satisfied(
                        view@,
                        sol_map@,
                        gates@[j],
                    ),
                forall|m: NodeIndex| view@.adjacent(index_pc, m) ==> gates@.contains(m),
                forall|j: int|
                    0 <= j < gates@.len() && view@.is_value(index_pc) ==> view@.is_gate(
                        #[trigger] gates@[j],
                    ),
                forall|j: int| 0 <= j < k ==> fitting(view@, sol_map@, #[trigger] gates@[j]),
                owed == propagation_owed(view@, index_pc, sol_map@, old(value_map)@),
                owed ==> clean(view@),
                owed ==> forall|j: int|
                    0 <= j < gates@.len() ==> view@.is_gate(#[trigger] gates@[j]) && ready(
                        view@,
                        sol_map@,
                        gates@[j],
                    ),
                owed ==> forall|n: NodeIndex|
                    view@.is_gate(n) && (!view@.adjacent(index_pc, n) || exists|j: int|
                        0 <= j < k && gates@[j] == n) ==> #[trigger] arc_ok(
                        view@,
                        sol_map@,
                        value_map@,
                        n,
                    ),
            decreases gates@.len() - k,
        {
            let ghost prior = value_map@;
            proof {
                if owed {
                    assert(view@.is_gate(gates@[k as int]) && ready(
                        view@,
                        sol_map@,
                        gates@[k as int],
                    ));
                }
            }
            match self.propagate_gate(gates[k], sol_map, value_map, queue, pc_instance) {
                Ok(true) => {},
                Ok(false) => {
                    proof {
                        lemma_dead_kept(view@, sol_map@, old(value_map)@, prior);
                    }
                    return Ok(false);
                },
                Err(e) => {
                    return Err(e);
                },
            }
            proof {
                lemma_kept_trans(view@, sol_map@, old(value_map)@, prior, value_map@);
                lemma_narrowed_trans(old(value_map)@, prior, value_map@);
                if owed {
                    assert forall|n: NodeIndex|
                        view@.is_gate(n) && (!view@.adjacent(index_pc, n) || exists|j: int|
                            0 <= j < k + 1 && gates@[j] == n) implies #[trigger] arc_ok(
                        view@,
                        sol_map@,
                        value_map@,
                        n,
                    ) by {
                        if n != gates@[k as int] {
                            if view@.adjacent(index_pc, n) {
                                let j = choose|j: int| 0 <= j < k + 1 && gates@[j] == n;
                                assert(0 <= j < k && gates@[j] == n);
                            }
                            assert(arc_ok(view@, sol_map@, prior, n));
                            lemma_arc_narrowed(view@, sol_map@, prior, value_map@, n);
                        }
                    }
                }
            }
            k += 1;
        }
        proof {
            assert forall|n: NodeIndex| tidy(view@, n) implies #[trigger] satisfied(
                view@,
                sol_map@,
                n,
            ) by {
                if view@.adjacent(index_pc, n) {
                    assert(gates@.contains(n));
                    let j = choose|j: int| 0 <= j < gates@.len() && gates@[j] == n;
                    assert(tidy(view@, gates@[j]));
                }
            }
            if owed {
                assert forall|n: NodeIndex| view@.is_gate(n) implies #[trigger] arc_ok(
                    view@,
                    sol_map@,
                    value_map@,
                    n,
                ) by {
                    if view@.adjacent(index_pc, n) {
                        assert(gates@.contains(n));
                        let j = choose|j: int| 0 <= j < gates@.len() && gates@[j] == n;
                    }
                }
            }
            if forall|n: NodeIndex|
                view@.is_gate(n) && !view@.adjacent(index_pc, n) ==> #[trigger] fitting(
                    view@,
                    sol_map@,
                    n,
                ) {
                assert forall|n: NodeIndex| view@.is_gate(n) implies #[trigger] fitting(
                    view@,
                    sol_map@,
                    n,
                ) by {
                    if view@.adjacent(index_pc, n) {
                        assert(gates@.contains(n));
                        let j = choose|j: int| 0 <= j < gates@.len() && gates@[j] == n;
                        assert(fitting(view@, sol_map@, gates@[j]));
                    }
                }
            }
        }
        Ok(true)
    }

    /// Decides the node and narrows the candidates around it. Returns
    /// `false` where the value contradicts a gate at the node.
    fn assign_and_propagate<T, G>(
        &self,
        index_pc: NodeIndex,
        new_value: Value,
        sol_map: &mut Vec<Option<Value>>,
        value_map: &mut Vec<Option<BitString>>,
        queue: &mut Queue,
        pc_instance: &PureCircuitGraph<T, G>,
    ) -> (r: Result<bool, BacktrackError>)
        requires
            pc_instance.structure_wf(),
            search_state(
                pc_instance@,
                old(sol_map)@,
                old(value_map)@,
                queue_items(*old(queue)),
                Some(index_pc.0),
            ),
            consistent(pc_instance@, old(sol_map)@),
            index_pc.0 < old(sol_map)@.len() ==> old(sol_map)@[index_pc.0 as int] is None,
        ensures
            r is Ok ==> {
                &&& search_state(
                    pc_instance@,
                    final(sol_map)@,
                    final(value_map)@,
                    queue_items(*final(queue)),
                    None,
                )
                &&& queue_items(*final(queue)).dom() == queue_items(*old(queue)).dom()
                &&& final(sol_map)@ == old(sol_map)@.update(index_pc.0 as int, Some(new_value))
                &&& index_pc.0 < old(sol_map)@.len()
                &&& old(value_map)@[index_pc.0 as int] is Some
                &&& narrowed(old(value_map)@.update(index_pc.0 as int, Some(BitString::single(new_value))), final(value_map)@)
            },
            r matches Ok(true) ==> consistent(pc_instance@, final(sol_map)@) && carried(
                pc_instance@,
                old(sol_map)@,
                old(value_map)@,
                index_pc.0 as int,
                new_value,
                final(sol_map)@,
                final(value_map)@,
            ),
            r matches Ok(false) ==> dead_at(
                pc_instance@,
                old(sol_map)@,
                old(value_map)@,
                index_pc.0 as int,
                new_value,
            ),
            fit_all(pc_instance@, old(sol_map)@) ==> (r matches Ok(true) ==> fit_all(
                pc_instance@,
                final(sol_map)@,
            )),
            r matches Err(e) ==> e.in_search(),
            pc_instance@.is_value(index_pc) && all_indexed(pc_instance@) ==> r is Ok,
            assignment_owed(pc_instance@, index_pc, new_value, old(sol_map)@, old(value_map)@)
                ==> r == Ok::<bool, BacktrackError>(true) && arc_all(
                pc_instance@,
                final(sol_map)@,
                final(value_map)@,
            ),
    {
        proof {
            if assignment_owed(pc_instance@, index_pc, new_value, sol_map@, value_map@) {
                lemma_assignment_owed(pc_instance@, index_pc, new_value, sol_map@, value_map@);
            }
        }
        match self.assign_node(index_pc, new_value, sol_map, value_map, queue) {
            Ok(()) => {},
            Err(e) => {
                return Err(e);
            },
        }
        proof {
            let view = pc_instance@;
            let before = old(sol_map)@;
            let after = sol_map@;
            assert(queue_items(*queue).dom() =~= queue_items(*old(queue)).dom());
            assert forall|n: NodeIndex|
                tidy(view, n) && !view.adjacent(index_pc, n) implies #[trigger] satisfied(
                view,
                after,
                n,
            ) by {
                assert(satisfied(view, before, n));
                assert(view.is_listing(
                    n,
                    Direction::Incoming,
                    view.listing(n, Direction::Incoming),
                ));
                assert(view.is_listing(
                    n,
                    Direction::Outgoing,
                    view.listing(n, Direction::Outgoing),
                ));
                let ins = view.ports(n, Direction::Incoming);
                let outs = view.ports(n, Direction::Outgoing);
                assert forall|i: int| 0 <= i < ins.len() implies assigned(after, #[trigger] ins[i])
                    == assigned(before, ins[i]) by {
                    view.lemma_ports_adjacent(n, Direction::Incoming, i);
                }
                assert forall|i: int| 0 <= i < outs.len() implies assigned(
                    after,
                    #[trigger] outs[i],
                ) == assigned(before, outs[i]) by {
                    view.lemma_ports_adjacent(n, Direction::Outgoing, i);
                }
                assert(values_at(after, ins) =~= values_at(before, ins));
                assert(values_at(after, outs) =~= values_at(before, outs));
            }
        }
        let ghost mid_doms = value_map@;
        proof {
            if fit_all(pc_instance@, old(sol_map)@) {
                lemma_fit_after_assign(pc_instance@, old(sol_map)@, index_pc, new_value);
            }
        }
        let r = self.propagate_value_node(index_pc, sol_map, value_map, queue, pc_instance);
        proof {
            assert(pc_instance@.is_value(index_pc));
            if r is Ok {
                assert forall|a: Seq<Option<Value>>| #[trigger]
                    survivor(pc_instance@, a, old(sol_map)@, old(value_map)@) && a[index_pc.0 as int]
                        == Some(new_value) implies survivor(pc_instance@, a, sol_map@, mid_doms)
                    && within(a, value_map@) by {
                    assert(extends(a, sol_map@));
                    assert(within(a, mid_doms));
                    assert(survivor(pc_instance@, a, sol_map@, mid_doms));
                    assert(within(a, value_map@));
                }
            }
        }
        r
    }

    /// Decides the node at `index_pc`, narrows the candidates around it, and
    /// goes on deciding every node that is left with one candidate. Returns
    /// `false` where a value decided contradicts a gate or an undecided node
    /// is left without candidate: nothing is then left to find with
    /// `new_value` at `index_pc`.
    #[verifier::loop_isolation(false)]
    pub fn unit_propagate<T, G>(
        &self,
        index_pc: NodeIndex,
        new_value: Value,
        sol_map: &mut Vec<Option<Value>>,
        value_map: &mut Vec<Option<BitString>>,
        queue: &mut Queue,
        pc_instance: &PureCircuitGraph<T, G>,
    ) -> (r: Result<bool, BacktrackError>)
        requires
            pc_instance.structure_wf(),
            search_state(
                pc_instance@,
                old(sol_map)@,
                old(value_map)@,
                queue_items(*old(queue)),
                Some(index_pc.0),
            ),
            consistent(pc_instance@, old(sol_map)@),
            index_pc.0 < old(sol_map)@.len() ==> old(sol_map)@[index_pc.0 as int] is None,
        ensures
            r matches Ok(true) ==> {
                &&& search_state(
                    pc_instance@,
                    final(sol_map)@,
                    final(value_map)@,
                    queue_items(*final(queue)),
                    None,
                )
                &&& consistent(pc_instance@, final(sol_map)@)
                &&& queue_items(*final(queue)).dom().subset_of(queue_items(*old(queue)).dom())
                &&& final(sol_map)@.len() == old(sol_map)@.len()
                &&& final(sol_map)@[index_pc.0 as int] == Some(new_value)
                &&& forall|i: int|
                    0 <= i < old(sol_map)@.len() && old(sol_map)@[i] is Some ==> final(sol_map)@[i]
                        == old(sol_map)@[i]
                &&& narrowed_but(old(value_map)@, final(value_map)@, index_pc.0 as int)
            },
            r matches Ok(true) ==> carried(
                pc_instance@,
                old(sol_map)@,
                old(value_map)@,
                index_pc.0 as int,
                new_value,
                final(sol_map)@,
                final(value_map)@,
            ),
            r matches Ok(true) ==> forall|x: u32| #[trigger]
                queue_items(*final(queue)).contains_key(x) ==> final(value_map)@[x as int].unwrap().spec_len()
                    >= 2,
            r matches Ok(false) ==> dead_at(
                pc_instance@,
                old(sol_map)@,
                old(value_map)@,
                index_pc.0 as int,
                new_value,
            ),
            fit_all(pc_instance@, old(sol_map)@) ==> (r matches Ok(true) ==> fit_all(
                pc_instance@,
                final(sol_map)@,
            )),
            r matches Err(e) ==> e.in_search(),
            pc_instance@.is_value(index_pc) && all_indexed(pc_instance@) ==> r is Ok,
            assignment_owed(pc_instance@, index_pc, new_value, old(sol_map)@, old(value_map)@)
                ==> r is Ok && arc_all(pc_instance@, final(sol_map)@, final(value_map)@),
    {
        match self.assign_and_propagate(
            index_pc,
            new_value,
            sol_map,
            value_map,
            queue,
            pc_instance,
        ) {
            Ok(true) => {},
            Ok(false) => {
                return Ok(false);
            },
            Err(e) => {
                return Err(e);
            },
        }
        proof {
            let first = old(value_map)@.update(
                index_pc.0 as int,
                Some(BitString::single(new_value)),
            );
            assert forall|i: int, v: Value|
                0 <= i < value_map@.len() && i != index_pc.0 && value_map@[i] is Some
                    && #[trigger] value_map@[i].unwrap().has(v) implies old(value_map)@[i] is Some
                && old(value_map)@[i].unwrap().has(v) by {
                assert(first[i] is Some && first[i].unwrap().has(v));
            }
        }
        let mut unit = match queue_peek(queue) {
            Some((_, key)) => key.0 == -1,
            None => false,
        };
        while unit
            invariant
                search_state(
                    pc_instance@,
                    sol_map@,
                    value_map@,
                    queue_items(*queue),
                    None,
                ),
                consistent(pc_instance@, sol_map@),
                queue_items(*queue).dom().subset_of(queue_items(*old(queue)).dom()),
                sol_map@.len() == old(sol_map)@.len(),
                index_pc.0 < sol_map@.len(),
                sol_map@[index_pc.0 as int] == Some(new_value),
                forall|i: int|
                    0 <= i < old(sol_map)@.len() && old(sol_map)@[i] is Some ==> sol_map@[i] == old(sol_map)@[i],
                narrowed_but(old(value_map)@, value_map@, index_pc.0 as int),
                forall|a: Seq<Option<Value>>| #[trigger]
                    survivor(pc_instance@, a, old(sol_map)@, old(value_map)@) && a[index_pc.0 as int]
                        == Some(new_value) ==> survivor(pc_instance@, a, sol_map@, value_map@),
                assignment_owed(pc_instance@, index_pc, new_value, old(sol_map)@, old(value_map)@)
                    ==> clean(pc_instance@) && arc_all(pc_instance@, sol_map@, value_map@),
                fit_all(pc_instance@, old(sol_map)@) ==> fit_all(pc_instance@, sol_map@),
                unit ==> exists|x: u32| #[trigger]
                    queue_items(*queue).contains_key(x) && queue_items(*queue)[x].0 == -1 && forall|
                        y: u32,
                    | #[trigger]
                        queue_items(*queue).contains_key(y) ==> rank_le(
                            queue_items(*queue)[y],
                            queue_items(*queue)[x],
                        ),
                !unit ==> (exists|y: u32| #[trigger]
                    queue_items(*queue).contains_key(y) && queue_items(*queue)[y].0 == 0) || (forall|
                    y: u32,
                | #[trigger]
                    queue_items(*queue).contains_key(y) ==> queue_items(*queue)[y].0 <= -2),
            decreases queue_items(*queue).len(),
        {
            let ghost before = queue_items(*queue);
            let ghost prior_doms = value_map@;
            let ghost prior_sol = sol_map@;
            let nod_ind = match queue_pop(queue) {
                Some((nod_ind, _)) => nod_ind,
                None => {
                    proof {
                        let x = choose|x: u32| #[trigger]
                            before.contains_key(x) && before[x].0 == -1 && forall|y: u32| #[trigger]
                                before.contains_key(y) ==> rank_le(before[y], before[x]);
                        assert(before.contains_key(x));
                        assert(false);
                    }
                    return Err(BacktrackError::NodeMapping);
                },
            };
            assert(before.contains_key(nod_ind));
            proof {
                let x = choose|x: u32| #[trigger]
                    before.contains_key(x) && before[x].0 == -1 && forall|y: u32| #[trigger]
                        before.contains_key(y) ==> rank_le(before[y], before[x]);
                assert(rank_le(before[nod_ind], before[x]));
                assert(rank_le(before[x], before[nod_ind]));
                assert(before[nod_ind].0 == -1);
                assert(value_map@[nod_ind as int].unwrap().spec_len() == 1);
            }
            let b = match value_map[nod_ind as usize] {
                Some(set) => set,
                None => {
                    return Err(BacktrackError::NodeMapping);
                },
            };
            if b.len() != 1 {
                return Err(BacktrackError::IncorrectMeasurement);
            }
            let candidates = b.to_value_iter();
            let new_val = candidates[0];
            proof {
                b.lemma_values_distinct();
                assert(b.values().contains(new_val));
            }
            match self.assign_and_propagate(
                NodeIndex(nod_ind),
                new_val,
                sol_map,
                value_map,
                queue,
                pc_instance,
            ) {
                Ok(true) => {},
                Ok(false) => {
                    proof {
                        assert(b.has(new_val));
                        assert forall|a: Seq<Option<Value>>| #[trigger]
                            survivor(
                                pc_instance@,
                                a,
                                old(sol_map)@,
                                old(value_map)@,
                            ) implies a[index_pc.0 as int] != Some(new_value) by {
                            if a[index_pc.0 as int] == Some(new_value) {
                                assert(survivor(pc_instance@, a, prior_sol, prior_doms));
                                assert(pc_instance@.is_value(NodeIndex(nod_ind)));
                                assert(assigned(a, NodeIndex(nod_ind)) is Some);
                                assert(a[nod_ind as int] is Some);
                                assert(b.has(a[nod_ind as int].unwrap()));
                                assert(a[nod_ind as int] == Some(new_val));
                            }
                        }
                    }
                    return Ok(false);
                },
                Err(e) => {
                    return Err(e);
                },
            }
            proof {
                assert(queue_items(*queue).dom() =~= before.dom().remove(nod_ind));
                let step = prior_doms.update(nod_ind as int, Some(BitString::single(new_val)));
                assert(b.has(new_val));
                assert forall|a: Seq<Option<Value>>| #[trigger]
                    survivor(pc_instance@, a, old(sol_map)@, old(value_map)@) && a[index_pc.0 as int]
                        == Some(new_value) implies survivor(
                    pc_instance@,
                    a,
                    sol_map@,
                    value_map@,
                ) by {
                    assert(survivor(pc_instance@, a, prior_sol, prior_doms));
                    assert(pc_instance@.is_value(NodeIndex(nod_ind)));
                    assert(assigned(a, NodeIndex(nod_ind)) is Some);
                    assert(a[nod_ind as int] is Some);
                    assert(b.has(a[nod_ind as int].unwrap()));
                    assert(a[nod_ind as int] == Some(new_val));
                }
                assert forall|i: int, v: Value|
                    0 <= i < value_map@.len() && i != index_pc.0 && value_map@[i] is Some
                        && #[trigger] value_map@[i].unwrap().has(v) implies old(value_map)@[i] is Some
                    && old(value_map)@[i].unwrap().has(v) by {
                    assert(step[i] is Some && step[i].unwrap().has(v));
                    if i == nod_ind {
                        assert(v == new_val);
                        assert(prior_doms[i].unwrap().has(v));
                    } else {
                        assert(prior_doms[i].unwrap().has(v));
                    }
                }
            }
            unit =
            match queue_peek(queue) {
                Some((_, key)) => key.0 == -1,
                None => false,
            };
        }
        if queue_is_empty(queue) {
            return Ok(true);
        }
        match queue_peek(queue) {
            Some((item, key)) => {
                if key.0 == 0 {
                    proof {
                        lemma_no_candidate_dead(
                            pc_instance@,
                            sol_map@,
                            value_map@,
                            queue_items(*queue),
                            item,
                        );
                    }
                    return Ok(false);
                }
            },
            None => {},
        }
        Ok(true)
    }

    /// All solutions that extend the values decided in `sol_map`: the
    /// search takes the undecided node of the greatest priority, tries each
    /// of its candidates with unit propagation, and goes on in the same way
    /// wherever every node is left with a candidate.
    #[verifier::loop_isolation(false)]
    pub fn backtrack_inner<T, G>(
        &self,
        pc_instance: &PureCircuitGraph<T, G>,
        value_map: Vec<Option<BitString>>,
        queue: Queue,
        sol_map: Vec<Option<Value>>,
    ) -> (r: Result<Vec<Vec<Option<Value>>>, BacktrackError>)
        requires
            pc_instance.structure_wf(),
            search_state(pc_instance@, sol_map@, value_map@, queue_items(queue), None),
            consistent(pc_instance@, sol_map@),
        ensures
            r matches Ok(sols) ==> all_solutions(pc_instance@, sols@, sol_map@.len()),
            r matches Ok(sols) ==> complete(pc_instance@, sol_map@, value_map@, sols@),
            r matches Ok(sols) ==> distinct_from(sols@, sol_map@),
            r matches Err(e) ==> e.in_search(),
            all_indexed(pc_instance@) ==> r is Ok,
            clean(pc_instance@) && arc_all(pc_instance@, sol_map@, value_map@) ==> (r matches Ok(
                sols,
            ) ==> all_pass(pc_instance@, sols@)),
            purifier_free(pc_instance@) && fit_all(pc_instance@, sol_map@) ==> (r matches Ok(
                sols,
            ) ==> all_pass(pc_instance@, sols@)),
        decreases queue_items(queue).len(),
    {
        let mut queue = queue;
        let ghost start = queue_items(queue);
        let val_ind = match queue_pop(&mut queue) {
            Some((val_ind, _)) => val_ind,
            None => {
                let mut found: Vec<Vec<Option<Value>>> = Vec::new();
                let ghost leaf = sol_map@;
                found.push(sol_map);
                proof {
                    lemma_leaf(pc_instance@, leaf, value_map@, start, found@);
                    assert(is_solution(pc_instance@, found@[0]@));
                    if clean(pc_instance@) && arc_all(pc_instance@, leaf, value_map@) {
                        lemma_leaf_passes(pc_instance@, leaf, value_map@);
                    }
                    if purifier_free(pc_instance@) && fit_all(pc_instance@, leaf) {
                        lemma_fit_passes(pc_instance@, leaf);
                    }
                }
                return Ok(found);
            },
        };
        assert(start.contains_key(val_ind));
        let candidates = match value_map[val_ind as usize] {
            Some(set) => set.to_value_iter(),
            None => {
                return Err(BacktrackError::NodeMapping);
            },
        };
        let mut count: Vec<Vec<Option<Value>>> = Vec::new();
        let mut c: usize = 0;
        proof {
            lemma_none_tried(pc_instance@, sol_map@, value_map@, val_ind as int, candidates@, count@);
            value_map@[val_ind as int].unwrap().lemma_values_distinct();
        }
        while c < candidates.len()
            invariant
                c <= candidates@.len(),
                all_solutions(pc_instance@, count@, sol_map@.len()),
                tried(pc_instance@, sol_map@, value_map@, val_ind as int, candidates@, c as int, count@),
                distinct_from(count@, sol_map@),
                among(count@, val_ind as int, candidates@, c as int),
                clean(pc_instance@) && arc_all(pc_instance@, sol_map@, value_map@) ==> all_pass(
                    pc_instance@,
                    count@,
                ),
                purifier_free(pc_instance@) && fit_all(pc_instance@, sol_map@) ==> all_pass(
                    pc_instance@,
                    count@,
                ),
            decreases candidates@.len() - c,
        {
            let v = candidates[c];
            let mut sol_arr = copied(&sol_map);
            let mut val_map = copied(&value_map);
            let mut q = queue_clone(&queue);
            let ghost earlier = count@;
            proof {
                assert(candidates@.contains(v));
            }
            let res = match self.unit_propagate(
                NodeIndex(val_ind),
                v,
                &mut sol_arr,
                &mut val_map,
                &mut q,
                pc_instance,
            ) {
                Ok(res) => res,
                Err(e) => {
                    return Err(e);
                },
            };
            if res {
                proof {
                    vstd::set_lib::lemma_len_subset(queue_items(q).dom(), start.dom().remove(val_ind));
                }
                let ghost branch_sol = sol_arr@;
                let ghost branch_doms = val_map@;
                let mut more = match self.backtrack_inner(pc_instance, val_map, q, sol_arr) {
                    Ok(more) => more,
                    Err(e) => {
                        return Err(e);
                    },
                };
                let ghost added = more@;
                count.append(&mut more);
                proof {
                    if clean(pc_instance@) && arc_all(pc_instance@, sol_map@, value_map@) {
                        lemma_all_pass_joined(pc_instance@, earlier, added);
                    }
                    if purifier_free(pc_instance@) && fit_all(pc_instance@, sol_map@) {
                        lemma_all_pass_joined(pc_instance@, earlier, added);
                    }
                    lemma_branch_searched(
                        pc_instance@,
                        sol_map@,
                        value_map@,
                        val_ind as int,
                        candidates@,
                        c as int,
                        branch_sol,
                        branch_doms,
                        earlier,
                        added,
                        count@,
                    );
                }
            } else {
                proof {
                    lemma_branch_dead(
                        pc_instance@,
                        sol_map@,
                        value_map@,
                        val_ind as int,
                        candidates@,
                        c as int,
                        count@,
                    );
                }
            }
            c += 1;
        }
        proof {
            lemma_all_tried(pc_instance@, sol_map@, value_map@, start, val_ind, count@);
        }
        Ok(count)
    }

    /// All solutions of the circuit, found from the first undecided node
    /// on. `EmptyGraph` where no node is queued.
    pub fn backtrack_root<T, G>(
        &self,
        pc_instance: &PureCircuitGraph<T, G>,
        value_map: Vec<Option<BitString>>,
        queue: Queue,
    ) -> (r: Result<Vec<Vec<Option<Value>>>, BacktrackError>)
        requires
            pc_instance.structure_wf(),
            search_state(
                pc_instance@,
                undecided(value_map@.len()),
                value_map@,
                queue_items(queue),
                None,
            ),
        ensures
            r matches Ok(sols) ==> all_solutions(pc_instance@, sols@, value_map@.len()),
            r matches Ok(sols) ==> complete(
                pc_instance@,
                undecided(value_map@.len()),
                value_map@,
                sols@,
            ),
            r matches Ok(sols) ==> distinct_from(sols@, undecided(value_map@.len())),
            all_indexed(pc_instance@) && (exists|n: NodeIndex| pc_instance@.is_value(n))
                ==> r is Ok,
            clean(pc_instance@) ==> (r matches Ok(sols) ==> all_pass(pc_instance@, sols@)),
            purifier_free(pc_instance@) ==> (r matches Ok(sols) ==> all_pass(
                pc_instance@,
                sols@,
            )),
            (r matches Err(BacktrackError::EmptyGraph)) <==> forall|n: NodeIndex|
                !pc_instance@.is_value(n),
            r matches Err(e) ==> e == BacktrackError::EmptyGraph || e.in_search(),
    {
        proof {
            lemma_fit_start(pc_instance@, value_map@.len());
        }
        let mut sol_arr: Vec<Option<Value>> = Vec::new();
        let mut k: usize = 0;
        while k < value_map.len()
            invariant
                k <= value_map@.len(),
                sol_arr@ == undecided(k as nat),
            decreases value_map@.len() - k,
        {
            sol_arr.push(None);
            assert(sol_arr@ =~= undecided((k + 1) as nat));
            k += 1;
        }
        proof {
            let view = pc_instance@;
            assert forall|n: NodeIndex| tidy(view, n) implies #[trigger] satisfied(
                view,
                sol_arr@,
                n,
            ) by {
                let ins = view.ports(n, Direction::Incoming);
                assert(ins.len() >= 1);
                assert(assigned(sol_arr@, ins[0]) is None);
            }
            if forall|n: NodeIndex| !view.is_value(n) {
                assert forall|x: u32| !queue_items(queue).contains_key(x) by {
                    if queue_items(queue).contains_key(x) {
                        assert(value_map@[x as int] is Some);
                        assert(view.is_value(NodeIndex(x as int as u32)));
                    }
                }
            } else {
                let n = choose|n: NodeIndex| view.is_value(n);
                assert(value_map@[n.0 as int] is Some);
                assert(queue_items(queue).contains_key(n.0));
            }
        }
        if queue_is_empty(&queue) {
            return Err(BacktrackError::EmptyGraph);
        }
        let r = self.backtrack_inner(pc_instance, value_map, queue, sol_arr);
        r
    }
}

/// Whether the edges are no more than a gate has ports in one direction
/// and their slots are 1, 2, ..
fn slots_in_order(ports: &Vec<PortEdge>) -> (r: bool)
    ensures
        r == (ports@.len() <= MAX_DEGREE && forall|i: int|
            0 <= i < ports@.len() ==> (#[trigger] ports@[i]).slot == i + 1),
{
    if ports.len() > MAX_DEGREE {
        return false;
    }
    let mut k: usize = 0;
    while k < ports.len()
        invariant
            k <= ports@.len(),
            ports@.len() <= MAX_DEGREE,
            forall|i: int| 0 <= i < k ==> (#[trigger] ports@[i]).slot == i + 1,
        decreases ports@.len() - k,
    {
        if ports[k].slot != (k as u64) + 1 {
            return false;
        }
        k += 1;
    }
    true
}

impl<T, G> PureCircuitGraph<T, G> {
    /// Whether the search can tell the edges of every gate apart by slot:
    /// at each gate and in each direction they are no more than a gate has
    /// ports, and their slots are 1, 2, ..
    #[verifier::loop_isolation(false)]
    pub fn gates_indexed(&self) -> (r: bool)
        requires
            self.structure_wf(),
        ensures
            r == all_indexed(self@),
    {
        let gates = self.nodes_of_kind(NodeType::Gate);
        let ghost view = self@;
        proof {
            lemma_keep(view.node_ids(), view.of_kind(NodeType::Gate), CircuitView::<T, G>::index_key());
            assert forall|n: NodeIndex| view.is_gate(n) implies gates@.contains(n) by {
                assert(view.node_ids().contains(n));
                assert(view.of_kind(NodeType::Gate).contains(n));
            }
            assert forall|j: int| 0 <= j < gates@.len() implies view.is_gate(#[trigger] gates@[j]) by {
                assert(gates@.contains(gates@[j]));
                assert(view.of_kind(NodeType::Gate).contains(gates@[j]));
            }
        }
        let mut k: usize = 0;
        while k < gates.len()
            invariant
                k <= gates@.len(),
                forall|j: int| 0 <= j < k ==> indexed(view, #[trigger] gates@[j]),
            decreases gates@.len() - k,
        {
            let g = gates[k];
            assert(view.is_listing(g, Direction::Incoming, view.listing(g, Direction::Incoming)));
            assert(view.is_listing(g, Direction::Outgoing, view.listing(g, Direction::Outgoing)));
            let ins = self.ordered_ports(g, Direction::Incoming);
            let outs = self.ordered_ports(g, Direction::Outgoing);
            let first = slots_in_order(&ins);
            let second = slots_in_order(&outs);
            if !first || !second {
                proof {
                    if indexed(view, g) {
                        assert(view.listing(g, Direction::Incoming).len() <= MAX_DEGREE);
                        assert(view.listing(g, Direction::Outgoing).len() <= MAX_DEGREE);
                        if !first {
                            let i = choose|i: int|
                                0 <= i < ins@.len() && (#[trigger] ins@[i]).slot != i + 1;
                            assert(view.edges[view.listing(g, Direction::Incoming)[i]].slot == i
                                + 1);
                        } else {
                            let i = choose|i: int|
                                0 <= i < outs@.len() && (#[trigger] outs@[i]).slot != i + 1;
                            assert(view.edges[view.listing(g, Direction::Outgoing)[i]].slot == i
                                + 1);
                        }
                    }
                    assert(view.is_gate(g));
                }
                return false;
            }
            proof {
                assert(indexed(view, g)) by {
                    assert forall|d: Direction| #[trigger] view.listing(g, d).len()
                        <= MAX_DEGREE by {
                        match d {
                            Direction::Incoming => {},
                            Direction::Outgoing => {},
                        }
                    }
                    assert forall|d: Direction, i: int|
                        0 <= i < view.listing(g, d).len() implies (
                    #[trigger] view.edges[view.listing(g, d)[i]]).slot == i + 1 by {
                        match d {
                            Direction::Incoming => {
                                assert(ins@[i].slot == i + 1);
                            },
                            Direction::Outgoing => {
                                assert(outs@[i].slot == i + 1);
                            },
                        }
                    }
                }
            }
            k += 1;
        }
        proof {
            assert forall|n: NodeIndex| view.is_gate(n) implies #[trigger] indexed(view, n) by {
                assert(gates@.contains(n));
                let j = choose|j: int| 0 <= j < gates@.len() && gates@[j] == n;
                assert(indexed(view, gates@[j]));
            }
        }
        true
    }
}

/// What the search knows of a value node before it starts: its index,
/// whether no edge leads to it, and the number of its edges.
pub type NodeFacts = (NodeIndex, bool, usize);

impl<T, G> PureCircuitGraph<T, G> {
    /// The facts of every value node, each at the position of the node's
    /// index, with `None` at the positions of the gates and of the indices
    /// not in use. The list ends with the last value node.
    #[verifier::loop_isolation(false)]
    pub fn extract_node_graph(&self) -> (r: Vec<Option<NodeFacts>>)
        requires
            self.stored(),
        ensures
            r@.len() <= u32::MAX + 1,
            forall|n: NodeIndex| self@.is_value(n) ==> n.0 < r@.len(),
            forall|i: int|
                0 <= i < r@.len() ==> ((#[trigger] r@[i]) is Some <==> self@.is_value(
                    NodeIndex(i as u32),
                )),
            forall|i: int|
                0 <= i < r@.len() ==> ((#[trigger] r@[i]) matches Some(facts) ==> {
                    let n = NodeIndex(i as u32);
                    let ins = self@.edges_at(n, Direction::Incoming).len();
                    let outs = self@.edges_at(n, Direction::Outgoing).len();
                    &&& facts.0 == n
                    &&& facts.1 == (ins == 0)
                    &&& facts.2 == if ins + outs > usize::MAX {
                        usize::MAX
                    } else {
                        (ins + outs) as usize
                    }
                }),
            r@.len() > 0 ==> r@[r@.len() - 1] is Some,
            r@.len() == self@.value_span(),
    {
        let ids = self.nodes_of_kind(NodeType::Value);
        let ghost view = self@;
        proof {
            lemma_keep(view.node_ids(), view.of_kind(NodeType::Value), CircuitView::<T, G>::index_key());
            assert forall|n: NodeIndex| view.is_value(n) implies ids@.contains(n) by {
                assert(view.node_ids().contains(n));
                assert(view.of_kind(NodeType::Value).contains(n));
            }
            assert forall|j: int| 0 <= j < ids@.len() implies view.is_value(#[trigger] ids@[j]) by {
                assert(ids@.contains(ids@[j]));
                assert(view.of_kind(NodeType::Value).contains(ids@[j]));
            }
        }
        if ids.len() == 0 {
            proof {
                assert forall|n: NodeIndex| !view.is_value(n) by {
                    if view.is_value(n) {
                        assert(ids@.contains(n));
                    }
                }
            }
            return Vec::new();
        }
        let last = ids[ids.len() - 1];
        proof {
            self.lemma_index_fits(last);
            assert(ids@.last() == last);
        }
        let max_ind = last.index();
        let mut ret: Vec<Option<NodeFacts>> = Vec::new();
        let mut k: usize = 0;
        while k < max_ind + 1
            invariant
                k <= max_ind + 1,
                ret@.len() == k,
                forall|i: int| 0 <= i < k ==> (#[trigger] ret@[i]) is None,
            decreases max_ind + 1 - k,
        {
            ret.push(None);
            k += 1;
        }
        proof {
            assert forall|j: int| 0 <= j < ids@.len() implies (#[trigger] ids@[j]).0 <= max_ind by {
                if j < ids@.len() - 1 {
                    assert((CircuitView::<T, G>::index_key())(ids@[j]) < (CircuitView::<
                        T,
                        G,
                    >::index_key())(ids@[ids@.len() - 1]));
                }
            }
        }
        let mut k: usize = 0;
        while k < ids.len()
            invariant
                k <= ids@.len(),
                ret@.len() == max_ind + 1,
                forall|i: int|
                    0 <= i < ret@.len() ==> ((#[trigger] ret@[i]) is Some <==> exists|j: int|
                        0 <= j < k && ids@[j].0 == i),
                forall|i: int|
                    0 <= i < ret@.len() ==> ((#[trigger] ret@[i]) matches Some(facts) ==> {
                        let n = NodeIndex(i as u32);
                        let ins = view.edges_at(n, Direction::Incoming).len();
                        let outs = view.edges_at(n, Direction::Outgoing).len();
                        &&& facts.0 == n
                        &&& facts.1 == (ins == 0)
                        &&& facts.2 == if ins + outs > usize::MAX {
                            usize::MAX
                        } else {
                            (ins + outs) as usize
                        }
                    }),
            decreases ids@.len() - k,
        {
            let n = ids[k];
            let in_degree = self.degree_at(n, Direction::Incoming);
            let out_degree = self.degree_at(n, Direction::Outgoing);
            let ghost prior = ret@;
            ret[n.index()] = Some((n, in_degree == 0, in_degree.saturating_add(out_degree)));
            proof {
                assert forall|i: int| 0 <= i < ret@.len() implies ((#[trigger] ret@[i]) is Some
                    <==> exists|j: int| 0 <= j < k + 1 && ids@[j].0 == i) by {
                    if i == n.0 {
                        assert(ids@[k as int].0 == i);
                    } else {
                        if prior[i] is Some {
                            let j = choose|j: int| 0 <= j < k && ids@[j].0 == i;
                            assert(0 <= j < k + 1 && ids@[j].0 == i);
                        }
                        if exists|j: int| 0 <= j < k + 1 && ids@[j].0 == i {
                            let j = choose|j: int| 0 <= j < k + 1 && ids@[j].0 == i;
                            assert(j < k);
                        }
                    }
                }
            }
            k += 1;
        }
        proof {
            assert forall|i: int| 0 <= i < ret@.len() implies ((#[trigger] ret@[i]) is Some
                <==> view.is_value(NodeIndex(i as u32))) by {
                if ret@[i] is Some {
                    let j = choose|j: int| 0 <= j < ids@.len() && ids@[j].0 == i;
                    assert(view.is_value(ids@[j]));
                }
                if view.is_value(NodeIndex(i as u32)) {
                    assert(ids@.contains(NodeIndex(i as u32)));
                    let j = choose|j: int| 0 <= j < ids@.len() && ids@[j] == NodeIndex(i as u32);
                    assert(ids@[j].0 == i);
                }
            }
            assert forall|n: NodeIndex| view.is_value(n) implies n.0 < ret@.len() by {
                assert(ids@.contains(n));
                let j = choose|j: int| 0 <= j < ids@.len() && ids@[j] == n;
                assert(ids@[j].0 <= max_ind);
            }
            assert(ids@[ids@.len() - 1].0 == max_ind);
        }
        ret
    }
}

impl BacktrackAlgorithm {
    /// Solves the circuit by exhaustive search. Every list returned assigns
    /// a value to each value node, at the position of the node's index, and
    /// `None` elsewhere, so that each tidy gate accepts the values at its
    /// ports; no list is returned twice; and no assignment is left out under
    /// which every gate passes.
    ///
    /// `EmptyGraph` exactly when the circuit has no value node; `IndexIssue`
    /// exactly when it has one and the edges of some gate, in one direction,
    /// are more than a gate has ports or have other slots than 1, 2, ..;
    /// a list in every other case, which is empty where the values
    /// contradict each other whatever they are.
    ///
    /// Without purifiers, and with purifiers on a clean circuit, the lists
    /// returned are the assignments under which every gate passes, each of
    /// them once. Where every gate is wired as its arity asks and none is a
    /// purifier, these are the assignments that every gate accepts. Of the
    /// outputs that a purifier accepts after `Bot`, the search keeps those
    /// of which the first has a lower voltage than the second.
    #[verifier::loop_isolation(false)]
    pub fn calculate<T, G>(&self, pc_instance: &PureCircuitGraph<T, G>) -> (r: Result<
        Vec<Vec<Option<Value>>>,
        BacktrackError,
    >)
        requires
            pc_instance.structure_wf(),
        ensures
            r matches Ok(sols) ==> forall|k: int|
                0 <= k < sols@.len() ==> is_solution(pc_instance@, (#[trigger] sols@[k])@)
                    && sols@[k]@.len() == pc_instance@.value_span(),
            r matches Ok(sols) ==> forall|a: Seq<Option<Value>>|
                is_total(pc_instance@, a) && a.len() == pc_instance@.value_span() && #[trigger] passes_all(
                    pc_instance@,
                    a,
                ) ==> found_in(sols@, a),
            r matches Ok(sols) ==> forall|i: int, j: int|
                0 <= i < j < sols@.len() ==> (#[trigger] sols@[i])@ != (#[trigger] sols@[j])@,
            (r matches Err(BacktrackError::EmptyGraph)) <==> forall|n: NodeIndex|
                !pc_instance@.is_value(n),
            (r matches Err(BacktrackError::IndexIssue)) <==> (exists|n: NodeIndex|
                pc_instance@.is_value(n)) && !all_indexed(pc_instance@),
            r matches Err(e) ==> e == BacktrackError::EmptyGraph || e == BacktrackError::IndexIssue,
            r is Ok <==> (exists|n: NodeIndex| pc_instance@.is_value(n)) && all_indexed(
                pc_instance@,
            ),
            clean(pc_instance@) ==> (r matches Ok(sols) ==> forall|a: Seq<Option<Value>>|
                #[trigger] found_in(sols@, a) <==> a.len() == pc_instance@.value_span() && is_total(
                    pc_instance@,
                    a,
                ) && passes_all(pc_instance@, a)),
            purifier_free(pc_instance@) ==> (r matches Ok(sols) ==> forall|
                a: Seq<Option<Value>>,
            |
                #[trigger] found_in(sols@, a) <==> a.len() == pc_instance@.value_span() && is_total(
                    pc_instance@,
                    a,
                ) && passes_all(pc_instance@, a)),
            all_tidy(pc_instance@) && purifier_free(pc_instance@) ==> (r matches Ok(sols)
                ==> forall|a: Seq<Option<Value>>|
                #[trigger] found_in(sols@, a) <==> a.len() == pc_instance@.value_span()
                    && is_solution(pc_instance@, a)),
    {
        let node_array = pc_instance.extract_node_graph();
        if node_array.len() > 0 {
            proof {
                assert(pc_instance@.is_value(NodeIndex((node_array@.len() - 1) as u32)));
            }
            if !pc_instance.gates_indexed() {
                return Err(BacktrackError::IndexIssue);
            }
        }
        let mut value_map: Vec<Option<BitString>> = Vec::new();
        let mut queue = queue_new();
        let mut k: usize = 0;
        while k < node_array.len()
            invariant
                k <= node_array@.len(),
                value_map@.len() == k,
                forall|i: int|
                    0 <= i < k ==> ((#[trigger] value_map@[i]) is Some <==> node_array@[i] is Some),
                forall|i: int|
                    0 <= i < k && (#[trigger] value_map@[i]) is Some ==> value_map@[i]
                        == Some(BitString::spec_all()),
                forall|x: u32| #[trigger]
                    queue_items(queue).contains_key(x) ==> queue_items(queue)[x].0 == -3,
                queue_items(queue).dom().finite(),
                forall|x: u32| #[trigger]
                    queue_items(queue).contains_key(x) <==> x < k && node_array@[x as int] is Some,
            decreases node_array@.len() - k,
        {
            match node_array[k] {
                Some(facts) => {
                    value_map.push(Some(BitString::all()));
                    let key = BacktrackKey { value_len: 3, is_start: facts.1, neighbours: facts.2 };
                    queue_push(&mut queue, facts.0.0, key.rank());
                },
                None => {
                    value_map.push(None);
                },
            }
            k += 1;
        }
        proof {
            assert forall|a: Seq<Option<Value>>|
                is_total(pc_instance@, a) && a.len() == pc_instance@.value_span() && #[trigger] passes_all(
                    pc_instance@,
                    a,
                ) implies survivor(pc_instance@, a, undecided(value_map@.len()), value_map@) by {
                assert forall|i: int| 0 <= i < a.len() && (#[trigger] a[i]) is Some implies value_map@[i] is Some
                    && value_map@[i].unwrap().has(a[i].unwrap()) by {
                    assert(pc_instance@.is_value(NodeIndex(i as u32)));
                    assert(node_array@[i] is Some);
                    assert(value_map@[i] == Some(BitString::spec_all()));
                }
            }
        }
        let r = self.backtrack_root(pc_instance, value_map, queue);
        proof {
            if r is Ok && purifier_free(pc_instance@) {
                let sols = r->Ok_0;
                assert forall|a: Seq<Option<Value>>| #[trigger]
                    found_in(sols@, a) <==> a.len() == pc_instance@.value_span() && is_total(
                        pc_instance@,
                        a,
                    ) && passes_all(pc_instance@, a) by {
                    if found_in(sols@, a) {
                        let k = choose|k: int| 0 <= k < sols@.len() && (#[trigger] sols@[k])@ == a;
                        assert(is_solution(pc_instance@, sols@[k]@));
                        assert(passes_all(pc_instance@, sols@[k]@));
                    }
                }
            }
            if r is Ok && all_tidy(pc_instance@) && purifier_free(pc_instance@) {
                let sols = r->Ok_0;
                assert forall|a: Seq<Option<Value>>| #[trigger]
                    found_in(sols@, a) <==> a.len() == pc_instance@.value_span() && is_solution(
                        pc_instance@,
                        a,
                    ) by {
                    if found_in(sols@, a) {
                        let k = choose|k: int| 0 <= k < sols@.len() && (#[trigger] sols@[k])@ == a;
                        assert(is_solution(pc_instance@, sols@[k]@));
                    }
                    if is_total(pc_instance@, a) {
                        lemma_passes_iff_accepted(pc_instance@, a);
                    }
                }
            }
            if clean(pc_instance@) {
                if r is Ok {
                    let sols = r->Ok_0;
                    assert forall|a: Seq<Option<Value>>| #[trigger]
                        found_in(sols@, a) <==> a.len() == pc_instance@.value_span() && is_total(
                            pc_instance@,
                            a,
                        ) && passes_all(pc_instance@, a) by {
                        if found_in(sols@, a) {
                            let k = choose|k: int| 0 <= k < sols@.len() && (#[trigger] sols@[k])@ == a;
                            assert(is_solution(pc_instance@, sols@[k]@));
                            assert(passes_all(pc_instance@, sols@[k]@));
                        }
                    }
                }
            }
        }
        r
    }
}

/// The most value nodes of a circuit that is still solved by exhaustive
/// search.
pub const MAX_LIMIT: usize = 20;

impl BacktrackAlgorithm {
    /// Solves the circuit by exhaustive search if it has at most `limit`
    /// value nodes; `None`, without searching, if it has more.
    pub fn calculate_within<T, G>(&self, pc_instance: &PureCircuitGraph<T, G>, limit: usize) -> (r:
        Option<Result<Vec<Vec<Option<Value>>>, BacktrackError>>)
        requires
            pc_instance.structure_wf(),
        ensures
            r is None <==> pc_instance@.value_ids().len() > limit,
            r matches Some(Ok(sols)) ==> forall|k: int|
                0 <= k < sols@.len() ==> is_solution(pc_instance@, (#[trigger] sols@[k])@)
                    && sols@[k]@.len() == pc_instance@.value_span(),
            r matches Some(Ok(sols)) ==> forall|a: Seq<Option<Value>>|
                is_total(pc_instance@, a) && a.len() == pc_instance@.value_span() && #[trigger] passes_all(
                    pc_instance@,
                    a,
                ) ==> found_in(sols@, a),
            r matches Some(Ok(sols)) ==> forall|i: int, j: int|
                0 <= i < j < sols@.len() ==> (#[trigger] sols@[i])@ != (#[trigger] sols@[j])@,
            (r matches Some(Err(BacktrackError::EmptyGraph))) <==> forall|n: NodeIndex|
                !pc_instance@.is_value(n),
            (r matches Some(Err(BacktrackError::IndexIssue))) <==> r is Some && (exists|
                n: NodeIndex,
            | pc_instance@.is_value(n)) && !all_indexed(pc_instance@),
            r matches Some(Err(e)) ==> e == BacktrackError::EmptyGraph || e
                == BacktrackError::IndexIssue,
            clean(pc_instance@) ==> (r matches Some(Ok(sols)) ==> forall|a: Seq<Option<Value>>|
                #[trigger] found_in(sols@, a) <==> a.len() == pc_instance@.value_span() && is_total(
                    pc_instance@,
                    a,
                ) && passes_all(pc_instance@, a)),
            purifier_free(pc_instance@) ==> (r matches Some(Ok(sols)) ==> forall|
                a: Seq<Option<Value>>,
            |
                #[trigger] found_in(sols@, a) <==> a.len() == pc_instance@.value_span() && is_total(
                    pc_instance@,
                    a,
                ) && passes_all(pc_instance@, a)),
            all_tidy(pc_instance@) && purifier_free(pc_instance@) ==> (
            r matches Some(Ok(sols)) ==> forall|a: Seq<Option<Value>>|
                #[trigger] found_in(sols@, a) <==> a.len() == pc_instance@.value_span()
                    && is_solution(pc_instance@, a)),
    {
        if pc_instance.get_value_count() > limit {
            proof {
                let ids = pc_instance@.value_ids();
                assert(pc_instance@.value_ids().len() > 0);
                lemma_keep(
                    pc_instance@.node_ids(),
                    pc_instance@.of_kind(NodeType::Value),
                    CircuitView::<T, G>::index_key(),
                );
                assert(ids.contains(ids[0]));
                assert(pc_instance@.of_kind(NodeType::Value).contains(ids[0]));
                assert(pc_instance@.is_value(ids[0]));
            }
            None
        } else {
            Some(self.calculate(pc_instance))
        }
    }
}

impl<T, G> PureCircuitGraph<T, G> {
    /// Writes an assignment into the circuit: every value node gets the
    /// value at the position of its index, and the statuses of the gates are
    /// brought up to date. `IndexMismatch`, and nothing changes, where `v`
    /// has no value for a value node. Where `v` is a solution of the circuit,
    /// every tidy gate is left valid.
    #[verifier::loop_isolation(false)]
    pub fn from_backtrack_sol(&mut self, v: &[Option<Value>]) -> (r: Result<(), BacktrackError>)
        requires
            old(self).wf(),
        ensures
            final(self).wf(),
            final(self).free_nodes() == old(self).free_nodes(),
            final(self)@.edges == old(self)@.edges,
            final(self)@.nodes.dom() == old(self)@.nodes.dom(),
            r is Ok <==> forall|n: NodeIndex| old(self)@.is_value(n) ==> assigned(v@, n) is Some,
            r matches Err(e) ==> e == BacktrackError::IndexMismatch && final(self)@ == old(self)@,
            r is Ok ==> {
                &&& forall|n: NodeIndex| #[trigger]
                    old(self)@.nodes.contains_key(n) ==> {
                        &&& final(self)@.nodes[n].additional_info == old(self)@.nodes[n].additional_info
                        &&& final(self)@.is_gate(n) == old(self)@.is_gate(n)
                        &&& old(self)@.is_gate(n) ==> final(self)@.gate_at(n) == old(self)@.gate_at(n)
                    }
                &&& forall|n: NodeIndex|
                    old(self)@.is_value(n) ==> assigned(v@, n) == Some(
                        #[trigger] final(self)@.value_at(n),
                    )
                &&& is_solution(old(self)@, v@) ==> forall|n: NodeIndex|
                    tidy(old(self)@, n) ==> #[trigger] final(self)@.status_at(n)
                        == crate::gates::GateStatus::Valid
            },
    {
        let ids = self.nodes_of_kind(NodeType::Value);
        let ghost view = self@;
        proof {
            lemma_keep(view.node_ids(), view.of_kind(NodeType::Value), CircuitView::<T, G>::index_key());
            crate::graph::view::lemma_increasing_no_duplicates(
                ids@,
                CircuitView::<T, G>::index_key(),
            );
            assert forall|n: NodeIndex| view.is_value(n) implies ids@.contains(n) by {
                assert(view.node_ids().contains(n));
                assert(view.of_kind(NodeType::Value).contains(n));
            }
            assert forall|j: int| 0 <= j < ids@.len() implies view.is_value(#[trigger] ids@[j]) by {
                assert(ids@.contains(ids@[j]));
                assert(view.of_kind(NodeType::Value).contains(ids@[j]));
            }
        }
        let mut values: Vec<Value> = Vec::new();
        let mut k: usize = 0;
        while k < ids.len()
            invariant
                k <= ids@.len(),
                values@.len() == k,
                forall|j: int| 0 <= j < k ==> assigned(v@, ids@[j]) == Some(#[trigger] values@[j]),
            decreases ids@.len() - k,
        {
            let at = ids[k].index();
            if at >= v.len() {
                return Err(BacktrackError::IndexMismatch);
            }
            match v[at] {
                Some(value) => {
                    values.push(value);
                },
                None => {
                    return Err(BacktrackError::IndexMismatch);
                },
            }
            k += 1;
        }
        proof {
            assert forall|n: NodeIndex| view.is_value(n) implies assigned(v@, n) is Some by {
                assert(ids@.contains(n));
                let j = choose|j: int| 0 <= j < ids@.len() && ids@[j] == n;
                assert(assigned(v@, ids@[j]) == Some(values@[j]));
            }
        }
        self.assign_values(&ids, &values);
        proof {
            let after = self@;
            assert forall|n: NodeIndex| view.is_value(n) implies assigned(v@, n) == Some(
                #[trigger] after.value_at(n),
            ) by {
                assert(ids@.contains(n));
                let j = choose|j: int| 0 <= j < ids@.len() && ids@[j] == n;
                assert(assigned(v@, ids@[j]) == Some(values@[j]));
                assert(after.value_at(ids@[j]) == values@[j]);
            }
            if is_solution(view, v@) {
                assert forall|n: NodeIndex| tidy(view, n) implies #[trigger] after.status_at(n)
                    == crate::gates::GateStatus::Valid by {
                    lemma_solution_makes_valid(view, after, v@, n);
                }
            }
        }
        Ok(())
    }
}

} // verus!
