//! What a gate lets its ports be, once some of them are known.

use crate::gates::{Gate, Value};
use crate::solution_finders::backtracking::{BacktrackError, BitString};
use crate::solution_finders::base_finder::MAX_DEGREE;
use vstd::prelude::*;

verus! {

/// For each input port and each output port of a gate, the values that the
/// port may still take; `None` where a gate has no such port.
pub type BitStringIOState = ([Option<BitString>; MAX_DEGREE], [Option<BitString>; MAX_DEGREE]);

/// Whether `v` is what is known of a port, if anything is.
pub open spec fn agrees(known: Option<Value>, v: Value) -> bool {
    known matches Some(k) ==> k == v
}

/// The ports of a gate with one input and two outputs, each with a set.
pub open spec fn port_state(d: BitString, e: BitString, f: BitString) -> Option<
    (Seq<Option<BitString>>, Seq<Option<BitString>>),
> {
    Some((seq![Some(d), None], seq![Some(e), Some(f)]))
}

/// The ports of a gate with one input and two outputs, all three settled on `a`.
pub open spec fn settled(a: Value) -> Option<(Seq<Option<BitString>>, Seq<Option<BitString>>)> {
    port_state(BitString::single(a), BitString::single(a), BitString::single(a))
}

impl Gate {
    /// The second input as far as a gate of this kind has one.
    pub open spec fn second_input(self, i1: Option<Value>) -> Option<Value> {
        if self.spec_arity().0 == 2 {
            i1
        } else {
            None
        }
    }

    /// Whether the inputs `a` and `b` agree with what is known of the inputs,
    /// and the output that such a gate computes from them with what is known of
    /// the output.
    pub open spec fn fits(
        self,
        i0: Option<Value>,
        i1: Option<Value>,
        o0: Option<Value>,
        a: Value,
        b: Value,
    ) -> bool {
        &&& agrees(i0, a)
        &&& agrees(self.second_input(i1), b)
        &&& agrees(o0, self.eval(seq![a, b]))
    }

    /// Whether the first input is `a` in some assignment that fits.
    pub open spec fn first_may_be(
        self,
        i0: Option<Value>,
        i1: Option<Value>,
        o0: Option<Value>,
        a: Value,
    ) -> bool {
        ||| self.fits(i0, i1, o0, a, Value::Zero)
        ||| self.fits(i0, i1, o0, a, Value::Bot)
        ||| self.fits(i0, i1, o0, a, Value::One)
    }

    /// Whether the second input is `b` in some assignment that fits.
    pub open spec fn second_may_be(
        self,
        i0: Option<Value>,
        i1: Option<Value>,
        o0: Option<Value>,
        b: Value,
    ) -> bool {
        ||| self.fits(i0, i1, o0, Value::Zero, b)
        ||| self.fits(i0, i1, o0, Value::Bot, b)
        ||| self.fits(i0, i1, o0, Value::One, b)
    }

    /// Whether the output is `c` in some assignment that fits and has `a` as
    /// its first input.
    pub open spec fn output_via(
        self,
        i0: Option<Value>,
        i1: Option<Value>,
        o0: Option<Value>,
        a: Value,
        c: Value,
    ) -> bool {
        ||| self.fits(i0, i1, o0, a, Value::Zero) && self.eval(seq![a, Value::Zero]) == c
        ||| self.fits(i0, i1, o0, a, Value::Bot) && self.eval(seq![a, Value::Bot]) == c
        ||| self.fits(i0, i1, o0, a, Value::One) && self.eval(seq![a, Value::One]) == c
    }

    /// Whether the output is `c` in some assignment that fits.
    pub open spec fn output_may_be(
        self,
        i0: Option<Value>,
        i1: Option<Value>,
        o0: Option<Value>,
        c: Value,
    ) -> bool {
        ||| self.output_via(i0, i1, o0, Value::Zero, c)
        ||| self.output_via(i0, i1, o0, Value::Bot, c)
        ||| self.output_via(i0, i1, o0, Value::One, c)
    }

    /// What a gate with one output lets its ports be: each port keeps the
    /// values that it takes in some assignment of all ports that such a gate
    /// accepts and that agrees with what is known; with nothing known that is
    /// every value. `None` where no such assignment exists.
    pub open spec fn projected(self, i0: Option<Value>, i1: Option<Value>, o0: Option<Value>)
        -> Option<(Seq<Option<BitString>>, Seq<Option<BitString>>)>
        recommends
            self != Gate::Purify,
    {
        let d0 = BitString::of(|a: Value| self.first_may_be(i0, i1, o0, a));
        let d1 = BitString::of(|b: Value| self.second_may_be(i0, i1, o0, b));
        let d2 = BitString::of(|c: Value| self.output_may_be(i0, i1, o0, c));
        if d2 == BitString::spec_empty() {
            None
        } else {
            Some(
                (
                    seq![Some(d0), if self.spec_arity().0 == 2 { Some(d1) } else { None }],
                    seq![Some(d2), None],
                ),
            )
        }
    }

    /// What a purifier lets its ports be. With the input `Bot` the first
    /// output is kept at most `Bot` and the second at least `Bot`, which
    /// leaves one of each two mirrored pairs of outputs. With nothing known
    /// each port may have every value.
    pub open spec fn purified(
        i0: Option<Value>,
        i1: Option<Value>,
        o0: Option<Value>,
        o1: Option<Value>,
    ) -> Option<(Seq<Option<BitString>>, Seq<Option<BitString>>)> {
        match (i0, o0, o1) {
            (None, None, None) => port_state(
                BitString::spec_all(),
                BitString::spec_all(),
                BitString::spec_all(),
            ),
            (Some(a), None, None) => if a != Value::Bot {
                settled(a)
            } else {
                port_state(
                    BitString::single(a),
                    BitString::spec_smaller_than(Value::Bot),
                    BitString::spec_greater_than(Value::Bot),
                )
            },
            (None, Some(x), None) => match x {
                Value::Bot => port_state(
                    BitString::single(Value::Bot),
                    BitString::single(Value::Bot),
                    BitString::single(Value::One),
                ),
                Value::One => settled(Value::One),
                Value::Zero => port_state(
                    BitString::spec_smaller_than(Value::Bot),
                    BitString::single(Value::Zero),
                    BitString::spec_all(),
                ),
            },
            (None, None, Some(y)) => match y {
                Value::Bot => port_state(
                    BitString::single(Value::Bot),
                    BitString::single(Value::Zero),
                    BitString::single(Value::Bot),
                ),
                Value::One => port_state(
                    BitString::spec_greater_than(Value::Bot),
                    BitString::spec_all(),
                    BitString::single(Value::One),
                ),
                Value::Zero => settled(Value::Zero),
            },
            (None, Some(x), Some(y)) => if x.voltage() < y.voltage() {
                port_state(BitString::single(Value::Bot), BitString::single(x), BitString::single(y))
            } else if x == y && x != Value::Bot {
                settled(x)
            } else {
                None
            },
            (Some(a), Some(x), None) => if a != Value::Bot {
                if a == x {
                    settled(a)
                } else {
                    None
                }
            } else if x != Value::One {
                port_state(
                    BitString::single(Value::Bot),
                    BitString::single(x),
                    BitString::spec_greater_than(Value::Bot).spec_remove(x),
                )
            } else {
                None
            },
            (Some(a), None, Some(y)) => if a != Value::Bot {
                if a == y && (a == Value::Zero || i1 is None) {
                    settled(a)
                } else {
                    None
                }
            } else if y != Value::Zero {
                port_state(
                    BitString::single(Value::Bot),
                    BitString::spec_smaller_than(Value::Bot).spec_remove(y),
                    BitString::single(y),
                )
            } else {
                None
            },
            (Some(a), Some(x), Some(y)) => if Gate::Purify.accepts(seq![a], seq![x, y]) {
                port_state(BitString::single(a), BitString::single(x), BitString::single(y))
            } else {
                None
            },
        }
    }

    /// What a gate of this kind lets its ports be, given what is known of them.
    pub open spec fn propagated(
        self,
        ins: Seq<Option<Value>>,
        outs: Seq<Option<Value>>,
    ) -> Option<(Seq<Option<BitString>>, Seq<Option<BitString>>)>
        recommends
            ins.len() == MAX_DEGREE,
            outs.len() == MAX_DEGREE,
    {
        if self == Gate::Purify {
            Gate::purified(ins[0], ins[1], outs[0], outs[1])
        } else {
            self.projected(ins[0], ins[1], outs[0])
        }
    }
}


/// The state of a gate with at most two inputs and one output.
fn one_output(d0: BitString, d1: Option<BitString>, d2: BitString) -> (r: BitStringIOState)
    ensures
        r.0@ == seq![Some(d0), d1],
        r.1@ == seq![Some(d2), None],
{
    let r: BitStringIOState = ([Some(d0), d1], [Some(d2), None]);
    assert(r.0@ =~= seq![Some(d0), d1]);
    assert(r.1@ =~= seq![Some(d2), None]);
    r
}

/// The state of a gate with one input and two outputs.
fn two_outputs(d: BitString, e: BitString, f: BitString) -> (r: BitStringIOState)
    ensures
        Some((r.0@, r.1@)) == port_state(d, e, f),
{
    let r: BitStringIOState = ([Some(d), None], [Some(e), Some(f)]);
    assert(r.0@ =~= seq![Some(d), None]);
    assert(r.1@ =~= seq![Some(e), Some(f)]);
    r
}

impl Gate {
    /// Propagation through `Copy` and `Not`, which read their first input
    /// and their first output only.
    fn set_unary(self, i0: Option<Value>, o0: Option<Value>) -> (r: Result<
        BitStringIOState,
        BacktrackError,
    >)
        requires
            self == Gate::Copy || self == Gate::Not,
        ensures
            match r {
                Ok(d) => forall|i1: Option<Value>| #[trigger]
                    self.projected(i0, i1, o0) == Some((d.0@, d.1@)),
                Err(e) => e == BacktrackError::IncorrectAssignment(self) && forall|
                    i1: Option<Value>,
                | #[trigger] self.projected(i0, i1, o0) is None,
            },
    {
        let flip = self == Gate::Not;
        match (i0, o0) {
            (Some(v), None) => {
                let w = if flip { v.inverse() } else { v };
                Ok(one_output(BitString::from(v), None, BitString::from(w)))
            },
            (None, Some(v)) => {
                let w = if flip { v.inverse() } else { v };
                Ok(one_output(BitString::from(w), None, BitString::from(v)))
            },
            (Some(a), Some(b)) => {
                let w = if flip { b.inverse() } else { b };
                if a == w {
                    Ok(one_output(BitString::from(a), None, BitString::from(b)))
                } else {
                    Err(BacktrackError::IncorrectAssignment(self))
                }
            },
            (None, None) => Ok(one_output(BitString::all(), None, BitString::all())),
        }
    }

    /// Propagation through `And`.
    fn set_and(i0: Option<Value>, i1: Option<Value>, o0: Option<Value>) -> (r: Result<
        BitStringIOState,
        BacktrackError,
    >)
        ensures
            match r {
                Ok(d) => Gate::And.projected(i0, i1, o0) == Some((d.0@, d.1@)),
                Err(e) => e == BacktrackError::IncorrectAssignment(Gate::And)
                    && Gate::And.projected(i0, i1, o0) is None,
            },
    {
        match (i0, i1, o0) {
            (None, None, Some(v)) => Ok(
                one_output(
                    BitString::greater_than(v),
                    Some(BitString::greater_than(v)),
                    BitString::from(v),
                ),
            ),
            (None, Some(v), None) => Ok(
                one_output(
                    BitString::all(),
                    Some(BitString::from(v)),
                    BitString::smaller_than(v),
                ),
            ),
            (Some(v), None, None) => Ok(
                one_output(
                    BitString::from(v),
                    Some(BitString::all()),
                    BitString::smaller_than(v),
                ),
            ),
            (None, Some(a), Some(v)) => {
                if v.voltage_rank() <= a.voltage_rank() {
                    let free = if a == v {
                        BitString::greater_than(a)
                    } else {
                        BitString::from(v)
                    };
                    Ok(one_output(free, Some(BitString::from(a)), BitString::from(v)))
                } else {
                    Err(BacktrackError::IncorrectAssignment(Gate::And))
                }
            },
            (Some(a), None, Some(v)) => {
                if v.voltage_rank() <= a.voltage_rank() {
                    let free = if a == v {
                        BitString::greater_than(a)
                    } else {
                        BitString::from(v)
                    };
                    Ok(one_output(BitString::from(a), Some(free), BitString::from(v)))
                } else {
                    Err(BacktrackError::IncorrectAssignment(Gate::And))
                }
            },
            (Some(a), Some(b), None) => Ok(
                one_output(
                    BitString::from(a),
                    Some(BitString::from(b)),
                    BitString::from(a.voltage_min(b)),
                ),
            ),
            (Some(a), Some(b), Some(v)) => {
                if a.voltage_min(b) == v {
                    Ok(one_output(BitString::from(a), Some(BitString::from(b)), BitString::from(v)))
                } else {
                    Err(BacktrackError::IncorrectAssignment(Gate::And))
                }
            },
            (None, None, None) => Ok(
                one_output(BitString::all(), Some(BitString::all()), BitString::all()),
            ),
        }
    }

    /// Propagation through `Or`.
    fn set_or(i0: Option<Value>, i1: Option<Value>, o0: Option<Value>) -> (r: Result<
        BitStringIOState,
        BacktrackError,
    >)
        ensures
            match r {
                Ok(d) => Gate::Or.projected(i0, i1, o0) == Some((d.0@, d.1@)),
                Err(e) => e == BacktrackError::IncorrectAssignment(Gate::Or)
                    && Gate::Or.projected(i0, i1, o0) is None,
            },
    {
        match (i0, i1, o0) {
            (None, None, Some(v)) => Ok(
                one_output(
                    BitString::smaller_than(v),
                    Some(BitString::smaller_than(v)),
                    BitString::from(v),
                ),
            ),
            (None, Some(v), None) => Ok(
                one_output(
                    BitString::all(),
                    Some(BitString::from(v)),
                    BitString::greater_than(v),
                ),
            ),
            (Some(v), None, None) => Ok(
                one_output(
                    BitString::from(v),
                    Some(BitString::all()),
                    BitString::greater_than(v),
                ),
            ),
            (None, Some(a), Some(v)) => {
                if a.voltage_rank() <= v.voltage_rank() {
                    let free = if a == v {
                        BitString::smaller_than(a)
                    } else {
                        BitString::from(v)
                    };
                    Ok(one_output(free, Some(BitString::from(a)), BitString::from(v)))
                } else {
                    Err(BacktrackError::IncorrectAssignment(Gate::Or))
                }
            },
            (Some(a), None, Some(v)) => {
                if a.voltage_rank() <= v.voltage_rank() {
                    let free = if a == v {
                        BitString::smaller_than(a)
                    } else {
                        BitString::from(v)
                    };
                    Ok(one_output(BitString::from(a), Some(free), BitString::from(v)))
                } else {
                    Err(BacktrackError::IncorrectAssignment(Gate::Or))
                }
            },
            (Some(a), Some(b), None) => Ok(
                one_output(
                    BitString::from(a),
                    Some(BitString::from(b)),
                    BitString::from(a.voltage_max(b)),
                ),
            ),
            (Some(a), Some(b), Some(v)) => {
                if a.voltage_max(b) == v {
                    Ok(one_output(BitString::from(a), Some(BitString::from(b)), BitString::from(v)))
                } else {
                    Err(BacktrackError::IncorrectAssignment(Gate::Or))
                }
            },
            (None, None, None) => Ok(
                one_output(BitString::all(), Some(BitString::all()), BitString::all()),
            ),
        }
    }

    /// Propagation through `Nor` and `Nand`: that of `And` and `Or` on the
    /// inverted inputs, with the sets of the inputs turned back.
    fn set_inverted(self, i0: Option<Value>, i1: Option<Value>, o0: Option<Value>) -> (r: Result<
        BitStringIOState,
        BacktrackError,
    >)
        requires
            self == Gate::Nor || self == Gate::Nand,
        ensures
            match r {
                Ok(d) => self.projected(i0, i1, o0) == Some((d.0@, d.1@)),
                Err(e) => e == BacktrackError::IncorrectAssignment(self) && self.projected(
                    i0,
                    i1,
                    o0,
                ) is None,
            },
    {
        let n0 = match i0 {
            Some(x) => Some(x.inverse()),
            None => None,
        };
        let n1 = match i1 {
            Some(x) => Some(x.inverse()),
            None => None,
        };
        let inner = if self == Gate::Nor {
            Gate::set_and(n0, n1, o0)
        } else {
            Gate::set_or(n0, n1, o0)
        };
        let (ins, outs) = match inner {
            Ok(state) => state,
            Err(_) => {
                return Err(BacktrackError::IncorrectAssignment(self));
            },
        };
        let v0 = match i0 {
            Some(value) => Some(BitString::from(value)),
            None => match ins[0] {
                Some(set) => Some(set.flip()),
                None => None,
            },
        };
        let v1 = match i1 {
            Some(value) => Some(BitString::from(value)),
            None => match ins[1] {
                Some(set) => Some(set.flip()),
                None => None,
            },
        };
        let vals: [Option<BitString>; MAX_DEGREE] = [v0, v1];
        proof {
            assert(ins@[0] == ins[0] && ins@[1] == ins[1]);
            assert(outs@[0] == outs[0] && outs@[1] == outs[1]);
            let expected = self.projected(i0, i1, o0).unwrap();
            let (expected_ins, expected_outs) = expected;
            assert(vals@ =~= expected_ins);
            assert(outs@ =~= expected_outs);
        }
        Ok((vals, outs))
    }

    /// Propagation through a purifier.
    fn set_purify(i0: Option<Value>, i1: Option<Value>, o0: Option<Value>, o1: Option<Value>) -> (r:
        Result<BitStringIOState, BacktrackError>)
        ensures
            match r {
                Ok(d) => Gate::purified(i0, i1, o0, o1) == Some((d.0@, d.1@)),
                Err(e) => e == BacktrackError::IncorrectAssignment(Gate::Purify) && Gate::purified(
                    i0,
                    i1,
                    o0,
                    o1,
                ) is None,
            },
    {
        let fail = Err(BacktrackError::IncorrectAssignment(Gate::Purify));
        match (i0, o0, o1) {
            // the input alone
            (Some(b), None, None) => {
                if b != b.inverse() {
                    Ok(two_outputs(BitString::from(b), BitString::from(b), BitString::from(b)))
                } else {
                    Ok(
                        two_outputs(
                            BitString::from(b),
                            BitString::smaller_than(Value::Bot),
                            BitString::greater_than(Value::Bot),
                        ),
                    )
                }
            },
            // the first output alone
            (None, Some(Value::Bot), None) => Ok(
                two_outputs(
                    BitString::from(Value::Bot),
                    BitString::from(Value::Bot),
                    BitString::from(Value::One),
                ),
            ),
            (None, Some(Value::One), None) => Ok(
                two_outputs(
                    BitString::from(Value::One),
                    BitString::from(Value::One),
                    BitString::from(Value::One),
                ),
            ),
            (None, Some(Value::Zero), None) => Ok(
                two_outputs(
                    BitString::smaller_than(Value::Bot),
                    BitString::from(Value::Zero),
                    BitString::all(),
                ),
            ),
            // the second output alone
            (None, None, Some(Value::Bot)) => Ok(
                two_outputs(
                    BitString::from(Value::Bot),
                    BitString::from(Value::Zero),
                    BitString::from(Value::Bot),
                ),
            ),
            (None, None, Some(Value::One)) => Ok(
                two_outputs(
                    BitString::greater_than(Value::Bot),
                    BitString::all(),
                    BitString::from(Value::One),
                ),
            ),
            (None, None, Some(Value::Zero)) => Ok(
                two_outputs(
                    BitString::from(Value::Zero),
                    BitString::from(Value::Zero),
                    BitString::from(Value::Zero),
                ),
            ),
            // both outputs
            (None, Some(a), Some(b)) => {
                if a.voltage_rank() < b.voltage_rank() || (a == b && a != Value::Bot) {
                    let source = if a == b {
                        BitString::from(a)
                    } else {
                        BitString::from(Value::Bot)
                    };
                    Ok(two_outputs(source, BitString::from(a), BitString::from(b)))
                } else {
                    fail
                }
            },
            // the input and one output
            (Some(a), Some(b), None) => {
                if a == b && a != Value::Bot {
                    Ok(two_outputs(BitString::from(a), BitString::from(a), BitString::from(a)))
                } else if a == Value::Bot && b != Value::One {
                    Ok(
                        two_outputs(
                            BitString::from(Value::Bot),
                            BitString::from(b),
                            BitString::greater_than(Value::Bot).remove(b),
                        ),
                    )
                } else {
                    fail
                }
            },
            (Some(a), None, Some(b)) => {
                if a == b && a != Value::Bot && (a == Value::Zero || i1.is_none()) {
                    Ok(two_outputs(BitString::from(a), BitString::from(a), BitString::from(a)))
                } else if a == Value::Bot && b != Value::Zero {
                    Ok(
                        two_outputs(
                            BitString::from(Value::Bot),
                            BitString::smaller_than(Value::Bot).remove(b),
                            BitString::from(b),
                        ),
                    )
                } else {
                    fail
                }
            },
            // all three
            (Some(a), Some(b), Some(c)) => {
                let holds = if a == Value::Bot {
                    b != Value::Bot || c != Value::Bot
                } else {
                    b == a && c == a
                };
                if holds {
                    Ok(two_outputs(BitString::from(a), BitString::from(b), BitString::from(c)))
                } else {
                    fail
                }
            },
            // nothing
            (None, None, None) => Ok(
                two_outputs(BitString::all(), BitString::all(), BitString::all()),
            ),
        }
    }

    /// For every port of a gate of this kind, the values that the port may still take
    /// when the ports given as `Some` have the values given: every value
    /// where nothing is known. `Err` with `IncorrectAssignment` where what is
    /// known contradicts such a gate.
    pub fn set_value(
        &self,
        assingment_input: [Option<Value>; MAX_DEGREE],
        assignment_output: [Option<Value>; MAX_DEGREE],
    ) -> (r: Result<BitStringIOState, BacktrackError>)
        ensures
            match r {
                Ok(d) => self.propagated(assingment_input@, assignment_output@) == Some(
                    (d.0@, d.1@),
                ),
                Err(e) => e == BacktrackError::IncorrectAssignment(*self) && self.propagated(
                    assingment_input@,
                    assignment_output@,
                ) is None,
            },
    {
        let i0 = assingment_input[0];
        let i1 = assingment_input[1];
        let o0 = assignment_output[0];
        let o1 = assignment_output[1];
        match self {
            Gate::Not | Gate::Copy => self.set_unary(i0, o0),
            Gate::And => Gate::set_and(i0, i1, o0),
            Gate::Or => Gate::set_or(i0, i1, o0),
            Gate::Nor | Gate::Nand => self.set_inverted(i0, i1, o0),
            Gate::Purify => Gate::set_purify(i0, i1, o0, o1),
        }
    }

    /// With every port of a gate known, propagation succeeds exactly when
    /// that gate accepts the values, and then settles each port on its value.
    pub proof fn lemma_propagated_all_known(
        self,
        ins: Seq<Option<Value>>,
        outs: Seq<Option<Value>>,
        in_vals: Seq<Value>,
        out_vals: Seq<Value>,
    )
        requires
            ins.len() == MAX_DEGREE,
            outs.len() == MAX_DEGREE,
            in_vals.len() == self.spec_arity().0,
            out_vals.len() == self.spec_arity().1,
            forall|i: int| 0 <= i < in_vals.len() ==> ins[i] == Some(in_vals[i]),
            forall|i: int| 0 <= i < out_vals.len() ==> outs[i] == Some(out_vals[i]),
        ensures
            self.propagated(ins, outs) is Some <==> self.spec_check(in_vals, out_vals) == Ok::<
                bool,
                crate::gates::GateError,
            >(true),
            self.propagated(ins, outs) matches Some(d) ==> {
                &&& forall|i: int|
                    0 <= i < in_vals.len() ==> d.0[i] == Some(BitString::single(in_vals[i]))
                &&& forall|i: int|
                    0 <= i < out_vals.len() ==> d.1[i] == Some(BitString::single(out_vals[i]))
            },
    {
        assert(ins[0] == Some(in_vals[0]));
        assert(outs[0] == Some(out_vals[0]));
        if self.spec_arity().0 == 2 {
            assert(ins[1] == Some(in_vals[1]));
            assert(seq![in_vals[0], in_vals[1]] =~= in_vals);
        }
        if self.spec_arity().1 == 2 {
            assert(outs[1] == Some(out_vals[1]));
            assert(seq![out_vals[0], out_vals[1]] =~= out_vals);
            assert(seq![in_vals[0]] =~= in_vals);
        }
        if self != Gate::Purify {
            let a = in_vals[0];
            let b = if self.spec_arity().0 == 2 {
                in_vals[1]
            } else {
                Value::Zero
            };
            assert(self.eval(seq![a, b]) == self.eval(in_vals));
            assert(self.eval(seq![a, Value::Zero]) == self.eval(seq![a, b]) || self.spec_arity().0
                == 2);
            assert(self.eval(seq![a, Value::Bot]) == self.eval(seq![a, b]) || self.spec_arity().0
                == 2);
            assert(self.eval(seq![a, Value::One]) == self.eval(seq![a, b]) || self.spec_arity().0
                == 2);
        }
    }

    /// A port that is known stays settled on its value.
    pub proof fn lemma_propagated_keeps_known(
        self,
        ins: Seq<Option<Value>>,
        outs: Seq<Option<Value>>,
    )
        requires
            ins.len() == MAX_DEGREE,
            outs.len() == MAX_DEGREE,
        ensures
            self.propagated(ins, outs) matches Some(d) ==> {
                &&& d.0.len() == MAX_DEGREE
                &&& d.1.len() == MAX_DEGREE
                &&& forall|i: int|
                    0 <= i < self.spec_arity().0 ==> d.0[i] is Some && (ins[i] matches Some(v)
                        ==> d.0[i] == Some(BitString::single(v)))
                &&& forall|i: int|
                    0 <= i < self.spec_arity().1 ==> d.1[i] is Some && (outs[i] matches Some(v)
                        ==> d.1[i] == Some(BitString::single(v)))
                &&& forall|i: int| self.spec_arity().0 <= i < MAX_DEGREE ==> d.0[i] is None
                &&& forall|i: int| self.spec_arity().1 <= i < MAX_DEGREE ==> d.1[i] is None
            },
    {
    }

    /// For a gate with one output, propagation loses no assignment: values
    /// of the ports that such a gate accepts and that agree with what is known
    /// lie in the sets that propagation gives, and propagation succeeds on
    /// what is known.
    pub proof fn lemma_projected_keeps_solutions(
        self,
        ins: Seq<Option<Value>>,
        outs: Seq<Option<Value>>,
        a: Value,
        b: Value,
    )
        requires
            self != Gate::Purify,
            ins.len() == MAX_DEGREE,
            outs.len() == MAX_DEGREE,
            self.fits(ins[0], ins[1], outs[0], a, b),
        ensures
            self.propagated(ins, outs) matches Some(d) && {
                &&& d.0[0] is Some && d.0[0].unwrap().has(a)
                &&& self.spec_arity().0 == 2 ==> d.0[1] is Some && d.0[1].unwrap().has(b)
                &&& d.1[0] is Some && d.1[0].unwrap().has(self.eval(seq![a, b]))
            },
    {
        let c = self.eval(seq![a, b]);
        assert(self.output_via(ins[0], ins[1], outs[0], a, c));
        assert(self.output_may_be(ins[0], ins[1], outs[0], c));
        assert(self.first_may_be(ins[0], ins[1], outs[0], a));
        assert(self.second_may_be(ins[0], ins[1], outs[0], b));
    }
}

/// What is known of the four ports that propagation reads: the first two
/// inputs and the first two outputs of a gate.
pub type Known = (Option<Value>, Option<Value>, Option<Value>, Option<Value>);

/// Whether a purifier, as propagation reads it, may have the outputs `c` and
/// `d` on the input `a`: a determined input goes to both outputs, and `Bot`
/// to two outputs of which the first has the lower voltage.
pub open spec fn purifies(a: Value, c: Value, d: Value) -> bool {
    if a == Value::Bot {
        c.voltage() < d.voltage()
    } else {
        c == a && d == a
    }
}

/// What the search lets a purifier have, a purifier accepts. The search
/// leaves out what else it accepts: after `Bot`, two outputs of which the
/// first has no lower voltage than the second.
pub proof fn lemma_purifies_accepted(a: Value, c: Value, d: Value)
    ensures
        purifies(a, c, d) ==> Gate::Purify.accepts(seq![a], seq![c, d]),
        Gate::Purify.accepts(seq![a], seq![c, d]) && !purifies(a, c, d) ==> a == Value::Bot
            && c.voltage() >= d.voltage(),
{
}

/// Whether a purifier may have the input `a` and the outputs `c` and `d`,
/// and these agree with what is known of its ports.
pub open spec fn pur_fits(k: Known, a: Value, c: Value, d: Value) -> bool {
    &&& agrees(k.0, a)
    &&& agrees(k.2, c)
    &&& agrees(k.3, d)
    &&& purifies(a, c, d)
}

/// Whether a purifier may have the input `a` and the first output `c` with
/// some second output.
pub open spec fn pur_with(k: Known, a: Value, c: Value) -> bool {
    ||| pur_fits(k, a, c, Value::Zero)
    ||| pur_fits(k, a, c, Value::Bot)
    ||| pur_fits(k, a, c, Value::One)
}

/// Whether a purifier may have the input `a` and the second output `d` with
/// some first output.
pub open spec fn pur_upto(k: Known, a: Value, d: Value) -> bool {
    ||| pur_fits(k, a, Value::Zero, d)
    ||| pur_fits(k, a, Value::Bot, d)
    ||| pur_fits(k, a, Value::One, d)
}

impl Gate {
    /// Whether a gate of this kind has a port at the position `port`: 0 and 1
    /// for the inputs, 2 and 3 for the outputs.
    pub open spec fn has_port(self, port: int) -> bool {
        ||| port == 0
        ||| port == 1 && self.spec_arity().0 == 2
        ||| port == 2
        ||| port == 3 && self.spec_arity().1 == 2
    }

    /// What is known of the port at the position `port`.
    pub open spec fn known_port(k: Known, port: int) -> Option<Value> {
        if port == 0 {
            k.0
        } else if port == 1 {
            k.1
        } else if port == 2 {
            k.2
        } else {
            k.3
        }
    }

    /// What is known once the port at the position `port` is known to be `v`.
    pub open spec fn with_port(k: Known, port: int, v: Value) -> Known {
        if port == 0 {
            (Some(v), k.1, k.2, k.3)
        } else if port == 1 {
            (k.0, Some(v), k.2, k.3)
        } else if port == 2 {
            (k.0, k.1, Some(v), k.3)
        } else {
            (k.0, k.1, k.2, Some(v))
        }
    }

    /// What is known of the ports that a gate of this kind has.
    pub open spec fn own(self, k: Known) -> Known {
        (
            k.0,
            if self.spec_arity().0 == 2 {
                k.1
            } else {
                None
            },
            k.2,
            if self.spec_arity().1 == 2 {
                k.3
            } else {
                None
            },
        )
    }

    /// Whether anything is known of the ports that a gate of this kind has.
    pub open spec fn any_known(self, k: Known) -> bool {
        let o = self.own(k);
        o.0 is Some || o.1 is Some || o.2 is Some || o.3 is Some
    }

    /// Whether the port at the position `port` is `v` in some assignment of
    /// the ports that a gate of this kind may have, as propagation reads it,
    /// and that agrees with what is known.
    pub open spec fn may_be(self, k: Known, port: int, v: Value) -> bool {
        if self == Gate::Purify {
            if port == 0 {
                pur_with(k, v, Value::Zero) || pur_with(k, v, Value::Bot) || pur_with(
                    k,
                    v,
                    Value::One,
                )
            } else if port == 2 {
                pur_with(k, Value::Zero, v) || pur_with(k, Value::Bot, v) || pur_with(
                    k,
                    Value::One,
                    v,
                )
            } else if port == 3 {
                pur_upto(k, Value::Zero, v) || pur_upto(k, Value::Bot, v) || pur_upto(
                    k,
                    Value::One,
                    v,
                )
            } else {
                false
            }
        } else if port == 0 {
            self.first_may_be(k.0, k.1, k.2, v)
        } else if port == 1 {
            self.spec_arity().0 == 2 && self.second_may_be(k.0, k.1, k.2, v)
        } else if port == 2 {
            self.output_may_be(k.0, k.1, k.2, v)
        } else {
            false
        }
    }

    /// Whether some assignment of the ports that a gate of this kind may
    /// have, as propagation reads it, agrees with what is known. Of a
    /// purifier no second input may be known: it has none, and propagation
    /// through one that is given a second input follows no rule.
    pub open spec fn completable(self, k: Known) -> bool {
        &&& self == Gate::Purify ==> k.1 is None
        &&& {
            ||| self.may_be(k, 0, Value::Zero)
            ||| self.may_be(k, 0, Value::Bot)
            ||| self.may_be(k, 0, Value::One)
        }
    }

    /// Whether what is known, where it is known of every port of a purifier,
    /// is what a purifier may have as propagation reads it.
    pub open spec fn settled_right(self, k: Known) -> bool {
        self == Gate::Purify && k.0 is Some && k.2 is Some && k.3 is Some ==> purifies(
            k.0.unwrap(),
            k.2.unwrap(),
            k.3.unwrap(),
        )
    }

    /// The set that propagation gives for the port at the position `port`.
    pub open spec fn set_at(d: (Seq<Option<BitString>>, Seq<Option<BitString>>), port: int)
        -> Option<BitString> {
        if port < 2 {
            d.0[port]
        } else {
            d.1[port - 2]
        }
    }

    /// Propagation loses nothing: where it succeeds, the sets that it gives
    /// hold every value that a port may be.
    pub proof fn lemma_propagated_keeps(self, k: Known, port: int, v: Value)
        requires
            self.has_port(port),
            self.may_be(k, port, v),
            self.propagated(seq![k.0, k.1], seq![k.2, k.3]) is Some,
        ensures
            ({
                let d = self.propagated(seq![k.0, k.1], seq![k.2, k.3]).unwrap();
                Gate::set_at(d, port) is Some && Gate::set_at(d, port).unwrap().has(v)
            }),
    {
    }

    /// Propagation keeps to what may be: where it succeeds on a gate that
    /// has no more inputs and outputs known than it has ports, a set that it
    /// gives for a port of which nothing is known holds only values that the
    /// port may be.
    pub proof fn lemma_propagated_within(self, k: Known, port: int, v: Value)
        requires
            self.has_port(port),
            self.own(k) == k,
            Gate::known_port(k, port) is None,
            self.propagated(seq![k.0, k.1], seq![k.2, k.3]) is Some,
            ({
                let d = self.propagated(seq![k.0, k.1], seq![k.2, k.3]).unwrap();
                Gate::set_at(d, port) is Some && Gate::set_at(d, port).unwrap().has(v)
            }),
        ensures
            self.may_be(k, port, v),
    {
    }

    /// Propagation succeeds once more: where a port of which nothing was
    /// known is found to have a value that it may be, or is the first of
    /// which anything is known, propagation succeeds on what is known then,
    /// and what is known of a purifier is what a purifier may have.
    pub proof fn lemma_propagated_again(self, k: Known, port: int, v: Value)
        requires
            self.has_port(port),
            self.own(k) == k,
            Gate::known_port(k, port) is None,
            self.any_known(k) ==> self.may_be(k, port, v),
            self.settled_right(k),
        ensures
            ({
                let k2 = Gate::with_port(k, port, v);
                &&& self.propagated(seq![k2.0, k2.1], seq![k2.2, k2.3]) is Some
                &&& self.settled_right(k2)
                &&& self.own(k2) == k2
            }),
    {
        let k2 = Gate::with_port(k, port, v);
        if self != Gate::Purify {
            let d2 = BitString::of(|c: Value| self.output_may_be(k2.0, k2.1, k2.2, c));
            assert(d2 != BitString::spec_empty()) by {
                assert(d2.has(Value::Zero) == self.output_may_be(k2.0, k2.1, k2.2, Value::Zero));
                assert(d2.has(Value::Bot) == self.output_may_be(k2.0, k2.1, k2.2, Value::Bot));
                assert(d2.has(Value::One) == self.output_may_be(k2.0, k2.1, k2.2, Value::One));
            }
        }
    }

    /// Propagation fails on nothing that can be completed: where what is
    /// known is part of an assignment of the ports that a gate of this kind
    /// may have, propagation succeeds on it.
    pub proof fn lemma_completable_propagates(self, ka: Known, ks: Known)
        requires
            self.completable(ka),
            known_less(ks, ka),
        ensures
            self.propagated(seq![ks.0, ks.1], seq![ks.2, ks.3]) is Some,
    {
        if self != Gate::Purify {
            let d2 = BitString::of(|c: Value| self.output_may_be(ks.0, ks.1, ks.2, c));
            assert(d2 != BitString::spec_empty()) by {
                assert(d2.has(Value::Zero) == self.output_may_be(ks.0, ks.1, ks.2, Value::Zero));
                assert(d2.has(Value::Bot) == self.output_may_be(ks.0, ks.1, ks.2, Value::Bot));
                assert(d2.has(Value::One) == self.output_may_be(ks.0, ks.1, ks.2, Value::One));
            }
        }
    }

    /// Where propagation through a gate with one output succeeds, what is
    /// known is part of an assignment of the ports that such a gate may have.
    pub proof fn lemma_propagated_completable(self, k: Known)
        requires
            self != Gate::Purify,
            self.propagated(seq![k.0, k.1], seq![k.2, k.3]) is Some,
        ensures
            self.completable(k),
    {
        let d2 = BitString::of(|c: Value| self.output_may_be(k.0, k.1, k.2, c));
        assert(d2.has(Value::Zero) == self.output_may_be(k.0, k.1, k.2, Value::Zero));
        assert(d2.has(Value::Bot) == self.output_may_be(k.0, k.1, k.2, Value::Bot));
        assert(d2.has(Value::One) == self.output_may_be(k.0, k.1, k.2, Value::One));
        assert(d2 != BitString::spec_empty());
    }

    /// With nothing known, propagation succeeds.
    pub proof fn lemma_nothing_known(self)
        ensures
            self.propagated(seq![None, None], seq![None, None]) is Some,
    {
        if self != Gate::Purify {
            let d2 = BitString::of(|c: Value| self.output_may_be(None, None, None, c));
            assert(d2.has(Value::Zero) == self.output_may_be(None, None, None, Value::Zero));
            assert(self.fits(None, None, None, Value::Zero, Value::Zero));
            assert(self.fits(None, None, None, Value::One, Value::One));
            assert(self.fits(None, None, None, Value::Zero, Value::One));
            assert(d2.has(Value::One) == self.output_may_be(None, None, None, Value::One));
        }
    }

    /// A value that a port has in an assignment of the ports that a gate of
    /// this kind may have is a value that the port may be given less
    /// knowledge.
    pub proof fn lemma_may_be_with_less(self, ka: Known, ks: Known, port: int, v: Value)
        requires
            self.has_port(port),
            self.completable(ka),
            known_less(ks, ka),
            Gate::known_port(ka, port) == Some(v),
        ensures
            self.may_be(ks, port, v),
    {
    }
}

/// Whether `ks` knows nothing that `ka` does not know as well.
pub open spec fn known_less(ks: Known, ka: Known) -> bool {
    &&& ks.0 is None || ks.0 == ka.0
    &&& ks.1 is None || ks.1 == ka.1
    &&& ks.2 is None || ks.2 == ka.2
    &&& ks.3 is None || ks.3 == ka.3
}

} // verus!
