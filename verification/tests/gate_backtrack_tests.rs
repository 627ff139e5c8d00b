use pure_circuit_lib::gates::{ConversionError, Gate, Value};
use pure_circuit_lib::solution_finders::backtracking::{BacktrackError, BitString};

fn bits(v: Value) -> Option<BitString> {
    Some(BitString::from(v))
}

fn all_known() -> Vec<Option<Value>> {
    vec![None, Some(Value::Zero), Some(Value::Bot), Some(Value::One)]
}

#[test]
fn test_operations() {
    assert_eq!(
        BitString::all(),
        BitString::from(Value::One).insert(Value::Zero).insert(Value::Bot)
    );

    assert_eq!(
        BitString::from(Value::One),
        BitString::from(Value::One).insert(Value::One).insert(Value::One)
    );

    assert_eq!(
        BitString::all().remove(Value::Bot),
        BitString::from(Value::One).insert(Value::Zero)
    );
    assert_eq!(
        BitString::all()
            .remove(Value::Bot)
            .op_inter(BitString::all().remove(Value::One)),
        BitString::from(Value::Zero),
    );
    assert_eq!(
        BitString::default()
            .insert(Value::One)
            .op_union(BitString::default().insert(Value::Zero)),
        BitString::all().remove(Value::Bot),
    )
}

#[test]
fn single_input_bot() {
    let vals = Gate::Purify
        .set_value([Some(Value::Bot), None], [None, None])
        .unwrap();
    let expected = (
        [Some(Value::Bot.into()), None],
        [
            Some(BitString::smaller_than(Value::Bot)),
            Some(BitString::greater_than(Value::Bot)),
        ],
    );

    assert_eq!(vals, expected);
}

#[test]
fn output_left_purify() {
    let vals = Gate::Purify
        .set_value([None, None], [Some(Value::Zero), None])
        .unwrap();
    let expected = (
        [Some(BitString::smaller_than(Value::Bot)), None],
        [Some(BitString::from(Value::Zero)), Some(BitString::all())],
    );

    assert_eq!(vals, expected);

    let vals = Gate::Purify
        .set_value([None, None], [Some(Value::Bot), None])
        .unwrap();
    let expected = (
        [Some(Value::Bot.into()), None],
        [Some(Value::Bot.into()), Some(Value::One.into())],
    );

    assert_eq!(vals, expected);

    let vals = Gate::Purify
        .set_value([None, None], [Some(Value::One), None])
        .unwrap();
    let expected = (
        [Some(Value::One.into()), None],
        [Some(Value::One.into()), Some(Value::One.into())],
    );

    assert_eq!(vals, expected);
}

#[test]
fn output_right_purify() {
    let vals = Gate::Purify
        .set_value([None, None], [None, Some(Value::Zero)])
        .unwrap();
    let expected = (
        [Some(Value::Zero.into()), None],
        [Some(Value::Zero.into()), Some(Value::Zero.into())],
    );

    assert_eq!(vals, expected);

    let vals = Gate::Purify
        .set_value([None, None], [None, Some(Value::Bot)])
        .unwrap();
    let expected = (
        [Some(Value::Bot.into()), None],
        [Some(Value::Zero.into()), Some(Value::Bot.into())],
    );

    assert_eq!(vals, expected);

    let vals = Gate::Purify
        .set_value([None, None], [None, Some(Value::One)])
        .unwrap();
    let expected = (
        [Some(BitString::greater_than(Value::Bot)), None],
        [Some(BitString::all()), Some(Value::One.into())],
    );

    assert_eq!(vals, expected);
}

#[test]
fn double_in_out_valid_bot_should_pass() {
    let vals = Gate::Purify
        .set_value([Some(Value::Bot), None], [Some(Value::Bot), None])
        .unwrap();
    let expected = (
        [Some(Value::Bot.into()), None],
        [Some(Value::Bot.into()), Some(Value::One.into())],
    );

    assert_eq!(vals, expected);

    let vals = Gate::Purify
        .set_value([Some(Value::Bot), None], [Some(Value::Zero), None])
        .unwrap();
    let expected = (
        [Some(Value::Bot.into()), None],
        [
            Some(Value::Zero.into()),
            Some(BitString::greater_than(Value::Bot)),
        ],
    );

    assert_eq!(vals, expected);

    let vals = Gate::Purify
        .set_value([Some(Value::Bot), None], [None, Some(Value::Bot)])
        .unwrap();
    let expected = (
        [Some(Value::Bot.into()), None],
        [Some(Value::Zero.into()), Some(Value::Bot.into())],
    );

    assert_eq!(vals, expected);

    let vals = Gate::Purify
        .set_value([Some(Value::Bot), None], [None, Some(Value::One)])
        .unwrap();
    let expected = (
        [Some(Value::Bot.into()), None],
        [
            Some(BitString::smaller_than(Value::Bot)),
            Some(Value::One.into()),
        ],
    );

    assert_eq!(vals, expected);
}

#[test]
fn bit_string_from_bits() {
    for s in 0u8..=255 {
        let b = BitString::try_from(s);
        if s >= 8 {
            assert_eq!(b, Err(ConversionError::OutOfRange));
        } else {
            let b = b.unwrap();
            assert_eq!((b.0) as u8, s & 1);
            assert_eq!((b.1) as u8, (s & 2) >> 1);
            assert_eq!((b.2) as u8, (s & 4) >> 2);
            assert_eq!(b.len(), s.count_ones() as usize);
            assert_eq!(b.is_empty(), s == 0);
        }
    }
}

#[test]
fn bit_string_laws_on_all_sets() {
    for a in 0u8..8 {
        let x = BitString::try_from(a).unwrap();
        assert_eq!(x.op_union(x), x);
        assert_eq!(x.op_inter(x), x);
        assert_eq!(x.reverse().reverse(), x);
        assert_eq!(x.flip().flip(), x);
        assert_eq!(x.reverse(), BitString::try_from(7 - a).unwrap());
        assert_eq!(x.to_value_iter(), x.into_values());
        assert_eq!(x.to_value_iter().len(), x.len());
        for b in 0u8..8 {
            let y = BitString::try_from(b).unwrap();
            assert_eq!(x.op_union(y), y.op_union(x));
            assert_eq!(x.op_inter(y), y.op_inter(x));
            assert_eq!(x.op_union(y), BitString::try_from(a | b).unwrap());
            assert_eq!(x.op_inter(y), BitString::try_from(a & b).unwrap());
        }
    }
    assert_eq!(BitString::smaller_than(Value::One), BitString::all());
    assert_eq!(BitString::smaller_than(Value::Zero), BitString::from(Value::Zero));
    assert_eq!(BitString::smaller_than(Value::Bot), BitString(true, true, false));
    assert_eq!(BitString::greater_than(Value::Bot), BitString(false, true, true));
    assert_eq!(BitString::greater_than(Value::Zero), BitString::all());
    assert_eq!(BitString::greater_than(Value::One), BitString(false, false, true));
    assert_eq!(BitString::default(), BitString(false, false, false));
    assert_eq!(BitString::all().len(), 3);
    assert_eq!(BitString::all().remove(Value::One).len(), 2);
    assert_eq!(BitString::default().len(), 0);
    assert_eq!(
        BitString::all().to_value_iter(),
        vec![Value::Zero, Value::Bot, Value::One]
    );
    assert_eq!(
        BitString::all().remove(Value::Bot).to_value_iter(),
        vec![Value::Zero, Value::One]
    );
    assert_eq!(BitString(true, true, false).flip(), BitString(false, true, true));
    assert_eq!(BitString::from(Value::Zero).flip(), BitString::from(Value::One));
}

#[test]
fn preserves_unary() {
    for gate in [Gate::Not, Gate::Copy] {
        for a in all_known() {
            for b in all_known() {
                let Ok((ins, outs)) = gate.set_value([a, None], [b, None]) else {
                    continue;
                };
                if a.is_some() {
                    assert_eq!(ins[0], a.map(BitString::from));
                }
                if b.is_some() {
                    assert_eq!(outs[0], b.map(BitString::from));
                }
            }
        }
    }
}

#[test]
fn unary_from_one_side() {
    for s in Value::iter() {
        for other_1 in all_known() {
            for other_2 in all_known() {
                let val = Gate::Copy.set_value([Some(s), other_1], [None, other_2]).unwrap();
                assert_eq!(val, ([bits(s), None], [bits(s), None]));
                let val = Gate::Copy.set_value([None, other_1], [Some(s), other_2]).unwrap();
                assert_eq!(val, ([bits(s), None], [bits(s), None]));
                let val = Gate::Not.set_value([Some(s), other_1], [None, other_2]).unwrap();
                assert_eq!(val, ([bits(s), None], [bits(s.inverse()), None]));
                let val = Gate::Not.set_value([None, other_1], [Some(s), other_2]).unwrap();
                assert_eq!(val, ([bits(s.inverse()), None], [bits(s), None]));
            }
        }
    }
}

#[test]
fn nothing_known_leaves_every_value() {
    let all = Some(BitString::all());
    for gate in [Gate::Copy, Gate::Not] {
        assert_eq!(
            gate.set_value([None, None], [None, None]),
            Ok(([all, None], [all, None]))
        );
    }
    for gate in [Gate::And, Gate::Or, Gate::Nand, Gate::Nor] {
        assert_eq!(
            gate.set_value([None, None], [None, None]),
            Ok(([all, all], [all, None]))
        );
    }
    assert_eq!(
        Gate::Purify.set_value([None, None], [None, None]),
        Ok(([all, None], [all, all]))
    );
    // what is given for a port that such a gate has not is not read
    assert_eq!(
        Gate::Copy.set_value([None, Some(Value::One)], [None, Some(Value::One)]),
        Ok(([all, None], [all, None]))
    );
}

#[test]
fn and_or_from_the_output() {
    for v in Value::iter() {
        assert_eq!(
            Gate::And.set_value([None, None], [Some(v), None]).unwrap(),
            (
                [Some(BitString::greater_than(v)), Some(BitString::greater_than(v))],
                [bits(v), None]
            )
        );
        assert_eq!(
            Gate::Or.set_value([None, None], [Some(v), None]).unwrap(),
            (
                [Some(BitString::smaller_than(v)), Some(BitString::smaller_than(v))],
                [bits(v), None]
            )
        );
        assert_eq!(
            Gate::Nor.set_value([None, None], [Some(v), None]).unwrap(),
            (
                [
                    Some(BitString::smaller_than(v.inverse())),
                    Some(BitString::smaller_than(v.inverse()))
                ],
                [bits(v), None]
            )
        );
        assert_eq!(
            Gate::Nand.set_value([None, None], [Some(v), None]).unwrap(),
            (
                [
                    Some(BitString::greater_than(v.inverse())),
                    Some(BitString::greater_than(v.inverse()))
                ],
                [bits(v), None]
            )
        );
    }
}

#[test]
fn binary_from_one_input() {
    for s in Value::iter() {
        for (gate, out) in [
            (Gate::And, BitString::smaller_than(s)),
            (Gate::Or, BitString::greater_than(s)),
            (Gate::Nor, BitString::smaller_than(s.inverse())),
            (Gate::Nand, BitString::greater_than(s.inverse())),
        ] {
            assert_eq!(
                gate.set_value([None, Some(s)], [None, None]).unwrap(),
                ([Some(BitString::all()), bits(s)], [Some(out), None])
            );
            assert_eq!(
                gate.set_value([Some(s), None], [None, None]).unwrap(),
                ([bits(s), Some(BitString::all())], [Some(out), None])
            );
        }
    }
}

#[test]
fn and_with_one_input_and_the_output() {
    let (z, b, o) = (Value::Zero, Value::Bot, Value::One);
    for (s1, s2) in [(o, z), (b, z), (o, b)] {
        assert_eq!(
            Gate::And.set_value([None, Some(s1)], [Some(s2), None]).unwrap(),
            ([bits(s2), bits(s1)], [bits(s2), None])
        );
        assert_eq!(
            Gate::And.set_value([Some(s1), None], [Some(s2), None]).unwrap(),
            ([bits(s1), bits(s2)], [bits(s2), None])
        );
        assert_eq!(
            Gate::Or.set_value([None, Some(s2)], [Some(s1), None]).unwrap(),
            ([bits(s1), bits(s2)], [bits(s1), None])
        );
        assert!(Gate::And.set_value([None, Some(s2)], [Some(s1), None]).is_err());
        assert!(Gate::And.set_value([Some(s2), None], [Some(s1), None]).is_err());
        assert!(Gate::Or.set_value([None, Some(s1)], [Some(s2), None]).is_err());
        assert!(Gate::Or.set_value([Some(s1), None], [Some(s2), None]).is_err());
    }
    for s in Value::iter() {
        assert_eq!(
            Gate::And.set_value([None, Some(s)], [Some(s), None]).unwrap(),
            ([Some(BitString::greater_than(s)), bits(s)], [bits(s), None])
        );
        assert_eq!(
            Gate::Or.set_value([Some(s), None], [Some(s), None]).unwrap(),
            ([bits(s), Some(BitString::smaller_than(s))], [bits(s), None])
        );
        assert_eq!(
            Gate::Nor.set_value([None, Some(s)], [Some(s.inverse()), None]).unwrap(),
            ([Some(BitString::smaller_than(s)), bits(s)], [bits(s.inverse()), None])
        );
        assert_eq!(
            Gate::Nand.set_value([None, Some(s)], [Some(s.inverse()), None]).unwrap(),
            ([Some(BitString::greater_than(s)), bits(s)], [bits(s.inverse()), None])
        );
    }
    for (s1, s2) in [(z, b), (z, o), (b, z)] {
        assert_eq!(
            Gate::Nor.set_value([None, Some(s1)], [Some(s2), None]).unwrap(),
            ([bits(s2.inverse()), bits(s1)], [bits(s2), None])
        );
    }
    for (s1, s2) in [(b, o), (o, o), (o, b)] {
        assert!(Gate::Nor.set_value([None, Some(s1)], [Some(s2), None]).is_err());
        assert!(Gate::Nor.set_value([Some(s1), None], [Some(s2), None]).is_err());
    }
    for (s1, s2) in [(o, o), (o, b), (b, o)] {
        assert_eq!(
            Gate::Nand.set_value([Some(s1), None], [Some(s2), None]).unwrap(),
            ([bits(s1), bits(s2.inverse())], [bits(s2), None])
        );
    }
    for (s1, s2) in [(z, b), (z, z), (b, z)] {
        assert!(Gate::Nand.set_value([None, Some(s1)], [Some(s2), None]).is_err());
    }
}

#[test]
fn binary_with_everything_known() {
    for gate in [Gate::Nor, Gate::Nand, Gate::And, Gate::Or] {
        for s1 in Value::iter() {
            for s2 in Value::iter() {
                let out = gate.apply(&[s1, s2]).unwrap();
                assert_eq!(
                    gate.set_value([Some(s1), Some(s2)], [None, None]).unwrap(),
                    ([bits(s1), bits(s2)], [bits(out), None])
                );
                for s3 in Value::iter() {
                    let vals = gate.set_value([Some(s1), Some(s2)], [Some(s3), None]);
                    if out == s3 {
                        assert_eq!(vals.unwrap(), ([bits(s1), bits(s2)], [bits(s3), None]));
                    } else {
                        assert_eq!(vals, Err(BacktrackError::IncorrectAssignment(gate)));
                    }
                }
            }
        }
    }
}

#[test]
fn preserves_binary() {
    for gate in [Gate::And, Gate::Or, Gate::Nand, Gate::Nor] {
        for a in all_known() {
            for b in all_known() {
                for c in all_known() {
                    let Ok((ins, outs)) = gate.set_value([a, b], [c, None]) else {
                        continue;
                    };
                    if a.is_some() {
                        assert_eq!(ins[0], a.map(BitString::from));
                    }
                    if b.is_some() {
                        assert_eq!(ins[1], b.map(BitString::from));
                    }
                    if c.is_some() {
                        assert_eq!(outs[0], c.map(BitString::from));
                    }
                }
            }
        }
    }
}

#[test]
fn purify_pure_input_settles_all() {
    for inp in [Value::Zero, Value::One] {
        let all = ([bits(inp), None], [bits(inp), bits(inp)]);
        assert_eq!(Gate::Purify.set_value([Some(inp), None], [None, None]).unwrap(), all);
        assert_eq!(Gate::Purify.set_value([None, None], [Some(inp), Some(inp)]).unwrap(), all);
        assert_eq!(Gate::Purify.set_value([Some(inp), None], [None, Some(inp)]).unwrap(), all);
        assert_eq!(Gate::Purify.set_value([Some(inp), None], [Some(inp), None]).unwrap(), all);
    }
    assert_eq!(
        Gate::Purify.set_value([Some(Value::One), Some(Value::Zero)], [None, Some(Value::One)]),
        Err(BacktrackError::IncorrectAssignment(Gate::Purify))
    );
    assert!(Gate::Purify
        .set_value([Some(Value::Zero), Some(Value::Zero)], [None, Some(Value::Zero)])
        .is_ok());
}

#[test]
fn purify_both_outputs() {
    let (z, b, o) = (Value::Zero, Value::Bot, Value::One);
    for (x, y) in [(b, b), (o, b), (b, z), (o, z)] {
        assert!(Gate::Purify.set_value([None, None], [Some(x), Some(y)]).is_err());
    }
    for (x, y) in [(b, o), (z, b), (z, o)] {
        assert_eq!(
            Gate::Purify.set_value([None, None], [Some(x), Some(y)]).unwrap(),
            ([bits(b), None], [bits(x), bits(y)])
        );
    }
}

#[test]
fn purify_input_against_one_output() {
    let (z, b, o) = (Some(Value::Zero), Some(Value::Bot), Some(Value::One));
    for (in1, out1, out2) in [
        (z, o, None),
        (z, b, None),
        (z, None, o),
        (z, None, b),
        (o, z, None),
        (o, b, None),
        (o, None, z),
        (o, None, b),
        (b, None, z),
        (b, o, None),
    ] {
        assert_eq!(
            Gate::Purify.set_value([in1, None], [out1, out2]),
            Err(BacktrackError::IncorrectAssignment(Gate::Purify))
        );
    }
}

#[test]
fn purify_with_everything_known() {
    for a in Value::iter() {
        for b in Value::iter() {
            for c in Value::iter() {
                let res = Gate::Purify.set_value([Some(a), None], [Some(b), Some(c)]);
                if Gate::Purify.check(&[a], &[b, c]) == Ok(true) {
                    assert_eq!(res.unwrap(), ([bits(a), None], [bits(b), bits(c)]));
                } else {
                    assert!(res.is_err(), "{res:?}");
                }
            }
        }
    }
}

#[test]
fn preserves_purify() {
    for a in all_known() {
        for b in all_known() {
            for c in all_known() {
                let Ok((ins, outs)) = Gate::Purify.set_value([a, None], [b, c]) else {
                    continue;
                };
                if a.is_some() {
                    assert_eq!(ins[0], a.map(BitString::from));
                }
                if b.is_some() {
                    assert_eq!(outs[0], b.map(BitString::from));
                }
                if c.is_some() {
                    assert_eq!(outs[1], c.map(BitString::from));
                }
            }
        }
    }
}
