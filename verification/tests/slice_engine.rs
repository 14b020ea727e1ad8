use zkvm_eval::cs::ConstraintSystem;
use zkvm_eval::errors::{ArrayError, EvalError, ValueError};
use zkvm_eval::evaluator::{slice_array, EvaluatorState, Instruction, Operand, QueryData};
use zkvm_eval::value::{ConstrainedValue, Integer, IntegerValue, IntegerWidth};

fn int_array(values: &[u64]) -> Vec<ConstrainedValue> {
    values
        .iter()
        .map(|v| ConstrainedValue::Integer(Integer::constant(IntegerWidth::U32, *v)))
        .collect()
}

#[test]
fn constant_slice_returns_window_with_zero_constraints() {
    let mut cs = ConstraintSystem::new();
    let array = int_array(&[10, 20, 30, 40]);
    let from = Integer::constant(IntegerWidth::U32, 1);
    let to = Integer::constant(IntegerWidth::U32, 3);
    let out = slice_array(&mut cs, &array, &from, &to, 2).unwrap();
    assert_eq!(cs.num_rows(), 0);
    assert_eq!(cs.num_constraints(), 0);
    match out {
        ConstrainedValue::Array(items) => {
            assert_eq!(items.len(), 2);
            match &items[0] {
                ConstrainedValue::Integer(i) => {
                    assert_eq!(*i, Integer::constant(IntegerWidth::U32, 20))
                }
                _ => panic!("expected an integer element"),
            }
            match &items[1] {
                ConstrainedValue::Integer(i) => {
                    assert_eq!(*i, Integer::constant(IntegerWidth::U32, 30))
                }
                _ => panic!("expected an integer element"),
            }
        }
        _ => panic!("expected an array result"),
    }
}

#[test]
fn constant_from_with_unknown_to_computes_the_end() {
    let mut cs = ConstraintSystem::new();
    let array = int_array(&[10, 20, 30, 40]);
    let from = Integer::constant(IntegerWidth::U32, 2);
    let to = Integer::witness(IntegerWidth::U32, 7);
    let out = slice_array(&mut cs, &array, &from, &to, 2).unwrap();
    assert_eq!(cs.num_rows(), 0);
    match out {
        ConstrainedValue::Array(items) => {
            assert_eq!(items.len(), 2);
            match &items[0] {
                ConstrainedValue::Integer(i) => {
                    assert_eq!(*i, Integer::constant(IntegerWidth::U32, 30))
                }
                _ => panic!("expected an integer element"),
            }
        }
        _ => panic!("expected an array result"),
    }
}

#[test]
fn constant_from_with_unknown_to_rejects_out_of_bounds() {
    let mut cs = ConstraintSystem::new();
    let array = int_array(&[10, 20, 30, 40]);
    let from = Integer::constant(IntegerWidth::U32, 3);
    let to = Integer::witness(IntegerWidth::U32, 7);
    let r = slice_array(&mut cs, &array, &from, &to, 2);
    assert_eq!(
        r.unwrap_err(),
        EvalError::Array(ArrayError::IndexOutOfBounds { index: 5, length: 4 })
    );
    assert_eq!(cs.num_rows(), 0);
}

#[test]
fn constant_to_below_length_is_an_invalid_slice() {
    let mut cs = ConstraintSystem::new();
    let array = int_array(&[10, 20, 30, 40]);
    let from = Integer::witness(IntegerWidth::U32, 7);
    let to = Integer::constant(IntegerWidth::U32, 1);
    let r = slice_array(&mut cs, &array, &from, &to, 2);
    assert_eq!(r.unwrap_err(), EvalError::Array(ArrayError::InvalidSliceLength));
    assert_eq!(cs.num_rows(), 0);
}

#[test]
fn constant_bounds_disagreeing_with_length_are_rejected() {
    let mut cs = ConstraintSystem::new();
    let array = int_array(&[10, 20, 30, 40]);
    let from = Integer::constant(IntegerWidth::U32, 1);
    let to = Integer::constant(IntegerWidth::U32, 4);
    let r = slice_array(&mut cs, &array, &from, &to, 2);
    assert_eq!(r.unwrap_err(), EvalError::Array(ArrayError::InvalidSliceLength));
}

#[test]
fn constant_bounds_past_the_end_are_rejected() {
    let mut cs = ConstraintSystem::new();
    let array = int_array(&[10, 20, 30, 40]);
    let from = Integer::constant(IntegerWidth::U32, 3);
    let to = Integer::constant(IntegerWidth::U32, 5);
    let r = slice_array(&mut cs, &array, &from, &to, 2);
    assert_eq!(
        r.unwrap_err(),
        EvalError::Array(ArrayError::IndexOutOfBounds { index: 5, length: 4 })
    );
}

#[test]
fn oblivious_slice_has_index_independent_topology() {
    // Secret bounds: the engine must emit the length check, the bounds
    // check, and one equality plus one fold per candidate start position.
    let mut cs = ConstraintSystem::new();
    let array = int_array(&[10, 20, 30, 40]);
    let from = Integer::witness(IntegerWidth::U32, 1000);
    let to = Integer::witness(IntegerWidth::U32, 1001);
    let out = slice_array(&mut cs, &array, &from, &to, 2).unwrap();
    // Rows: subtraction (witness + row), length equality, bounds check,
    // then 3 candidates of one equality (witness + row) and two element
    // folds (witness + row each).
    assert_eq!(cs.num_rows(), 22);
    assert_eq!(cs.num_constraints(), 12);
    assert_eq!(cs.scopes.len(), 0);
    match out {
        ConstrainedValue::Array(items) => {
            assert_eq!(items.len(), 2);
            for item in &items {
                match item {
                    ConstrainedValue::Integer(i) => {
                        assert_eq!(i.width, IntegerWidth::U32);
                        assert!(matches!(i.value, IntegerValue::Witness(_)));
                    }
                    _ => panic!("expected an integer element"),
                }
            }
        }
        _ => panic!("expected an array result"),
    }
}

#[test]
fn oblivious_slice_rejects_mismatched_widths() {
    let mut cs = ConstraintSystem::new();
    let array = int_array(&[10, 20, 30, 40]);
    let from = Integer::witness(IntegerWidth::U64, 1000);
    let to = Integer::witness(IntegerWidth::U32, 1001);
    let r = slice_array(&mut cs, &array, &from, &to, 2);
    assert_eq!(r.unwrap_err(), EvalError::Value(ValueError::WidthMismatch));
}

#[test]
fn oblivious_slice_rejects_non_uniform_element_shapes() {
    let mut cs = ConstraintSystem::new();
    let array = vec![
        ConstrainedValue::Integer(Integer::constant(IntegerWidth::U32, 1)),
        ConstrainedValue::Boolean(zkvm_eval::value::Boolean::Constant(true)),
        ConstrainedValue::Integer(Integer::constant(IntegerWidth::U32, 2)),
        ConstrainedValue::Boolean(zkvm_eval::value::Boolean::Constant(false)),
    ];
    let from = Integer::witness(IntegerWidth::U32, 1000);
    let to = Integer::witness(IntegerWidth::U32, 1001);
    let r = slice_array(&mut cs, &array, &from, &to, 1);
    assert_eq!(r.unwrap_err(), EvalError::Value(ValueError::ShapeMismatch));
}

#[test]
fn evaluator_dispatches_a_slice_program() {
    let mut cs = ConstraintSystem::new();
    let mut state = EvaluatorState::new(8);
    state.store(0, ConstrainedValue::Array(int_array(&[10, 20, 30, 40])));
    state.store(1, ConstrainedValue::Integer(Integer::constant(IntegerWidth::U32, 1)));
    state.store(2, ConstrainedValue::Integer(Integer::constant(IntegerWidth::U32, 3)));
    state.store(3, ConstrainedValue::Integer(Integer::constant(IntegerWidth::U32, 2)));
    let program = vec![Instruction::ArraySliceGet(QueryData {
        destination: 4,
        values: vec![
            Operand::Register(0),
            Operand::Register(1),
            Operand::Register(2),
            Operand::Register(3),
        ],
    })];
    state.evaluate(&program, &mut cs).unwrap();
    assert_eq!(cs.num_rows(), 0);
    assert_eq!(cs.scopes.len(), 0);
    match &state.registers[4] {
        Some(ConstrainedValue::Array(items)) => {
            assert_eq!(items.len(), 2);
            match &items[0] {
                ConstrainedValue::Integer(i) => {
                    assert_eq!(*i, Integer::constant(IntegerWidth::U32, 20))
                }
                _ => panic!("expected an integer element"),
            }
        }
        _ => panic!("expected the destination register to hold an array"),
    }
}

#[test]
fn evaluator_reports_unset_registers() {
    let mut cs = ConstraintSystem::new();
    let mut state = EvaluatorState::new(2);
    let qd = QueryData {
        destination: 1,
        values: vec![
            Operand::Register(0),
            Operand::Register(0),
            Operand::Register(0),
            Operand::Register(0),
        ],
    };
    let r = state.evaluate_array_slice_get(&Instruction::ArraySliceGet(qd), &mut cs);
    assert_eq!(r.unwrap_err(), EvalError::UnsetRegister(0));
}

#[test]
fn evaluator_rejects_wrong_operand_variants() {
    let mut cs = ConstraintSystem::new();
    let mut state = EvaluatorState::new(8);
    state.store(0, ConstrainedValue::Integer(Integer::constant(IntegerWidth::U32, 9)));
    state.store(1, ConstrainedValue::Integer(Integer::constant(IntegerWidth::U32, 0)));
    let qd = QueryData {
        destination: 4,
        values: vec![
            Operand::Register(0),
            Operand::Register(1),
            Operand::Register(1),
            Operand::Register(1),
        ],
    };
    let r = state.evaluate_array_slice_get(&Instruction::ArraySliceGet(qd), &mut cs);
    assert_eq!(r.unwrap_err(), EvalError::Value(ValueError::ExpectedArray));
}

#[test]
fn evaluator_rejects_non_constant_length() {
    let mut cs = ConstraintSystem::new();
    let mut state = EvaluatorState::new(8);
    state.store(0, ConstrainedValue::Array(int_array(&[10, 20])));
    state.store(1, ConstrainedValue::Integer(Integer::constant(IntegerWidth::U32, 0)));
    state.store(2, ConstrainedValue::Integer(Integer::constant(IntegerWidth::U32, 1)));
    state.store(3, ConstrainedValue::Integer(Integer::witness(IntegerWidth::U32, 50)));
    let qd = QueryData {
        destination: 4,
        values: vec![
            Operand::Register(0),
            Operand::Register(1),
            Operand::Register(2),
            Operand::Register(3),
        ],
    };
    let r = state.evaluate_array_slice_get(&Instruction::ArraySliceGet(qd), &mut cs);
    assert_eq!(r.unwrap_err(), EvalError::Value(ValueError::NonConstantLength));
}

#[test]
fn evaluator_runs_scalar_opcodes() {
    let mut cs = ConstraintSystem::new();
    let mut state = EvaluatorState::new(8);
    state.store(0, ConstrainedValue::Integer(Integer::constant(IntegerWidth::U32, 7)));
    state.store(1, ConstrainedValue::Integer(Integer::constant(IntegerWidth::U32, 3)));
    let program = vec![
        Instruction::Sub(QueryData {
            destination: 2,
            values: vec![Operand::Register(0), Operand::Register(1)],
        }),
        Instruction::Eq(QueryData {
            destination: 3,
            values: vec![Operand::Register(0), Operand::Register(1)],
        }),
    ];
    state.evaluate(&program, &mut cs).unwrap();
    // Each opcode declares one fresh witness and enforces one row.
    assert_eq!(cs.num_rows(), 4);
    assert_eq!(cs.num_constraints(), 2);
    assert!(matches!(
        state.registers[2],
        Some(ConstrainedValue::Integer(Integer { width: IntegerWidth::U32, value: IntegerValue::Witness(_) }))
    ));
    assert!(matches!(
        state.registers[3],
        Some(ConstrainedValue::Boolean(zkvm_eval::value::Boolean::Witness(_)))
    ));
}

#[test]
fn evaluator_folds_values_with_select() {
    let mut cs = ConstraintSystem::new();
    let mut state = EvaluatorState::new(4);
    state.store(0, ConstrainedValue::Integer(Integer::constant(IntegerWidth::U32, 5)));
    state.store(1, ConstrainedValue::Integer(Integer::constant(IntegerWidth::U32, 6)));
    let program = vec![Instruction::Select(QueryData {
        destination: 2,
        values: vec![
            Operand::Immediate(ConstrainedValue::Boolean(zkvm_eval::value::Boolean::Constant(
                true,
            ))),
            Operand::Register(0),
            Operand::Register(1),
        ],
    })];
    state.evaluate(&program, &mut cs).unwrap();
    // One fresh witness and one fold row.
    assert_eq!(cs.num_rows(), 2);
    assert_eq!(cs.num_constraints(), 1);
    assert!(matches!(
        state.registers[2],
        Some(ConstrainedValue::Integer(Integer { width: IntegerWidth::U32, value: IntegerValue::Witness(_) }))
    ));
}

#[test]
fn select_rejects_mismatched_shapes() {
    let mut cs = ConstraintSystem::new();
    let mut state = EvaluatorState::new(4);
    state.store(0, ConstrainedValue::Integer(Integer::constant(IntegerWidth::U32, 5)));
    state.store(1, ConstrainedValue::Boolean(zkvm_eval::value::Boolean::Constant(false)));
    let program = vec![Instruction::Select(QueryData {
        destination: 2,
        values: vec![
            Operand::Immediate(ConstrainedValue::Boolean(zkvm_eval::value::Boolean::Constant(
                true,
            ))),
            Operand::Register(0),
            Operand::Register(1),
        ],
    })];
    let r = state.evaluate(&program, &mut cs);
    assert_eq!(r.unwrap_err(), EvalError::Value(ValueError::ShapeMismatch));
    assert_eq!(cs.scopes.len(), 0);
}

#[test]
fn evaluator_aborts_at_the_first_failure_keeping_prior_effects() {
    let mut cs = ConstraintSystem::new();
    let mut state = EvaluatorState::new(8);
    state.store(0, ConstrainedValue::Integer(Integer::constant(IntegerWidth::U32, 7)));
    state.store(1, ConstrainedValue::Integer(Integer::constant(IntegerWidth::U32, 3)));
    let program = vec![
        Instruction::Sub(QueryData {
            destination: 2,
            values: vec![Operand::Register(0), Operand::Register(1)],
        }),
        Instruction::Eq(QueryData {
            destination: 3,
            values: vec![Operand::Register(6), Operand::Register(1)],
        }),
    ];
    let r = state.evaluate(&program, &mut cs);
    assert_eq!(r.unwrap_err(), EvalError::UnsetRegister(6));
    // The first instruction's effect stands; the failing one wrote nothing.
    assert!(matches!(
        state.registers[2],
        Some(ConstrainedValue::Integer(Integer { width: IntegerWidth::U32, value: IntegerValue::Witness(_) }))
    ));
    assert!(state.registers[3].is_none());
    assert_eq!(cs.scopes.len(), 0);
}
