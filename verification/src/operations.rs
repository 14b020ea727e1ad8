//! Constraint-emitting operations on circuit values: subtraction, equality,
//! bounds checks, and the conditional select that folds two values without
//! branching on a secret. Every contract is stated over all assignments that
//! satisfy the rows the operation emitted.
use vstd::prelude::*;
use crate::cs::{
    extends, eval_lin, lemma_extends_refl, lemma_extends_trans, lemma_row_holds_agree,
    lemma_rows_hold_prefix, row_holds, row_vars_below, rows_hold_from, ConstraintSystem, Lin, Row,
};
use crate::errors::ValueError;
use crate::value::{
    bool_vars_below, eval_bool, eval_int, eval_value, lemma_value_vars_below_mono, shape_of,
    value_vars_below, Assignment, Boolean, ConstrainedValue, FieldElement, Integer, IntegerValue,
    Shape,
};

verus! {

broadcast use vstd::std_specs::vec::axiom_vec_index_decreases;


/// Any assignment of the variables outside a row segment can be completed,
/// by choosing the segment's fresh variables, into one that satisfies the
/// segment.
pub open spec fn completion_exists(start: int, rows: Seq<Row>, asg: Assignment) -> bool {
    exists|asg2: Assignment|
        (forall|x: usize| x < start ==> #[trigger] asg2(x) == asg(x)) && rows_hold_from(
            rows,
            start,
            asg2,
        )
}

/// Every assignment can be completed over the segment.
pub open spec fn segment_completable(start: int, rows: Seq<Row>) -> bool {
    forall|asg: Assignment| #[trigger] completion_exists(start, rows, asg)
}

/// The linear operand an integer stands for.
pub open spec fn int_lin(i: Integer) -> Lin {
    match i.value {
        IntegerValue::Constant(v) => Lin::Const(v),
        IntegerValue::Witness(x) => Lin::Var(x),
    }
}

/// The linear operand a boolean stands for.
pub open spec fn bool_lin(b: Boolean) -> Lin {
    match b {
        Boolean::Constant(c) => Lin::Const(
            if c {
                1
            } else {
                0
            },
        ),
        Boolean::Witness(x) => Lin::Var(x),
    }
}

fn int_to_lin(i: &Integer) -> (r: Lin)
    ensures
        r == int_lin(*i),
        forall|asg: Assignment| eval_lin(r, asg) == eval_int(*i, asg),
{
    match i.value {
        IntegerValue::Constant(v) => Lin::Const(v),
        IntegerValue::Witness(x) => Lin::Var(x),
    }
}

fn bool_to_lin(b: &Boolean) -> (r: Lin)
    ensures
        r == bool_lin(*b),
        forall|asg: Assignment| (eval_lin(r, asg) == 1) == eval_bool(*b, asg),
{
    match b {
        Boolean::Constant(c) => Lin::Const(if *c { 1 } else { 0 }),
        Boolean::Witness(x) => Lin::Var(*x),
    }
}

/// Emits the subtraction `minuend - subtrahend` as a fresh witness, enforced
/// without borrow: any satisfying assignment has
/// `subtrahend + difference == minuend`. Fails exactly when the widths differ.
pub fn enforce_sub(cs: &mut ConstraintSystem, minuend: &Integer, subtrahend: &Integer) -> (r:
    Result<Integer, ValueError>)
    ensures
        extends(*old(cs), *final(cs)),
        (r matches Ok(_)) <==> minuend.width == subtrahend.width,
        r matches Err(e) ==> e == ValueError::WidthMismatch && *final(cs) == *old(cs),
        (r matches Ok(d) ==> {
            &&& d.width == minuend.width
            &&& d.value matches IntegerValue::Witness(w) && w == old(cs).rows@.len()
                && final(cs).rows@ == old(cs).rows@.push(Row::Witness { var: w }).push(
                Row::Sub {
                    minuend: int_lin(*minuend),
                    subtrahend: int_lin(*subtrahend),
                    difference: Lin::Var(w),
                },
            )
            &&& final(cs).rows@.len() == old(cs).rows@.len() + 2
            &&& forall|asg: Assignment|
                rows_hold_from(final(cs).rows@, old(cs).rows@.len() as int, asg) ==> eval_int(
                    *subtrahend,
                    asg,
                ) + eval_int(d, asg) == eval_int(*minuend, asg)
        }),
{
    let ghost cs0 = *cs;
    if !(minuend.width == subtrahend.width) {
        proof {
            lemma_extends_refl(*cs);
        }
        return Err(ValueError::WidthMismatch);
    }
    let v = cs.declare_witness();
    let row = Row::Sub {
        minuend: int_to_lin(minuend),
        subtrahend: int_to_lin(subtrahend),
        difference: Lin::Var(v),
    };
    cs.enforce(row);
    let d = Integer { width: minuend.width, value: IntegerValue::Witness(v) };
    proof {
        assert(cs.rows@.subrange(0, cs0.rows@.len() as int) =~= cs0.rows@);
        assert forall|asg: Assignment|
            rows_hold_from(cs.rows@, cs0.rows@.len() as int, asg) implies eval_int(
            *subtrahend,
            asg,
        ) + eval_int(d, asg) == eval_int(*minuend, asg) by {
            let n = cs0.rows@.len() as int;
            assert(cs.rows@[n + 1] == row);
            assert(row_holds(cs.rows@[n + 1], asg));
        }
    }
    Ok(d)
}

/// Emits the comparison of two integers as a fresh boolean witness: any
/// satisfying assignment gives it 1 exactly when the integers are equal.
/// Fails exactly when the widths differ.
pub fn evaluate_eq(cs: &mut ConstraintSystem, left: &Integer, right: &Integer) -> (r: Result<
    Boolean,
    ValueError,
>)
    ensures
        extends(*old(cs), *final(cs)),
        (r matches Ok(_)) <==> left.width == right.width,
        r matches Err(e) ==> e == ValueError::WidthMismatch && *final(cs) == *old(cs),
        (r matches Ok(b) ==> {
            &&& b matches Boolean::Witness(w) && w == old(cs).rows@.len() && final(cs).rows@
                == old(cs).rows@.push(Row::Witness { var: w }).push(
                Row::IsEq { left: int_lin(*left), right: int_lin(*right), result: Lin::Var(w) },
            )
            &&& final(cs).rows@.len() == old(cs).rows@.len() + 2
            &&& forall|asg: Assignment|
                rows_hold_from(final(cs).rows@, old(cs).rows@.len() as int, asg) ==> eval_bool(
                    b,
                    asg,
                ) == (eval_int(*left, asg) == eval_int(*right, asg))
        }),
{
    let ghost cs0 = *cs;
    if !(left.width == right.width) {
        proof {
            lemma_extends_refl(*cs);
        }
        return Err(ValueError::WidthMismatch);
    }
    let v = cs.declare_witness();
    let row = Row::IsEq { left: int_to_lin(left), right: int_to_lin(right), result: Lin::Var(v) };
    cs.enforce(row);
    let b = Boolean::Witness(v);
    proof {
        assert(cs.rows@.subrange(0, cs0.rows@.len() as int) =~= cs0.rows@);
        assert forall|asg: Assignment|
            rows_hold_from(cs.rows@, cs0.rows@.len() as int, asg) implies eval_bool(b, asg) == (
        eval_int(*left, asg) == eval_int(*right, asg)) by {
            let n = cs0.rows@.len() as int;
            assert(cs.rows@[n + 1] == row);
            assert(row_holds(cs.rows@[n + 1], asg));
        }
    }
    Ok(b)
}

/// Enforces equality of two integers: satisfiable only by assignments that
/// give both the same value. Fails exactly when the widths differ.
pub fn enforce_equal(cs: &mut ConstraintSystem, left: &Integer, right: &Integer) -> (r: Result<
    (),
    ValueError,
>)
    ensures
        extends(*old(cs), *final(cs)),
        (r matches Ok(_)) <==> left.width == right.width,
        r matches Err(e) ==> e == ValueError::WidthMismatch && *final(cs) == *old(cs),
        (r matches Ok(_) ==> {
            &&& final(cs).rows@ == old(cs).rows@.push(
                Row::EnforceEq { left: int_lin(*left), right: int_lin(*right) },
            )
            &&& final(cs).rows@.len() == old(cs).rows@.len() + 1
            &&& forall|asg: Assignment|
                rows_hold_from(final(cs).rows@, old(cs).rows@.len() as int, asg) ==> eval_int(
                    *left,
                    asg,
                ) == eval_int(*right, asg)
        }),
{
    let ghost cs0 = *cs;
    if !(left.width == right.width) {
        proof {
            lemma_extends_refl(*cs);
        }
        return Err(ValueError::WidthMismatch);
    }
    let row = Row::EnforceEq { left: int_to_lin(left), right: int_to_lin(right) };
    cs.enforce(row);
    proof {
        assert(cs.rows@.subrange(0, cs0.rows@.len() as int) =~= cs0.rows@);
        assert forall|asg: Assignment|
            rows_hold_from(cs.rows@, cs0.rows@.len() as int, asg) implies eval_int(*left, asg)
            == eval_int(*right, asg) by {
            let n = cs0.rows@.len() as int;
            assert(cs.rows@[n] == row);
            assert(row_holds(cs.rows@[n], asg));
        }
    }
    Ok(())
}

/// Enforces that an index stays at or below a bound: satisfiable only by
/// assignments within bounds.
pub fn array_bounds_check(cs: &mut ConstraintSystem, index: &Integer, bound: u64)
    ensures
        extends(*old(cs), *final(cs)),
        final(cs).rows@ == old(cs).rows@.push(
            Row::AtMost { value: int_lin(*index), bound },
        ),
        final(cs).rows@.len() == old(cs).rows@.len() + 1,
        forall|asg: Assignment|
            rows_hold_from(final(cs).rows@, old(cs).rows@.len() as int, asg) ==> eval_int(
                *index,
                asg,
            ) <= bound,
{
    let ghost cs0 = *cs;
    let row = Row::AtMost { value: int_to_lin(index), bound };
    cs.enforce(row);
    proof {
        assert(cs.rows@.subrange(0, cs0.rows@.len() as int) =~= cs0.rows@);
        assert forall|asg: Assignment|
            rows_hold_from(cs.rows@, cs0.rows@.len() as int, asg) implies eval_int(*index, asg)
            <= bound by {
            let n = cs0.rows@.len() as int;
            assert(cs.rows@[n] == row);
            assert(row_holds(cs.rows@[n], asg));
        }
    }
}

/// Folds two values of equal shape into one: every scalar of the result is a
/// fresh witness forced, under any satisfying assignment, to the matching
/// scalar of `when_true` if the condition is 1 and of `when_false` otherwise.
/// Fails exactly when the shapes differ; the circuit topology depends only on
/// the shape, never on the condition.
#[verifier::loop_isolation(false)]
pub fn conditionally_select(
    cs: &mut ConstraintSystem,
    condition: &Boolean,
    when_true: &ConstrainedValue,
    when_false: &ConstrainedValue,
) -> (r: Result<ConstrainedValue, ValueError>)
    ensures
        extends(*old(cs), *final(cs)),
        (r matches Ok(_)) <==> shape_of(*when_true) == shape_of(*when_false),
        r matches Err(e) ==> e == ValueError::ShapeMismatch,
        (r matches Ok(out) ==> {
            &&& (out matches ConstrainedValue::Array(_)) == (*when_true
                matches ConstrainedValue::Array(_))
            &&& shape_of(out) == shape_of(*when_true)
            &&& forall|asg: Assignment|
                rows_hold_from(final(cs).rows@, old(cs).rows@.len() as int, asg)
                    ==> eval_value(out, asg) == (if eval_bool(*condition, asg) {
                    eval_value(*when_true, asg)
                } else {
                    eval_value(*when_false, asg)
                })
        }),
        // When the inputs' variables all lie below the segment, the fresh
        // rows are functional in their own variables: any assignment can be
        // completed into one that satisfies them.
        (match r {
            Ok(out) => (bool_vars_below(*condition, old(cs).rows@.len() as int)
                && value_vars_below(*when_true, old(cs).rows@.len() as int) && value_vars_below(
                *when_false,
                old(cs).rows@.len() as int,
            )) ==> ({
                &&& forall|j: int|
                    old(cs).rows@.len() <= j < final(cs).rows@.len() ==> row_vars_below(
                        #[trigger] final(cs).rows@[j],
                        final(cs).rows@.len() as int,
                    )
                &&& value_vars_below(out, final(cs).rows@.len() as int)
                &&& segment_completable(old(cs).rows@.len() as int, final(cs).rows@)
            }),
            Err(_) => true,
        }),
    decreases *when_true,
{
    let ghost cs0 = *cs;
    match (when_true, when_false) {
        (ConstrainedValue::Boolean(a), ConstrainedValue::Boolean(b)) => {
            let v = cs.declare_witness();
            let row = Row::Select {
                condition: bool_to_lin(condition),
                when_true: bool_to_lin(a),
                when_false: bool_to_lin(b),
                result: Lin::Var(v),
            };
            cs.enforce(row);
            let out = ConstrainedValue::Boolean(Boolean::Witness(v));
            proof {
                assert(cs.rows@.subrange(0, cs0.rows@.len() as int) =~= cs0.rows@);
                assert forall|asg: Assignment|
                    rows_hold_from(cs.rows@, cs0.rows@.len() as int, asg) implies eval_value(
                    out,
                    asg,
                ) == (if eval_bool(*condition, asg) {
                    eval_value(*when_true, asg)
                } else {
                    eval_value(*when_false, asg)
                }) by {
                    let n = cs0.rows@.len() as int;
                    assert(cs.rows@[n + 1] == row);
                    assert(row_holds(cs.rows@[n + 1], asg));
                }
                let n0 = cs0.rows@.len() as int;
                let n1 = cs.rows@.len() as int;
                if bool_vars_below(*condition, n0) && value_vars_below(*when_true, n0)
                    && value_vars_below(*when_false, n0) {
                    assert forall|j: int| n0 <= j < n1 implies row_vars_below(
                        #[trigger] cs.rows@[j],
                        n1,
                    ) by {
                        assert(cs.rows@[n0] == Row::Witness { var: v });
                        assert(cs.rows@[n0 + 1] == row);
                    }
                    assert forall|asg: Assignment| #[trigger] completion_exists(
                        n0,
                        cs.rows@,
                        asg,
                    ) by {
                        let cl = row->Select_condition;
                        let tl = row->Select_when_true;
                        let fl = row->Select_when_false;
                        let val = if eval_lin(cl, asg) == 1 {
                            eval_lin(tl, asg)
                        } else {
                            eval_lin(fl, asg)
                        };
                        let asg2: Assignment = |x: usize|
                            if x == v {
                                val
                            } else {
                                asg(x)
                            };
                        assert forall|j: int| n0 <= j < n1 implies row_holds(
                            #[trigger] cs.rows@[j],
                            asg2,
                        ) by {
                            assert(cs.rows@[n0] == Row::Witness { var: v });
                            assert(cs.rows@[n0 + 1] == row);
                            assert(eval_lin(cl, asg2) == eval_lin(cl, asg));
                            assert(eval_lin(tl, asg2) == eval_lin(tl, asg));
                            assert(eval_lin(fl, asg2) == eval_lin(fl, asg));
                        }
                        assert((forall|x: usize| x < n0 ==> #[trigger] asg2(x) == asg(x))
                            && rows_hold_from(cs.rows@, n0, asg2));
                    }
                }
            }
            Ok(out)
        }
        (ConstrainedValue::Integer(a), ConstrainedValue::Integer(b)) => {
            if !(a.width == b.width) {
                proof {
                    lemma_extends_refl(*cs);
                }
                return Err(ValueError::ShapeMismatch);
            }
            let v = cs.declare_witness();
            let row = Row::Select {
                condition: bool_to_lin(condition),
                when_true: int_to_lin(a),
                when_false: int_to_lin(b),
                result: Lin::Var(v),
            };
            cs.enforce(row);
            let out = ConstrainedValue::Integer(
                Integer { width: a.width, value: IntegerValue::Witness(v) },
            );
            proof {
                assert(cs.rows@.subrange(0, cs0.rows@.len() as int) =~= cs0.rows@);
                assert forall|asg: Assignment|
                    rows_hold_from(cs.rows@, cs0.rows@.len() as int, asg) implies eval_value(
                    out,
                    asg,
                ) == (if eval_bool(*condition, asg) {
                    eval_value(*when_true, asg)
                } else {
                    eval_value(*when_false, asg)
                }) by {
                    let n = cs0.rows@.len() as int;
                    assert(cs.rows@[n + 1] == row);
                    assert(row_holds(cs.rows@[n + 1], asg));
                }
                let n0 = cs0.rows@.len() as int;
                let n1 = cs.rows@.len() as int;
                if bool_vars_below(*condition, n0) && value_vars_below(*when_true, n0)
                    && value_vars_below(*when_false, n0) {
                    assert forall|j: int| n0 <= j < n1 implies row_vars_below(
                        #[trigger] cs.rows@[j],
                        n1,
                    ) by {
                        assert(cs.rows@[n0] == Row::Witness { var: v });
                        assert(cs.rows@[n0 + 1] == row);
                    }
                    assert forall|asg: Assignment| #[trigger] completion_exists(
                        n0,
                        cs.rows@,
                        asg,
                    ) by {
                        let cl = row->Select_condition;
                        let tl = row->Select_when_true;
                        let fl = row->Select_when_false;
                        let val = if eval_lin(cl, asg) == 1 {
                            eval_lin(tl, asg)
                        } else {
                            eval_lin(fl, asg)
                        };
                        let asg2: Assignment = |x: usize|
                            if x == v {
                                val
                            } else {
                                asg(x)
                            };
                        assert forall|j: int| n0 <= j < n1 implies row_holds(
                            #[trigger] cs.rows@[j],
                            asg2,
                        ) by {
                            assert(cs.rows@[n0] == Row::Witness { var: v });
                            assert(cs.rows@[n0 + 1] == row);
                            assert(eval_lin(cl, asg2) == eval_lin(cl, asg));
                            assert(eval_lin(tl, asg2) == eval_lin(tl, asg));
                            assert(eval_lin(fl, asg2) == eval_lin(fl, asg));
                        }
                        assert((forall|x: usize| x < n0 ==> #[trigger] asg2(x) == asg(x))
                            && rows_hold_from(cs.rows@, n0, asg2));
                    }
                }
            }
            Ok(out)
        }
        (ConstrainedValue::Field(a), ConstrainedValue::Field(b)) => {
            let v = cs.declare_witness();
            let a_lin = match a {
                FieldElement::Constant(c) => Lin::Const(*c),
                FieldElement::Witness(x) => Lin::Var(*x),
            };
            let b_lin = match b {
                FieldElement::Constant(c) => Lin::Const(*c),
                FieldElement::Witness(x) => Lin::Var(*x),
            };
            let row = Row::Select {
                condition: bool_to_lin(condition),
                when_true: a_lin,
                when_false: b_lin,
                result: Lin::Var(v),
            };
            cs.enforce(row);
            let out = ConstrainedValue::Field(FieldElement::Witness(v));
            proof {
                assert(cs.rows@.subrange(0, cs0.rows@.len() as int) =~= cs0.rows@);
                assert forall|asg: Assignment|
                    rows_hold_from(cs.rows@, cs0.rows@.len() as int, asg) implies eval_value(
                    out,
                    asg,
                ) == (if eval_bool(*condition, asg) {
                    eval_value(*when_true, asg)
                } else {
                    eval_value(*when_false, asg)
                }) by {
                    let n = cs0.rows@.len() as int;
                    assert(cs.rows@[n + 1] == row);
                    assert(row_holds(cs.rows@[n + 1], asg));
                }
                let n0 = cs0.rows@.len() as int;
                let n1 = cs.rows@.len() as int;
                if bool_vars_below(*condition, n0) && value_vars_below(*when_true, n0)
                    && value_vars_below(*when_false, n0) {
                    assert forall|j: int| n0 <= j < n1 implies row_vars_below(
                        #[trigger] cs.rows@[j],
                        n1,
                    ) by {
                        assert(cs.rows@[n0] == Row::Witness { var: v });
                        assert(cs.rows@[n0 + 1] == row);
                    }
                    assert forall|asg: Assignment| #[trigger] completion_exists(
                        n0,
                        cs.rows@,
                        asg,
                    ) by {
                        let cl = row->Select_condition;
                        let tl = row->Select_when_true;
                        let fl = row->Select_when_false;
                        let val = if eval_lin(cl, asg) == 1 {
                            eval_lin(tl, asg)
                        } else {
                            eval_lin(fl, asg)
                        };
                        let asg2: Assignment = |x: usize|
                            if x == v {
                                val
                            } else {
                                asg(x)
                            };
                        assert forall|j: int| n0 <= j < n1 implies row_holds(
                            #[trigger] cs.rows@[j],
                            asg2,
                        ) by {
                            assert(cs.rows@[n0] == Row::Witness { var: v });
                            assert(cs.rows@[n0 + 1] == row);
                            assert(eval_lin(cl, asg2) == eval_lin(cl, asg));
                            assert(eval_lin(tl, asg2) == eval_lin(tl, asg));
                            assert(eval_lin(fl, asg2) == eval_lin(fl, asg));
                        }
                        assert((forall|x: usize| x < n0 ==> #[trigger] asg2(x) == asg(x))
                            && rows_hold_from(cs.rows@, n0, asg2));
                    }
                }
            }
            Ok(out)
        }
        (ConstrainedValue::Array(a_ch), ConstrainedValue::Array(b_ch)) => {
            if a_ch.len() != b_ch.len() {
                proof {
                    lemma_extends_refl(*cs);
                    if shape_of(*when_true) == shape_of(*when_false) {
                        assert(shape_of(*when_true)->Array_0.len() == a_ch.len());
                        assert(shape_of(*when_false)->Array_0.len() == b_ch.len());
                    }
                }
                return Err(ValueError::ShapeMismatch);
            }
            let mut out: Vec<ConstrainedValue> = Vec::new();
            let mut k: usize = 0;
            let ghost n0 = cs0.rows@.len() as int;
            let ghost p = bool_vars_below(*condition, n0) && value_vars_below(*when_true, n0)
                && value_vars_below(*when_false, n0);
            proof {
                lemma_extends_refl(*cs);
                if p {
                    assert forall|asg: Assignment| #[trigger] completion_exists(
                        n0,
                        cs.rows@,
                        asg,
                    ) by {
                        assert((forall|x: usize| x < n0 ==> #[trigger] asg(x) == asg(x))
                            && rows_hold_from(cs.rows@, n0, asg));
                    }
                }
            }
            while k < a_ch.len()
                invariant
                    k <= a_ch.len(),
                    out.len() == k,
                    extends(cs0, *cs),
                    forall|i: int|
                        0 <= i < k ==> #[trigger] shape_of(out[i]) == shape_of(a_ch[i])
                            && shape_of(a_ch[i]) == shape_of(b_ch[i]),
                    forall|i: int, asg: Assignment|
                        0 <= i < k && rows_hold_from(cs.rows@, cs0.rows@.len() as int, asg)
                            ==> #[trigger] eval_value(out[i], asg) == (if eval_bool(
                            *condition,
                            asg,
                        ) {
                            eval_value(a_ch[i], asg)
                        } else {
                            eval_value(b_ch[i], asg)
                        }),
                    p ==> forall|j: int|
                        n0 <= j < cs.rows@.len() ==> row_vars_below(
                            #[trigger] cs.rows@[j],
                            cs.rows@.len() as int,
                        ),
                    p ==> forall|i: int|
                        0 <= i < k ==> value_vars_below(
                            #[trigger] out@[i],
                            cs.rows@.len() as int,
                        ),
                    p ==> segment_completable(n0, cs.rows@),
                decreases a_ch.len() - k,
            {
                proof {
                    assert(decreases_to!(*when_true => when_true->Array_0));
                    vstd::std_specs::vec::axiom_vec_index_decreases(
                        when_true->Array_0,
                        k as int,
                    );
                }
                let ghost cs_pre = *cs;
                let child = conditionally_select(cs, condition, &a_ch[k], &b_ch[k]);
                let ghost cs_post = *cs;
                match child {
                    Ok(c) => {
                        out.push(c);
                        proof {
                            lemma_extends_trans(cs0, cs_pre, cs_post);
                            assert forall|i: int, asg: Assignment|
                                0 <= i < k + 1 && rows_hold_from(
                                    cs.rows@,
                                    cs0.rows@.len() as int,
                                    asg,
                                ) implies #[trigger] eval_value(out[i], asg) == (if eval_bool(
                                *condition,
                                asg,
                            ) {
                                eval_value(a_ch[i], asg)
                            } else {
                                eval_value(b_ch[i], asg)
                            }) by {
                                lemma_rows_hold_prefix(
                                    cs_pre.rows@,
                                    cs_post.rows@,
                                    cs0.rows@.len() as int,
                                    asg,
                                );
                            }
                            if p {
                                let m = cs_pre.rows@.len() as int;
                                let m2 = cs_post.rows@.len() as int;
                                assert(value_vars_below(a_ch[k as int], n0)
                                    && value_vars_below(b_ch[k as int], n0)) by {
                                    assert(value_vars_below(*when_true, n0));
                                    assert(value_vars_below(*when_false, n0));
                                }
                                lemma_value_vars_below_mono(a_ch[k as int], n0, m);
                                lemma_value_vars_below_mono(b_ch[k as int], n0, m);
                                assert(bool_vars_below(*condition, m));
                                // The child's clauses now apply at this step.
                                assert forall|j: int|
                                    n0 <= j < m2 implies row_vars_below(
                                    #[trigger] cs_post.rows@[j],
                                    m2,
                                ) by {
                                    if j < m {
                                        assert(cs_post.rows@.subrange(0, m) == cs_pre.rows@);
                                        assert(cs_post.rows@[j] == cs_post.rows@.subrange(
                                            0,
                                            m,
                                        )[j]);
                                        assert(row_vars_below(cs_pre.rows@[j], m));
                                    }
                                }
                                assert forall|i: int|
                                    0 <= i < k + 1 implies value_vars_below(
                                    #[trigger] out@[i],
                                    m2,
                                ) by {
                                    if i < k {
                                        lemma_value_vars_below_mono(out@[i], m, m2);
                                    }
                                }
                                assert forall|asg: Assignment| #[trigger] completion_exists(
                                    n0,
                                    cs_post.rows@,
                                    asg,
                                ) by {
                                    assert(completion_exists(n0, cs_pre.rows@, asg));
                                    let asg1 = choose|a: Assignment|
                                        (forall|x: usize| x < n0 ==> #[trigger] a(x) == asg(x))
                                            && rows_hold_from(cs_pre.rows@, n0, a);
                                    assert(completion_exists(m, cs_post.rows@, asg1));
                                    let asg2 = choose|a: Assignment|
                                        (forall|x: usize| x < m ==> #[trigger] a(x) == asg1(x))
                                            && rows_hold_from(cs_post.rows@, m, a);
                                    assert forall|j: int| n0 <= j < m implies row_holds(
                                        #[trigger] cs_post.rows@[j],
                                        asg2,
                                    ) by {
                                        assert(cs_post.rows@.subrange(0, m) == cs_pre.rows@);
                                        assert(cs_post.rows@[j] == cs_post.rows@.subrange(
                                            0,
                                            m,
                                        )[j]);
                                        assert(row_vars_below(cs_pre.rows@[j], m));
                                        lemma_row_holds_agree(cs_pre.rows@[j], m, asg1, asg2);
                                        assert(row_holds(cs_pre.rows@[j], asg1));
                                    }
                                    assert(forall|x: usize|
                                        x < n0 ==> #[trigger] asg2(x) == asg(x));
                                    assert((forall|x: usize|
                                        x < n0 ==> #[trigger] asg2(x) == asg(x))
                                        && rows_hold_from(cs_post.rows@, n0, asg2));
                                }
                            }
                        }
                        k += 1;
                    }
                    Err(e) => {
                        proof {
                            lemma_extends_trans(cs0, cs_pre, cs_post);
                            if shape_of(*when_true) == shape_of(*when_false) {
                                assert(shape_of(*when_true)->Array_0[k as int] == shape_of(
                                    a_ch[k as int],
                                ));
                                assert(shape_of(*when_false)->Array_0[k as int] == shape_of(
                                    b_ch[k as int],
                                ));
                            }
                        }
                        return Err(e);
                    }
                }
            }
            let outv = ConstrainedValue::Array(out);
            proof {
                if p {
                    let n1 = cs.rows@.len() as int;
                    assert forall|i: int|
                        0 <= i < out@.len() implies value_vars_below(#[trigger] out@[i], n1) by {}
                    assert(value_vars_below(outv, n1));
                }
            }
            proof {
                let so = shape_of(outv)->Array_0;
                let st = shape_of(*when_true)->Array_0;
                let sf = shape_of(*when_false)->Array_0;
                assert forall|i: int| 0 <= i < so.len() implies so[i] == st[i] && st[i] == sf[i] by {
                    assert(shape_of(out@[i]) == shape_of(a_ch@[i]));
                    assert(so[i] == shape_of(out@[i]));
                    assert(st[i] == shape_of(a_ch@[i]));
                    assert(sf[i] == shape_of(b_ch@[i]));
                }
                assert(so =~= st);
                assert(st =~= sf);
                assert(shape_of(outv) == shape_of(*when_true));
                assert(shape_of(*when_true) == shape_of(*when_false));
                assert forall|asg: Assignment|
                    rows_hold_from(cs.rows@, cs0.rows@.len() as int, asg) implies eval_value(
                    outv,
                    asg,
                ) == (if eval_bool(*condition, asg) {
                    eval_value(*when_true, asg)
                } else {
                    eval_value(*when_false, asg)
                }) by {
                    let s1 = eval_value(outv, asg)->Array_0;
                    if eval_bool(*condition, asg) {
                        let t1 = eval_value(*when_true, asg)->Array_0;
                        assert forall|i: int| 0 <= i < s1.len() implies s1[i] == t1[i] by {
                            assert(eval_value(out@[i], asg) == (if eval_bool(*condition, asg) {
                                eval_value(a_ch[i], asg)
                            } else {
                                eval_value(b_ch[i], asg)
                            }));
                            assert(s1[i] == eval_value(out@[i], asg));
                            assert(t1[i] == eval_value(a_ch[i], asg));
                        }
                        assert(s1 =~= t1);
                    } else {
                        let t1 = eval_value(*when_false, asg)->Array_0;
                        assert forall|i: int| 0 <= i < s1.len() implies s1[i] == t1[i] by {
                            assert(eval_value(out@[i], asg) == (if eval_bool(*condition, asg) {
                                eval_value(a_ch[i], asg)
                            } else {
                                eval_value(b_ch[i], asg)
                            }));
                            assert(s1[i] == eval_value(out@[i], asg));
                            assert(t1[i] == eval_value(b_ch[i], asg));
                        }
                        assert(s1 =~= t1);
                    }
                }
            }
            Ok(outv)
        }
        _ => {
            proof {
                lemma_extends_refl(*cs);
            }
            Err(ValueError::ShapeMismatch)
        }
    }
}

} // verus!
