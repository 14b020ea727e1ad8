//! The instruction evaluator and its oblivious array engine. Instructions are
//! dispatched one at a time inside a freshly labelled scope; the array slice
//! operation selects between a zero-constraint constant path and an oblivious
//! scan whose circuit shape is independent of the secret index.
use vstd::prelude::*;
use crate::cs::{
    extends, lemma_extends_refl, lemma_row_holds_agree, lemma_rows_extend_trans,
    lemma_rows_hold_prefix, row_holds, row_vars_below, rows_extend, rows_hold_from,
    ConstraintSystem, Lin, Row, ScopeLabel,
};
use crate::errors::{ArrayError, EvalError, ValueError};
use crate::operations::{
    array_bounds_check, completion_exists, conditionally_select, enforce_equal, enforce_sub,
    evaluate_eq, int_lin,
};
use crate::value::{
    bool_vars_below, clone_value, equivalent, eval_bool, eval_int, eval_value, int_vars_below,
    lemma_value_vars_below_mono, shape_of, value_vars_below, Assignment, Boolean, ConstrainedValue,
    Evaluated, Integer, IntegerValue, IntegerWidth, Shape,
};

verus! {

broadcast use vstd::std_specs::vec::axiom_vec_index_decreases;

/// What the window of `length` elements starting at `start` denotes under an
/// assignment.
pub open spec fn eval_window(
    arr: Seq<ConstrainedValue>,
    start: int,
    length: int,
    asg: Assignment,
) -> Evaluated {
    Evaluated::Array(Seq::new(length as nat, |k: int| eval_value(arr[start + k], asg)))
}

/// The shape of the window of `length` elements starting at `start`.
pub open spec fn window_shape(arr: Seq<ConstrainedValue>, start: int, length: int) -> Shape {
    Shape::Array(Seq::new(length as nat, |k: int| shape_of(arr[start + k])))
}

/// Whether every candidate window of `length` elements has the shape of the
/// first one; the oblivious scan can fold the candidates exactly then.
pub open spec fn windows_uniform(arr: Seq<ConstrainedValue>, length: int) -> bool {
    forall|i: int, k: int|
        0 <= i <= arr.len() - length && 0 <= k < length ==> #[trigger] shape_of(arr[i + k])
            == shape_of(arr[k])
}

/// The result is an array of `length` fresh elements, each indistinguishable
/// from the corresponding element of the window starting at `left`.
pub open spec fn window_equivalent(
    out: ConstrainedValue,
    arr: Seq<ConstrainedValue>,
    left: int,
    length: int,
) -> bool {
    &&& out matches ConstrainedValue::Array(_)
    &&& out->Array_0.len() == length
    &&& forall|k: int| 0 <= k < length ==> equivalent(#[trigger] out->Array_0[k], arr[left + k])
}

/// Copies the window `arr[left .. left + length]` into a fresh array value.
#[verifier::loop_isolation(false)]
fn clone_window(array: &Vec<ConstrainedValue>, left: u64, length: u64) -> (r: ConstrainedValue)
    requires
        left + length <= array@.len(),
    ensures
        window_equivalent(r, array@, left as int, length as int),
        shape_of(r) == window_shape(array@, left as int, length as int),
        forall|asg: Assignment|
            eval_value(r, asg) == eval_window(array@, left as int, length as int, asg),
        forall|b: int|
            (forall|i: int|
                0 <= i < array@.len() ==> value_vars_below(#[trigger] array@[i], b))
                ==> #[trigger] value_vars_below(r, b),
{
    let n_arr = array.len();
    let mut out: Vec<ConstrainedValue> = Vec::new();
    let mut k: u64 = 0;
    while k < length
        invariant
            k <= length,
            out@.len() == k,
            n_arr == array@.len(),
            forall|i: int| 0 <= i < k ==> equivalent(#[trigger] out@[i], array@[left + i]),
            forall|i: int, b: int|
                0 <= i < k && value_vars_below(array@[left + i], b)
                    ==> #[trigger] value_vars_below(out@[i], b),
        decreases length - k,
    {
        proof {
            assert(left + k < n_arr);
        }
        let c = clone_value(&array[(left + k) as usize]);
        out.push(c);
        k += 1;
    }
    let r = ConstrainedValue::Array(out);
    proof {
        assert forall|i: int| 0 <= i < length implies equivalent(
            #[trigger] r->Array_0[i],
            array@[left + i],
        ) by {}
        assert(shape_of(r) matches Shape::Array(_));
        let so = shape_of(r)->Array_0;
        let st = window_shape(array@, left as int, length as int)->Array_0;
        assert forall|i: int| 0 <= i < so.len() implies so[i] == st[i] by {
            assert(equivalent(r->Array_0[i], array@[left + i]));
            assert(so[i] == shape_of(r->Array_0[i]));
            assert(st[i] == shape_of(array@[left + i]));
        }
        assert(so =~= st);
        assert(shape_of(r) == window_shape(array@, left as int, length as int));
        assert forall|b: int|
            (forall|i: int|
                0 <= i < array@.len() ==> value_vars_below(#[trigger] array@[i], b))
                implies #[trigger] value_vars_below(r, b) by {
            assert forall|i: int|
                0 <= i < out@.len() implies value_vars_below(#[trigger] out@[i], b) by {
                assert(value_vars_below(array@[left + i], b));
            }
            assert(value_vars_below(r, b));
        }
        assert forall|asg: Assignment|
            eval_value(r, asg) == eval_window(array@, left as int, length as int, asg) by {
            let eo = eval_value(r, asg)->Array_0;
            let et = eval_window(array@, left as int, length as int, asg)->Array_0;
            assert forall|i: int| 0 <= i < eo.len() implies eo[i] == et[i] by {
                assert(equivalent(r->Array_0[i], array@[left + i]));
                assert(eval_value(r->Array_0[i], asg) == eval_value(array@[left + i], asg));
                assert(eo[i] == eval_value(r->Array_0[i], asg));
                assert(et[i] == eval_value(array@[left + i], asg));
            }
            assert(eo =~= et);
        }
    }
    r
}




/// An in-range start value has an assignment that opens the secret bounds to
/// it and satisfies every row the slice engine emitted.
pub open spec fn opening_exists(
    from: Integer,
    to: Integer,
    start: int,
    rows: Seq<Row>,
    v: u64,
    length: u64,
) -> bool {
    exists|asg: Assignment|
        eval_int(from, asg) == v && eval_int(to, asg) == v + length && rows_hold_from(
            rows,
            start,
            asg,
        )
}

/// Equivalent array values are equivalent element by element.
proof fn lemma_equivalent_elements(a: ConstrainedValue, b: ConstrainedValue)
    requires
        equivalent(a, b),
        a matches ConstrainedValue::Array(_),
    ensures
        b matches ConstrainedValue::Array(_),
        a->Array_0@.len() == b->Array_0@.len(),
        forall|k: int|
            0 <= k < a->Array_0@.len() ==> equivalent(#[trigger] a->Array_0@[k], b->Array_0@[k]),
{
    lemma_same_shape_same_variant(a, b);
    let sa = shape_of(a)->Array_0;
    let sb = shape_of(b)->Array_0;
    assert(sa.len() == a->Array_0@.len());
    assert(sb.len() == b->Array_0@.len());
    assert forall|k: int|
        0 <= k < a->Array_0@.len() implies equivalent(
        #[trigger] a->Array_0@[k],
        b->Array_0@[k],
    ) by {
        assert(sa[k] == shape_of(a->Array_0@[k]));
        assert(sb[k] == shape_of(b->Array_0@[k]));
        assert forall|asg: Assignment|
            eval_value(a->Array_0@[k], asg) == eval_value(b->Array_0@[k], asg) by {
            assert(eval_value(a, asg) == eval_value(b, asg));
            let ea = eval_value(a, asg)->Array_0;
            let eb = eval_value(b, asg)->Array_0;
            assert(ea[k] == eval_value(a->Array_0@[k], asg));
            assert(eb[k] == eval_value(b->Array_0@[k], asg));
        }
    }
}

/// The slice relation does not depend on which of two element-by-element
/// equivalent arrays it is stated over.
proof fn lemma_slice_spec_transfer(
    prev_rows: Seq<Row>,
    next_rows: Seq<Row>,
    a: Seq<ConstrainedValue>,
    b: Seq<ConstrainedValue>,
    from: Integer,
    to: Integer,
    length: u64,
    r: Result<ConstrainedValue, EvalError>,
)
    requires
        a.len() == b.len(),
        forall|k: int| 0 <= k < a.len() ==> equivalent(#[trigger] a[k], b[k]),
        slice_spec(prev_rows, next_rows, a, from, to, length, r),
    ensures
        slice_spec(prev_rows, next_rows, b, from, to, length, r),
{
    assert forall|left: int, len2: int, out: ConstrainedValue|
        0 <= left && 0 <= len2 && left + len2 <= a.len() && window_equivalent(
            out,
            a,
            left,
            len2,
        ) implies #[trigger] window_equivalent(out, b, left, len2) by {
        assert forall|k: int|
            0 <= k < len2 implies equivalent(#[trigger] out->Array_0[k], b[left + k]) by {
            assert(equivalent(out->Array_0[k], a[left + k]));
            assert(equivalent(a[left + k], b[left + k]));
        }
    }
    assert(windows_uniform(a, length as int) == windows_uniform(b, length as int)) by {
        assert forall|k: int| 0 <= k < a.len() implies #[trigger] shape_of(a[k]) == shape_of(
            b[k],
        ) by {
            assert(equivalent(a[k], b[k]));
        }
        if windows_uniform(a, length as int) {
            assert forall|i: int, k: int|
                0 <= i <= b.len() - length && 0 <= k < length implies #[trigger] shape_of(
                b[i + k],
            ) == shape_of(b[k]) by {
                assert(shape_of(a[i + k]) == shape_of(a[k]));
            }
        }
        if windows_uniform(b, length as int) {
            assert forall|i: int, k: int|
                0 <= i <= a.len() - length && 0 <= k < length implies #[trigger] shape_of(
                a[i + k],
            ) == shape_of(a[k]) by {
                assert(shape_of(b[i + k]) == shape_of(b[k]));
            }
        }
    }
    assert forall|start: int, asg: Assignment|
        0 <= start && start + length <= a.len() implies #[trigger] eval_window(
        a,
        start,
        length as int,
        asg,
    ) == eval_window(b, start, length as int, asg) by {
        let ea = eval_window(a, start, length as int, asg)->Array_0;
        let eb = eval_window(b, start, length as int, asg)->Array_0;
        assert forall|k: int| 0 <= k < ea.len() implies ea[k] == eb[k] by {
            assert(equivalent(a[start + k], b[start + k]));
            assert(ea[k] == eval_value(a[start + k], asg));
            assert(eb[k] == eval_value(b[start + k], asg));
        }
        assert(ea =~= eb);
    }
}

/// Everything the slice engine decides: the relation between the constraint
/// system before and after, the inputs, and the outcome. Stated once here,
/// it serves the engine itself and the instruction handler above it.
pub open spec fn slice_spec(
    prev_rows: Seq<Row>,
    next_rows: Seq<Row>,
    arr: Seq<ConstrainedValue>,
    from: Integer,
    to: Integer,
    length: u64,
    r: Result<ConstrainedValue, EvalError>,
) -> bool {
    // Both bounds known: the checked constant path, free of constraints.
    &&& (match (from.spec_const_value(), to.spec_const_value()) {
            (Some(f), Some(t)) => ({
                let n = arr.len() as int;
                if t - f != length {
                    r == Err::<ConstrainedValue, EvalError>(
                        EvalError::Array(ArrayError::InvalidSliceLength),
                    ) && next_rows == prev_rows
                } else if t > n {
                    r == Err::<ConstrainedValue, EvalError>(
                        EvalError::Array(
                            ArrayError::IndexOutOfBounds { index: t, length: arr.len() as u64 },
                        ),
                    ) && next_rows == prev_rows
                } else {
                    r matches Ok(out) && (next_rows == prev_rows) && window_equivalent(
                        out,
                        arr,
                        f as int,
                        length as int,
                    )
                }
            }),
            // Only the start known: the end is computed as `from + length`.
            (Some(f), None) => ({
                let n = arr.len() as int;
                if f + length > n {
                    r == Err::<ConstrainedValue, EvalError>(
                        EvalError::Array(
                            ArrayError::IndexOutOfBounds {
                                index: (((f + length) as int) % 0x1_0000_0000_0000_0000) as u64,
                                length: arr.len() as u64,
                            },
                        ),
                    ) && next_rows == prev_rows
                } else {
                    r matches Ok(out) && (next_rows == prev_rows) && window_equivalent(
                        out,
                        arr,
                        f as int,
                        length as int,
                    )
                }
            }),
            // Only the end known: the start is computed as `to - length`.
            (None, Some(t)) => ({
                let n = arr.len() as int;
                if t < length {
                    r == Err::<ConstrainedValue, EvalError>(
                        EvalError::Array(ArrayError::InvalidSliceLength),
                    ) && next_rows == prev_rows
                } else if t > n {
                    r == Err::<ConstrainedValue, EvalError>(
                        EvalError::Array(
                            ArrayError::IndexOutOfBounds { index: t, length: arr.len() as u64 },
                        ),
                    ) && next_rows == prev_rows
                } else {
                    r matches Ok(out) && (next_rows == prev_rows) && window_equivalent(
                        out,
                        arr,
                        t - length,
                        length as int,
                    )
                }
            }),
            (None, None) => true,
        })
    // Both bounds secret: the oblivious path. Failures are exact.
    &&& ((from.spec_const_value() matches None) && (to.spec_const_value() matches None)) ==> ({
            let n = arr.len() as int;
            &&& (r == Err::<ConstrainedValue, EvalError>(
                EvalError::Value(ValueError::WidthMismatch),
            ) <==> !(from.width == IntegerWidth::U32 && to.width == IntegerWidth::U32))
            &&& (r == Err::<ConstrainedValue, EvalError>(
                EvalError::Array(ArrayError::LengthOutOfBounds),
            ) <==> (from.width == IntegerWidth::U32 && to.width == IntegerWidth::U32 && n
                > u32::MAX))
            &&& (r == Err::<ConstrainedValue, EvalError>(
                EvalError::Value(ValueError::ShapeMismatch),
            ) <==> (from.width == IntegerWidth::U32 && to.width == IntegerWidth::U32 && n
                <= u32::MAX && length <= n && !windows_uniform(arr, length as int)))
            &&& ((r matches Ok(_)) <==> (from.width == IntegerWidth::U32 && to.width
                == IntegerWidth::U32 && n <= u32::MAX && (length > n || windows_uniform(
                arr,
                length as int,
            ))))
            &&& (match r {
                Ok(out) => out matches ConstrainedValue::Array(_),
                Err(_) => true,
            })
        })
    // What any satisfying assignment of the emitted rows must open the
    // result to: exactly the window at the secret start index, which the
    // constraints force into range.
    &&& (match r {
            Ok(out) => ((from.spec_const_value() matches None) && (to.spec_const_value()
                matches None)) ==> ({
            let n = arr.len() as int;
            &&& length <= n ==> forall|asg: Assignment|
                rows_hold_from(next_rows, prev_rows.len() as int, asg) ==> ({
                    let fv = eval_int(from, asg) as int;
                    fv + length <= n && eval_value(out, asg) == eval_window(
                        arr,
                        fv,
                        length as int,
                        asg,
                    )
                })
            &&& (length > n && length <= u32::MAX) ==> forall|asg: Assignment|
                !rows_hold_from(next_rows, prev_rows.len() as int, asg)
            &&& length > n ==> out->Array_0.len() == 0
        }),
            Err(_) => true,
        })
}

/// The array slice engine. With both bounds resolvable at construction time
/// it returns the literal window and emits nothing; with both bounds secret
/// it emits a length constraint, a bounds constraint, and one candidate fold
/// per start position, so the circuit shape never depends on the index.
/// The length equality is enforced at the declared 32-bit index width, so a
/// declared length beyond that width is truncated in the emitted constraint;
/// the bounds check keeps the array itself within the addressable range.
#[verifier::loop_isolation(false)]
#[verifier::rlimit(60)]
pub fn slice_array(
    cs: &mut ConstraintSystem,
    array: &Vec<ConstrainedValue>,
    from: &Integer,
    to: &Integer,
    length: u64,
) -> (r: Result<ConstrainedValue, EvalError>)
    ensures
        extends(*old(cs), *final(cs)),
        slice_spec(old(cs).rows@, final(cs).rows@, array@, *from, *to, length, r),
        // Valid openings are accepted: when the callers' witnesses are
        // distinct and lie below the emitted rows, every in-range start
        // value has an assignment satisfying all emitted rows.
        (match r {
            Ok(_) => ((from.spec_const_value() matches None) && (to.spec_const_value()
                matches None) && int_vars_below(*from, old(cs).rows@.len() as int)
                && int_vars_below(*to, old(cs).rows@.len() as int) && from.value != to.value && (
            forall|i: int|
                0 <= i < array@.len() ==> value_vars_below(
                    #[trigger] array@[i],
                    old(cs).rows@.len() as int,
                )) && length <= array@.len()) ==> forall|v: u64|
                v + length <= array@.len() ==> #[trigger] opening_exists(
                    *from,
                    *to,
                    old(cs).rows@.len() as int,
                    final(cs).rows@,
                    v,
                    length,
                ),
            Err(_) => true,
        }),
{
    let ghost cs0 = *cs;
    let n_usize = array.len();
    let n: u64 = n_usize as u64;
    match (from.const_value(), to.const_value()) {
        (Some(f), Some(t)) => {
            proof {
                lemma_extends_refl(*cs);
            }
            if t < f || t - f != length {
                return Err(EvalError::Array(ArrayError::InvalidSliceLength));
            }
            if t > n {
                return Err(
                    EvalError::Array(ArrayError::IndexOutOfBounds { index: t, length: n }),
                );
            }
            Ok(clone_window(array, f, length))
        }
        (Some(f), None) => {
            proof {
                lemma_extends_refl(*cs);
            }
            if length > n || f > n - length {
                return Err(
                    EvalError::Array(
                        ArrayError::IndexOutOfBounds { index: f.wrapping_add(length), length: n },
                    ),
                );
            }
            Ok(clone_window(array, f, length))
        }
        (None, Some(t)) => {
            proof {
                lemma_extends_refl(*cs);
            }
            if t < length {
                return Err(EvalError::Array(ArrayError::InvalidSliceLength));
            }
            if t > n {
                return Err(
                    EvalError::Array(ArrayError::IndexOutOfBounds { index: t, length: n }),
                );
            }
            Ok(clone_window(array, t - length, length))
        }
        (None, None) => {
            cs.push_scope(ScopeLabel::ArraySlice);
            let ghost scope1 = cs0.scopes@.push(ScopeLabel::ArraySlice);
            // Enforce `to - from == length` at the declared index width.
            let calc = match enforce_sub(cs, to, from) {
                Ok(c) => c,
                Err(e) => {
                    cs.pop_scope();
                    proof {
                        assert(cs.scopes@ =~= cs0.scopes@);
                        lemma_extends_refl(cs0);
                    }
                    return Err(EvalError::Value(e));
                }
            };
            let ghost cs_sub = *cs;
            let len_const = Integer::constant(IntegerWidth::U32, (#[verifier::truncate] (length as u32)) as u64);
            match enforce_equal(cs, &calc, &len_const) {
                Ok(()) => {}
                Err(e) => {
                    cs.pop_scope();
                    proof {
                        assert(cs.scopes@ =~= cs0.scopes@);
                        assert(cs.rows@.subrange(0, cs0.rows@.len() as int) =~= cs0.rows@);
                    }
                    return Err(EvalError::Value(e));
                }
            }
            let ghost cs_eq = *cs;
            proof {
                lemma_rows_extend_trans(cs0.rows@, cs_sub.rows@, cs_eq.rows@);
            }
            // Enforce `to <= array.len()`; the length must be addressable.
            if n > 0xffff_ffffu64 {
                cs.pop_scope();
                proof {
                    assert(cs.scopes@ =~= cs0.scopes@);
                }
                return Err(EvalError::Array(ArrayError::LengthOutOfBounds));
            }
            array_bounds_check(cs, to, n);
            let ghost cs_head = *cs;
            let ghost c0 = cs0.rows@.len() as int;
            let ghost p_sat = int_vars_below(*from, c0) && int_vars_below(*to, c0) && from.value
                != to.value && (forall|i: int|
                0 <= i < array@.len() ==> value_vars_below(#[trigger] array@[i], c0));
            proof {
                lemma_rows_extend_trans(cs0.rows@, cs_eq.rows@, cs_head.rows@);
            }
            if length > n {
                cs.pop_scope();
                proof {
                    assert(cs.scopes@ =~= cs0.scopes@);
                    lemma_rows_extend_trans(cs_sub.rows@, cs_eq.rows@, cs_head.rows@);
                    if length <= u32::MAX {
                        assert forall|asg: Assignment|
                            !rows_hold_from(cs.rows@, cs0.rows@.len() as int, asg) by {
                            if rows_hold_from(cs.rows@, cs0.rows@.len() as int, asg) {
                                lemma_rows_hold_prefix(
                                    cs_sub.rows@,
                                    cs.rows@,
                                    cs0.rows@.len() as int,
                                    asg,
                                );
                                lemma_rows_hold_prefix(
                                    cs_eq.rows@,
                                    cs.rows@,
                                    cs0.rows@.len() as int,
                                    asg,
                                );
                                assert(rows_hold_from(cs.rows@, cs_eq.rows@.len() as int, asg));
                                assert(eval_int(*from, asg) + eval_int(calc, asg) == eval_int(
                                    *to,
                                    asg,
                                ));
                                assert(eval_int(calc, asg) == (length as u32) as u64);
                                assert((length as u32) as u64 == length);
                                assert(eval_int(*to, asg) <= n);
                            }
                        }
                    }
                }
                return Ok(ConstrainedValue::Array(Vec::new()));
            }
            // The linear oblivious scan over every candidate start position.
            let count: u64 = n - length;
            let mut result = clone_window(array, 0, length);
            let ghost mut j: int = 0;
            let mut i: u64 = 0;
            proof {
                assert(cs.rows@.subrange(0, cs_head.rows@.len() as int) =~= cs_head.rows@);
                lemma_rows_extend_trans(cs_sub.rows@, cs_eq.rows@, cs_head.rows@);
                if p_sat {
                    let fv = from.value->Witness_0;
                    let tv = to.value->Witness_0;
                    let cv = calc.value->Witness_0;
                    assert(cv == c0);
                    assert(cs.rows@[c0] == Row::Witness { var: cv });
                    assert(cs.rows@[c0 + 1] == Row::Sub {
                        minuend: int_lin(*to),
                        subtrahend: int_lin(*from),
                        difference: Lin::Var(cv),
                    });
                    assert(cs.rows@[c0 + 2] == Row::EnforceEq {
                        left: int_lin(calc),
                        right: int_lin(len_const),
                    });
                    assert(cs.rows@[c0 + 3] == Row::AtMost { value: int_lin(*to), bound: n });
                    assert forall|j2: int| c0 <= j2 < cs.rows@.len() implies row_vars_below(
                        #[trigger] cs.rows@[j2],
                        cs.rows@.len() as int,
                    ) by {}
                    assert(value_vars_below(result, c0));
                    lemma_value_vars_below_mono(result, c0, cs.rows@.len() as int);
                    assert forall|v: u64| v + length <= n implies #[trigger] opening_exists(
                        *from,
                        *to,
                        c0,
                        cs.rows@,
                        v,
                        length,
                    ) by {
                        let asg0: Assignment = |x: usize|
                            if x == cv {
                                (length as u32) as u64
                            } else if x == fv {
                                v
                            } else if x == tv {
                                (v + length) as u64
                            } else {
                                0u64
                            };
                        assert(eval_int(*from, asg0) == v);
                        assert(eval_int(*to, asg0) == v + length);
                        assert((length as u32) as u64 == length);
                        assert forall|j2: int| c0 <= j2 < cs.rows@.len() implies row_holds(
                            #[trigger] cs.rows@[j2],
                            asg0,
                        ) by {}
                        assert(eval_int(*from, asg0) == v && eval_int(*to, asg0) == v + length
                            && rows_hold_from(cs.rows@, c0, asg0));
                    }
                }
            }
            while i <= count
                invariant
                    0 <= i <= count + 1,
                    rows_extend(cs_head.rows@, cs.rows@),
                    cs.scopes@ == scope1,
                    0 <= j <= count,
                    j == 0 || j < i,
                    result matches ConstrainedValue::Array(_),
                    shape_of(result) == window_shape(array@, j, length as int),
                    forall|i2: int, k: int|
                        0 <= i2 < i && 0 <= k < length ==> #[trigger] shape_of(array@[i2 + k])
                            == shape_of(array@[k]),
                    forall|asg: Assignment|
                        rows_hold_from(cs.rows@, cs0.rows@.len() as int, asg) ==> ({
                            let fv = eval_int(*from, asg) as int;
                            eval_value(result, asg) == eval_window(
                                array@,
                                if fv < i { fv } else { 0 },
                                length as int,
                                asg,
                            )
                        }),
                    p_sat ==> forall|j: int|
                        c0 <= j < cs.rows@.len() ==> row_vars_below(
                            #[trigger] cs.rows@[j],
                            cs.rows@.len() as int,
                        ),
                    p_sat ==> value_vars_below(result, cs.rows@.len() as int),
                    p_sat ==> forall|v: u64|
                        v + length <= n ==> #[trigger] opening_exists(
                            *from,
                            *to,
                            c0,
                            cs.rows@,
                            v,
                            length,
                        ),
                decreases count + 1 - i,
            {
                cs.push_scope(ScopeLabel::ArraySliceIndex(i));
                let idx_const = Integer::constant(IntegerWidth::U32, i);
                let ghost cs_pre = *cs;
                let eq = match evaluate_eq(cs, from, &idx_const) {
                    Ok(b) => b,
                    Err(e) => {
                        proof {
                            assert(false);
                        }
                        cs.pop_scope();
                        cs.pop_scope();
                        return Err(EvalError::Value(e));
                    }
                };
                let ghost cs_mid = *cs;
                let wi = clone_window(array, i, length);
                let sel = match conditionally_select(cs, &eq, &wi, &result) {
                    Ok(v) => v,
                    Err(e) => {
                        // A candidate whose shape differs from the running
                        // result witnesses a non-uniform array.
                        proof {
                            lemma_rows_extend_trans(cs_head.rows@, cs_pre.rows@, cs_mid.rows@);
                            lemma_rows_extend_trans(cs_head.rows@, cs_mid.rows@, cs.rows@);
                            lemma_rows_extend_trans(cs0.rows@, cs_head.rows@, cs.rows@);
                            assert(shape_of(wi) != shape_of(result));
                            let swi = shape_of(wi)->Array_0;
                            let sre = shape_of(result)->Array_0;
                            assert(swi.len() == sre.len());
                            if (forall|k: int| 0 <= k < length ==> swi[k] == sre[k]) {
                                assert(swi =~= sre);
                                assert(false);
                            }
                            assert(exists|k: int| 0 <= k < length && swi[k] != sre[k]);
                            let k0 = choose|k: int| 0 <= k < length && swi[k] != sre[k];
                            assert(shape_of(array@[i + k0]) != shape_of(array@[j + k0]));
                            assert(!windows_uniform(array@, length as int)) by {
                                if windows_uniform(array@, length as int) {
                                    assert(shape_of(array@[i + k0]) == shape_of(array@[k0]));
                                    assert(shape_of(array@[j + k0]) == shape_of(array@[k0]));
                                }
                            }
                        }
                        cs.pop_scope();
                        cs.pop_scope();
                        proof {
                            assert(cs.scopes@ =~= cs0.scopes@);
                        }
                        return Err(EvalError::Value(e));
                    }
                };
                let ghost cs_post = *cs;
                proof {
                    lemma_rows_extend_trans(cs_head.rows@, cs_pre.rows@, cs_mid.rows@);
                    lemma_rows_extend_trans(cs_head.rows@, cs_mid.rows@, cs_post.rows@);
                    // The fold kept every candidate seen so far uniform.
                    assert forall|k: int| 0 <= k < length implies #[trigger] shape_of(
                        array@[i + k],
                    ) == shape_of(array@[k]) by {
                        assert(shape_of(wi) == shape_of(result));
                        let swi = shape_of(wi)->Array_0;
                        let sre = shape_of(result)->Array_0;
                        assert(swi[k] == shape_of(array@[i + k]));
                        assert(sre[k] == shape_of(array@[j + k]));
                        if j != 0 {
                            assert(shape_of(array@[j + k]) == shape_of(array@[k]));
                        }
                    }
                    assert forall|asg: Assignment|
                        rows_hold_from(cs_post.rows@, cs0.rows@.len() as int, asg) implies ({
                        let fv = eval_int(*from, asg) as int;
                        eval_value(sel, asg) == eval_window(
                            array@,
                            if fv < i + 1 {
                                fv
                            } else {
                                0
                            },
                            length as int,
                            asg,
                        )
                    }) by {
                        lemma_rows_extend_trans(cs_pre.rows@, cs_mid.rows@, cs_post.rows@);
                        lemma_rows_hold_prefix(
                            cs_pre.rows@,
                            cs_post.rows@,
                            cs0.rows@.len() as int,
                            asg,
                        );
                        lemma_rows_hold_prefix(
                            cs_mid.rows@,
                            cs_post.rows@,
                            cs0.rows@.len() as int,
                            asg,
                        );
                        let fv = eval_int(*from, asg) as int;
                        assert(eval_bool(eq, asg) == (eval_int(*from, asg) == i));
                        if fv == i {
                            assert(eval_value(sel, asg) == eval_value(wi, asg));
                        } else {
                            assert(eval_value(sel, asg) == eval_value(result, asg));
                        }
                    }
                    if p_sat {
                        let m = cs_pre.rows@.len() as int;
                        let m1 = cs_mid.rows@.len() as int;
                        let m2 = cs_post.rows@.len() as int;
                        let w = eq->Witness_0;
                        assert(cs_mid.rows@[m] == Row::Witness { var: w });
                        assert(cs_mid.rows@[m + 1] == Row::IsEq {
                            left: int_lin(*from),
                            right: int_lin(idx_const),
                            result: Lin::Var(w),
                        });
                        assert(cs_post.rows@[m] == Row::Witness { var: w } && cs_post.rows@[m
                            + 1] == cs_mid.rows@[m + 1]) by {
                            assert(cs_post.rows@.subrange(0, m1) == cs_mid.rows@);
                            assert(cs_post.rows@[m] == cs_post.rows@.subrange(0, m1)[m]);
                            assert(cs_post.rows@[m + 1] == cs_post.rows@.subrange(0, m1)[m + 1]);
                        }
                        // The select saw inputs whose variables lie below it.
                        assert(bool_vars_below(eq, m1));
                        assert forall|i2: int|
                            0 <= i2 < array@.len() implies value_vars_below(
                            #[trigger] array@[i2],
                            m1,
                        ) by {
                            lemma_value_vars_below_mono(array@[i2], c0, m1);
                        }
                        assert(value_vars_below(wi, m1));
                        assert(value_vars_below(result, m));
                        lemma_value_vars_below_mono(result, m, m1);
                        // Row variables stay below the grown row list.
                        assert forall|j2: int| c0 <= j2 < m2 implies row_vars_below(
                            #[trigger] cs_post.rows@[j2],
                            m2,
                        ) by {
                            if j2 < m {
                                assert(cs_post.rows@.subrange(0, m) == cs_pre.rows@) by {
                                    assert(cs_post.rows@.subrange(0, m) =~= cs_pre.rows@);
                                }
                                assert(cs_post.rows@[j2] == cs_post.rows@.subrange(0, m)[j2]);
                                assert(row_vars_below(cs_pre.rows@[j2], m));
                            } else if j2 < m1 {
                                assert(w == m);
                            }
                        }
                        // Every in-range opening still has a satisfying
                        // assignment after this candidate's rows.
                        assert forall|v: u64| v + length <= n implies #[trigger] opening_exists(
                            *from,
                            *to,
                            c0,
                            cs_post.rows@,
                            v,
                            length,
                        ) by {
                            let fv = from.value->Witness_0;
                            let tv = to.value->Witness_0;
                            assert(opening_exists(*from, *to, c0, cs_pre.rows@, v, length));
                            let asg = choose|a: Assignment|
                                eval_int(*from, a) == v && eval_int(*to, a) == v + length
                                    && rows_hold_from(cs_pre.rows@, c0, a);
                            let eqv: u64 = if v == i {
                                1u64
                            } else {
                                0u64
                            };
                            let asg1: Assignment = |x: usize|
                                if x == w {
                                    eqv
                                } else {
                                    asg(x)
                                };
                            assert forall|j2: int| c0 <= j2 < m1 implies row_holds(
                                #[trigger] cs_mid.rows@[j2],
                                asg1,
                            ) by {
                                if j2 < m {
                                    assert(cs_mid.rows@.subrange(0, m) == cs_pre.rows@) by {
                                        assert(cs_mid.rows@.subrange(0, m) =~= cs_pre.rows@);
                                    }
                                    assert(cs_mid.rows@[j2] == cs_mid.rows@.subrange(0, m)[j2]);
                                    assert(row_vars_below(cs_pre.rows@[j2], m));
                                    lemma_row_holds_agree(cs_pre.rows@[j2], m, asg, asg1);
                                    assert(row_holds(cs_pre.rows@[j2], asg));
                                }
                            }
                            assert(completion_exists(m1, cs_post.rows@, asg1));
                            let asg2 = choose|a: Assignment|
                                (forall|x: usize| x < m1 ==> #[trigger] a(x) == asg1(x))
                                    && rows_hold_from(cs_post.rows@, m1, a);
                            assert forall|j2: int| c0 <= j2 < m1 implies row_holds(
                                #[trigger] cs_post.rows@[j2],
                                asg2,
                            ) by {
                                assert(cs_post.rows@.subrange(0, m1) == cs_mid.rows@);
                                assert(cs_post.rows@[j2] == cs_post.rows@.subrange(0, m1)[j2]);
                                assert(row_vars_below(cs_mid.rows@[j2], m1)) by {
                                    if j2 < m {
                                        assert(cs_mid.rows@[j2] == cs_pre.rows@[j2]);
                                        assert(row_vars_below(cs_pre.rows@[j2], m));
                                    } else {
                                        assert(w == m);
                                    }
                                }
                                lemma_row_holds_agree(cs_mid.rows@[j2], m1, asg1, asg2);
                                assert(row_holds(cs_mid.rows@[j2], asg1));
                            }
                            assert(eval_int(*from, asg2) == v && eval_int(*to, asg2) == v
                                + length) by {
                                assert(fv < c0 && tv < c0);
                                assert(asg2(fv) == asg1(fv) && asg1(fv) == asg(fv));
                                assert(asg2(tv) == asg1(tv) && asg1(tv) == asg(tv));
                            }
                            assert(eval_int(*from, asg2) == v && eval_int(*to, asg2) == v
                                + length && rows_hold_from(cs_post.rows@, c0, asg2));
                        }
                    }
                }
                result = sel;
                proof {
                    j = i as int;
                }
                cs.pop_scope();
                i += 1;
            }
            cs.pop_scope();
            proof {
                assert(cs.scopes@ =~= cs0.scopes@);
                lemma_rows_extend_trans(cs0.rows@, cs_head.rows@, cs.rows@);
                lemma_rows_extend_trans(cs_sub.rows@, cs_eq.rows@, cs_head.rows@);
                lemma_rows_extend_trans(cs_sub.rows@, cs_head.rows@, cs.rows@);
                lemma_rows_extend_trans(cs_eq.rows@, cs_head.rows@, cs.rows@);
                assert forall|asg: Assignment|
                    rows_hold_from(cs.rows@, cs0.rows@.len() as int, asg) implies ({
                    let fv = eval_int(*from, asg) as int;
                    fv + length <= n && eval_value(result, asg) == eval_window(
                        array@,
                        fv,
                        length as int,
                        asg,
                    )
                }) by {
                    lemma_rows_hold_prefix(cs_sub.rows@, cs.rows@, cs0.rows@.len() as int, asg);
                    lemma_rows_hold_prefix(cs_eq.rows@, cs.rows@, cs0.rows@.len() as int, asg);
                    lemma_rows_hold_prefix(cs_head.rows@, cs.rows@, cs0.rows@.len() as int, asg);
                    assert(rows_hold_from(cs_head.rows@, cs_eq.rows@.len() as int, asg));
                    assert(eval_int(*from, asg) + eval_int(calc, asg) == eval_int(*to, asg));
                    assert(eval_int(calc, asg) == (length as u32) as u64);
                    assert((length as u32) as u64 == length);
                    assert(eval_int(*to, asg) <= n);
                    let fv = eval_int(*from, asg) as int;
                    assert(fv + length <= n);
                    assert(fv < i);
                }
            }
            Ok(result)
        }
    }
}


/// One operand of an instruction: a register reference or an immediate value.
pub enum Operand {
    Register(usize),
    Immediate(ConstrainedValue),
}

/// A destination register together with the ordered operands of an opcode.
pub struct QueryData {
    pub destination: usize,
    pub values: Vec<Operand>,
}

/// An instruction: an opcode tag with its destination and operands.
/// Instructions are immutable once constructed.
pub enum Instruction {
    /// Slice an array: operands are the array, `from`, `to` and the length.
    ArraySliceGet(QueryData),
    /// Subtract two integers under a constraint: operands are the pair.
    Sub(QueryData),
    /// Compare two integers for equality: operands are the pair.
    Eq(QueryData),
    /// Fold two values by a boolean condition: condition, then the branches.
    Select(QueryData),
}

/// Whether an instruction carries the operand count its handler reads.
pub open spec fn instruction_well_formed(ins: Instruction) -> bool {
    match ins {
        Instruction::ArraySliceGet(qd) => qd.values@.len() == 4,
        Instruction::Sub(qd) => qd.values@.len() == 2,
        Instruction::Eq(qd) => qd.values@.len() == 2,
        Instruction::Select(qd) => qd.values@.len() == 3,
    }
}

/// Values of one shape are of one variant.
proof fn lemma_same_shape_same_variant(a: ConstrainedValue, b: ConstrainedValue)
    requires
        shape_of(a) == shape_of(b),
    ensures
        (a matches ConstrainedValue::Array(_)) == (b matches ConstrainedValue::Array(_)),
        (a matches ConstrainedValue::Integer(_)) == (b matches ConstrainedValue::Integer(_)),
{
}

/// The typed error a two-integer opcode's operand resolution yields, if
/// any: each operand is resolved and projected in turn.
pub open spec fn binary_integer_resolution_error(regs: Seq<Option<ConstrainedValue>>, qd: QueryData) -> Option<
    EvalError,
>
    recommends
        qd.values@.len() == 2,
{
    let v0 = operand_value(regs, qd.values@[0]);
    let v1 = operand_value(regs, qd.values@[1]);
    if v0 is None {
        Some(EvalError::UnsetRegister(operand_register(qd.values@[0])))
    } else if !(v0->0 matches ConstrainedValue::Integer(_)) {
        Some(EvalError::Value(ValueError::ExpectedInteger))
    } else if v1 is None {
        Some(EvalError::UnsetRegister(operand_register(qd.values@[1])))
    } else if !(v1->0 matches ConstrainedValue::Integer(_)) {
        Some(EvalError::Value(ValueError::ExpectedInteger))
    } else {
        None
    }
}

/// The typed error a select opcode's operand resolution yields, if any:
/// the condition must resolve to a boolean, and the branches to values.
pub open spec fn select_resolution_error(regs: Seq<Option<ConstrainedValue>>, qd: QueryData) -> Option<
    EvalError,
>
    recommends
        qd.values@.len() == 3,
{
    let v0 = operand_value(regs, qd.values@[0]);
    let v1 = operand_value(regs, qd.values@[1]);
    let v2 = operand_value(regs, qd.values@[2]);
    if v0 is None {
        Some(EvalError::UnsetRegister(operand_register(qd.values@[0])))
    } else if !(v0->0 matches ConstrainedValue::Boolean(_)) {
        Some(EvalError::Value(ValueError::ShapeMismatch))
    } else if v1 is None {
        Some(EvalError::UnsetRegister(operand_register(qd.values@[1])))
    } else if v2 is None {
        Some(EvalError::UnsetRegister(operand_register(qd.values@[2])))
    } else {
        None
    }
}


/// One subtraction instruction's effect, between its boundary states.
pub open spec fn sub_step(
    pre_regs: Seq<Option<ConstrainedValue>>,
    pre_rows: Seq<Row>,
    qd: QueryData,
    post_regs: Seq<Option<ConstrainedValue>>,
    post_rows: Seq<Row>,
    sr: Result<(), EvalError>,
) -> bool {
    &&& rows_extend(pre_rows, post_rows)
    &&& (sr matches Err(_) ==> post_regs == pre_regs)
    &&& (match binary_integer_resolution_error(pre_regs, qd) {
        Some(e) => sr == Err::<(), EvalError>(e) && post_rows == pre_rows,
        None => ({
            let a = operand_value(pre_regs, qd.values@[0])->0->Integer_0;
            let b = operand_value(pre_regs, qd.values@[1])->0->Integer_0;
            if a.width != b.width {
                sr == Err::<(), EvalError>(EvalError::Value(ValueError::WidthMismatch))
                    && post_rows == pre_rows
            } else {
                &&& sr matches Ok(_)
                &&& post_regs[qd.destination as int] matches Some(out) && (out
                    matches ConstrainedValue::Integer(d) && d.width == a.width && forall|
                    asg: Assignment,
                |
                    rows_hold_from(post_rows, pre_rows.len() as int, asg) ==> eval_int(b, asg)
                        + eval_int(d, asg) == eval_int(a, asg))
                &&& forall|i: int|
                    0 <= i < post_regs.len() && i != qd.destination ==> post_regs[i] == (if i
                        < pre_regs.len() {
                        pre_regs[i]
                    } else {
                        Option::<ConstrainedValue>::None
                    })
            }
        }),
    })
}

/// One equality-test instruction's effect, between its boundary states.
pub open spec fn eq_step(
    pre_regs: Seq<Option<ConstrainedValue>>,
    pre_rows: Seq<Row>,
    qd: QueryData,
    post_regs: Seq<Option<ConstrainedValue>>,
    post_rows: Seq<Row>,
    sr: Result<(), EvalError>,
) -> bool {
    &&& rows_extend(pre_rows, post_rows)
    &&& (sr matches Err(_) ==> post_regs == pre_regs)
    &&& (match binary_integer_resolution_error(pre_regs, qd) {
        Some(e) => sr == Err::<(), EvalError>(e) && post_rows == pre_rows,
        None => ({
            let a = operand_value(pre_regs, qd.values@[0])->0->Integer_0;
            let b = operand_value(pre_regs, qd.values@[1])->0->Integer_0;
            if a.width != b.width {
                sr == Err::<(), EvalError>(EvalError::Value(ValueError::WidthMismatch))
                    && post_rows == pre_rows
            } else {
                &&& sr matches Ok(_)
                &&& post_regs[qd.destination as int] matches Some(out) && (out
                    matches ConstrainedValue::Boolean(eq) && forall|asg: Assignment|
                    rows_hold_from(post_rows, pre_rows.len() as int, asg) ==> eval_bool(eq, asg)
                        == (eval_int(a, asg) == eval_int(b, asg)))
                &&& forall|i: int|
                    0 <= i < post_regs.len() && i != qd.destination ==> post_regs[i] == (if i
                        < pre_regs.len() {
                        pre_regs[i]
                    } else {
                        Option::<ConstrainedValue>::None
                    })
            }
        }),
    })
}

/// One conditional-select instruction's effect, between its boundary states.
pub open spec fn select_step(
    pre_regs: Seq<Option<ConstrainedValue>>,
    pre_rows: Seq<Row>,
    qd: QueryData,
    post_regs: Seq<Option<ConstrainedValue>>,
    post_rows: Seq<Row>,
    sr: Result<(), EvalError>,
) -> bool {
    &&& rows_extend(pre_rows, post_rows)
    &&& (sr matches Err(_) ==> post_regs == pre_regs)
    &&& (match select_resolution_error(pre_regs, qd) {
        Some(e) => sr == Err::<(), EvalError>(e) && post_rows == pre_rows,
        None => ({
            let cond = operand_value(pre_regs, qd.values@[0])->0->Boolean_0;
            let wt = operand_value(pre_regs, qd.values@[1])->0;
            let wf = operand_value(pre_regs, qd.values@[2])->0;
            if shape_of(wt) != shape_of(wf) {
                sr == Err::<(), EvalError>(EvalError::Value(ValueError::ShapeMismatch))
            } else {
                &&& sr matches Ok(_)
                &&& post_regs[qd.destination as int] matches Some(out) && shape_of(out)
                    == shape_of(wt) && (forall|asg: Assignment|
                    rows_hold_from(post_rows, pre_rows.len() as int, asg) ==> eval_value(out, asg)
                        == (if eval_bool(cond, asg) {
                        eval_value(wt, asg)
                    } else {
                        eval_value(wf, asg)
                    }))
                &&& forall|i: int|
                    0 <= i < post_regs.len() && i != qd.destination ==> post_regs[i] == (if i
                        < pre_regs.len() {
                        pre_regs[i]
                    } else {
                        Option::<ConstrainedValue>::None
                    })
            }
        }),
    })
}

/// One array-slice instruction's effect, between its boundary states: the
/// exact resolution errors, and past them the full slice relation on the
/// operand array, with the result stored in the destination register.
pub open spec fn slice_step(
    pre_regs: Seq<Option<ConstrainedValue>>,
    pre_rows: Seq<Row>,
    qd: QueryData,
    post_regs: Seq<Option<ConstrainedValue>>,
    post_rows: Seq<Row>,
    sr: Result<(), EvalError>,
) -> bool {
    &&& rows_extend(pre_rows, post_rows)
    &&& (sr matches Err(_) ==> post_regs == pre_regs)
    &&& (match slice_resolution_error(pre_regs, qd) {
        Some(e) => sr == Err::<(), EvalError>(e) && post_rows == pre_rows,
        None => ({
            let arr = operand_value(pre_regs, qd.values@[0])->0->Array_0@;
            let f = operand_value(pre_regs, qd.values@[1])->0->Integer_0;
            let t = operand_value(pre_regs, qd.values@[2])->0->Integer_0;
            let l = operand_value(pre_regs, qd.values@[3])->0->Integer_0.spec_const_value()->0;
            match sr {
                Ok(()) => post_regs[qd.destination as int] matches Some(out) && slice_spec(
                    pre_rows,
                    post_rows,
                    arr,
                    f,
                    t,
                    l,
                    Ok::<ConstrainedValue, EvalError>(out),
                ),
                Err(e) => slice_spec(
                    pre_rows,
                    post_rows,
                    arr,
                    f,
                    t,
                    l,
                    Err::<ConstrainedValue, EvalError>(e),
                ),
            }
        }),
    })
    &&& (match sr {
        Ok(()) => {
            &&& post_regs.len() >= pre_regs.len()
            &&& post_regs[qd.destination as int] matches Some(out) && (out
                matches ConstrainedValue::Array(_))
            &&& forall|i: int|
                0 <= i < post_regs.len() && i != qd.destination ==> post_regs[i] == (if i
                    < pre_regs.len() {
                    pre_regs[i]
                } else {
                    Option::<ConstrainedValue>::None
                })
        },
        _ => true,
    })
}

/// One instruction's effect on the register file and the rows, as the
/// dispatch loop sees it: the contract of the matching handler between the
/// instruction's boundary states.
pub open spec fn instruction_step(
    pre_regs: Seq<Option<ConstrainedValue>>,
    pre_rows: Seq<Row>,
    ins: Instruction,
    post_regs: Seq<Option<ConstrainedValue>>,
    post_rows: Seq<Row>,
    sr: Result<(), EvalError>,
) -> bool {
    match ins {
        Instruction::ArraySliceGet(qd) => slice_step(
            pre_regs,
            pre_rows,
            qd,
            post_regs,
            post_rows,
            sr,
        ),
        Instruction::Sub(qd) => sub_step(pre_regs, pre_rows, qd, post_regs, post_rows, sr),
        Instruction::Eq(qd) => eq_step(pre_regs, pre_rows, qd, post_regs, post_rows, sr),
        Instruction::Select(qd) => select_step(pre_regs, pre_rows, qd, post_regs, post_rows, sr),
    }
}

/// A run of `k` successful instruction steps through the recorded boundary
/// register files and row lists.
pub open spec fn steps_chain(
    regs_trace: Seq<Seq<Option<ConstrainedValue>>>,
    rows_trace: Seq<Seq<Row>>,
    instructions: Seq<Instruction>,
    k: int,
) -> bool {
    &&& 0 <= k <= instructions.len()
    &&& regs_trace.len() == k + 1
    &&& rows_trace.len() == k + 1
    &&& forall|i: int|
        0 <= i < k ==> instruction_step(
            regs_trace[i],
            rows_trace[i],
            #[trigger] instructions[i],
            regs_trace[i + 1],
            rows_trace[i + 1],
            Ok::<(), EvalError>(()),
        )
}

/// The register file of one evaluation frame.
pub struct EvaluatorState {
    pub registers: Vec<Option<ConstrainedValue>>,
}

/// The value an operand refers to, before any copy is taken.
pub open spec fn operand_value(regs: Seq<Option<ConstrainedValue>>, op: Operand) -> Option<
    ConstrainedValue,
> {
    match op {
        Operand::Register(i) => if i < regs.len() {
            regs[i as int]
        } else {
            None
        },
        Operand::Immediate(v) => Some(v),
    }
}

/// The register an operand names; only register operands can be unset.
pub open spec fn operand_register(op: Operand) -> usize {
    match op {
        Operand::Register(i) => i,
        Operand::Immediate(_) => arbitrary(),
    }
}

/// The typed error the slice handler's operand resolution yields, if any:
/// each operand is resolved and projected in turn, and the first failure
/// aborts the instruction.
pub open spec fn slice_resolution_error(regs: Seq<Option<ConstrainedValue>>, qd: QueryData) -> Option<
    EvalError,
>
    recommends
        qd.values@.len() == 4,
{
    let v0 = operand_value(regs, qd.values@[0]);
    let v1 = operand_value(regs, qd.values@[1]);
    let v2 = operand_value(regs, qd.values@[2]);
    let v3 = operand_value(regs, qd.values@[3]);
    if v0 is None {
        Some(EvalError::UnsetRegister(operand_register(qd.values@[0])))
    } else if !(v0->0 matches ConstrainedValue::Array(_)) {
        Some(EvalError::Value(ValueError::ExpectedArray))
    } else if v1 is None {
        Some(EvalError::UnsetRegister(operand_register(qd.values@[1])))
    } else if !(v1->0 matches ConstrainedValue::Integer(_)) {
        Some(EvalError::Value(ValueError::ExpectedInteger))
    } else if v2 is None {
        Some(EvalError::UnsetRegister(operand_register(qd.values@[2])))
    } else if !(v2->0 matches ConstrainedValue::Integer(_)) {
        Some(EvalError::Value(ValueError::ExpectedInteger))
    } else if v3 is None {
        Some(EvalError::UnsetRegister(operand_register(qd.values@[3])))
    } else if !(v3->0 matches ConstrainedValue::Integer(_)) {
        Some(EvalError::Value(ValueError::ExpectedInteger))
    } else if v3->0->Integer_0.spec_const_value() is None {
        Some(EvalError::Value(ValueError::NonConstantLength))
    } else {
        None
    }
}

impl EvaluatorState {
    /// A frame with the given number of registers, all unset.
    #[verifier::loop_isolation(false)]
    pub fn new(num_registers: usize) -> (r: EvaluatorState)
        ensures
            r.registers@.len() == num_registers,
            forall|i: int|
                0 <= i < num_registers ==> r.registers@[i] == Option::<ConstrainedValue>::None,
    {
        let mut registers: Vec<Option<ConstrainedValue>> = Vec::new();
        let mut i: usize = 0;
        while i < num_registers
            invariant
                i <= num_registers,
                registers@.len() == i,
                forall|k: int|
                    0 <= k < i ==> registers@[k] == Option::<ConstrainedValue>::None,
            decreases num_registers - i,
        {
            registers.push(None);
            i += 1;
        }
        EvaluatorState { registers }
    }

    /// Writes an instruction's result into its destination register, growing
    /// the file if the register was never touched before.
    #[verifier::loop_isolation(false)]
    pub fn store(&mut self, destination: usize, value: ConstrainedValue)
        ensures
            final(self).registers@.len() == (if destination + 1 > old(self).registers@.len() {
                destination + 1
            } else {
                old(self).registers@.len() as int
            }),
            final(self).registers@[destination as int] == Some(value),
            forall|i: int|
                0 <= i < final(self).registers@.len() && i != destination
                    ==> final(self).registers@[i] == (if i < old(self).registers@.len() {
                    old(self).registers@[i]
                } else {
                    Option::<ConstrainedValue>::None
                }),
    {
        while self.registers.len() <= destination
            invariant
                forall|i: int|
                    0 <= i < self.registers@.len() ==> self.registers@[i] == (if i < old(
                        self,
                    ).registers@.len() {
                        old(self).registers@[i]
                    } else {
                        Option::<ConstrainedValue>::None
                    }),
                self.registers@.len() >= old(self).registers@.len(),
                self.registers@.len() <= destination + 1 || self.registers@.len() == old(
                    self,
                ).registers@.len(),
            decreases destination - self.registers@.len() + 1,
        {
            self.registers.push(None);
        }
        self.registers[destination] = Some(value);
    }

    /// Resolves an operand to a value of its own: a copy no assignment can
    /// tell from the register's content. Fails with a typed error when the
    /// referenced register holds no value.
    pub fn resolve(&self, operand: &Operand) -> (r: Result<ConstrainedValue, EvalError>)
        ensures
            (match r {
                Ok(v) => match *operand {
                    Operand::Register(i) => i < self.registers@.len() && (match self.registers@[
                        i as int
                    ] {
                        Some(w) => equivalent(v, w) && (!(w matches ConstrainedValue::Array(_))
                            ==> v == w),
                        None => false,
                    }),
                    Operand::Immediate(im) => equivalent(v, im) && (!(im
                        matches ConstrainedValue::Array(_)) ==> v == im),
                },
                Err(e) => *operand matches Operand::Register(i) && e == EvalError::UnsetRegister(
                    i,
                ) && (i >= self.registers@.len() || self.registers@[i as int]
                    == Option::<ConstrainedValue>::None),
            }),
    {
        match operand {
            Operand::Register(i) => {
                if *i < self.registers.len() {
                    match &self.registers[*i] {
                        Some(v) => Ok(clone_value(v)),
                        None => Err(EvalError::UnsetRegister(*i)),
                    }
                } else {
                    Err(EvalError::UnsetRegister(*i))
                }
            }
            Operand::Immediate(v) => Ok(clone_value(v)),
        }
    }

    /// Evaluates one array slice instruction: resolves the array, both
    /// bounds and the constant length, runs the engine, and stores the
    /// result in the destination register.
    pub fn evaluate_array_slice_get(
        &mut self,
        instruction: &Instruction,
        cs: &mut ConstraintSystem,
    ) -> (r: Result<(), EvalError>)
        requires
            *instruction matches Instruction::ArraySliceGet(qd) && qd.values@.len() == 4,
        ensures
            extends(*old(cs), *final(cs)),
            (match *instruction {
                Instruction::ArraySliceGet(qd) => slice_step(
                    old(self).registers@,
                    old(cs).rows@,
                    qd,
                    final(self).registers@,
                    final(cs).rows@,
                    r,
                ),
                _ => true,
            }),
    {
        let ghost cs0 = *cs;
        let qd = match instruction {
            Instruction::ArraySliceGet(qd) => qd,
            _ => {
                proof {
                    assert(false);
                }
                return Err(EvalError::Value(ValueError::ExpectedArray));
            }
        };
        let array_value = match self.resolve(&qd.values[0]) {
            Ok(v) => v,
            Err(e) => {
                proof {
                    lemma_extends_refl(*cs);
                }
                return Err(e);
            }
        };
        let array = match array_value.extract_array() {
            Ok(a) => a,
            Err(e) => {
                proof {
                    lemma_extends_refl(*cs);
                    let w = operand_value(self.registers@, qd.values@[0])->0;
                    lemma_same_shape_same_variant(array_value, w);
                }
                return Err(EvalError::Value(e));
            }
        };
        proof {
            let w = operand_value(self.registers@, qd.values@[0])->0;
            lemma_same_shape_same_variant(array_value, w);
        }
        let from_value = match self.resolve(&qd.values[1]) {
            Ok(v) => v,
            Err(e) => {
                proof {
                    lemma_extends_refl(*cs);
                }
                return Err(e);
            }
        };
        let from = match from_value.extract_integer() {
            Ok(i) => *i,
            Err(e) => {
                proof {
                    lemma_extends_refl(*cs);
                    let w = operand_value(self.registers@, qd.values@[1])->0;
                    lemma_same_shape_same_variant(from_value, w);
                }
                return Err(EvalError::Value(e));
            }
        };
        proof {
            let w = operand_value(self.registers@, qd.values@[1])->0;
            lemma_same_shape_same_variant(from_value, w);
        }
        let to_value = match self.resolve(&qd.values[2]) {
            Ok(v) => v,
            Err(e) => {
                proof {
                    lemma_extends_refl(*cs);
                }
                return Err(e);
            }
        };
        let to = match to_value.extract_integer() {
            Ok(i) => *i,
            Err(e) => {
                proof {
                    lemma_extends_refl(*cs);
                    let w = operand_value(self.registers@, qd.values@[2])->0;
                    lemma_same_shape_same_variant(to_value, w);
                }
                return Err(EvalError::Value(e));
            }
        };
        proof {
            let w = operand_value(self.registers@, qd.values@[2])->0;
            lemma_same_shape_same_variant(to_value, w);
        }
        let length_value = match self.resolve(&qd.values[3]) {
            Ok(v) => v,
            Err(e) => {
                proof {
                    lemma_extends_refl(*cs);
                }
                return Err(e);
            }
        };
        let length_int = match length_value.extract_integer() {
            Ok(i) => *i,
            Err(e) => {
                proof {
                    lemma_extends_refl(*cs);
                    let w = operand_value(self.registers@, qd.values@[3])->0;
                    lemma_same_shape_same_variant(length_value, w);
                }
                return Err(EvalError::Value(e));
            }
        };
        proof {
            let w = operand_value(self.registers@, qd.values@[3])->0;
            lemma_same_shape_same_variant(length_value, w);
        }
        let length = match length_int.const_value() {
            Some(l) => l,
            None => {
                proof {
                    lemma_extends_refl(*cs);
                }
                return Err(EvalError::Value(ValueError::NonConstantLength));
            }
        };
        let ghost reg_array = operand_value(self.registers@, qd.values@[0])->0;
        proof {
            lemma_equivalent_elements(array_value, reg_array);
        }
        let out = match slice_array(cs, array, &from, &to, length) {
            Ok(v) => v,
            Err(e) => {
                proof {
                    lemma_slice_spec_transfer(
                        cs0.rows@,
                        cs.rows@,
                        array@,
                        reg_array->Array_0@,
                        from,
                        to,
                        length,
                        Err::<ConstrainedValue, EvalError>(e),
                    );
                }
                return Err(e);
            }
        };
        proof {
            lemma_slice_spec_transfer(
                cs0.rows@,
                cs.rows@,
                array@,
                reg_array->Array_0@,
                from,
                to,
                length,
                Ok::<ConstrainedValue, EvalError>(out),
            );
        }
        self.store(qd.destination, out);
        Ok(())
    }

    /// Evaluates an ordered instruction sequence: each instruction runs to
    /// completion inside a freshly labelled scope before the next begins,
    /// and the first failure aborts the whole evaluation.
    #[verifier::loop_isolation(false)]
    pub fn evaluate(&mut self, instructions: &Vec<Instruction>, cs: &mut ConstraintSystem) -> (r:
        Result<(), EvalError>)
        requires
            forall|i: int|
                0 <= i < instructions@.len() ==> instruction_well_formed(
                    #[trigger] instructions@[i],
                ),
        ensures
            extends(*old(cs), *final(cs)),
            (match r {
                // Every instruction ran, each step meeting its handler's
                // contract, from the given state to the final one.
                Ok(()) => exists|rt: Seq<Seq<Option<ConstrainedValue>>>, wt: Seq<Seq<Row>>|
                    {
                        &&& steps_chain(rt, wt, instructions@, instructions@.len() as int)
                        &&& rt[0] == old(self).registers@
                        &&& wt[0] == old(cs).rows@
                        &&& rt.last() == final(self).registers@
                        &&& wt.last() == final(cs).rows@
                    },
                // The first failing instruction aborted the evaluation: the
                // steps before it succeeded, and it failed with this error.
                Err(e) => exists|rt: Seq<Seq<Option<ConstrainedValue>>>, wt: Seq<Seq<Row>>, k: int|
                    {
                        &&& 0 <= k < instructions@.len()
                        &&& steps_chain(rt, wt, instructions@, k)
                        &&& rt[0] == old(self).registers@
                        &&& wt[0] == old(cs).rows@
                        &&& instruction_step(
                            rt[k],
                            wt[k],
                            instructions@[k],
                            final(self).registers@,
                            final(cs).rows@,
                            Err::<(), EvalError>(e),
                        )
                    },
            }),
    {
        let ghost cs0 = *cs;
        let mut idx: usize = 0;
        let ghost mut rt: Seq<Seq<Option<ConstrainedValue>>> = seq![self.registers@];
        let ghost mut wt: Seq<Seq<Row>> = seq![cs.rows@];
        proof {
            lemma_extends_refl(*cs);
        }
        while idx < instructions.len()
            invariant
                idx <= instructions@.len(),
                extends(cs0, *cs),
                steps_chain(rt, wt, instructions@, idx as int),
                rt[0] == old(self).registers@,
                wt[0] == cs0.rows@,
                rt.last() == self.registers@,
                wt.last() == cs.rows@,
            decreases instructions@.len() - idx,
        {
            let ghost cs_iter = *cs;
            let ghost regs_iter = self.registers@;
            cs.push_scope(ScopeLabel::Instruction(idx));
            let step = match &instructions[idx] {
                Instruction::ArraySliceGet(_) => self.evaluate_array_slice_get(
                    &instructions[idx],
                    cs,
                ),
                Instruction::Sub(qd) => self.evaluate_sub(qd, cs),
                Instruction::Eq(qd) => self.evaluate_eq_check(qd, cs),
                Instruction::Select(qd) => self.evaluate_select(qd, cs),
            };
            cs.pop_scope();
            proof {
                assert(cs.scopes@ =~= cs_iter.scopes@);
                lemma_rows_extend_trans(cs0.rows@, cs_iter.rows@, cs.rows@);
                assert(instruction_step(
                    regs_iter,
                    cs_iter.rows@,
                    instructions@[idx as int],
                    self.registers@,
                    cs.rows@,
                    step,
                ));
            }
            match step {
                Ok(()) => {}
                Err(e) => {
                    return Err(e);
                }
            }
            proof {
                rt = rt.push(self.registers@);
                wt = wt.push(cs.rows@);
            }
            idx += 1;
        }
        Ok(())
    }

    /// Evaluates one constrained subtraction and stores the difference: a
    /// fresh witness that any satisfying assignment opens to the first
    /// operand minus the second.
    pub fn evaluate_sub(&mut self, qd: &QueryData, cs: &mut ConstraintSystem) -> (r: Result<
        (),
        EvalError,
    >)
        requires
            qd.values@.len() == 2,
        ensures
            extends(*old(cs), *final(cs)),
            sub_step(
                old(self).registers@,
                old(cs).rows@,
                *qd,
                final(self).registers@,
                final(cs).rows@,
                r,
            ),
    {
        let left = match self.resolve_integer(&qd.values[0]) {
            Ok(i) => i,
            Err(e) => {
                proof {
                    lemma_extends_refl(*cs);
                }
                return Err(e);
            }
        };
        let right = match self.resolve_integer(&qd.values[1]) {
            Ok(i) => i,
            Err(e) => {
                proof {
                    lemma_extends_refl(*cs);
                }
                return Err(e);
            }
        };
        let d = match enforce_sub(cs, &left, &right) {
            Ok(d) => d,
            Err(e) => {
                return Err(EvalError::Value(e));
            }
        };
        self.store(qd.destination, ConstrainedValue::Integer(d));
        Ok(())
    }

    /// Evaluates one constrained equality test and stores the boolean: a
    /// fresh witness that any satisfying assignment opens to whether the
    /// operands are equal.
    pub fn evaluate_eq_check(&mut self, qd: &QueryData, cs: &mut ConstraintSystem) -> (r: Result<
        (),
        EvalError,
    >)
        requires
            qd.values@.len() == 2,
        ensures
            extends(*old(cs), *final(cs)),
            eq_step(
                old(self).registers@,
                old(cs).rows@,
                *qd,
                final(self).registers@,
                final(cs).rows@,
                r,
            ),
    {
        let left = match self.resolve_integer(&qd.values[0]) {
            Ok(i) => i,
            Err(e) => {
                proof {
                    lemma_extends_refl(*cs);
                }
                return Err(e);
            }
        };
        let right = match self.resolve_integer(&qd.values[1]) {
            Ok(i) => i,
            Err(e) => {
                proof {
                    lemma_extends_refl(*cs);
                }
                return Err(e);
            }
        };
        let b = match evaluate_eq(cs, &left, &right) {
            Ok(b) => b,
            Err(e) => {
                return Err(EvalError::Value(e));
            }
        };
        self.store(qd.destination, ConstrainedValue::Boolean(b));
        Ok(())
    }

    /// Evaluates one conditional select and stores the folded value: fresh
    /// witnesses that any satisfying assignment opens to the chosen branch.
    pub fn evaluate_select(&mut self, qd: &QueryData, cs: &mut ConstraintSystem) -> (r: Result<
        (),
        EvalError,
    >)
        requires
            qd.values@.len() == 3,
        ensures
            extends(*old(cs), *final(cs)),
            select_step(
                old(self).registers@,
                old(cs).rows@,
                *qd,
                final(self).registers@,
                final(cs).rows@,
                r,
            ),
    {
        let cond_value = match self.resolve(&qd.values[0]) {
            Ok(v) => v,
            Err(e) => {
                proof {
                    lemma_extends_refl(*cs);
                }
                return Err(e);
            }
        };
        let cond = match cond_value {
            ConstrainedValue::Boolean(b) => b,
            _ => {
                proof {
                    lemma_extends_refl(*cs);
                    let w = operand_value(self.registers@, qd.values@[0])->0;
                    lemma_same_shape_same_variant(cond_value, w);
                }
                return Err(EvalError::Value(ValueError::ShapeMismatch));
            }
        };
        proof {
            let w = operand_value(self.registers@, qd.values@[0])->0;
            lemma_same_shape_same_variant(cond_value, w);
        }
        let when_true = match self.resolve(&qd.values[1]) {
            Ok(v) => v,
            Err(e) => {
                proof {
                    lemma_extends_refl(*cs);
                }
                return Err(e);
            }
        };
        let when_false = match self.resolve(&qd.values[2]) {
            Ok(v) => v,
            Err(e) => {
                proof {
                    lemma_extends_refl(*cs);
                }
                return Err(e);
            }
        };
        let out = match conditionally_select(cs, &cond, &when_true, &when_false) {
            Ok(v) => v,
            Err(e) => {
                return Err(EvalError::Value(e));
            }
        };
        self.store(qd.destination, out);
        Ok(())
    }

    /// Resolves an operand that must be an integer.
    fn resolve_integer(&self, operand: &Operand) -> (r: Result<Integer, EvalError>)
        ensures
            (match r {
                Ok(i) => operand_value(self.registers@, *operand) matches Some(w) && w
                    == ConstrainedValue::Integer(i),
                Err(e) => (match operand_value(self.registers@, *operand) {
                    Some(w) => e == EvalError::Value(ValueError::ExpectedInteger) && !(w
                        matches ConstrainedValue::Integer(_)),
                    None => e == EvalError::UnsetRegister(operand_register(*operand)),
                }),
            }),
    {
        let v = match self.resolve(operand) {
            Ok(v) => v,
            Err(e) => {
                return Err(e);
            }
        };
        match v.extract_integer() {
            Ok(i) => {
                proof {
                    let w = operand_value(self.registers@, *operand)->0;
                    lemma_same_shape_same_variant(v, w);
                }
                Ok(*i)
            }
            Err(e) => {
                proof {
                    let w = operand_value(self.registers@, *operand)->0;
                    lemma_same_shape_same_variant(v, w);
                }
                Err(EvalError::Value(e))
            }
        }
    }
}

} // verus!
