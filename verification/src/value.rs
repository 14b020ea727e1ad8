//! The circuit-level value model: booleans, sized integers, field elements
//! and fixed-length arrays, each scalar either a compile-time constant or a
//! witness variable of the constraint system.
use vstd::prelude::*;
use crate::errors::ValueError;

verus! {

broadcast use vstd::std_specs::vec::axiom_vec_index_decreases;

/// Width of a sized integer. The array engine addresses arrays through `U32`.
#[derive(Clone, Copy, PartialEq, Eq, Structural, Debug)]
pub enum IntegerWidth {
    U8,
    U16,
    U32,
    U64,
}

/// A scalar integer payload: a constant known at circuit-construction time,
/// or a witness variable identified by its index in the constraint system.
#[derive(Clone, Copy, PartialEq, Eq, Structural, Debug)]
pub enum IntegerValue {
    Constant(u64),
    Witness(usize),
}

/// A sized integer of the value model.
#[derive(Clone, Copy, PartialEq, Eq, Structural, Debug)]
pub struct Integer {
    pub width: IntegerWidth,
    pub value: IntegerValue,
}

/// A circuit boolean: constant or witness variable.
#[derive(Clone, Copy, PartialEq, Eq, Structural, Debug)]
pub enum Boolean {
    Constant(bool),
    Witness(usize),
}

/// A field element, carried by its representative; constant or witness.
#[derive(Clone, Copy, PartialEq, Eq, Structural, Debug)]
pub enum FieldElement {
    Constant(u64),
    Witness(usize),
}

/// A circuit-level datum: the tagged union the evaluator works on.
/// An array's length is always known at construction time; only its
/// contents or its access index may be secret.
#[derive(Debug)]
pub enum ConstrainedValue {
    Boolean(Boolean),
    Integer(Integer),
    Field(FieldElement),
    Array(Vec<ConstrainedValue>),
}

/// The shape of a value: its variant, width, and (for arrays) the shapes of
/// its elements. Two values can be folded by a conditional select exactly
/// when their shapes agree.
#[verifier::ext_equal]
pub enum Shape {
    Boolean,
    Integer(IntegerWidth),
    Field,
    Array(Seq<Shape>),
}

/// What a value denotes once every witness variable is given a concrete
/// assignment.
#[verifier::ext_equal]
pub enum Evaluated {
    Boolean(bool),
    Integer(u64),
    Field(u64),
    Array(Seq<Evaluated>),
}

/// A total assignment of concrete values to witness variables.
pub type Assignment = spec_fn(usize) -> u64;

pub open spec fn eval_bool(b: Boolean, asg: Assignment) -> bool {
    match b {
        Boolean::Constant(c) => c,
        Boolean::Witness(x) => asg(x) == 1,
    }
}

pub open spec fn eval_int(i: Integer, asg: Assignment) -> u64 {
    match i.value {
        IntegerValue::Constant(v) => v,
        IntegerValue::Witness(x) => asg(x),
    }
}

pub open spec fn eval_field(f: FieldElement, asg: Assignment) -> u64 {
    match f {
        FieldElement::Constant(v) => v,
        FieldElement::Witness(x) => asg(x),
    }
}

pub open spec fn eval_value(v: ConstrainedValue, asg: Assignment) -> Evaluated
    decreases v,
{
    match v {
        ConstrainedValue::Boolean(b) => Evaluated::Boolean(eval_bool(b, asg)),
        ConstrainedValue::Integer(i) => Evaluated::Integer(eval_int(i, asg)),
        ConstrainedValue::Field(f) => Evaluated::Field(eval_field(f, asg)),
        ConstrainedValue::Array(children) => Evaluated::Array(
            Seq::new(
                children.len() as nat,
                |i: int|
                    if 0 <= i < children.len() {
                        eval_value(children[i], asg)
                    } else {
                        Evaluated::Boolean(false)
                    },
            ),
        ),
    }
}

pub open spec fn shape_of(v: ConstrainedValue) -> Shape
    decreases v,
{
    match v {
        ConstrainedValue::Boolean(_) => Shape::Boolean,
        ConstrainedValue::Integer(i) => Shape::Integer(i.width),
        ConstrainedValue::Field(_) => Shape::Field,
        ConstrainedValue::Array(children) => Shape::Array(
            Seq::new(
                children.len() as nat,
                |i: int|
                    if 0 <= i < children.len() {
                        shape_of(children[i])
                    } else {
                        Shape::Boolean
                    },
            ),
        ),
    }
}

/// Two values that cannot be told apart by any assignment: same shape and
/// same denotation everywhere.
pub open spec fn equivalent(a: ConstrainedValue, b: ConstrainedValue) -> bool {
    shape_of(a) == shape_of(b) && forall|asg: Assignment| eval_value(a, asg) == eval_value(b, asg)
}


/// Whether a boolean mentions only witness variables below a bound.
pub open spec fn bool_vars_below(b: Boolean, bound: int) -> bool {
    match b {
        Boolean::Constant(_) => true,
        Boolean::Witness(x) => x < bound,
    }
}

/// Whether an integer mentions only witness variables below a bound.
pub open spec fn int_vars_below(i: Integer, bound: int) -> bool {
    match i.value {
        IntegerValue::Constant(_) => true,
        IntegerValue::Witness(x) => x < bound,
    }
}

/// Whether a field element mentions only witness variables below a bound.
pub open spec fn field_vars_below(f: FieldElement, bound: int) -> bool {
    match f {
        FieldElement::Constant(_) => true,
        FieldElement::Witness(x) => x < bound,
    }
}

/// Whether a value mentions only witness variables below a bound.
pub open spec fn value_vars_below(v: ConstrainedValue, bound: int) -> bool
    decreases v,
{
    match v {
        ConstrainedValue::Boolean(b) => bool_vars_below(b, bound),
        ConstrainedValue::Integer(i) => int_vars_below(i, bound),
        ConstrainedValue::Field(f) => field_vars_below(f, bound),
        ConstrainedValue::Array(children) => forall|i: int|
            0 <= i < children.len() ==> value_vars_below(#[trigger] children[i], bound),
    }
}


/// Variable bounds are monotone in the bound.
pub proof fn lemma_value_vars_below_mono(v: ConstrainedValue, b1: int, b2: int)
    requires
        value_vars_below(v, b1),
        b1 <= b2,
    ensures
        value_vars_below(v, b2),
    decreases v,
{
    match v {
        ConstrainedValue::Array(children) => {
            assert forall|i: int|
                0 <= i < children.len() implies value_vars_below(#[trigger] children[i], b2) by {
                lemma_value_vars_below_mono(children[i], b1, b2);
            }
        }
        _ => {}
    }
}

/// A value whose variables lie below a bound denotes the same under two
/// assignments that agree below that bound.
pub proof fn lemma_eval_value_agree(v: ConstrainedValue, bound: int, a: Assignment, b: Assignment)
    requires
        value_vars_below(v, bound),
        forall|x: usize| x < bound ==> #[trigger] a(x) == b(x),
    ensures
        eval_value(v, a) == eval_value(v, b),
    decreases v,
{
    match v {
        ConstrainedValue::Array(children) => {
            assert forall|i: int|
                0 <= i < children.len() implies eval_value(#[trigger] children[i], a)
                == eval_value(children[i], b) by {
                lemma_eval_value_agree(children[i], bound, a, b);
            }
            assert(eval_value(v, a) matches Evaluated::Array(s) && eval_value(v, b)
                matches Evaluated::Array(t) && s =~= t);
        }
        _ => {}
    }
}

impl Integer {
    /// A constant integer of the given width.
    pub fn constant(width: IntegerWidth, value: u64) -> (r: Integer)
        ensures
            r == (Integer { width, value: IntegerValue::Constant(value) }),
    {
        Integer { width, value: IntegerValue::Constant(value) }
    }

    /// A witness integer of the given width, referencing an allocated variable.
    pub fn witness(width: IntegerWidth, var: usize) -> (r: Integer)
        ensures
            r == (Integer { width, value: IntegerValue::Witness(var) }),
    {
        Integer { width, value: IntegerValue::Witness(var) }
    }

    /// The constant an integer carries, if it is known at construction time.
    pub open spec fn spec_const_value(self) -> Option<u64> {
        match self.value {
            IntegerValue::Constant(v) => Some(v),
            IntegerValue::Witness(_) => None,
        }
    }

    /// Returns the constant value, or `None` for a witness.
    pub fn const_value(&self) -> (r: Option<u64>)
        ensures
            r == self.spec_const_value(),
    {
        match self.value {
            IntegerValue::Constant(v) => Some(v),
            IntegerValue::Witness(_) => None,
        }
    }
}

impl ConstrainedValue {
    /// Projects a value into its array contents, with a typed error on any
    /// other variant.
    pub fn extract_array(&self) -> (r: Result<&Vec<ConstrainedValue>, ValueError>)
        ensures
            match r {
                Ok(a) => *self == ConstrainedValue::Array(*a),
                Err(e) => e == ValueError::ExpectedArray && !(*self matches ConstrainedValue::Array(_)),
            },
    {
        match self {
            ConstrainedValue::Array(a) => Ok(a),
            _ => Err(ValueError::ExpectedArray),
        }
    }

    /// Projects a value into its integer, with a typed error on any other
    /// variant.
    pub fn extract_integer(&self) -> (r: Result<&Integer, ValueError>)
        ensures
            match r {
                Ok(i) => *self == ConstrainedValue::Integer(*i),
                Err(e) => e == ValueError::ExpectedInteger && !(*self matches ConstrainedValue::Integer(_)),
            },
    {
        match self {
            ConstrainedValue::Integer(i) => Ok(i),
            _ => Err(ValueError::ExpectedInteger),
        }
    }
}

/// A deep copy that no assignment can tell from the original.
#[verifier::loop_isolation(false)]
pub fn clone_value(v: &ConstrainedValue) -> (r: ConstrainedValue)
    ensures
        shape_of(r) == shape_of(*v),
        forall|asg: Assignment| eval_value(r, asg) == eval_value(*v, asg),
        !(*v matches ConstrainedValue::Array(_)) ==> r == *v,
        forall|b: int| #[trigger] value_vars_below(*v, b) ==> value_vars_below(r, b),
    decreases *v,
{
    match v {
        ConstrainedValue::Boolean(b) => ConstrainedValue::Boolean(*b),
        ConstrainedValue::Integer(i) => ConstrainedValue::Integer(*i),
        ConstrainedValue::Field(f) => ConstrainedValue::Field(*f),
        ConstrainedValue::Array(children) => {
            let mut out: Vec<ConstrainedValue> = Vec::new();
            let mut k: usize = 0;
            while k < children.len()
                invariant
                    k <= children.len(),
                    out.len() == k,
                    forall|i: int| 0 <= i < k ==> shape_of(out[i]) == shape_of(children[i]),
                    forall|i: int, asg: Assignment|
                        0 <= i < k ==> #[trigger] eval_value(out[i], asg) == eval_value(
                            children[i],
                            asg,
                        ),
                    forall|i: int, b: int|
                        0 <= i < k && value_vars_below(children[i], b)
                            ==> #[trigger] value_vars_below(out[i], b),
                decreases children.len() - k,
            {
                proof {
                    assert(decreases_to!(*v => v->Array_0));
                    vstd::std_specs::vec::axiom_vec_index_decreases(v->Array_0, k as int);
                }
                let c = clone_value(&children[k]);
                out.push(c);
                k += 1;
            }
            proof {
                assert(shape_of(ConstrainedValue::Array(out)) matches Shape::Array(s)
                    && shape_of(*v) matches Shape::Array(t) && s =~= t);
                assert forall|asg: Assignment|
                    eval_value(ConstrainedValue::Array(out), asg) == eval_value(*v, asg) by {
                    assert(forall|i: int|
                        0 <= i < out.len() ==> #[trigger] eval_value(out[i], asg) == eval_value(
                            children[i],
                            asg,
                        ));
                    let s0 = eval_value(ConstrainedValue::Array(out), asg);
                    let t0 = eval_value(*v, asg);
                    let s1 = s0->Array_0;
                    let t1 = t0->Array_0;
                    assert(out@.len() == children@.len());
                    assert(s1.len() == out@.len());
                    assert(t1.len() == children@.len());
                    assert forall|i: int| 0 <= i < s1.len() implies s1[i] == t1[i] by {
                        assert(eval_value(out[i], asg) == eval_value(children[i], asg));
                        assert(s1[i] == eval_value(out[i], asg));
                        assert(t1[i] == eval_value(children[i], asg));
                    }
                    assert(s1 =~= t1);
                    assert(s0 == t0);
                }
                assert forall|b: int| #[trigger] value_vars_below(*v, b) implies value_vars_below(
                    ConstrainedValue::Array(out),
                    b,
                ) by {
                    assert forall|i: int|
                        0 <= i < out@.len() implies value_vars_below(#[trigger] out@[i], b) by {
                        assert(value_vars_below(children[i as int], b));
                    }
                    assert(value_vars_below(ConstrainedValue::Array(out), b));
                }
            }
            ConstrainedValue::Array(out)
        }
    }
}

} // verus!
