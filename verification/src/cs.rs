//! A recording rank-1 constraint system. The evaluator appends rows — witness
//! declarations and constraints — and nests uniquely-labelled scopes in strict
//! last-in-first-out order. A variable is identified by the index of the row
//! that introduced it, so identifiers are fresh by construction.
use vstd::prelude::*;
use crate::value::Assignment;

verus! {

/// A linear operand of a constraint: a constant or a witness variable.
#[derive(Clone, Copy, PartialEq, Eq, Structural, Debug)]
pub enum Lin {
    Const(u64),
    Var(usize),
}

/// One row of the system: a witness declaration or an enforced relation.
#[derive(Clone, Copy, PartialEq, Eq, Structural, Debug)]
pub enum Row {
    /// Declares a witness variable; satisfied by every assignment.
    Witness { var: usize },
    /// `subtrahend + difference == minuend`, with no borrow.
    Sub { minuend: Lin, subtrahend: Lin, difference: Lin },
    /// `left == right`.
    EnforceEq { left: Lin, right: Lin },
    /// `value <= bound`.
    AtMost { value: Lin, bound: u64 },
    /// `result` is 1 if `left == right` and 0 otherwise.
    IsEq { left: Lin, right: Lin, result: Lin },
    /// `result` equals `when_true` if `condition` is 1, else `when_false`.
    Select { condition: Lin, when_true: Lin, when_false: Lin, result: Lin },
}

/// A label of a constraint scope. Labels carry the program point they come
/// from, so repeated sub-circuits never collide.
#[derive(Clone, Copy, PartialEq, Eq, Structural, Debug)]
pub enum ScopeLabel {
    /// The scope of one dispatched instruction, by its position.
    Instruction(usize),
    /// The scope of an array slice operation.
    ArraySlice,
    /// The scope of one candidate position of an oblivious scan.
    ArraySliceIndex(u64),
}

pub open spec fn eval_lin(l: Lin, asg: Assignment) -> u64 {
    match l {
        Lin::Const(v) => v,
        Lin::Var(x) => asg(x),
    }
}

/// Whether one row holds under an assignment.
pub open spec fn row_holds(r: Row, asg: Assignment) -> bool {
    match r {
        Row::Witness { var } => true,
        Row::Sub { minuend, subtrahend, difference } => eval_lin(subtrahend, asg) + eval_lin(
            difference,
            asg,
        ) == eval_lin(minuend, asg),
        Row::EnforceEq { left, right } => eval_lin(left, asg) == eval_lin(right, asg),
        Row::AtMost { value, bound } => eval_lin(value, asg) <= bound,
        Row::IsEq { left, right, result } => eval_lin(result, asg) == (
        if eval_lin(left, asg) == eval_lin(right, asg) {
            1u64
        } else {
            0u64
        }),
        Row::Select { condition, when_true, when_false, result } => eval_lin(result, asg) == (
        if eval_lin(condition, asg) == 1 {
            eval_lin(when_true, asg)
        } else {
            eval_lin(when_false, asg)
        }),
    }
}

/// Whether every row from position `from` on holds under an assignment.
pub open spec fn rows_hold_from(rows: Seq<Row>, from: int, asg: Assignment) -> bool {
    forall|i: int| from <= i < rows.len() ==> #[trigger] row_holds(rows[i], asg)
}

/// How many of the rows are constraints, as opposed to witness declarations.
pub open spec fn constraint_count(rows: Seq<Row>) -> int
    decreases rows.len(),
{
    if rows.len() == 0 {
        0
    } else {
        constraint_count(rows.drop_last()) + if rows.last() matches Row::Witness { .. } {
            0int
        } else {
            1int
        }
    }
}


/// Whether a linear operand mentions only variables below a bound.
pub open spec fn lin_vars_below(l: Lin, bound: int) -> bool {
    match l {
        Lin::Const(_) => true,
        Lin::Var(x) => x < bound,
    }
}

/// Whether a row mentions only variables below a bound.
pub open spec fn row_vars_below(r: Row, bound: int) -> bool {
    match r {
        Row::Witness { var } => var < bound,
        Row::Sub { minuend, subtrahend, difference } => lin_vars_below(minuend, bound)
            && lin_vars_below(subtrahend, bound) && lin_vars_below(difference, bound),
        Row::EnforceEq { left, right } => lin_vars_below(left, bound) && lin_vars_below(
            right,
            bound,
        ),
        Row::AtMost { value, bound: b } => lin_vars_below(value, bound),
        Row::IsEq { left, right, result } => lin_vars_below(left, bound) && lin_vars_below(
            right,
            bound,
        ) && lin_vars_below(result, bound),
        Row::Select { condition, when_true, when_false, result } => lin_vars_below(
            condition,
            bound,
        ) && lin_vars_below(when_true, bound) && lin_vars_below(when_false, bound)
            && lin_vars_below(result, bound),
    }
}

/// A row whose variables lie below a bound reads the same under two
/// assignments that agree below that bound.
pub proof fn lemma_row_holds_agree(r: Row, bound: int, a: Assignment, b: Assignment)
    requires
        row_vars_below(r, bound),
        forall|x: usize| x < bound ==> #[trigger] a(x) == b(x),
    ensures
        row_holds(r, a) == row_holds(r, b),
{
}

/// The shared, exclusively owned resource every handler emits into.
pub struct ConstraintSystem {
    pub rows: Vec<Row>,
    pub scopes: Vec<ScopeLabel>,
}

/// One row sequence extends another: the old rows stand unchanged as a
/// prefix of the new ones.
pub open spec fn rows_extend(prev: Seq<Row>, next: Seq<Row>) -> bool {
    &&& next.len() >= prev.len()
    &&& next.subrange(0, prev.len() as int) == prev
}

/// The new state of a constraint system extends the previous one: rows are
/// only appended, and the scope stack is restored.
pub open spec fn extends(prev: ConstraintSystem, next: ConstraintSystem) -> bool {
    &&& rows_extend(prev.rows@, next.rows@)
    &&& next.scopes@ == prev.scopes@
}

/// Row extension is transitive.
pub proof fn lemma_rows_extend_trans(a: Seq<Row>, b: Seq<Row>, c: Seq<Row>)
    requires
        rows_extend(a, b),
        rows_extend(b, c),
    ensures
        rows_extend(a, c),
{
    assert(c.subrange(0, a.len() as int) =~= a);
}

impl ConstraintSystem {
    /// An empty system: no rows, no open scope.
    pub fn new() -> (r: ConstraintSystem)
        ensures
            r.rows@ == Seq::<Row>::empty(),
            r.scopes@ == Seq::<ScopeLabel>::empty(),
    {
        ConstraintSystem { rows: Vec::new(), scopes: Vec::new() }
    }

    /// Declares a fresh witness variable and returns its identifier.
    pub fn declare_witness(&mut self) -> (v: usize)
        ensures
            v == old(self).rows@.len(),
            final(self).rows@ == old(self).rows@.push(Row::Witness { var: v }),
            final(self).scopes@ == old(self).scopes@,
    {
        let v = self.rows.len();
        self.rows.push(Row::Witness { var: v });
        v
    }

    /// Appends one constraint row.
    pub fn enforce(&mut self, row: Row)
        ensures
            final(self).rows@ == old(self).rows@.push(row),
            final(self).scopes@ == old(self).scopes@,
    {
        self.rows.push(row);
    }

    /// The index the next appended row will have; fresh as a variable id.
    pub fn next_index(&self) -> (r: usize)
        ensures
            r == self.rows@.len(),
    {
        self.rows.len()
    }

    /// Opens a uniquely-labelled child scope.
    pub fn push_scope(&mut self, label: ScopeLabel)
        ensures
            final(self).scopes@ == old(self).scopes@.push(label),
            final(self).rows@ == old(self).rows@,
    {
        self.scopes.push(label);
    }

    /// Closes the innermost scope. Scopes close in last-in-first-out order.
    pub fn pop_scope(&mut self)
        requires
            old(self).scopes@.len() > 0,
        ensures
            final(self).scopes@ == old(self).scopes@.drop_last(),
            final(self).rows@ == old(self).rows@,
    {
        let _ = self.scopes.pop();
    }

    /// How many rows the system holds.
    pub fn num_rows(&self) -> (r: usize)
        ensures
            r == self.rows@.len(),
    {
        self.rows.len()
    }

    /// How many constraints the system holds, witness declarations excluded.
    #[verifier::loop_isolation(false)]
    pub fn num_constraints(&self) -> (r: usize)
        ensures
            r == constraint_count(self.rows@),
    {
        let mut count: usize = 0;
        let mut i: usize = 0;
        while i < self.rows.len()
            invariant
                i <= self.rows@.len(),
                count == constraint_count(self.rows@.subrange(0, i as int)),
                count <= i,
            decreases self.rows@.len() - i,
        {
            proof {
                assert(self.rows@.subrange(0, i + 1).drop_last() =~= self.rows@.subrange(
                    0,
                    i as int,
                ));
                assert(self.rows@.subrange(0, i + 1).last() == self.rows@[i as int]);
            }
            if !matches!(self.rows[i], Row::Witness { .. }) {
                count += 1;
            }
            i += 1;
        }
        proof {
            assert(self.rows@.subrange(0, self.rows@.len() as int) =~= self.rows@);
        }
        count
    }
}

/// Every state extends itself.
pub proof fn lemma_extends_refl(a: ConstraintSystem)
    ensures
        extends(a, a),
{
    assert(a.rows@.subrange(0, a.rows@.len() as int) =~= a.rows@);
}

/// Extension is transitive.
pub proof fn lemma_extends_trans(a: ConstraintSystem, b: ConstraintSystem, c: ConstraintSystem)
    requires
        extends(a, b),
        extends(b, c),
    ensures
        extends(a, c),
{
    assert(c.rows@.subrange(0, a.rows@.len() as int) =~= a.rows@);
}

/// Rows of an earlier state are rows of any later state, so an assignment
/// that satisfies the later suffix satisfies the earlier one.
pub proof fn lemma_rows_hold_prefix(prev: Seq<Row>, all: Seq<Row>, from: int, asg: Assignment)
    requires
        prev.len() <= all.len(),
        all.subrange(0, prev.len() as int) == prev,
        0 <= from,
        rows_hold_from(all, from, asg),
    ensures
        rows_hold_from(prev, from, asg),
{
    assert forall|i: int| from <= i < prev.len() implies #[trigger] row_holds(prev[i], asg) by {
        assert(prev[i] == all.subrange(0, prev.len() as int)[i]);
        assert(prev[i] == all[i]);
    }
}

} // verus!
