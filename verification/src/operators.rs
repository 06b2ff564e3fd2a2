//! The operator evaluator: one named comparison operator applied to a field
//! value and a target value.
//!
//! Equality operators use deep structural equality; ordering operators demand
//! two numbers and never match otherwise; an unknown operator name never
//! matches (fail-closed).

use crate::text::str_eq;
use crate::value::{value_eq, values_equal, view_of, wf, SpecValue, Value};
use vstd::prelude::*;

verus! {

/// The closed set of recognized comparison operators.
#[derive(Clone, Copy, PartialEq, Eq, Structural, Debug)]
pub enum Op {
    Equals,
    NotEquals,
    Greater,
    GreaterOrEqual,
    Less,
    LessOrEqual,
}

/// The operator a name denotes, if any: `$eq`, `$ne`, `$gt`, `$gte`, `$lt`,
/// `$lte`.
pub open spec fn spec_op_of(name: Seq<char>) -> Option<Op> {
    if name == "$eq"@ {
        Some(Op::Equals)
    } else if name == "$ne"@ {
        Some(Op::NotEquals)
    } else if name == "$gt"@ {
        Some(Op::Greater)
    } else if name == "$gte"@ {
        Some(Op::GreaterOrEqual)
    } else if name == "$lt"@ {
        Some(Op::Less)
    } else if name == "$lte"@ {
        Some(Op::LessOrEqual)
    } else {
        None
    }
}

/// What one operator says of a field value against a target value.
/// Ordering holds only between two numbers.
pub open spec fn spec_apply_op(op: Op, field: SpecValue, target: SpecValue) -> bool {
    match op {
        Op::Equals => value_eq(field, target),
        Op::NotEquals => !value_eq(field, target),
        Op::Greater => field matches SpecValue::Num(a) && target matches SpecValue::Num(b) && a
            > b,
        Op::GreaterOrEqual => field matches SpecValue::Num(a) && target matches SpecValue::Num(b)
            && a >= b,
        Op::Less => field matches SpecValue::Num(a) && target matches SpecValue::Num(b) && a < b,
        Op::LessOrEqual => field matches SpecValue::Num(a) && target matches SpecValue::Num(b) && a
            <= b,
    }
}

/// The outcome of the operator named `op`: `false` for unknown names.
pub open spec fn spec_evaluate(op: Seq<char>, field: SpecValue, target: SpecValue) -> bool {
    match spec_op_of(op) {
        Some(o) => spec_apply_op(o, field, target),
        None => false,
    }
}

/// Resolves an operator name.
pub fn op_of(name: &str) -> (r: Option<Op>)
    ensures
        r == spec_op_of(name@),
{
    if str_eq(name, "$eq") {
        Some(Op::Equals)
    } else if str_eq(name, "$ne") {
        Some(Op::NotEquals)
    } else if str_eq(name, "$gt") {
        Some(Op::Greater)
    } else if str_eq(name, "$gte") {
        Some(Op::GreaterOrEqual)
    } else if str_eq(name, "$lt") {
        Some(Op::Less)
    } else if str_eq(name, "$lte") {
        Some(Op::LessOrEqual)
    } else {
        None
    }
}

/// Applies one resolved operator.
pub fn apply_op(op: Op, field_val: &Value, target_val: &Value) -> (r: bool)
    requires
        wf(view_of(*field_val)),
        wf(view_of(*target_val)),
    ensures
        r == spec_apply_op(op, view_of(*field_val), view_of(*target_val)),
{
    match op {
        Op::Equals => values_equal(field_val, target_val),
        Op::NotEquals => !values_equal(field_val, target_val),
        _ => {
            match (field_val, target_val) {
                (Value::Num(a), Value::Num(b)) => {
                    match op {
                        Op::Greater => *a > *b,
                        Op::GreaterOrEqual => *a >= *b,
                        Op::Less => *a < *b,
                        _ => *a <= *b,
                    }
                },
                _ => {
                    proof {
                        crate::value::lemma_view_shape(*field_val);
                        crate::value::lemma_view_shape(*target_val);
                    }
                    false
                },
            }
        },
    }
}

/// Evaluates the operator named `op` against a field value and a target
/// value: structural equality for `$eq`/`$ne`, numeric ordering for
/// `$gt`/`$gte`/`$lt`/`$lte` (never a match unless both sides are numbers),
/// and no match at all for an unknown name.
pub fn evaluate(op: &str, field_val: &Value, target_val: &Value) -> (r: bool)
    requires
        wf(view_of(*field_val)),
        wf(view_of(*target_val)),
    ensures
        r == spec_evaluate(op@, view_of(*field_val), view_of(*target_val)),
{
    match op_of(op) {
        Some(o) => apply_op(o, field_val, target_val),
        None => false,
    }
}

} // verus!
