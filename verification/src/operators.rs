use vstd::prelude::*;
use vstd::string::StringExecFns;
use crate::interp::{
    result_view, Arithmetic, Halt, InterpError, InterpValue, NumberQuery, Value,
};
use crate::parser::AstOperator;
use crate::semantics::{apply, kind_name};

verus! {

/// The name of the kind of a value.
pub fn kind_of(value: &InterpValue) -> (res: &'static str)
    ensures
        res@ == kind_name(value@),
{
    match value {
        InterpValue::InterpVoid => "InterpVoid",
        InterpValue::InterpNumber(_) => "InterpNumber",
        InterpValue::InterpBoolean(_) => "InterpBoolean",
        InterpValue::InterpString(_) => "InterpString",
        InterpValue::InterpStruct(_) => "InterpStruct",
        InterpValue::InterpFunction { .. } => "InterpFunction",
    }
}

/// Applies a binary operator to two values. Only two numbers can be
/// operated on: the result is the known answer for the operator and the two
/// numbers, or the question where the answer is not known. Any other pair of
/// values fails, and the failure names both kinds.
pub fn apply_operation(
    lhs: InterpValue,
    rhs: InterpValue,
    operator: AstOperator,
    arithmetic: &Arithmetic,
) -> (res: Result<InterpValue, Halt>)
    ensures
        result_view(res) == apply(operator, lhs@, rhs@, arithmetic@),
{
    match (&lhs, &rhs) {
        (InterpValue::InterpNumber(a), InterpValue::InterpNumber(b)) => {
            apply_number_number_operation(*a, *b, operator, arithmetic)
        },
        _ => {
            let mut msg = "Operator not yet implemented. lhs: ".to_owned();
            msg.append(kind_of(&lhs));
            msg.append(", rhs: ");
            msg.append(kind_of(&rhs));
            Err(Halt::Error(InterpError::new(msg)))
        },
    }
}

/// Applies a binary operator to two numbers, each given by its bits.
pub fn apply_number_number_operation(
    lhs: u64,
    rhs: u64,
    operator: AstOperator,
    arithmetic: &Arithmetic,
) -> (res: Result<InterpValue, Halt>)
    ensures
        result_view(res) == apply(
            operator,
            Value::Number(lhs),
            Value::Number(rhs),
            arithmetic@,
        ),
{
    let query = NumberQuery::Operation { operator: operator, lhs: lhs, rhs: rhs };
    match arithmetic.lookup(&query) {
        Some(bits) => Ok(InterpValue::InterpNumber(bits)),
        None => Err(Halt::Pending(query)),
    }
}

} // verus!
