//! Why an evaluation stopped.

use vstd::prelude::*;

use crate::span::SourceSpan;

verus! {

/// An evaluation failure. `InvariantDueToTypeCheck` marks something the type checker
/// should have ruled out; the other two can happen in well-typed programs.
#[derive(Clone, Copy, Debug)]
pub enum EvalError {
    InvariantDueToTypeCheck { context: &'static str, span: SourceSpan },
    DivisionByZero { span: SourceSpan },
    ArithmeticOverflow { operator: &'static str, lhs: i64, rhs: i64, span: SourceSpan },
}

impl EvalError {
    pub fn invariant_due_to_type_check(span: SourceSpan, context: &'static str) -> (e: Self)
        ensures
            e == (EvalError::InvariantDueToTypeCheck { context, span }),
    {
        EvalError::InvariantDueToTypeCheck { context, span }
    }
}

} // verus!
