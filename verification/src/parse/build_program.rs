//! A whole program: expressions separated by line breaks or `;`, up to the end of the text.

use vstd::prelude::*;

use super::ast::{ParsedProgram, program_wf};
use super::build_expression::{TrestleParser, parse_statements};
use super::error::{ParseError, error_span};
use super::grammar::{ExprForm, ParseFailure, failure_form, forms_of, g_program};

verus! {

/// Builds the program the parser's tokens spell: the one [`g_program`] gives, or fails with
/// the failure it gives.
pub fn build_program(p: &TrestleParser) -> (r: Result<ParsedProgram, ParseError>)
    requires
        p.wf(),
    ensures
        r matches Ok(program) ==> program_wf(program, p.end as nat),
        r matches Err(e) ==> error_span(e).end() <= p.end,
        match r {
            Ok(program) => g_program(p.forms()) == Ok::<Seq<ExprForm>, ParseFailure>(
                forms_of(program.expressions@),
            ),
            Err(e) => g_program(p.forms()) == Err::<Seq<ExprForm>, ParseFailure>(failure_form(e)),
        },
{
    match parse_statements(p, 0, false) {
        Ok((expressions, _)) => {
            let program = ParsedProgram { expressions };
            assert forall|i: int| 0 <= i < program.expressions@.len() implies program.expressions@[i].span.end()
                <= p.end by {
                assert(program.expressions@[i].span.end() <= p.start_of(p.tokens@.len() as int));
            }
            Ok(program)
        },
        Err(e) => Err(e),
    }
}

} // verus!
