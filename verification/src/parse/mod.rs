//! From source text to a parsed program: the text is split into tokens, then built into
//! expressions by recursive descent.

pub mod ast;
pub mod build_expression;
pub mod build_program;
pub mod error;
pub mod grammar;
pub mod lexer;

use vstd::prelude::*;

pub use build_expression::{TrestleParser, build_expr};
pub use build_program::build_program;
pub use error::{BuildError, ParseError, SyntaxError};

use ast::{ParsedProgram, program_wf};
use error::error_span;
use grammar::{ExprForm, ParseFailure, TokenSeq, failure_form, forms_of, g_program};
use lexer::{TokenForm, lex, text_len, tokenize};
use crate::span::SourceSpan;

use crate::diagnostics::{byte_offset, utf8_width_of};
use crate::text::chars_of;

verus! {

/// Parses source text. The text is split into the tokens [`lex`] gives, or fails with the
/// lexical error it gives; the tokens are built into the program [`g_program`] gives, or
/// fail with the failure it gives. A program that parses is well formed and lies inside the
/// text; an error points inside the text.
pub fn parse(src: &str) -> (r: Result<ParsedProgram, ParseError>)
    requires
        text_len(src@) <= usize::MAX,
    ensures
        r matches Ok(program) ==> program_wf(program, text_len(src@)),
        r matches Err(e) ==> error_span(e).end() <= text_len(src@),
        match lex(src@) {
            Err((message, span)) => r matches Err(ParseError::Syntax(e)) && e.message == message
                && e.span == span,
            Ok(tokens) => match r {
                Ok(program) => g_program(TokenSeq { forms: tokens, end: text_len(src@) as int })
                    == Ok::<Seq<ExprForm>, ParseFailure>(forms_of(program.expressions@)),
                Err(e) => g_program(TokenSeq { forms: tokens, end: text_len(src@) as int }) == Err::<
                    Seq<ExprForm>,
                    ParseFailure,
                >(failure_form(e)),
            },
        },
{
    let chars = chars_of(src);
    let tokens = match tokenize(&chars) {
        Ok(tokens) => tokens,
        Err(e) => {
            return Err(ParseError::Syntax(e));
        },
    };
    let mut end: usize = 0;
    let mut k: usize = 0;
    while k < chars.len()
        invariant
            chars@ == src@,
            k <= chars.len(),
            end == byte_offset(chars@, k as int),
            text_len(src@) <= usize::MAX,
        decreases chars.len() - k,
    {
        proof {
            crate::diagnostics::lemma_byte_offset_monotonic(chars@, k + 1, chars@.len() as int);
        }
        end = end + utf8_width_of(chars[k]);
        k = k + 1;
    }
    assert(end == text_len(src@));
    let count = tokens.len();
    assert(tokens@.len() == count);
    let parser = TrestleParser { tokens, end };
    let r = build_program(&parser);
    assert(lex(src@) == Ok::<Seq<TokenForm>, (&'static str, SourceSpan)>(parser.forms().forms));
    r
}

} // verus!
