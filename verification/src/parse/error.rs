//! What can go wrong between source text and a parsed program.

use vstd::prelude::*;

use crate::span::SourceSpan;

verus! {

/// Source text that does not follow the grammar: what was expected, and where.
#[derive(Clone, Copy, Debug)]
pub struct SyntaxError {
    pub message: &'static str,
    pub span: SourceSpan,
}

/// Text that follows the grammar but does not make a program.
#[derive(Debug)]
pub enum BuildError {
    MissingLambdaBody { span: SourceSpan },
    MissingLetBody { span: SourceSpan },
    MissingParamType { name: String, span: SourceSpan },
    /// `message` is the unescaper's account of what is wrong.
    InvalidStringEscape { message: String, span: SourceSpan },
    /// A record literal or record type names a field twice.
    DuplicateRecordField { name: String, span: SourceSpan },
    /// An integer literal above `i64::MAX`.
    IntLiteralOutOfRange { literal: String, span: SourceSpan },
    Invariant { context: &'static str, span: SourceSpan },
}

impl BuildError {
    pub fn internal_invariant(span: SourceSpan, context: &'static str) -> (e: Self)
        ensures
            e == (BuildError::Invariant { context, span }),
    {
        BuildError::Invariant { context, span }
    }
}

/// Why `parse` rejected its input.
#[derive(Debug)]
pub enum ParseError {
    Syntax(SyntaxError),
    Build(BuildError),
}

pub open spec fn build_error_span(e: BuildError) -> SourceSpan {
    match e {
        BuildError::MissingLambdaBody { span } => span,
        BuildError::MissingLetBody { span } => span,
        BuildError::MissingParamType { span, .. } => span,
        BuildError::InvalidStringEscape { span, .. } => span,
        BuildError::DuplicateRecordField { span, .. } => span,
        BuildError::IntLiteralOutOfRange { span, .. } => span,
        BuildError::Invariant { span, .. } => span,
    }
}

/// The stretch of source an error points at.
pub open spec fn error_span(e: ParseError) -> SourceSpan {
    match e {
        ParseError::Syntax(s) => s.span,
        ParseError::Build(b) => build_error_span(b),
    }
}

} // verus!
