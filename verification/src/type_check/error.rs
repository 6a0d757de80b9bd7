//! Type-checking failures. Reported as a batch so the user sees all problems at once.

use vstd::prelude::*;

use super::typed_ast::{Type, TypeVarId};
use crate::span::SourceSpan;

verus! {

#[derive(Debug)]
pub enum TypeCheckError {
    TypeMismatch { expected: Type, found: Type, span: SourceSpan },
    NotAFunction { found: Type, span: SourceSpan },
    ExpressionNotCallable { span: SourceSpan },
    TooManyArguments { span: SourceSpan },
    ArgumentsToArgumentlessFunction { span: SourceSpan },
    PipeIntoArgumentlessFunction { span: SourceSpan },
    FunctionParameterMismatch { expected: Type, found: Type, span: SourceSpan },
    RecordFieldMismatch { missing: Vec<String>, additional: Vec<String>, span: SourceSpan },
    NotARecord { found: Type, span: SourceSpan },
    RecordDoesNotHaveField { field_name: String, available: Vec<String>, span: SourceSpan },
    InfiniteType { var: TypeVarId, ty: Type, span: SourceSpan },
    UnknownType { name: String, span: SourceSpan },
    MissingAnnotation { name: String, span: SourceSpan },
    UntypedBindingAfterTypeCheck { name: String, span: SourceSpan },
    InternalError { message: String, span: SourceSpan },
}

impl TypeCheckError {
    /// The span the error points at.
    pub fn span(&self) -> (span: SourceSpan)
        ensures
            span == self.spec_span(),
    {
        match self {
            TypeCheckError::TypeMismatch { span, .. } => *span,
            TypeCheckError::NotAFunction { span, .. } => *span,
            TypeCheckError::ExpressionNotCallable { span } => *span,
            TypeCheckError::TooManyArguments { span } => *span,
            TypeCheckError::ArgumentsToArgumentlessFunction { span } => *span,
            TypeCheckError::PipeIntoArgumentlessFunction { span } => *span,
            TypeCheckError::FunctionParameterMismatch { span, .. } => *span,
            TypeCheckError::RecordFieldMismatch { span, .. } => *span,
            TypeCheckError::NotARecord { span, .. } => *span,
            TypeCheckError::RecordDoesNotHaveField { span, .. } => *span,
            TypeCheckError::InfiniteType { span, .. } => *span,
            TypeCheckError::UnknownType { span, .. } => *span,
            TypeCheckError::MissingAnnotation { span, .. } => *span,
            TypeCheckError::UntypedBindingAfterTypeCheck { span, .. } => *span,
            TypeCheckError::InternalError { span, .. } => *span,
        }
    }

    pub open spec fn spec_span(&self) -> SourceSpan {
        match self {
            TypeCheckError::TypeMismatch { span, .. } => *span,
            TypeCheckError::NotAFunction { span, .. } => *span,
            TypeCheckError::ExpressionNotCallable { span } => *span,
            TypeCheckError::TooManyArguments { span } => *span,
            TypeCheckError::ArgumentsToArgumentlessFunction { span } => *span,
            TypeCheckError::PipeIntoArgumentlessFunction { span } => *span,
            TypeCheckError::FunctionParameterMismatch { span, .. } => *span,
            TypeCheckError::RecordFieldMismatch { span, .. } => *span,
            TypeCheckError::NotARecord { span, .. } => *span,
            TypeCheckError::RecordDoesNotHaveField { span, .. } => *span,
            TypeCheckError::InfiniteType { span, .. } => *span,
            TypeCheckError::UnknownType { span, .. } => *span,
            TypeCheckError::MissingAnnotation { span, .. } => *span,
            TypeCheckError::UntypedBindingAfterTypeCheck { span, .. } => *span,
            TypeCheckError::InternalError { span, .. } => *span,
        }
    }
}

} // verus!
