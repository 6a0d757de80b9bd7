//! The tree after name resolution: every name is replaced by the id of its binding.

use vstd::prelude::*;

use crate::parse::ast::{BinaryOp, UnaryOp};
use crate::span::SourceSpan;

verus! {

/// Index of a binding in the type namespace.
#[derive(Clone, Copy, Debug, PartialEq, Eq, Structural)]
pub struct TypeBindingId(pub usize);

#[derive(Debug, PartialEq)]
pub struct ResolvedOptionallyNamedTypeExpression {
    pub type_dec: Box<ResolvedTypeExpression>,
    pub name: Option<String>,
}

#[derive(Debug, PartialEq)]
pub struct ResolvedLambdaTypeExpression {
    pub parameter: Option<ResolvedOptionallyNamedTypeExpression>,
    pub return_type: Box<ResolvedTypeExpression>,
}

#[derive(Debug, PartialEq)]
pub enum ResolvedTypeExpressionKind {
    Named(TypeBindingId),
    Record(Vec<(String, ResolvedTypeExpression)>),
    Lambda(ResolvedLambdaTypeExpression),
}

#[derive(Debug, PartialEq)]
pub struct ResolvedTypeExpression {
    pub kind: ResolvedTypeExpressionKind,
    pub span: SourceSpan,
}

/// Index of a binding in the variable namespace.
#[derive(Clone, Copy, Debug, PartialEq, Eq, Structural)]
pub struct BindingId(pub usize);

#[derive(Debug, PartialEq)]
pub struct ResolvedExpression {
    pub kind: ResolvedExpressionKind,
    pub span: SourceSpan,
}

#[derive(Debug, PartialEq)]
pub enum ResolvedLiteral {
    Int(i64),
    Bool(bool),
    Float(String),
    String(String),
    Record(Vec<(String, ResolvedExpression)>),
    Unit,
}

#[derive(Debug, PartialEq)]
pub enum ResolvedExpressionKind {
    Literal(ResolvedLiteral),
    Var(BindingId),
    Binary(BinaryOp, Box<ResolvedExpression>, Box<ResolvedExpression>),
    Unary(UnaryOp, Box<ResolvedExpression>),
    Lambda(ResolvedLambda),
    FunctionInvocation { function: Box<ResolvedExpression>, arguments: Vec<ResolvedExpression> },
    FieldAccess { target: Box<ResolvedExpression>, field_name: String },
    Let {
        binding: BindingId,
        type_dec: Option<ResolvedTypeExpression>,
        value: Box<ResolvedExpression>,
    },
    Block(Vec<ResolvedExpression>),
    If {
        condition: Box<ResolvedExpression>,
        true_condition: Box<ResolvedExpression>,
        false_condition: Option<Box<ResolvedExpression>>,
    },
    TypeDeclaration { identifier: TypeBindingId, type_expression: ResolvedTypeExpression },
}

#[derive(Debug, PartialEq)]
pub struct ResolvedParam {
    pub binding: BindingId,
    pub type_dec: Option<ResolvedTypeExpression>,
}

#[derive(Debug, PartialEq)]
pub struct ResolvedLambda {
    pub parameter: Option<ResolvedParam>,
    pub return_type: Option<ResolvedTypeExpression>,
    pub body: Box<ResolvedExpression>,
}

#[derive(Debug, PartialEq)]
pub struct ResolvedBinding {
    pub name: String,
    pub span: SourceSpan,
}

#[derive(Debug, PartialEq)]
pub struct BindingResolvedProgram {
    pub expressions: Vec<ResolvedExpression>,
    pub bindings: Vec<ResolvedBinding>,
    pub type_bindings: Vec<ResolvedBinding>,
}

} // verus!
