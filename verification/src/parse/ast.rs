//! The parsed tree, as the parser builds it from source text.

use vstd::prelude::*;

use crate::span::SourceSpan;
use crate::text::seq_lt;

pub use crate::span::merge_spans;

verus! {

#[derive(Debug, PartialEq)]
pub struct OptionallyNamedTypeExpression {
    pub type_dec: Box<TypeExpression>,
    pub name: Option<String>,
}

#[derive(Debug, PartialEq)]
pub struct LambdaTypeExpression {
    pub parameter: Option<OptionallyNamedTypeExpression>,
    pub return_type: Box<TypeExpression>,
}

/// A type as written. A record's fields are sorted by name, with no name twice.
#[derive(Debug, PartialEq)]
pub enum TypeExpressionKind {
    Named(String),
    Record(Vec<(String, TypeExpression)>),
    Lambda(LambdaTypeExpression),
}

#[derive(Debug, PartialEq)]
pub struct TypeExpression {
    pub kind: TypeExpressionKind,
    pub span: SourceSpan,
}

#[derive(Debug, PartialEq)]
pub struct Expression {
    pub kind: ExpressionKind,
    pub span: SourceSpan,
}

/// A literal. A float keeps the characters it was written with; a record's fields are
/// sorted by name, with no name twice.
#[derive(Debug, PartialEq)]
pub enum Literal {
    Record(Vec<(String, Expression)>),
    Int(i64),
    Bool(bool),
    Float(String),
    String(String),
    Unit,
}

#[derive(Clone, Copy, Debug, PartialEq, Eq, Structural)]
pub enum BinaryOp {
    Add,
    Sub,
    Mul,
    Div,
    And,
    Or,
    Lt,
    Gt,
    Le,
    Ge,
    Eq,
    Neq,
    Pipe,
}

#[derive(Clone, Copy, Debug, PartialEq, Eq, Structural)]
pub enum UnaryOp {
    Neg,
    Not,
}

#[derive(Debug, PartialEq)]
pub enum ExpressionKind {
    Literal(Literal),
    Var(String),
    Binary(BinaryOp, Box<Expression>, Box<Expression>),
    Unary(UnaryOp, Box<Expression>),
    Lambda(Lambda),
    FunctionInvocation { function: Box<Expression>, arguments: Vec<Expression> },
    FieldAccess { target: Box<Expression>, identifier: String },
    Let { name: String, type_dec: Option<TypeExpression>, value: Box<Expression> },
    Block(Vec<Expression>),
    If {
        condition: Box<Expression>,
        true_pathway: Box<Expression>,
        false_pathway: Option<Box<Expression>>,
    },
    TypeDeclaration { identifier: String, type_expression: TypeExpression },
}

#[derive(Debug, PartialEq)]
pub struct Param {
    pub name: String,
    pub type_dec: Option<TypeExpression>,
}

#[derive(Debug, PartialEq)]
pub struct Lambda {
    pub parameter: Option<Param>,
    pub return_type: Option<TypeExpression>,
    pub body: Box<Expression>,
}

#[derive(Debug, PartialEq)]
pub struct ParsedProgram {
    pub expressions: Vec<Expression>,
}

/// `inner` lies inside `outer`.
pub open spec fn span_within(inner: SourceSpan, outer: SourceSpan) -> bool {
    outer.offset <= inner.offset && inner.end() <= outer.end()
}

/// Names strictly increasing: sorted, with no name twice.
pub open spec fn names_increasing<T>(fields: Seq<(String, T)>) -> bool {
    forall|i: int, j: int|
        0 <= i < j < fields.len() ==> seq_lt(#[trigger] fields[i].0@, #[trigger] fields[j].0@)
}

/// A type as written is well formed: record fields are strictly sorted by name, and every
/// part lies inside the span of the whole.
pub open spec fn type_wf(t: TypeExpression) -> bool
    decreases t,
{
    match t.kind {
        TypeExpressionKind::Named(_) => true,
        TypeExpressionKind::Record(fields) => names_increasing(fields@) && forall|i: int|
            0 <= i < fields@.len() ==> span_within((#[trigger] fields@[i]).1.span, t.span)
                && type_wf(fields@[i].1),
        TypeExpressionKind::Lambda(l) => span_within(l.return_type.span, t.span) && type_wf(
            *l.return_type,
        ) && match l.parameter {
            Some(p) => span_within(p.type_dec.span, t.span) && type_wf(*p.type_dec),
            None => true,
        },
    }
}

/// An optional annotation, if present, is well formed and lies inside `outer`.
pub open spec fn annotation_wf(t: Option<TypeExpression>, outer: SourceSpan) -> bool {
    match t {
        Some(t) => span_within(t.span, outer) && type_wf(t),
        None => true,
    }
}

/// An expression is well formed: every sub-expression and annotation lies inside the span
/// of the expression that holds it, the operands of a binary operator come in source order,
/// and record literals and record types have their fields strictly sorted by name.
pub open spec fn expr_wf(e: Expression) -> bool
    decreases e,
{
    match e.kind {
        ExpressionKind::Literal(Literal::Record(fields)) => names_increasing(fields@) && forall|
            i: int,
        |
            0 <= i < fields@.len() ==> span_within((#[trigger] fields@[i]).1.span, e.span)
                && expr_wf(fields@[i].1),
        ExpressionKind::Literal(_) => true,
        ExpressionKind::Var(_) => true,
        ExpressionKind::Binary(_, l, r) => span_within(l.span, e.span) && span_within(
            r.span,
            e.span,
        ) && l.span.end() <= r.span.offset && expr_wf(*l) && expr_wf(*r),
        ExpressionKind::Unary(_, operand) => span_within(operand.span, e.span) && expr_wf(
            *operand,
        ),
        ExpressionKind::Lambda(l) => (match l.parameter {
            Some(p) => annotation_wf(p.type_dec, e.span),
            None => true,
        }) && annotation_wf(l.return_type, e.span) && span_within(l.body.span, e.span) && expr_wf(
            *l.body,
        ),
        ExpressionKind::FunctionInvocation { function, arguments } => span_within(
            function.span,
            e.span,
        ) && expr_wf(*function) && forall|i: int|
            0 <= i < arguments@.len() ==> span_within((#[trigger] arguments@[i]).span, e.span)
                && expr_wf(arguments@[i]),
        ExpressionKind::FieldAccess { target, .. } => span_within(target.span, e.span) && expr_wf(
            *target,
        ),
        ExpressionKind::Let { type_dec, value, .. } => annotation_wf(type_dec, e.span)
            && span_within(value.span, e.span) && expr_wf(*value),
        ExpressionKind::Block(exprs) => forall|i: int|
            0 <= i < exprs@.len() ==> span_within((#[trigger] exprs@[i]).span, e.span) && expr_wf(
                exprs@[i],
            ),
        ExpressionKind::If { condition, true_pathway, false_pathway } => span_within(
            condition.span,
            e.span,
        ) && expr_wf(*condition) && span_within(true_pathway.span, e.span) && expr_wf(
            *true_pathway,
        ) && match false_pathway {
            Some(other) => span_within(other.span, e.span) && expr_wf(*other),
            None => true,
        },
        ExpressionKind::TypeDeclaration { type_expression, .. } => span_within(
            type_expression.span,
            e.span,
        ) && type_wf(type_expression),
    }
}

/// A program is well formed: its expressions are, they lie inside the first `limit` bytes,
/// and they follow one another without overlap.
pub open spec fn program_wf(program: ParsedProgram, limit: nat) -> bool {
    &&& forall|i: int|
        0 <= i < program.expressions@.len() ==> expr_wf(#[trigger] program.expressions@[i])
            && program.expressions@[i].span.end() <= limit
    &&& forall|i: int, j: int|
        0 <= i < j < program.expressions@.len() ==> (#[trigger] program.expressions@[i]).span.end()
            <= (#[trigger] program.expressions@[j]).span.offset
}

} // verus!
