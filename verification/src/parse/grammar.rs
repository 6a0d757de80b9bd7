//! The grammar of expressions, stated over the tokens the lexer gives: for each construct,
//! the tree the tokens from a position make and the position after them, or the failure
//! that stops them. The parser in `build_expression` is proved to build exactly these trees.

use vstd::prelude::*;

use super::ast::{
    BinaryOp, Expression, ExpressionKind, Literal, TypeExpression, TypeExpressionKind, UnaryOp,
};
use super::build_expression::unescaped;
use super::error::{BuildError, ParseError, build_error_span};
use super::lexer::{Lexeme, TokenForm, TokenKind, decimal_value};
use crate::span::SourceSpan;

verus! {

/// A type as written, in mathematical form.
pub enum TypeShape {
    Named(Seq<char>),
    Record(Seq<(Seq<char>, TypeForm)>),
    Lambda,
}

pub struct TypeForm {
    pub shape: TypeShape,
    pub span: SourceSpan,
}

/// A lambda's parameter: its name and annotation.
pub struct ParamForm {
    pub name: Seq<char>,
    pub type_dec: Option<TypeForm>,
}

/// An expression, in mathematical form.
pub enum ExprShape {
    Int(int),
    Bool(bool),
    Float(Seq<char>),
    Str(Seq<char>),
    Unit,
    Record(Seq<(Seq<char>, ExprForm)>),
    Var(Seq<char>),
    Binary(BinaryOp, Box<ExprForm>, Box<ExprForm>),
    Unary(UnaryOp, Box<ExprForm>),
    Lambda(Option<ParamForm>, Option<TypeForm>, Box<ExprForm>),
    Call(Box<ExprForm>, Seq<ExprForm>),
    Field(Box<ExprForm>, Seq<char>),
    Let(Seq<char>, Option<TypeForm>, Box<ExprForm>),
    Block(Seq<ExprForm>),
    If(Box<ExprForm>, Box<ExprForm>, Option<Box<ExprForm>>),
    TypeDecl(Seq<char>, TypeForm),
}

pub struct ExprForm {
    pub shape: ExprShape,
    pub span: SourceSpan,
}

pub open spec fn type_form(t: TypeExpression) -> TypeForm
    decreases t,
{
    let shape = match t.kind {
        TypeExpressionKind::Named(n) => TypeShape::Named(n@),
        TypeExpressionKind::Record(fields) => TypeShape::Record(
            Seq::new(
                fields@.len(),
                |i: int|
                    (
                        fields@[i].0@,
                        if 0 <= i < fields@.len() {
                            type_form(fields@[i].1)
                        } else {
                            TypeForm { shape: TypeShape::Lambda, span: t.span }
                        },
                    ),
            ),
        ),
        TypeExpressionKind::Lambda(_) => TypeShape::Lambda,
    };
    TypeForm { shape, span: t.span }
}

pub open spec fn annotation_form(t: Option<TypeExpression>) -> Option<TypeForm> {
    match t {
        Some(t) => Some(type_form(t)),
        None => None,
    }
}

pub open spec fn expr_form(e: Expression) -> ExprForm
    decreases e,
{
    let shape = match e.kind {
        ExpressionKind::Literal(literal) => match literal {
            Literal::Int(n) => ExprShape::Int(n as int),
            Literal::Bool(b) => ExprShape::Bool(b),
            Literal::Float(t) => ExprShape::Float(t@),
            Literal::String(s) => ExprShape::Str(s@),
            Literal::Unit => ExprShape::Unit,
            Literal::Record(fields) => ExprShape::Record(
                Seq::new(
                    fields@.len(),
                    |i: int|
                        (
                            fields@[i].0@,
                            if 0 <= i < fields@.len() {
                                expr_form(fields@[i].1)
                            } else {
                                ExprForm { shape: ExprShape::Unit, span: e.span }
                            },
                        ),
                ),
            ),
        },
        ExpressionKind::Var(n) => ExprShape::Var(n@),
        ExpressionKind::Binary(op, l, r) => ExprShape::Binary(
            op,
            Box::new(expr_form(*l)),
            Box::new(expr_form(*r)),
        ),
        ExpressionKind::Unary(op, o) => ExprShape::Unary(op, Box::new(expr_form(*o))),
        ExpressionKind::Lambda(l) => ExprShape::Lambda(
            match l.parameter {
                Some(p) => Some(ParamForm { name: p.name@, type_dec: annotation_form(p.type_dec) }),
                None => None,
            },
            annotation_form(l.return_type),
            Box::new(expr_form(*l.body)),
        ),
        ExpressionKind::FunctionInvocation { function, arguments } => ExprShape::Call(
            Box::new(expr_form(*function)),
            Seq::new(
                arguments@.len(),
                |i: int|
                    if 0 <= i < arguments@.len() {
                        expr_form(arguments@[i])
                    } else {
                        ExprForm { shape: ExprShape::Unit, span: e.span }
                    },
            ),
        ),
        ExpressionKind::FieldAccess { target, identifier } => ExprShape::Field(
            Box::new(expr_form(*target)),
            identifier@,
        ),
        ExpressionKind::Let { name, type_dec, value } => ExprShape::Let(
            name@,
            annotation_form(type_dec),
            Box::new(expr_form(*value)),
        ),
        ExpressionKind::Block(exprs) => ExprShape::Block(
            Seq::new(
                exprs@.len(),
                |i: int|
                    if 0 <= i < exprs@.len() {
                        expr_form(exprs@[i])
                    } else {
                        ExprForm { shape: ExprShape::Unit, span: e.span }
                    },
            ),
        ),
        ExpressionKind::If { condition, true_pathway, false_pathway } => ExprShape::If(
            Box::new(expr_form(*condition)),
            Box::new(expr_form(*true_pathway)),
            match false_pathway {
                Some(f) => Some(Box::new(expr_form(*f))),
                None => None,
            },
        ),
        ExpressionKind::TypeDeclaration { identifier, type_expression } => ExprShape::TypeDecl(
            identifier@,
            type_form(type_expression),
        ),
    };
    ExprForm { shape, span: e.span }
}

/// The forms of a lambda's parameters.
pub open spec fn params_form(params: Seq<super::ast::Param>) -> Seq<ParamForm> {
    Seq::new(
        params.len(),
        |i: int| ParamForm { name: params[i].name@, type_dec: annotation_form(params[i].type_dec) },
    )
}

/// The forms of record-type fields.
pub open spec fn type_fields_form(fields: Seq<(String, TypeExpression)>) -> Seq<
    (Seq<char>, TypeForm),
> {
    Seq::new(fields.len(), |i: int| (fields[i].0@, type_form(fields[i].1)))
}

/// The forms of record-literal fields.
pub open spec fn expr_fields_form(fields: Seq<(String, Expression)>) -> Seq<
    (Seq<char>, ExprForm),
> {
    Seq::new(fields.len(), |i: int| (fields[i].0@, expr_form(fields[i].1)))
}

pub proof fn lemma_type_form_record(fields: Vec<(String, TypeExpression)>, span: SourceSpan)
    ensures
        type_form((TypeExpression { kind: TypeExpressionKind::Record(fields), span })) == (
        TypeForm { shape: TypeShape::Record(type_fields_form(fields@)), span }),
{
    let t = TypeExpression { kind: TypeExpressionKind::Record(fields), span };
    match type_form(t).shape {
        TypeShape::Record(got) => {
            assert(got =~= type_fields_form(fields@));
        },
        _ => {},
    }
}

pub proof fn lemma_expr_form_record(fields: Vec<(String, Expression)>, span: SourceSpan)
    ensures
        expr_form((Expression { kind: ExpressionKind::Literal(Literal::Record(fields)), span }))
            == (ExprForm { shape: ExprShape::Record(expr_fields_form(fields@)), span }),
{
    let e = Expression { kind: ExpressionKind::Literal(Literal::Record(fields)), span };
    match expr_form(e).shape {
        ExprShape::Record(got) => {
            assert(got =~= expr_fields_form(fields@));
        },
        _ => {},
    }
}

pub proof fn lemma_expr_form_block(exprs: Vec<Expression>, span: SourceSpan)
    ensures
        expr_form((Expression { kind: ExpressionKind::Block(exprs), span })) == (ExprForm {
            shape: ExprShape::Block(forms_of(exprs@)),
            span,
        }),
{
    let e = Expression { kind: ExpressionKind::Block(exprs), span };
    match expr_form(e).shape {
        ExprShape::Block(got) => {
            assert(got =~= forms_of(exprs@));
        },
        _ => {},
    }
}

pub proof fn lemma_expr_form_call(function: Box<Expression>, arguments: Vec<Expression>, span: SourceSpan)
    ensures
        expr_form((Expression { kind: ExpressionKind::FunctionInvocation { function, arguments }, span }))
            == (ExprForm {
            shape: ExprShape::Call(Box::new(expr_form(*function)), forms_of(arguments@)),
            span,
        }),
{
    let e = Expression { kind: ExpressionKind::FunctionInvocation { function, arguments }, span };
    match expr_form(e).shape {
        ExprShape::Call(_, got) => {
            assert(got =~= forms_of(arguments@));
        },
        _ => {},
    }
}

/// A type parsing step gave the type the grammar gives, or failed with the failure it
/// gives.
pub open spec fn type_built(
    r: Result<(TypeExpression, usize), super::error::ParseError>,
    g: Result<(TypeForm, int), ParseFailure>,
) -> bool {
    match r {
        Ok((t, next)) => g == Ok::<(TypeForm, int), ParseFailure>((type_form(t), next as int)),
        Err(e) => g == Err::<(TypeForm, int), ParseFailure>(failure_form(e)),
    }
}

/// A parsing step gave the expression the grammar gives, or failed with the failure it
/// gives.
pub open spec fn built(
    r: Result<(Expression, usize), super::error::ParseError>,
    g: Result<(ExprForm, int), ParseFailure>,
) -> bool {
    match r {
        Ok((e, next)) => g == Ok::<(ExprForm, int), ParseFailure>((expr_form(e), next as int)),
        Err(err) => g == Err::<(ExprForm, int), ParseFailure>(failure_form(err)),
    }
}

/// Adding a field to fields held as strings, and adding its form to their forms, agree.
pub proof fn lemma_type_fields_insert(
    fields: Seq<(String, TypeExpression)>,
    at: int,
    name: String,
    ty: TypeExpression,
)
    requires
        0 <= at <= fields.len(),
    ensures
        type_fields_form(fields.insert(at, (name, ty))) =~= type_fields_form(fields).insert(
            at,
            (name@, type_form(ty)),
        ),
        keys_of(type_fields_form(fields)) =~= string_keys(fields),
{
}

/// Adding a field to fields held as strings, and adding its form to their forms, agree.
pub proof fn lemma_expr_fields_insert(
    fields: Seq<(String, Expression)>,
    at: int,
    name: String,
    value: Expression,
)
    requires
        0 <= at <= fields.len(),
    ensures
        expr_fields_form(fields.insert(at, (name, value))) =~= expr_fields_form(fields).insert(
            at,
            (name@, expr_form(value)),
        ),
        keys_of(expr_fields_form(fields)) =~= string_keys(fields),
{
}

/// The forms of a run of expressions.
pub open spec fn forms_of(es: Seq<Expression>) -> Seq<ExprForm> {
    Seq::new(es.len(), |i: int| expr_form(es[i]))
}

/// The span from `offset` to `end`.
pub open spec fn span_from(offset: usize, end: int) -> SourceSpan {
    SourceSpan { offset, len: (end - offset) as usize }
}

/// The tokens of a text, in mathematical form, and the text's length in bytes.
pub struct TokenSeq {
    pub forms: Seq<TokenForm>,
    pub end: int,
}

/// Why the tokens make no program, in mathematical form: a syntax error with its message and
/// span, an integer literal above `i64::MAX`, a string with an escape the unescaper rejects,
/// or a record that names a field twice.
pub enum ParseFailure {
    Syntax(&'static str, SourceSpan),
    IntOutOfRange(Seq<char>, SourceSpan),
    BadEscape(SourceSpan),
    DuplicateField(Seq<char>, SourceSpan),
    Other(SourceSpan),
}

/// The failure a parse error reports.
pub open spec fn failure_form(e: ParseError) -> ParseFailure {
    match e {
        ParseError::Syntax(s) => ParseFailure::Syntax(s.message, s.span),
        ParseError::Build(BuildError::IntLiteralOutOfRange { literal, span }) => ParseFailure::IntOutOfRange(
            literal@,
            span,
        ),
        ParseError::Build(BuildError::InvalidStringEscape { span, .. }) => ParseFailure::BadEscape(
            span,
        ),
        ParseError::Build(BuildError::DuplicateRecordField { name, span }) => ParseFailure::DuplicateField(
            name@,
            span,
        ),
        ParseError::Build(other) => ParseFailure::Other(build_error_span(other)),
    }
}

/// A syntax error at token `pos`, or at the end of the text past the last token.
pub open spec fn err_at(t: TokenSeq, pos: int, message: &'static str) -> ParseFailure {
    ParseFailure::Syntax(
        message,
        if 0 <= pos < t.forms.len() {
            t.forms[pos].span
        } else {
            SourceSpan { offset: t.end as usize, len: 0 }
        },
    )
}

/// The failure of a step that cannot happen once the steps before it succeeded.
pub open spec fn stray() -> ParseFailure {
    ParseFailure::Other(SourceSpan { offset: 0, len: 0 })
}

/// The span from the start of token `from` to the end of token `to - 1`.
pub open spec fn tokens_span(t: TokenSeq, from: int, to: int) -> SourceSpan {
    span_from(t.forms[from].span.offset, t.forms[to - 1].span.end())
}

/// Token `i` exists and is `k`.
pub open spec fn tok_is(t: TokenSeq, i: int, k: TokenKind) -> bool {
    0 <= i < t.forms.len() && t.forms[i].lexeme == Lexeme::Fixed(k)
}

/// Token `i` exists and is a name.
pub open spec fn tok_ident(t: TokenSeq, i: int) -> bool {
    0 <= i < t.forms.len() && t.forms[i].lexeme is Ident
}

/// The name token `i` spells.
pub open spec fn ident_at(t: TokenSeq, i: int) -> Seq<char> {
    t.forms[i].lexeme->Ident_0
}

/// Where a new field named `name` goes among fields sorted by name: before the first whose
/// name is not below it.
pub open spec fn insertion_point(keys: Seq<Seq<char>>, name: Seq<char>) -> nat
    decreases keys.len(),
{
    if keys.len() == 0 {
        0
    } else if crate::text::seq_lt(keys[0], name) {
        1 + insertion_point(keys.drop_first(), name)
    } else {
        0
    }
}

/// The point found by walking past every name below `name`.
pub proof fn lemma_insertion_point(keys: Seq<Seq<char>>, name: Seq<char>, i: int)
    requires
        0 <= i <= keys.len(),
        forall|j: int| 0 <= j < i ==> crate::text::seq_lt(#[trigger] keys[j], name),
        i == keys.len() || !crate::text::seq_lt(keys[i], name),
    ensures
        insertion_point(keys, name) == i,
    decreases i,
{
    if i > 0 {
        let rest = keys.drop_first();
        assert forall|j: int| 0 <= j < i - 1 implies crate::text::seq_lt(#[trigger] rest[j], name) by {
            assert(rest[j] == keys[j + 1]);
        }
        if i < keys.len() {
            assert(rest[i - 1] == keys[i]);
        }
        lemma_insertion_point(rest, name, i - 1);
    }
}

/// The names of fields held as strings.
pub open spec fn string_keys<T>(fields: Seq<(String, T)>) -> Seq<Seq<char>> {
    Seq::new(fields.len(), |i: int| fields[i].0@)
}

pub open spec fn keys_of<T>(fields: Seq<(Seq<char>, T)>) -> Seq<Seq<char>> {
    Seq::new(fields.len(), |i: int| fields[i].0)
}

/// Fields sorted by name with one more field added; `None` where the name is there already.
pub open spec fn with_field<T>(fields: Seq<(Seq<char>, T)>, name: Seq<char>, value: T) -> Option<
    Seq<(Seq<char>, T)>,
> {
    let at = insertion_point(keys_of(fields), name);
    if at < fields.len() && fields[at as int].0 == name {
        None
    } else {
        Some(fields.insert(at as int, (name, value)))
    }
}

/// `: Name` at `pos`.
pub open spec fn g_annotation(t: TokenSeq, pos: int) -> Result<(TypeForm, int), ParseFailure> {
    if !tok_is(t, pos, TokenKind::Colon) {
        Err(err_at(t, pos, "expected `:`"))
    } else if !tok_ident(t, pos + 1) {
        Err(err_at(t, pos + 1, "expected a type name"))
    } else {
        Ok(
            (
                TypeForm {
                    shape: TypeShape::Named(ident_at(t, pos + 1)),
                    span: tokens_span(t, pos, pos + 2),
                },
                pos + 2,
            ),
        )
    }
}

/// An optional annotation at `q`: none, and `q`, where no `:` stands there.
pub open spec fn g_optional_annotation(t: TokenSeq, q: int) -> Result<
    (Option<TypeForm>, int),
    ParseFailure,
> {
    if tok_is(t, q, TokenKind::Colon) {
        match g_annotation(t, q) {
            Ok((ty, next)) => Ok((Some(ty), next)),
            Err(f) => Err(f),
        }
    } else {
        Ok((None, q))
    }
}

/// The fields of a record type from `q`, added to `acc`: the fields and the position of the
/// closing `}`.
pub open spec fn g_type_fields(t: TokenSeq, q: int, acc: Seq<(Seq<char>, TypeForm)>) -> Result<
    (Seq<(Seq<char>, TypeForm)>, int),
    ParseFailure,
>
    decreases t.forms.len() - q,
{
    if !(0 <= q <= t.forms.len()) {
        Err(stray())
    } else if !tok_ident(t, q) {
        Err(err_at(t, q, "expected a field name"))
    } else {
        match g_annotation(t, q + 1) {
            Err(f) => Err(f),
            Ok((ty, next)) => match with_field(acc, ident_at(t, q), ty) {
                None => Err(ParseFailure::DuplicateField(ident_at(t, q), tokens_span(t, q, next))),
                Some(fields) => if tok_is(t, next, TokenKind::Comma) {
                    if tok_is(t, next + 1, TokenKind::RBrace) {
                        Ok((fields, next + 1))
                    } else {
                        g_type_fields(t, next + 1, fields)
                    }
                } else if tok_is(t, next, TokenKind::RBrace) {
                    Ok((fields, next))
                } else {
                    Err(err_at(t, next, "expected `,` or `}`"))
                },
            },
        }
    }
}

/// A type at `pos`: a name, or a record type.
pub open spec fn g_type(t: TokenSeq, pos: int) -> Result<(TypeForm, int), ParseFailure> {
    if tok_ident(t, pos) {
        Ok(
            (
                TypeForm { shape: TypeShape::Named(ident_at(t, pos)), span: tokens_span(t, pos, pos + 1) },
                pos + 1,
            ),
        )
    } else if !tok_is(t, pos, TokenKind::LBrace) {
        Err(err_at(t, pos, "expected a type"))
    } else if tok_is(t, pos + 1, TokenKind::RBrace) {
        Ok(
            (
                TypeForm { shape: TypeShape::Record(Seq::empty()), span: tokens_span(t, pos, pos + 2) },
                pos + 2,
            ),
        )
    } else {
        match g_type_fields(t, pos + 1, Seq::empty()) {
            Ok((fields, close)) => Ok(
                (
                    TypeForm { shape: TypeShape::Record(fields), span: tokens_span(t, pos, close + 1) },
                    close + 1,
                ),
            ),
            Err(f) => Err(f),
        }
    }
}

/// `{`, a name and `:` at `pos`: a record literal rather than a block.
pub open spec fn g_record_ahead(t: TokenSeq, pos: int) -> bool {
    tok_is(t, pos, TokenKind::LBrace) && tok_ident(t, pos + 1) && tok_is(t, pos + 2, TokenKind::Colon)
}

/// The annotation at `q`, if a `:` and a name stand there: the position after it.
pub open spec fn g_head_annotation(t: TokenSeq, q: int) -> Option<int> {
    if tok_is(t, q, TokenKind::Colon) {
        if tok_ident(t, q + 1) {
            Some(q + 2)
        } else {
            None
        }
    } else {
        Some(q)
    }
}

/// The rest of a lambda head's parameters from `q`: the position of the `)` after them.
pub open spec fn g_head_params(t: TokenSeq, q: int) -> Option<int>
    decreases t.forms.len() - q,
{
    if !(0 <= q < t.forms.len()) || !tok_ident(t, q) {
        None
    } else {
        match g_head_annotation(t, q + 1) {
            None => None,
            Some(q2) => if tok_is(t, q2, TokenKind::Comma) {
                g_head_params(t, q2 + 1)
            } else if tok_is(t, q2, TokenKind::RParen) {
                Some(q2)
            } else {
                None
            },
        }
    }
}

/// Whether a lambda's head, `( name [: Type], … ) [: Type] =>`, starts at `pos`, and where its
/// `=>` stands.
pub open spec fn g_arrow(t: TokenSeq, pos: int) -> Option<int> {
    if !tok_is(t, pos, TokenKind::LParen) {
        None
    } else {
        let close = if tok_is(t, pos + 1, TokenKind::RParen) {
            Some(pos + 1)
        } else {
            g_head_params(t, pos + 1)
        };
        match close {
            None => None,
            Some(c) => match g_head_annotation(t, c + 1) {
                None => None,
                Some(q) => if tok_is(t, q, TokenKind::Arrow) {
                    Some(q)
                } else {
                    None
                },
            },
        }
    }
}

/// The infix operator at `q` and how tightly it binds.
pub open spec fn g_infix(t: TokenSeq, q: int) -> Option<(BinaryOp, int)> {
    if !(0 <= q < t.forms.len()) {
        None
    } else {
        match t.forms[q].lexeme {
            Lexeme::Fixed(TokenKind::Pipe) => Some((BinaryOp::Pipe, 1)),
            Lexeme::Fixed(TokenKind::OrOr) => Some((BinaryOp::Or, 2)),
            Lexeme::Fixed(TokenKind::AndAnd) => Some((BinaryOp::And, 3)),
            Lexeme::Fixed(TokenKind::EqEq) => Some((BinaryOp::Eq, 4)),
            Lexeme::Fixed(TokenKind::NotEq) => Some((BinaryOp::Neq, 4)),
            Lexeme::Fixed(TokenKind::Lt) => Some((BinaryOp::Lt, 4)),
            Lexeme::Fixed(TokenKind::Gt) => Some((BinaryOp::Gt, 4)),
            Lexeme::Fixed(TokenKind::Le) => Some((BinaryOp::Le, 4)),
            Lexeme::Fixed(TokenKind::Ge) => Some((BinaryOp::Ge, 4)),
            Lexeme::Fixed(TokenKind::Plus) => Some((BinaryOp::Add, 5)),
            Lexeme::Fixed(TokenKind::Minus) => Some((BinaryOp::Sub, 5)),
            Lexeme::Fixed(TokenKind::Star) => Some((BinaryOp::Mul, 6)),
            Lexeme::Fixed(TokenKind::Slash) => Some((BinaryOp::Div, 6)),
            _ => None,
        }
    }
}

/// Lambdas of one parameter each, from the last parameter outwards, around `inner`.
pub open spec fn nest_lambdas(params: Seq<ParamForm>, inner: ExprForm, span: SourceSpan) -> ExprForm
    decreases params.len(),
{
    if params.len() == 0 {
        inner
    } else {
        nest_lambdas(
            params.drop_last(),
            ExprForm {
                shape: ExprShape::Lambda(Some(params.last()), None, Box::new(inner)),
                span,
            },
            span,
        )
    }
}

/// A lambda's parameters from `q`, added to `acc`: the parameters and the position of `)`.
pub open spec fn g_params(t: TokenSeq, q: int, acc: Seq<ParamForm>) -> Result<
    (Seq<ParamForm>, int),
    ParseFailure,
>
    decreases t.forms.len() - q,
{
    if !(0 <= q <= t.forms.len()) {
        Err(stray())
    } else if !tok_ident(t, q) {
        Err(err_at(t, q, "expected a parameter name"))
    } else {
        match g_optional_annotation(t, q + 1) {
            Err(f) => Err(f),
            Ok((type_dec, q2)) => {
                let params = acc.push(ParamForm { name: ident_at(t, q), type_dec });
                if tok_is(t, q2, TokenKind::Comma) {
                    g_params(t, q2 + 1, params)
                } else if tok_is(t, q2, TokenKind::RParen) {
                    Ok((params, q2))
                } else {
                    Err(err_at(t, q2, "expected `,` or `)`"))
                }
            },
        }
    }
}

/// `type Name = Type` at `pos`.
pub open spec fn g_type_declaration(t: TokenSeq, pos: int) -> Result<(ExprForm, int), ParseFailure> {
    if !tok_ident(t, pos + 1) {
        Err(err_at(t, pos + 1, "expected a name after `type`"))
    } else if !tok_is(t, pos + 2, TokenKind::Assign) {
        Err(err_at(t, pos + 2, "expected `=`"))
    } else {
        match g_type(t, pos + 3) {
            Ok((ty, next)) => Ok(
                (
                    ExprForm {
                        shape: ExprShape::TypeDecl(ident_at(t, pos + 1), ty),
                        span: tokens_span(t, pos, next),
                    },
                    next,
                ),
            ),
            Err(f) => Err(f),
        }
    }
}

/// One expression at `pos`; `nl` when a line break ends it, as at the top level and in
/// blocks.
pub open spec fn g_expr(t: TokenSeq, pos: int, nl: bool) -> Result<(ExprForm, int), ParseFailure>
    decreases t.forms.len() - pos, 25int,
{
    if !(0 <= pos < t.forms.len()) {
        Err(err_at(t, pos, "expected an expression"))
    } else {
        match t.forms[pos].lexeme {
            Lexeme::Fixed(TokenKind::Type) => g_type_declaration(t, pos),
            Lexeme::Fixed(TokenKind::Let) => g_let(t, pos, nl),
            Lexeme::Fixed(TokenKind::If) => g_if(t, pos, nl),
            Lexeme::Fixed(TokenKind::LBrace) => if g_record_ahead(t, pos) {
                g_binary(t, pos, 1, nl)
            } else {
                g_block(t, pos)
            },
            Lexeme::Fixed(TokenKind::LParen) => if g_arrow(t, pos) is Some {
                g_lambda(t, pos, nl)
            } else {
                g_binary(t, pos, 1, nl)
            },
            _ => g_binary(t, pos, 1, nl),
        }
    }
}

/// `let name [: Type] = value` at `pos`.
pub open spec fn g_let(t: TokenSeq, pos: int, nl: bool) -> Result<(ExprForm, int), ParseFailure>
    decreases t.forms.len() - pos, 20int,
{
    if !(0 <= pos < t.forms.len()) {
        Err(stray())
    } else if !tok_ident(t, pos + 1) {
        Err(err_at(t, pos + 1, "expected a name after `let`"))
    } else {
        match g_optional_annotation(t, pos + 2) {
            Err(f) => Err(f),
            Ok((type_dec, q)) => if !tok_is(t, q, TokenKind::Assign) {
                Err(err_at(t, q, "expected `=`"))
            } else {
                match g_expr(t, q + 1, nl) {
                    Err(f) => Err(f),
                    Ok((value, next)) => Ok(
                        (
                            ExprForm {
                                shape: ExprShape::Let(ident_at(t, pos + 1), type_dec, Box::new(value)),
                                span: tokens_span(t, pos, next),
                            },
                            next,
                        ),
                    ),
                }
            },
        }
    }
}

/// `if (condition) branch [else branch]` at `pos`.
pub open spec fn g_if(t: TokenSeq, pos: int, nl: bool) -> Result<(ExprForm, int), ParseFailure>
    decreases t.forms.len() - pos, 20int,
{
    if !(0 <= pos < t.forms.len()) {
        Err(stray())
    } else if !tok_is(t, pos + 1, TokenKind::LParen) {
        Err(err_at(t, pos + 1, "expected `(` after `if`"))
    } else {
        match g_expr(t, pos + 2, false) {
            Err(f) => Err(f),
            Ok((condition, q)) => if !(pos + 2 < q) {
                Err(stray())
            } else if !tok_is(t, q, TokenKind::RParen) {
                Err(err_at(t, q, "expected `)`"))
            } else {
                match g_expr(t, q + 1, nl) {
                    Err(f) => Err(f),
                    Ok((then_branch, q2)) => if !(q + 1 < q2) {
                        Err(stray())
                    } else if tok_is(t, q2, TokenKind::Else) {
                        match g_expr(t, q2 + 1, nl) {
                            Err(f) => Err(f),
                            Ok((else_branch, next)) => Ok(
                                (
                                    ExprForm {
                                        shape: ExprShape::If(
                                            Box::new(condition),
                                            Box::new(then_branch),
                                            Some(Box::new(else_branch)),
                                        ),
                                        span: tokens_span(t, pos, next),
                                    },
                                    next,
                                ),
                            ),
                        }
                    } else {
                        Ok(
                            (
                                ExprForm {
                                    shape: ExprShape::If(
                                        Box::new(condition),
                                        Box::new(then_branch),
                                        None,
                                    ),
                                    span: tokens_span(t, pos, q2),
                                },
                                q2,
                            ),
                        )
                    },
                }
            },
        }
    }
}

/// A lambda at `pos`: several parameters make nested lambdas of one parameter each, the
/// innermost keeping the return type, every one spanning the whole lambda.
pub open spec fn g_lambda(t: TokenSeq, pos: int, nl: bool) -> Result<(ExprForm, int), ParseFailure>
    decreases t.forms.len() - pos, 20int,
{
    if !(0 <= pos < t.forms.len()) {
        Err(stray())
    } else {
        let head = if tok_is(t, pos + 1, TokenKind::RParen) {
            Ok((Seq::<ParamForm>::empty(), pos + 1))
        } else {
            g_params(t, pos + 1, Seq::empty())
        };
        match head {
            Err(f) => Err(f),
            Ok((params, close)) => match g_optional_annotation(t, close + 1) {
                Err(f) => Err(f),
                Ok((return_type, q)) => if !(pos < q) {
                    Err(stray())
                } else if !tok_is(t, q, TokenKind::Arrow) {
                    Err(err_at(t, q, "expected `=>`"))
                } else {
                    match g_expr(t, q + 1, nl) {
                        Err(f) => Err(f),
                        Ok((body, next)) => {
                            let span = tokens_span(t, pos, next);
                            let innermost = ExprForm {
                                shape: ExprShape::Lambda(
                                    if params.len() > 0 {
                                        Some(params.last())
                                    } else {
                                        None
                                    },
                                    return_type,
                                    Box::new(body),
                                ),
                                span,
                            };
                            Ok(
                                (
                                    nest_lambdas(
                                        if params.len() > 0 {
                                            params.drop_last()
                                        } else {
                                            params
                                        },
                                        innermost,
                                        span,
                                    ),
                                    next,
                                ),
                            )
                        },
                    }
                },
            },
        }
    }
}

/// Expressions from `q`, separated by line breaks or `;`, added to `acc`, up to the end of
/// the tokens or, when `in_block`, a `}`: the expressions and where they stop.
pub open spec fn g_statements(t: TokenSeq, q: int, in_block: bool, acc: Seq<ExprForm>) -> Result<
    (Seq<ExprForm>, int),
    ParseFailure,
>
    decreases t.forms.len() - q, 30int,
{
    if !(0 <= q <= t.forms.len()) {
        Err(stray())
    } else if q == t.forms.len() || (in_block && tok_is(t, q, TokenKind::RBrace)) {
        Ok((acc, q))
    } else if tok_is(t, q, TokenKind::Semicolon) {
        g_statements(t, q + 1, in_block, acc)
    } else {
        match g_expr(t, q, true) {
            Err(f) => Err(f),
            Ok((e, next)) => if !(q < next <= t.forms.len()) {
                Err(stray())
            } else if next < t.forms.len() && !tok_is(t, next, TokenKind::Semicolon) && !(
            in_block && tok_is(t, next, TokenKind::RBrace)) && !t.forms[next].newline_before {
                Err(err_at(t, next, "expected a line break or `;` between expressions"))
            } else {
                g_statements(t, next, in_block, acc.push(e))
            },
        }
    }
}

/// A whole program: expressions separated by line breaks or `;`, up to the end of the
/// tokens.
pub open spec fn g_program(t: TokenSeq) -> Result<Seq<ExprForm>, ParseFailure> {
    match g_statements(t, 0, false, Seq::empty()) {
        Ok((exprs, _)) => Ok(exprs),
        Err(f) => Err(f),
    }
}

/// A block at `pos`: `{`, expressions, `}`.
pub open spec fn g_block(t: TokenSeq, pos: int) -> Result<(ExprForm, int), ParseFailure>
    decreases t.forms.len() - pos, 20int,
{
    if !(0 <= pos < t.forms.len()) {
        Err(stray())
    } else {
        match g_statements(t, pos + 1, true, Seq::empty()) {
            Ok((exprs, q)) => if tok_is(t, q, TokenKind::RBrace) {
                Ok(
                    (
                        ExprForm { shape: ExprShape::Block(exprs), span: tokens_span(t, pos, q + 1) },
                        q + 1,
                    ),
                )
            } else {
                Err(err_at(t, q, "expected `}`"))
            },
            Err(f) => Err(f),
        }
    }
}

/// The fields of a record literal from `q`, added to `acc`: the fields and the position of the
/// closing `}`.
pub open spec fn g_record_fields(t: TokenSeq, q: int, acc: Seq<(Seq<char>, ExprForm)>) -> Result<
    (Seq<(Seq<char>, ExprForm)>, int),
    ParseFailure,
>
    decreases t.forms.len() - q, 3int,
{
    if !(0 <= q <= t.forms.len()) {
        Err(stray())
    } else if !tok_ident(t, q) {
        Err(err_at(t, q, "expected a field name"))
    } else if !tok_is(t, q + 1, TokenKind::Colon) {
        Err(err_at(t, q + 1, "expected `:`"))
    } else {
        match g_expr(t, q + 2, false) {
            Err(f) => Err(f),
            Ok((value, next)) => if !(q + 2 < next) {
                Err(stray())
            } else {
                match with_field(acc, ident_at(t, q), value) {
                    None => Err(ParseFailure::DuplicateField(ident_at(t, q), t.forms[q].span)),
                    Some(fields) => if tok_is(t, next, TokenKind::Comma) {
                        if tok_is(t, next + 1, TokenKind::RBrace) {
                            Ok((fields, next + 1))
                        } else {
                            g_record_fields(t, next + 1, fields)
                        }
                    } else if tok_is(t, next, TokenKind::RBrace) {
                        Ok((fields, next))
                    } else {
                        Err(err_at(t, next, "expected `,` or `}`"))
                    },
                }
            },
        }
    }
}

/// A record literal at `pos`.
pub open spec fn g_record(t: TokenSeq, pos: int) -> Result<(ExprForm, int), ParseFailure>
    decreases t.forms.len() - pos, 4int,
{
    if !(0 <= pos < t.forms.len()) {
        Err(stray())
    } else {
        match g_record_fields(t, pos + 1, Seq::empty()) {
            Ok((fields, close)) => Ok(
                (
                    ExprForm {
                        shape: ExprShape::Record(fields),
                        span: tokens_span(t, pos, close + 1),
                    },
                    close + 1,
                ),
            ),
            Err(f) => Err(f),
        }
    }
}

/// A literal, a name, `()`, a parenthesised expression or a record literal at `pos`.
pub open spec fn g_primary(t: TokenSeq, pos: int) -> Result<(ExprForm, int), ParseFailure>
    decreases t.forms.len() - pos, 5int,
{
    if !(0 <= pos < t.forms.len()) {
        Err(err_at(t, pos, "expected an expression"))
    } else {
        let span = tokens_span(t, pos, pos + 1);
        match t.forms[pos].lexeme {
            Lexeme::Int(digits) => if decimal_value(digits) <= i64::MAX {
                Ok((ExprForm { shape: ExprShape::Int(decimal_value(digits) as int), span }, pos + 1))
            } else {
                Err(ParseFailure::IntOutOfRange(digits, span))
            },
            Lexeme::Float(text) => Ok((ExprForm { shape: ExprShape::Float(text), span }, pos + 1)),
            Lexeme::Str(raw) => match unescaped(raw) {
                Some(s) => Ok((ExprForm { shape: ExprShape::Str(s), span }, pos + 1)),
                None => Err(ParseFailure::BadEscape(span)),
            },
            Lexeme::Fixed(TokenKind::True) => Ok(
                (ExprForm { shape: ExprShape::Bool(true), span }, pos + 1),
            ),
            Lexeme::Fixed(TokenKind::False) => Ok(
                (ExprForm { shape: ExprShape::Bool(false), span }, pos + 1),
            ),
            Lexeme::Ident(name) => Ok((ExprForm { shape: ExprShape::Var(name), span }, pos + 1)),
            Lexeme::Fixed(TokenKind::LParen) => if tok_is(t, pos + 1, TokenKind::RParen) {
                Ok((ExprForm { shape: ExprShape::Unit, span: tokens_span(t, pos, pos + 2) }, pos + 2))
            } else {
                match g_expr(t, pos + 1, false) {
                    Err(f) => Err(f),
                    Ok((inner, q)) => if tok_is(t, q, TokenKind::RParen) {
                        Ok((inner, q + 1))
                    } else {
                        Err(err_at(t, q, "expected `)`"))
                    },
                }
            },
            Lexeme::Fixed(TokenKind::LBrace) => if g_record_ahead(t, pos) {
                g_record(t, pos)
            } else {
                Err(err_at(t, pos, "expected an expression"))
            },
            _ => Err(err_at(t, pos, "expected an expression")),
        }
    }
}

/// The arguments of a call from `r`, added to `acc`: the arguments and the position of `)`.
pub open spec fn g_args(t: TokenSeq, r: int, acc: Seq<ExprForm>) -> Result<
    (Seq<ExprForm>, int),
    ParseFailure,
>
    decreases t.forms.len() - r, 26int,
{
    if !(0 <= r <= t.forms.len()) {
        Err(stray())
    } else {
        match g_expr(t, r, false) {
            Err(f) => Err(f),
            Ok((a, next)) => if !(r < next) {
                Err(stray())
            } else {
                let args = acc.push(a);
                if tok_is(t, next, TokenKind::Comma) {
                    if tok_is(t, next + 1, TokenKind::RParen) {
                        Ok((args, next + 1))
                    } else {
                        g_args(t, next + 1, args)
                    }
                } else if tok_is(t, next, TokenKind::RParen) {
                    Ok((args, next))
                } else {
                    Err(err_at(t, next, "expected `,` or `)`"))
                }
            },
        }
    }
}

/// The arguments of a call whose `(` stands at `q`.
pub open spec fn g_call_args(t: TokenSeq, q: int) -> Result<(Seq<ExprForm>, int), ParseFailure>
    decreases t.forms.len() - q, 5int,
{
    if !(0 <= q < t.forms.len()) {
        Err(stray())
    } else if tok_is(t, q + 1, TokenKind::RParen) {
        Ok((Seq::<ExprForm>::empty(), q + 1))
    } else {
        g_args(t, q + 1, Seq::empty())
    }
}

/// Calls and field reads applied to `e`, from `q`, each touching what it follows.
pub open spec fn g_postfix_rest(t: TokenSeq, e: ExprForm, q: int) -> Result<(ExprForm, int), ParseFailure>
    decreases t.forms.len() - q, 6int,
{
    if !(0 <= q <= t.forms.len()) {
        Err(stray())
    } else if !(q < t.forms.len() && !t.forms[q].space_before && (tok_is(
        t,
        q,
        TokenKind::LParen,
    ) || tok_is(t, q, TokenKind::Dot))) {
        Ok((e, q))
    } else if tok_is(t, q, TokenKind::LParen) {
        match g_call_args(t, q) {
            Err(f) => Err(f),
            Ok((args, close)) => if !(q < close < t.forms.len()) {
                Err(stray())
            } else {
                g_postfix_rest(
                    t,
                    ExprForm {
                        shape: ExprShape::Call(Box::new(e), args),
                        span: span_from(e.span.offset, t.forms[close].span.end()),
                    },
                    close + 1,
                )
            },
        }
    } else if !tok_ident(t, q + 1) {
        Err(err_at(t, q + 1, "expected a field name after `.`"))
    } else {
        g_postfix_rest(
            t,
            ExprForm {
                shape: ExprShape::Field(Box::new(e), ident_at(t, q + 1)),
                span: span_from(e.span.offset, t.forms[q + 1].span.end()),
            },
            q + 2,
        )
    }
}

/// [`g_call_args`], kept folded outside the proofs that step through it.
#[verifier::opaque]
pub open spec fn call_args_from(t: TokenSeq, q: int) -> Result<(Seq<ExprForm>, int), ParseFailure> {
    g_call_args(t, q)
}

/// [`g_postfix_rest`], kept folded where a proof steps through it one call or field read at a
/// time.
#[verifier::opaque]
pub open spec fn postfix_from(t: TokenSeq, e: ExprForm, q: int) -> Result<(ExprForm, int), ParseFailure> {
    g_postfix_rest(t, e, q)
}

/// One call step of [`g_postfix_rest`].
pub proof fn lemma_postfix_call(t: TokenSeq, e: ExprForm, q: int, args: Seq<ExprForm>, close: int)
    requires
        0 <= q < t.forms.len(),
        !t.forms[q].space_before,
        tok_is(t, q, TokenKind::LParen),
        q < close < t.forms.len(),
        call_args_from(t, q) == Ok::<(Seq<ExprForm>, int), ParseFailure>((args, close)),
    ensures
        postfix_from(t, e, q) == postfix_from(
            t,
            ExprForm {
                shape: ExprShape::Call(Box::new(e), args),
                span: span_from(e.span.offset, t.forms[close].span.end()),
            },
            close + 1,
        ),
{
    reveal(postfix_from);
    reveal(call_args_from);
}

/// A call step of [`g_postfix_rest`] whose arguments fail.
pub proof fn lemma_postfix_call_fails(t: TokenSeq, e: ExprForm, q: int)
    requires
        0 <= q < t.forms.len(),
        !t.forms[q].space_before,
        tok_is(t, q, TokenKind::LParen),
        call_args_from(t, q) is Err,
    ensures
        postfix_from(t, e, q) == Err::<(ExprForm, int), ParseFailure>(call_args_from(t, q)->Err_0),
{
    reveal(postfix_from);
    reveal(call_args_from);
}

/// One field-read step of [`g_postfix_rest`].
pub proof fn lemma_postfix_field(t: TokenSeq, e: ExprForm, q: int)
    requires
        0 <= q < t.forms.len(),
        !t.forms[q].space_before,
        tok_is(t, q, TokenKind::Dot),
    ensures
        postfix_from(t, e, q) == if tok_ident(t, q + 1) {
            postfix_from(
                t,
                ExprForm {
                    shape: ExprShape::Field(Box::new(e), ident_at(t, q + 1)),
                    span: span_from(e.span.offset, t.forms[q + 1].span.end()),
                },
                q + 2,
            )
        } else {
            Err(err_at(t, q + 1, "expected a field name after `.`"))
        },
{
    reveal(postfix_from);
}

/// [`g_postfix_rest`] stops where no call or field read touches what comes before.
pub proof fn lemma_postfix_stop(t: TokenSeq, e: ExprForm, q: int)
    requires
        0 <= q <= t.forms.len(),
        !(q < t.forms.len() && !t.forms[q].space_before && (tok_is(t, q, TokenKind::LParen)
            || tok_is(t, q, TokenKind::Dot))),
    ensures
        postfix_from(t, e, q) == Ok::<(ExprForm, int), ParseFailure>((e, q)),
{
    reveal(postfix_from);
}

/// A postfix expression at `pos` is its primary and what follows it.
pub proof fn lemma_postfix_start(t: TokenSeq, pos: int)
    requires
        0 <= pos <= t.forms.len(),
    ensures
        g_postfix(t, pos) == match g_primary(t, pos) {
            Err(f) => Err(f),
            Ok((e, q)) => if !(pos < q <= t.forms.len()) {
                Err(stray())
            } else {
                postfix_from(t, e, q)
            },
        },
{
    reveal(postfix_from);
}

/// A primary and its calls and field reads, at `pos`.
pub open spec fn g_postfix(t: TokenSeq, pos: int) -> Result<(ExprForm, int), ParseFailure>
    decreases t.forms.len() - pos, 7int,
{
    if !(0 <= pos <= t.forms.len()) {
        Err(stray())
    } else {
        match g_primary(t, pos) {
            Err(f) => Err(f),
            Ok((e, q)) => if !(pos < q <= t.forms.len()) {
                Err(stray())
            } else {
                g_postfix_rest(t, e, q)
            },
        }
    }
}

/// Prefix `-` and `!` over a postfix expression, at `pos`.
pub open spec fn g_unary(t: TokenSeq, pos: int) -> Result<(ExprForm, int), ParseFailure>
    decreases t.forms.len() - pos, 10int,
{
    if !(0 <= pos <= t.forms.len()) {
        Err(stray())
    } else if tok_is(t, pos, TokenKind::Minus) || tok_is(t, pos, TokenKind::Bang) {
        let op = if tok_is(t, pos, TokenKind::Minus) {
            UnaryOp::Neg
        } else {
            UnaryOp::Not
        };
        match g_unary(t, pos + 1) {
            Err(f) => Err(f),
            Ok((operand, next)) => Ok(
                (
                    ExprForm {
                        shape: ExprShape::Unary(op, Box::new(operand)),
                        span: span_from(t.forms[pos].span.offset, operand.span.end()),
                    },
                    next,
                ),
            ),
        }
    } else {
        g_postfix(t, pos)
    }
}

/// Binary operators binding at `min` or tighter, grouped to the left, applied to `lhs`, from
/// `q`. With `nl`, an operator other than `|>` at the start of a line ends the expression.
pub open spec fn g_binary_rest(
    t: TokenSeq,
    lhs: ExprForm,
    q: int,
    min: int,
    nl: bool,
) -> Result<(ExprForm, int), ParseFailure>
    decreases t.forms.len() - q, 14int,
{
    if !(0 <= q <= t.forms.len()) {
        Err(stray())
    } else {
        match g_infix(t, q) {
            None => Ok((lhs, q)),
            Some((op, level)) => if level < min || (nl && t.forms[q].newline_before && op
                != BinaryOp::Pipe) {
                Ok((lhs, q))
            } else {
                match g_binary(t, q + 1, level + 1, nl) {
                    Err(f) => Err(f),
                    Ok((rhs, next)) => if !(q < next <= t.forms.len()) {
                        Err(stray())
                    } else {
                        g_binary_rest(
                            t,
                            ExprForm {
                                shape: ExprShape::Binary(op, Box::new(lhs), Box::new(rhs)),
                                span: span_from(lhs.span.offset, rhs.span.end()),
                            },
                            next,
                            min,
                            nl,
                        )
                    },
                }
            },
        }
    }
}

/// Operators binding at `min` or tighter over unary operands, at `pos`.
pub open spec fn g_binary(t: TokenSeq, pos: int, min: int, nl: bool) -> Result<(ExprForm, int), ParseFailure>
    decreases t.forms.len() - pos, 15int,
{
    if !(0 <= pos <= t.forms.len()) {
        Err(stray())
    } else {
        match g_unary(t, pos) {
            Err(f) => Err(f),
            Ok((lhs, q)) => if !(pos < q <= t.forms.len()) {
                Err(stray())
            } else {
                g_binary_rest(t, lhs, q, min, nl)
            },
        }
    }
}

/// Whether the expression ends at `q`: no more tokens, or a closing parenthesis.
pub open spec fn ends_at(t: TokenSeq, q: int) -> bool {
    q == t.forms.len() || (0 <= q < t.forms.len() && t.forms[q].lexeme == Lexeme::Fixed(
        TokenKind::RParen,
    ))
}

/// The operator `op_token` at `q`, on the same line as what comes before it when line breaks
/// end expressions.
pub open spec fn operator_at(t: TokenSeq, q: int, op_token: TokenKind, nl: bool) -> bool {
    0 <= q < t.forms.len() && t.forms[q].lexeme == Lexeme::Fixed(op_token) && !(nl
        && t.forms[q].newline_before)
}

/// `&&` binds tighter than `||`: for any operands `a`, `b` and `c` (each a unary expression,
/// such as a name, a literal, a call or a parenthesised expression), `a || b && c` groups as
/// `a || (b && c)`, and `a && b || c` groups as `(a && b) || c`.
pub proof fn lemma_and_binds_tighter_than_or(
    t: TokenSeq,
    pos: int,
    nl: bool,
    a: ExprForm,
    b: ExprForm,
    c: ExprForm,
    q1: int,
    q2: int,
    q3: int,
    first: TokenKind,
    second: TokenKind,
)
    requires
        (first == TokenKind::OrOr && second == TokenKind::AndAnd) || (first == TokenKind::AndAnd
            && second == TokenKind::OrOr),
        0 <= pos < q1,
        q1 + 1 < q2,
        q2 + 1 < q3 <= t.forms.len(),
        g_unary(t, pos) == Ok::<(ExprForm, int), ParseFailure>((a, q1)),
        operator_at(t, q1, first, nl),
        g_unary(t, q1 + 1) == Ok::<(ExprForm, int), ParseFailure>((b, q2)),
        operator_at(t, q2, second, nl),
        g_unary(t, q2 + 1) == Ok::<(ExprForm, int), ParseFailure>((c, q3)),
        ends_at(t, q3),
    ensures
        first == TokenKind::OrOr ==> match g_binary(t, pos, 1, nl) {
            Ok((e, end)) => end == q3 && match e.shape {
                ExprShape::Binary(BinaryOp::Or, l, r) => *l == a && r.shape == ExprShape::Binary(
                    BinaryOp::And,
                    Box::new(b),
                    Box::new(c),
                ),
                _ => false,
            },
            Err(_) => false,
        },
        first == TokenKind::AndAnd ==> match g_binary(t, pos, 1, nl) {
            Ok((e, end)) => end == q3 && match e.shape {
                ExprShape::Binary(BinaryOp::Or, l, r) => *r == c && l.shape == ExprShape::Binary(
                    BinaryOp::And,
                    Box::new(a),
                    Box::new(b),
                ),
                _ => false,
            },
            Err(_) => false,
        },
{
    assert(g_infix(t, q3) is None);
    if first == TokenKind::OrOr {
        let inner = ExprForm {
            shape: ExprShape::Binary(BinaryOp::And, Box::new(b), Box::new(c)),
            span: span_from(b.span.offset, c.span.end()),
        };
        let outer = ExprForm {
            shape: ExprShape::Binary(BinaryOp::Or, Box::new(a), Box::new(inner)),
            span: span_from(a.span.offset, inner.span.end()),
        };
        assert(g_binary_rest(t, c, q3, 4, nl) == Ok::<(ExprForm, int), ParseFailure>((c, q3)));
        assert(g_binary(t, q2 + 1, 4, nl) == Ok::<(ExprForm, int), ParseFailure>((c, q3)));
        assert(g_binary_rest(t, inner, q3, 3, nl) == Ok::<(ExprForm, int), ParseFailure>(
            (inner, q3),
        ));
        assert(g_infix(t, q2) == Some((BinaryOp::And, 3int)));
        assert(g_binary_rest(t, b, q2, 3, nl) == Ok::<(ExprForm, int), ParseFailure>(
            (inner, q3),
        ));
        assert(g_binary(t, q1 + 1, 3, nl) == Ok::<(ExprForm, int), ParseFailure>((inner, q3)));
        assert(g_binary_rest(t, outer, q3, 1, nl) == Ok::<(ExprForm, int), ParseFailure>(
            (outer, q3),
        ));
        assert(g_infix(t, q1) == Some((BinaryOp::Or, 2int)));
        assert(g_binary_rest(t, a, q1, 1, nl) == Ok::<(ExprForm, int), ParseFailure>(
            (outer, q3),
        ));
    } else {
        let inner = ExprForm {
            shape: ExprShape::Binary(BinaryOp::And, Box::new(a), Box::new(b)),
            span: span_from(a.span.offset, b.span.end()),
        };
        let outer = ExprForm {
            shape: ExprShape::Binary(BinaryOp::Or, Box::new(inner), Box::new(c)),
            span: span_from(inner.span.offset, c.span.end()),
        };
        assert(g_infix(t, q2) == Some((BinaryOp::Or, 2int)));
        assert(g_binary_rest(t, b, q2, 4, nl) == Ok::<(ExprForm, int), ParseFailure>((b, q2)));
        assert(g_binary(t, q1 + 1, 4, nl) == Ok::<(ExprForm, int), ParseFailure>((b, q2)));
        assert(g_binary_rest(t, c, q3, 3, nl) == Ok::<(ExprForm, int), ParseFailure>((c, q3)));
        assert(g_binary(t, q2 + 1, 3, nl) == Ok::<(ExprForm, int), ParseFailure>((c, q3)));
        assert(g_binary_rest(t, outer, q3, 1, nl) == Ok::<(ExprForm, int), ParseFailure>(
            (outer, q3),
        ));
        assert(g_binary_rest(t, inner, q2, 1, nl) == Ok::<(ExprForm, int), ParseFailure>(
            (outer, q3),
        ));
        assert(g_infix(t, q1) == Some((BinaryOp::And, 3int)));
        assert(g_binary_rest(t, a, q1, 1, nl) == Ok::<(ExprForm, int), ParseFailure>(
            (outer, q3),
        ));
    }
}

} // verus!
