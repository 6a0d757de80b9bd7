//! Builds expressions from tokens, by recursive descent.
//!
//! An expression is a `type` declaration, a `let`, an `if`, a block `{ … }`, a lambda
//! `(a: Int, b) : Int => body`, or operators over operands. Binary operators bind, loosest
//! first: `|>`, `||`, `&&`, the comparisons, `+ -`, `* /`, all to the left; the prefix `-`
//! and `!` bind tighter, and the postfix call `f(…)` and field read `.name` tighter still. A
//! postfix must touch what it follows: `f (1)` is not a call.
//!
//! At the top level and in blocks, expressions are separated by line breaks or `;`. There a
//! binary operator at the start of a line begins a new expression, except `|>`, which
//! continues the one above. Inside parentheses and record literals line breaks do not
//! matter.
//!
//! `grammar` states all of this over the tokens; each parsing step here is proved to build
//! exactly the tree the matching grammar function gives, and to fail exactly where it gives
//! none.

use vstd::prelude::*;

use super::ast::{
    BinaryOp, Expression, ExpressionKind, Lambda, Literal, Param, TypeExpression,
    TypeExpressionKind, UnaryOp, annotation_wf, expr_wf, names_increasing, type_wf,
};
use super::error::{BuildError, ParseError, SyntaxError, error_span};
use super::grammar::{
    ParseFailure, TokenSeq, err_at, failure_form, call_args_from, lemma_postfix_start, postfix_from,
    ExprForm, ExprShape, ParamForm, TypeForm, annotation_form, built, expr_fields_form, expr_form,
    forms_of, g_annotation, g_args, g_arrow, g_binary, g_binary_rest, g_block, g_expr,
    g_head_params, g_if, g_infix, g_lambda, g_let, g_params, g_postfix, g_postfix_rest, g_primary,
    g_record, g_record_ahead, g_record_fields, g_statements, g_type, g_type_declaration,
    g_type_fields, g_unary, ident_at, insertion_point, lemma_expr_fields_insert,
    lemma_expr_form_block, lemma_expr_form_call, lemma_expr_form_record, lemma_insertion_point,
    lemma_postfix_call, lemma_postfix_call_fails, lemma_postfix_field, lemma_postfix_stop,
    lemma_type_fields_insert, lemma_type_form_record, nest_lambdas, params_form, string_keys,
    tok_ident, tok_is, tokens_span, type_built, type_fields_form, type_form, with_field,
};
use super::lexer::{
    Token, TokenForm, TokenKind, int_literal_value, kind_lexeme, token_forms, tokens_wf,
};
use crate::span::{SourceSpan, merge_spans};
use crate::text::{
    lemma_seq_lt_total, lemma_seq_lt_transitive, seq_lt, string_lt,
};

verus! {

/// The tokens of one source text, ready to be parsed.
pub struct TrestleParser {
    pub tokens: Vec<Token>,
    /// Byte length of the source text.
    pub end: usize,
}

impl TrestleParser {
    pub open spec fn wf(&self) -> bool {
        &&& tokens_wf(self.tokens@, self.end as nat)
        &&& self.tokens@.len() <= usize::MAX
    }

    /// The tokens, in mathematical form, and the length of the text.
    pub open spec fn forms(&self) -> TokenSeq {
        TokenSeq { forms: token_forms(self.tokens@), end: self.end as int }
    }

    /// Where token `i` starts, or the end of the text for `i` past the last token.
    pub open spec fn start_of(&self, i: int) -> int {
        if i < self.tokens@.len() {
            self.tokens@[i].span.offset as int
        } else {
            self.end as int
        }
    }

    /// `span` lies within the tokens `from..to`, of which there is at least one.
    pub open spec fn covers(&self, from: int, to: int, span: SourceSpan) -> bool {
        &&& 0 <= from < to <= self.tokens@.len()
        &&& self.tokens@[from].span.offset <= span.offset
        &&& span.end() <= self.tokens@[to - 1].span.end()
    }
}

/// What a parsing step promises: a well-formed expression inside the tokens it consumed, or
/// an error that points inside the text.
pub open spec fn parsed(
    p: &TrestleParser,
    pos: int,
    r: Result<(Expression, usize), ParseError>,
) -> bool {
    match r {
        Ok((e, next)) => p.covers(pos, next as int, e.span) && expr_wf(e),
        Err(err) => error_span(err).end() <= p.end,
    }
}

proof fn lemma_start_of_monotonic(p: &TrestleParser, i: int, j: int)
    requires
        p.wf(),
        0 <= i <= j,
    ensures
        p.start_of(i) <= p.start_of(j),
        i < p.tokens@.len() ==> p.tokens@[i].span.end() <= p.start_of(j) || i == j,
{
    if i < j && j < p.tokens@.len() {
        assert(p.tokens@[i].span.end() <= p.tokens@[j].span.offset);
    } else if i < j && i < p.tokens@.len() {
        assert(p.tokens@[i].span.end() <= p.end);
    } else if i == j {
    }
}

/// The span from the start of token `from` to the end of token `to - 1`.
fn span_of(p: &TrestleParser, from: usize, to: usize) -> (span: SourceSpan)
    requires
        p.wf(),
        from < to <= p.tokens@.len(),
    ensures
        p.covers(from as int, to as int, span),
        span.offset == p.tokens@[from as int].span.offset,
        span.end() == p.tokens@[to - 1].span.end(),
        span == tokens_span(p.forms(), from as int, to as int),
{
    let start = p.tokens[from].span.offset;
    let last = &p.tokens[to - 1].span;
    assert(p.tokens@[to - 1].span.end() <= p.end);
    if from < to - 1 {
        assert(p.tokens@[from as int].span.end() <= p.tokens@[to - 1].span.offset);
    }
    SourceSpan { offset: start, len: last.offset + last.len - start }
}

/// A syntax error at token `pos`, or at the end of the text past the last token.
fn error_at(p: &TrestleParser, pos: usize, message: &'static str) -> (e: ParseError)
    requires
        p.wf(),
    ensures
        error_span(e).end() <= p.end,
        failure_form(e) == err_at(p.forms(), pos as int, message),
{
    let span = if pos < p.tokens.len() {
        p.tokens[pos].span
    } else {
        SourceSpan { offset: p.end, len: 0 }
    };
    ParseError::Syntax(SyntaxError { message, span })
}

fn at_lparen(p: &TrestleParser, pos: usize) -> (b: bool)
    ensures
        b == tok_is(p.forms(), pos as int, TokenKind::LParen),
        b ==> pos < p.tokens@.len(),
{
    pos < p.tokens.len() && matches!(p.tokens[pos].kind, TokenKind::LParen)
}

fn at_rparen(p: &TrestleParser, pos: usize) -> (b: bool)
    ensures
        b == tok_is(p.forms(), pos as int, TokenKind::RParen),
        b ==> pos < p.tokens@.len(),
{
    pos < p.tokens.len() && matches!(p.tokens[pos].kind, TokenKind::RParen)
}

fn at_lbrace(p: &TrestleParser, pos: usize) -> (b: bool)
    ensures
        b == tok_is(p.forms(), pos as int, TokenKind::LBrace),
        b ==> pos < p.tokens@.len(),
{
    pos < p.tokens.len() && matches!(p.tokens[pos].kind, TokenKind::LBrace)
}

fn at_rbrace(p: &TrestleParser, pos: usize) -> (b: bool)
    ensures
        b == tok_is(p.forms(), pos as int, TokenKind::RBrace),
        b ==> pos < p.tokens@.len(),
{
    pos < p.tokens.len() && matches!(p.tokens[pos].kind, TokenKind::RBrace)
}

fn at_comma(p: &TrestleParser, pos: usize) -> (b: bool)
    ensures
        b == tok_is(p.forms(), pos as int, TokenKind::Comma),
        b ==> pos < p.tokens@.len(),
{
    pos < p.tokens.len() && matches!(p.tokens[pos].kind, TokenKind::Comma)
}

fn at_colon(p: &TrestleParser, pos: usize) -> (b: bool)
    ensures
        b == tok_is(p.forms(), pos as int, TokenKind::Colon),
        b ==> pos < p.tokens@.len(),
{
    pos < p.tokens.len() && matches!(p.tokens[pos].kind, TokenKind::Colon)
}

fn at_semicolon(p: &TrestleParser, pos: usize) -> (b: bool)
    ensures
        b == tok_is(p.forms(), pos as int, TokenKind::Semicolon),
        b ==> pos < p.tokens@.len(),
{
    pos < p.tokens.len() && matches!(p.tokens[pos].kind, TokenKind::Semicolon)
}

fn at_arrow(p: &TrestleParser, pos: usize) -> (b: bool)
    ensures
        b == tok_is(p.forms(), pos as int, TokenKind::Arrow),
        b ==> pos < p.tokens@.len(),
{
    pos < p.tokens.len() && matches!(p.tokens[pos].kind, TokenKind::Arrow)
}

fn at_assign(p: &TrestleParser, pos: usize) -> (b: bool)
    ensures
        b == tok_is(p.forms(), pos as int, TokenKind::Assign),
        b ==> pos < p.tokens@.len(),
{
    pos < p.tokens.len() && matches!(p.tokens[pos].kind, TokenKind::Assign)
}

fn at_ident(p: &TrestleParser, pos: usize) -> (b: bool)
    ensures
        b == tok_ident(p.forms(), pos as int),
        b ==> pos < p.tokens@.len() && p.tokens@[pos as int].kind is Ident,
{
    pos < p.tokens.len() && matches!(p.tokens[pos].kind, TokenKind::Ident(_))
}

/// The identifier at token `pos`.
fn ident_text(p: &TrestleParser, pos: usize) -> (name: String)
    requires
        pos < p.tokens@.len(),
        p.tokens@[pos as int].kind is Ident,
    ensures
        name@ == ident_at(p.forms(), pos as int),
{
    match &p.tokens[pos].kind {
        TokenKind::Ident(name) => name.clone(),
        _ => String::new(),
    }
}

/// `{` then a name and `:`: a record literal rather than a block.
fn record_ahead(p: &TrestleParser, pos: usize) -> (b: bool)
    requires
        p.wf(),
    ensures
        b == g_record_ahead(p.forms(), pos as int),
{
    at_lbrace(p, pos) && pos + 1 < p.tokens.len() && at_ident(p, pos + 1) && pos + 2
        < p.tokens.len() && at_colon(p, pos + 2)
}

/// If the tokens from `pos` are a lambda's head, `( name [: Type], … ) [: Type] =>`, the
/// position of its `=>`.
fn lambda_arrow(p: &TrestleParser, pos: usize) -> (arrow: Option<usize>)
    requires
        p.wf(),
    ensures
        arrow matches Some(a) ==> pos < a < p.tokens@.len(),
        match arrow {
            Some(a) => g_arrow(p.forms(), pos as int) == Some(a as int),
            None => g_arrow(p.forms(), pos as int) is None,
        },
{
    if !at_lparen(p, pos) {
        return None;
    }
    let mut q = pos + 1;
    if !at_rparen(p, q) {
        loop
            invariant_except_break
                g_head_params(p.forms(), q as int) == g_head_params(p.forms(), pos + 1),
            invariant
                p.wf(),
                pos < q <= p.tokens@.len(),
                !tok_is(p.forms(), pos + 1, TokenKind::RParen),
            ensures
                pos < q < p.tokens@.len(),
                g_head_params(p.forms(), pos + 1) == Some(q as int),
            decreases p.tokens@.len() - q,
        {
            let ghost start = q as int;
            if !at_ident(p, q) {
                return None;
            }
            q = q + 1;
            if at_colon(p, q) {
                if !at_ident(p, q + 1) {
                    return None;
                }
                q = q + 2;
            }
            if at_comma(p, q) {
                q = q + 1;
            } else if at_rparen(p, q) {
                assert(g_head_params(p.forms(), start) == Some(q as int));
                break;
            } else {
                return None;
            }
        }
    }
    let ghost close = q as int;
    q = q + 1;
    if at_colon(p, q) {
        if !at_ident(p, q + 1) {
            return None;
        }
        q = q + 2;
    }
    if at_arrow(p, q) {
        Some(q)
    } else {
        None
    }
}

/// The infix operator at token `pos` and how tightly it binds.
fn infix_at(p: &TrestleParser, pos: usize) -> (op: Option<(BinaryOp, u8)>)
    ensures
        op matches Some((_, level)) ==> 1 <= level <= 6 && pos < p.tokens@.len(),
        match op {
            Some((o, level)) => g_infix(p.forms(), pos as int) == Some((o, level as int)),
            None => g_infix(p.forms(), pos as int) is None,
        },
{
    if pos >= p.tokens.len() {
        return None;
    }
    match &p.tokens[pos].kind {
        TokenKind::Pipe => Some((BinaryOp::Pipe, 1)),
        TokenKind::OrOr => Some((BinaryOp::Or, 2)),
        TokenKind::AndAnd => Some((BinaryOp::And, 3)),
        TokenKind::EqEq => Some((BinaryOp::Eq, 4)),
        TokenKind::NotEq => Some((BinaryOp::Neq, 4)),
        TokenKind::Lt => Some((BinaryOp::Lt, 4)),
        TokenKind::Gt => Some((BinaryOp::Gt, 4)),
        TokenKind::Le => Some((BinaryOp::Le, 4)),
        TokenKind::Ge => Some((BinaryOp::Ge, 4)),
        TokenKind::Plus => Some((BinaryOp::Add, 5)),
        TokenKind::Minus => Some((BinaryOp::Sub, 5)),
        TokenKind::Star => Some((BinaryOp::Mul, 6)),
        TokenKind::Slash => Some((BinaryOp::Div, 6)),
        _ => None,
    }
}

/// Adds a field to a record's fields, kept sorted by name. `None`, and the fields as they
/// were, when the name is already there.
pub fn insert_field<T>(fields: &mut Vec<(String, T)>, name: String, value: T) -> (at: Option<
    usize,
>)
    requires
        names_increasing(old(fields)@),
    ensures
        match at {
            Some(i) => i == insertion_point(string_keys(old(fields)@), name@) && i <= old(
                fields,
            )@.len() && !(i < old(fields)@.len() && old(fields)@[i as int].0@ == name@)
                && final(fields)@ == old(fields)@.insert(i as int, (name, value))
                && names_increasing(final(fields)@),
            None => final(fields)@ == old(fields)@ && insertion_point(
                string_keys(old(fields)@),
                name@,
            ) < old(fields)@.len() && old(fields)@[insertion_point(
                string_keys(old(fields)@),
                name@,
            ) as int].0@ == name@,
        },
{
    let mut i: usize = 0;
    while i < fields.len() && string_lt(&fields[i].0, &name)
        invariant
            i <= fields.len(),
            forall|j: int| 0 <= j < i ==> seq_lt(#[trigger] fields@[j].0@, name@),
        decreases fields.len() - i,
    {
        i = i + 1;
    }
    proof {
        let keys = string_keys(fields@);
        assert forall|j: int| 0 <= j < i implies crate::text::seq_lt(#[trigger] keys[j], name@) by {
            assert(keys[j] == fields@[j].0@);
        }
        lemma_insertion_point(keys, name@, i as int);
    }
    if i < fields.len() && fields[i].0 == name {
        assert(fields@[i as int].0@ == name@);
        return None;
    }
    let ghost before = fields@;
    proof {
        if i < before.len() {
            lemma_seq_lt_total(before[i as int].0@, name@);
        }
    }
    fields.insert(i, (name, value));
    assert forall|a: int, b: int|
        0 <= a < b < fields@.len() implies seq_lt(
        #[trigger] fields@[a].0@,
        #[trigger] fields@[b].0@,
    ) by {
        if b < i {
            assert(seq_lt(before[a].0@, before[b].0@));
        } else if b == i {
            assert(seq_lt(before[a].0@, name@));
        } else if a < i {
            assert(seq_lt(before[a].0@, name@));
            assert(seq_lt(name@, before[i as int].0@));
            if b - 1 > i {
                assert(seq_lt(before[i as int].0@, before[b - 1].0@));
                lemma_seq_lt_transitive(name@, before[i as int].0@, before[b - 1].0@);
            }
            lemma_seq_lt_transitive(before[a].0@, name@, before[b - 1].0@);
        } else if a == i {
            if b - 1 > i {
                assert(seq_lt(before[i as int].0@, before[b - 1].0@));
                lemma_seq_lt_transitive(name@, before[i as int].0@, before[b - 1].0@);
            }
        } else {
            assert(seq_lt(before[a - 1].0@, before[b - 1].0@));
        }
    }
    Some(i)
}

/// A type annotation `: Name`, starting at the colon; its span runs from the colon.
fn parse_annotation(p: &TrestleParser, pos: usize) -> (r: Result<(TypeExpression, usize), ParseError>)
    requires
        p.wf(),
    ensures
        match r {
            Ok((t, next)) => next == pos + 2 && p.covers(pos as int, next as int, t.span)
                && type_wf(t),
            Err(err) => error_span(err).end() <= p.end,
        },
        type_built(r, g_annotation(p.forms(), pos as int)),
{
    if !at_colon(p, pos) {
        return Err(error_at(p, pos, "expected `:`"));
    }
    if !at_ident(p, pos + 1) {
        return Err(error_at(p, pos + 1, "expected a type name"));
    }
    let name = ident_text(p, pos + 1);
    let span = span_of(p, pos, pos + 2);
    Ok((TypeExpression { kind: TypeExpressionKind::Named(name), span }, pos + 2))
}

/// A type: a name, or a record type `{ name: Type, … }`.
#[verifier::rlimit(60)]
fn parse_type_expression(p: &TrestleParser, pos: usize) -> (r: Result<
    (TypeExpression, usize),
    ParseError,
>)
    requires
        p.wf(),
    ensures
        match r {
            Ok((t, next)) => p.covers(pos as int, next as int, t.span) && type_wf(t),
            Err(err) => error_span(err).end() <= p.end,
        },
        type_built(r, g_type(p.forms(), pos as int)),
{
    if at_ident(p, pos) {
        let name = ident_text(p, pos);
        let span = span_of(p, pos, pos + 1);
        return Ok((TypeExpression { kind: TypeExpressionKind::Named(name), span }, pos + 1));
    }
    if !at_lbrace(p, pos) {
        return Err(error_at(p, pos, "expected a type"));
    }
    let mut fields: Vec<(String, TypeExpression)> = Vec::new();
    let mut q = pos + 1;
    assert(type_fields_form(fields@) =~= Seq::<(Seq<char>, TypeForm)>::empty());
    if at_rbrace(p, q) {
        let span = span_of(p, pos, q + 1);
        proof {
            lemma_type_form_record(fields, span);
        }
        return Ok((TypeExpression { kind: TypeExpressionKind::Record(fields), span }, q + 1));
    }
    loop
        invariant_except_break
            g_type_fields(p.forms(), q as int, type_fields_form(fields@)) == g_type_fields(
                p.forms(),
                pos + 1,
                Seq::empty(),
            ),
        invariant
            p.wf(),
            pos < q <= p.tokens@.len(),
            tok_is(p.forms(), pos as int, TokenKind::LBrace),
            !tok_is(p.forms(), pos + 1, TokenKind::RBrace),
            names_increasing(fields@),
            forall|i: int|
                0 <= i < fields@.len() ==> type_wf((#[trigger] fields@[i]).1)
                    && p.tokens@[pos as int].span.offset <= fields@[i].1.span.offset
                    && fields@[i].1.span.end() <= p.start_of(q as int),
        ensures
            pos < q < p.tokens@.len(),
            g_type_fields(p.forms(), pos + 1, Seq::empty()) == Ok::<(Seq<(Seq<char>, TypeForm)>, int), ParseFailure>((type_fields_form(fields@), q as int)),
            names_increasing(fields@),
            forall|i: int|
                0 <= i < fields@.len() ==> type_wf((#[trigger] fields@[i]).1)
                    && p.tokens@[pos as int].span.offset <= fields@[i].1.span.offset
                    && fields@[i].1.span.end() <= p.start_of(q as int),
        decreases p.tokens@.len() - q,
    {
        let ghost start = q as int;
        let ghost acc = type_fields_form(fields@);
        if !at_ident(p, q) {
            return Err(error_at(p, q, "expected a field name"));
        }
        let name = ident_text(p, q);
        let (ty, next) = match parse_annotation(p, q + 1) {
            Ok(t) => t,
            Err(e) => {
                return Err(e);
            },
        };
        let field_span = span_of(p, q, next);
        let duplicate = name.clone();
        proof {
            lemma_start_of_monotonic(p, pos as int, q as int);
            lemma_start_of_monotonic(p, q as int, next as int);
            lemma_start_of_monotonic(p, (next - 1) as int, next as int);
        }
        let ghost before = fields@;
        let ghost name_view = name@;
        let ghost ty_form = type_form(ty);
        proof {
            lemma_type_fields_insert(before, 0, name, ty);
        }
        match insert_field(&mut fields, name, ty) {
            Some(at) => {
                proof {
                    lemma_type_fields_insert(before, at as int, fields@[at as int].0, fields@[at as int].1);
                    assert(with_field(acc, name_view, ty_form) == Some(type_fields_form(fields@)));
                }
                assert forall|i: int| 0 <= i < fields@.len() implies type_wf(
                    (#[trigger] fields@[i]).1,
                ) && p.tokens@[pos as int].span.offset <= fields@[i].1.span.offset
                    && fields@[i].1.span.end() <= p.start_of(next as int) by {
                    if i < at {
                        assert(fields@[i] == before[i]);
                    } else if i > at {
                        assert(fields@[i] == before[i - 1]);
                    }
                }
            },
            None => {
                return Err(
                    ParseError::Build(
                        BuildError::DuplicateRecordField { name: duplicate, span: field_span },
                    ),
                );
            },
        }
        q = next;
        if at_comma(p, q) {
            q = q + 1;
            proof {
                lemma_start_of_monotonic(p, (q - 1) as int, q as int);
            }
            if at_rbrace(p, q) {
                assert(g_type_fields(p.forms(), start, acc) == Ok::<(Seq<(Seq<char>, TypeForm)>, int), ParseFailure>((type_fields_form(fields@), q as int)));
                break;
            }
        } else if at_rbrace(p, q) {
            assert(g_type_fields(p.forms(), start, acc) == Ok::<(Seq<(Seq<char>, TypeForm)>, int), ParseFailure>((type_fields_form(fields@), q as int)));
            break;
        } else {
            return Err(error_at(p, q, "expected `,` or `}`"));
        }
    }
    let span = span_of(p, pos, q + 1);
    let t = TypeExpression { kind: TypeExpressionKind::Record(fields), span };
    assert(type_wf(t));
    proof {
        lemma_type_form_record(fields, span);
    }
    Ok((t, q + 1))
}

/// `type Name = Type`.
fn parse_type_declaration(p: &TrestleParser, pos: usize) -> (r: Result<
    (Expression, usize),
    ParseError,
>)
    requires
        p.wf(),
        pos < p.tokens@.len(),
    ensures
        parsed(p, pos as int, r),
        built(r, g_type_declaration(p.forms(), pos as int)),
{
    if !at_ident(p, pos + 1) {
        return Err(error_at(p, pos + 1, "expected a name after `type`"));
    }
    let identifier = ident_text(p, pos + 1);
    if !at_assign(p, pos + 2) {
        return Err(error_at(p, pos + 2, "expected `=`"));
    }
    let (type_expression, next) = match parse_type_expression(p, pos + 3) {
        Ok(t) => t,
        Err(e) => {
            return Err(e);
        },
    };
    let span = span_of(p, pos, next);
    Ok((Expression { kind: ExpressionKind::TypeDeclaration { identifier, type_expression }, span }, next))
}

/// `let name [: Type] = value`.
fn parse_let(p: &TrestleParser, pos: usize, nl: bool) -> (r: Result<(Expression, usize), ParseError>)
    requires
        p.wf(),
        pos < p.tokens@.len(),
    ensures
        parsed(p, pos as int, r),
        built(r, g_let(p.forms(), pos as int, nl)),
    decreases p.tokens@.len() - pos, 20nat,
{
    if !at_ident(p, pos + 1) {
        return Err(error_at(p, pos + 1, "expected a name after `let`"));
    }
    let name = ident_text(p, pos + 1);
    let mut q = pos + 2;
    let type_dec = if at_colon(p, q) {
        match parse_annotation(p, q) {
            Ok((t, next)) => {
                q = next;
                Some(t)
            },
            Err(e) => {
                return Err(e);
            },
        }
    } else {
        None
    };
    if !at_assign(p, q) {
        return Err(error_at(p, q, "expected `=`"));
    }
    let (value, next) = match build_expr(p, q + 1, nl) {
        Ok(v) => v,
        Err(e) => {
            return Err(e);
        },
    };
    let span = span_of(p, pos, next);
    proof {
        lemma_start_of_monotonic(p, pos as int, q as int);
    }
    let e = Expression { kind: ExpressionKind::Let { name, type_dec, value: Box::new(value) }, span };
    Ok((e, next))
}

/// `if (condition) branch [else branch]`.
fn parse_if(p: &TrestleParser, pos: usize, nl: bool) -> (r: Result<(Expression, usize), ParseError>)
    requires
        p.wf(),
        pos < p.tokens@.len(),
    ensures
        parsed(p, pos as int, r),
        built(r, g_if(p.forms(), pos as int, nl)),
    decreases p.tokens@.len() - pos, 20nat,
{
    if !at_lparen(p, pos + 1) {
        return Err(error_at(p, pos + 1, "expected `(` after `if`"));
    }
    let (condition, q) = match build_expr(p, pos + 2, false) {
        Ok(c) => c,
        Err(e) => {
            return Err(e);
        },
    };
    if !at_rparen(p, q) {
        return Err(error_at(p, q, "expected `)`"));
    }
    let (then_branch, q2) = match build_expr(p, q + 1, nl) {
        Ok(t) => t,
        Err(e) => {
            return Err(e);
        },
    };
    let (else_branch, next) = if q2 < p.tokens.len() && matches!(p.tokens[q2].kind, TokenKind::Else) {
        match build_expr(p, q2 + 1, nl) {
            Ok((other, next)) => (Some(Box::new(other)), next),
            Err(e) => {
                return Err(e);
            },
        }
    } else {
        (None, q2)
    };
    let span = span_of(p, pos, next);
    proof {
        lemma_start_of_monotonic(p, (q2 - 1) as int, next as int);
    }
    let e = Expression {
        kind: ExpressionKind::If {
            condition: Box::new(condition),
            true_pathway: Box::new(then_branch),
            false_pathway: else_branch,
        },
        span,
    };
    Ok((e, next))
}

/// A lambda whose head, checked by [`lambda_arrow`], ends with the `=>` at `arrow`. Several
/// parameters make nested lambdas of one parameter each; the innermost keeps the return
/// type, and every one spans the whole lambda.
#[verifier::rlimit(60)]
fn parse_lambda(p: &TrestleParser, pos: usize, arrow: usize, nl: bool) -> (r: Result<
    (Expression, usize),
    ParseError,
>)
    requires
        p.wf(),
        pos < arrow < p.tokens@.len(),
        tok_is(p.forms(), pos as int, TokenKind::LParen),
    ensures
        parsed(p, pos as int, r),
        built(r, g_lambda(p.forms(), pos as int, nl)),
    decreases p.tokens@.len() - pos, 20nat,
{
    let mut params: Vec<Param> = Vec::new();
    let mut q = pos + 1;
    assert(params_form(params@) =~= Seq::<ParamForm>::empty());
    if !at_rparen(p, q) {
        loop
            invariant_except_break
                g_params(p.forms(), q as int, params_form(params@)) == g_params(p.forms(), pos + 1, Seq::empty()),
            invariant
                !tok_is(p.forms(), pos + 1, TokenKind::RParen),
                p.wf(),
                pos < q <= p.tokens@.len(),
                forall|i: int|
                    0 <= i < params@.len() ==> match (#[trigger] params@[i]).type_dec {
                        Some(t) => type_wf(t) && p.tokens@[pos as int].span.offset <= t.span.offset
                            && t.span.end() <= p.start_of(q as int),
                        None => true,
                    },
            ensures
                pos < q < p.tokens@.len(),
                g_params(p.forms(), pos + 1, Seq::empty()) == Ok::<(Seq<ParamForm>, int), ParseFailure>((params_form(params@), q as int)),
                forall|i: int|
                    0 <= i < params@.len() ==> match (#[trigger] params@[i]).type_dec {
                        Some(t) => type_wf(t) && p.tokens@[pos as int].span.offset <= t.span.offset
                            && t.span.end() <= p.start_of(q as int),
                        None => true,
                    },
            decreases p.tokens@.len() - q,
        {
            let ghost start = q as int;
            let ghost acc = params_form(params@);
            if !at_ident(p, q) {
                return Err(error_at(p, q, "expected a parameter name"));
            }
            let name = ident_text(p, q);
            q = q + 1;
            let type_dec = if at_colon(p, q) {
                match parse_annotation(p, q) {
                    Ok((t, next)) => {
                        proof {
                            lemma_start_of_monotonic(p, pos as int, q as int);
                            lemma_start_of_monotonic(p, (next - 1) as int, next as int);
                        }
                        q = next;
                        Some(t)
                    },
                    Err(e) => {
                        return Err(e);
                    },
                }
            } else {
                None
            };
            proof {
                lemma_start_of_monotonic(p, q as int, (q + 1) as int);
            }
            let ghost param = Param { name, type_dec };
            params.push(Param { name, type_dec });
            assert(params_form(params@) =~= acc.push(
                ParamForm { name: param.name@, type_dec: annotation_form(param.type_dec) },
            ));
            if at_comma(p, q) {
                q = q + 1;
            } else if at_rparen(p, q) {
                assert(g_params(p.forms(), start, acc) == Ok::<(Seq<ParamForm>, int), ParseFailure>((params_form(params@), q as int)));
                break;
            } else {
                return Err(error_at(p, q, "expected `,` or `)`"));
            }
        }
    }
    q = q + 1;
    let return_type = if at_colon(p, q) {
        match parse_annotation(p, q) {
            Ok((t, next)) => {
                proof {
                    lemma_start_of_monotonic(p, pos as int, q as int);
                }
                q = next;
                Some(t)
            },
            Err(e) => {
                return Err(e);
            },
        }
    } else {
        None
    };
    if !at_arrow(p, q) {
        return Err(error_at(p, q, "expected `=>`"));
    }
    let (body, next) = match build_expr(p, q + 1, nl) {
        Ok(b) => b,
        Err(e) => {
            return Err(e);
        },
    };
    let span = span_of(p, pos, next);
    proof {
        lemma_start_of_monotonic(p, q as int, next as int);
    }
    let ghost all = params_form(params@);
    let ghost target = nest_lambdas(
        if all.len() > 0 {
            all.drop_last()
        } else {
            all
        },
        ExprForm {
            shape: ExprShape::Lambda(
                if all.len() > 0 {
                    Some(all.last())
                } else {
                    None
                },
                annotation_form(return_type),
                Box::new(expr_form(body)),
            ),
            span,
        },
        span,
    );
    let mut lambda = Lambda {
        parameter: params.pop(),
        return_type,
        body: Box::new(body),
    };
    assert(params_form(params@) =~= if all.len() > 0 {
        all.drop_last()
    } else {
        all
    });
    assert(expr_wf(Expression { kind: ExpressionKind::Lambda(lambda), span }));
    while params.len() > 0
        invariant
            nest_lambdas(
                params_form(params@),
                expr_form(Expression { kind: ExpressionKind::Lambda(lambda), span }),
                span,
            ) == target,
            expr_wf(Expression { kind: ExpressionKind::Lambda(lambda), span }),
            forall|i: int|
                0 <= i < params@.len() ==> annotation_wf((#[trigger] params@[i]).type_dec, span),
        decreases params.len(),
    {
        let ghost before = params_form(params@);
        let param = params.pop().unwrap();
        assert(params_form(params@) =~= before.drop_last());
        lambda = Lambda {
            parameter: Some(param),
            return_type: None,
            body: Box::new(Expression { kind: ExpressionKind::Lambda(lambda), span }),
        };
    }
    Ok((Expression { kind: ExpressionKind::Lambda(lambda), span }, next))
}

/// Expressions separated by line breaks or `;`, up to the end of the text, or up to a `}`
/// when `in_block`. The position returned is that of the `}`, or the end.
pub fn parse_statements(p: &TrestleParser, pos: usize, in_block: bool) -> (r: Result<
    (Vec<Expression>, usize),
    ParseError,
>)
    requires
        p.wf(),
        pos <= p.tokens@.len(),
    ensures
        match r {
            Ok((exprs, next)) => {
                &&& pos <= next <= p.tokens@.len()
                &&& !in_block ==> next == p.tokens@.len()
                &&& forall|i: int|
                    0 <= i < exprs@.len() ==> expr_wf(#[trigger] exprs@[i]) && p.start_of(pos as int)
                        <= exprs@[i].span.offset && exprs@[i].span.end() <= p.start_of(next as int)
                &&& forall|i: int, j: int|
                    0 <= i < j < exprs@.len() ==> (#[trigger] exprs@[i]).span.end() <= (
                    #[trigger] exprs@[j]).span.offset
            },
            Err(err) => error_span(err).end() <= p.end,
        },
        match r {
            Ok((exprs, next)) => g_statements(p.forms(), pos as int, in_block, Seq::empty()) == Ok::<(Seq<ExprForm>, int), ParseFailure>(
                (forms_of(exprs@), next as int),
            ),
            Err(e) => g_statements(p.forms(), pos as int, in_block, Seq::empty()) == Err::<(Seq<ExprForm>, int), ParseFailure>(
                failure_form(e),
            ),
        },
    decreases p.tokens@.len() - pos, 30nat,
{
    let mut exprs: Vec<Expression> = Vec::new();
    let mut q = pos;
    assert(forms_of(exprs@) =~= Seq::<ExprForm>::empty());
    while q < p.tokens.len() && !(in_block && at_rbrace(p, q))
        invariant
            g_statements(p.forms(), q as int, in_block, forms_of(exprs@)) == g_statements(
                p.forms(),
                pos as int,
                in_block,
                Seq::empty(),
            ),
            p.wf(),
            pos <= q <= p.tokens@.len(),
            forall|i: int|
                0 <= i < exprs@.len() ==> expr_wf(#[trigger] exprs@[i]) && p.start_of(pos as int)
                    <= exprs@[i].span.offset && exprs@[i].span.end() <= p.start_of(q as int),
            forall|i: int, j: int|
                0 <= i < j < exprs@.len() ==> (#[trigger] exprs@[i]).span.end() <= (
                #[trigger] exprs@[j]).span.offset,
        decreases p.tokens@.len() - q,
    {
        if at_semicolon(p, q) {
            proof {
                lemma_start_of_monotonic(p, q as int, (q + 1) as int);
            }
            q = q + 1;
            continue;
        }
        let (e, next) = match build_expr(p, q, true) {
            Ok(e) => e,
            Err(err) => {
                return Err(err);
            },
        };
        if next < p.tokens.len() && !at_semicolon(p, next) && !(in_block && at_rbrace(p, next))
            && !p.tokens[next].newline_before {
            return Err(error_at(p, next, "expected a line break or `;` between expressions"));
        }
        proof {
            lemma_start_of_monotonic(p, pos as int, q as int);
            lemma_start_of_monotonic(p, (next - 1) as int, next as int);
        }
        let ghost before = exprs@;
        let ghost form = expr_form(e);
        exprs.push(e);
        assert(forms_of(exprs@) =~= forms_of(before).push(form));
        assert forall|i: int, j: int|
            0 <= i < j < exprs@.len() implies (#[trigger] exprs@[i]).span.end() <= (
            #[trigger] exprs@[j]).span.offset by {
            if j == exprs@.len() - 1 {
                assert(before[i].span.end() <= p.start_of(q as int));
            } else {
                assert(exprs@[i] == before[i]);
                assert(exprs@[j] == before[j]);
            }
        }
        q = next;
    }
    Ok((exprs, q))
}

/// A block: `{`, expressions, `}`.
fn parse_block(p: &TrestleParser, pos: usize) -> (r: Result<(Expression, usize), ParseError>)
    requires
        p.wf(),
        pos < p.tokens@.len(),
    ensures
        parsed(p, pos as int, r),
        built(r, g_block(p.forms(), pos as int)),
    decreases p.tokens@.len() - pos, 20nat,
{
    let (exprs, q) = match parse_statements(p, pos + 1, true) {
        Ok(s) => s,
        Err(e) => {
            return Err(e);
        },
    };
    if !at_rbrace(p, q) {
        return Err(error_at(p, q, "expected `}`"));
    }
    let span = span_of(p, pos, q + 1);
    proof {
        lemma_start_of_monotonic(p, pos as int, (pos + 1) as int);
    }
    proof {
        lemma_expr_form_block(exprs, span);
    }
    let e = Expression { kind: ExpressionKind::Block(exprs), span };
    Ok((e, q + 1))
}

/// A record literal: `{ name: value, … }`, fields kept sorted by name.
#[verifier::rlimit(60)]
fn parse_record_literal(p: &TrestleParser, pos: usize) -> (r: Result<(Expression, usize), ParseError>)
    requires
        p.wf(),
        pos < p.tokens@.len(),
    ensures
        parsed(p, pos as int, r),
        built(r, g_record(p.forms(), pos as int)),
    decreases p.tokens@.len() - pos, 4nat,
{
    let mut fields: Vec<(String, Expression)> = Vec::new();
    let mut q = pos + 1;
    assert(expr_fields_form(fields@) =~= Seq::<(Seq<char>, ExprForm)>::empty());
    loop
        invariant_except_break
            g_record_fields(p.forms(), q as int, expr_fields_form(fields@)) == g_record_fields(
                p.forms(),
                pos + 1,
                Seq::empty(),
            ),
        invariant
            p.wf(),
            pos < q <= p.tokens@.len(),
            names_increasing(fields@),
            forall|i: int|
                0 <= i < fields@.len() ==> expr_wf((#[trigger] fields@[i]).1)
                    && p.tokens@[pos as int].span.offset <= fields@[i].1.span.offset
                    && fields@[i].1.span.end() <= p.start_of(q as int),
        ensures
            pos < q < p.tokens@.len(),
            g_record_fields(p.forms(), pos + 1, Seq::empty()) == Ok::<(Seq<(Seq<char>, ExprForm)>, int), ParseFailure>((expr_fields_form(fields@), q as int)),
            names_increasing(fields@),
            forall|i: int|
                0 <= i < fields@.len() ==> expr_wf((#[trigger] fields@[i]).1)
                    && p.tokens@[pos as int].span.offset <= fields@[i].1.span.offset
                    && fields@[i].1.span.end() <= p.start_of(q as int),
        decreases p.tokens@.len() - q,
    {
        let ghost start = q as int;
        let ghost acc = expr_fields_form(fields@);
        if !at_ident(p, q) {
            return Err(error_at(p, q, "expected a field name"));
        }
        let name = ident_text(p, q);
        if !at_colon(p, q + 1) {
            return Err(error_at(p, q + 1, "expected `:`"));
        }
        let (value, next) = match build_expr(p, q + 2, false) {
            Ok(v) => v,
            Err(e) => {
                return Err(e);
            },
        };
        let name_span = p.tokens[q].span;
        let duplicate = name.clone();
        proof {
            lemma_start_of_monotonic(p, pos as int, q as int);
            lemma_start_of_monotonic(p, q as int, next as int);
            lemma_start_of_monotonic(p, (next - 1) as int, next as int);
        }
        let ghost before = fields@;
        let ghost name_view = name@;
        let ghost value_form = expr_form(value);
        proof {
            lemma_expr_fields_insert(before, 0, name, value);
        }
        match insert_field(&mut fields, name, value) {
            Some(at) => {
                proof {
                    lemma_expr_fields_insert(before, at as int, fields@[at as int].0, fields@[at as int].1);
                    assert(with_field(acc, name_view, value_form) == Some(expr_fields_form(fields@)));
                }
                assert forall|i: int| 0 <= i < fields@.len() implies expr_wf(
                    (#[trigger] fields@[i]).1,
                ) && p.tokens@[pos as int].span.offset <= fields@[i].1.span.offset
                    && fields@[i].1.span.end() <= p.start_of(next as int) by {
                    if i < at {
                        assert(fields@[i] == before[i]);
                    } else if i > at {
                        assert(fields@[i] == before[i - 1]);
                    }
                }
            },
            None => {
                return Err(
                    ParseError::Build(
                        BuildError::DuplicateRecordField { name: duplicate, span: name_span },
                    ),
                );
            },
        }
        q = next;
        if at_comma(p, q) {
            q = q + 1;
            proof {
                lemma_start_of_monotonic(p, (q - 1) as int, q as int);
            }
            if at_rbrace(p, q) {
                assert(g_record_fields(p.forms(), start, acc) == Ok::<(Seq<(Seq<char>, ExprForm)>, int), ParseFailure>((expr_fields_form(fields@), q as int)));
                break;
            }
        } else if at_rbrace(p, q) {
            assert(g_record_fields(p.forms(), start, acc) == Ok::<(Seq<(Seq<char>, ExprForm)>, int), ParseFailure>((expr_fields_form(fields@), q as int)));
            break;
        } else {
            return Err(error_at(p, q, "expected `,` or `}`"));
        }
    }
    let span = span_of(p, pos, q + 1);
    proof {
        lemma_expr_form_record(fields, span);
    }
    let e = Expression { kind: ExpressionKind::Literal(Literal::Record(fields)), span };
    Ok((e, q + 1))
}

#[verifier::external_type_specification]
#[verifier::external_body]
pub struct ExUnescapeError(unescaper::Error);

/// What `unescaper::unescape` makes of a string's escape sequences: the text with every
/// escape resolved, or `None` where it rejects an escape.
pub uninterp spec fn unescaped(raw: Seq<char>) -> Option<Seq<char>>;

/// Whether the text holds a backslash, the one character that starts an escape.
pub open spec fn has_backslash(s: Seq<char>) -> bool {
    s.contains('\\')
}

/// `unescaper::unescape`. Its result is named by [`unescaped`]; a text without a backslash
/// comes back unchanged, since the unescaper copies every other character as it is.
#[verifier::external_body]
fn unescape(raw: &str) -> (r: Result<String, unescaper::Error>)
    ensures
        r matches Ok(s) ==> unescaped(raw@) == Some(s@),
        r is Err ==> unescaped(raw@) is None,
        r is Err ==> has_backslash(raw@),
        r matches Ok(s) ==> (!has_backslash(raw@) ==> s@ == raw@),
{
    unescaper::unescape(raw)
}

/// The unescaper's own account of a rejected escape: its error's `Display` text.
#[verifier::external_body]
fn escape_error_message(error: &unescaper::Error) -> String {
    error.to_string()
}

/// The value of a string literal from the characters between its quotes.
pub fn string_literal_value(raw: &String, span: SourceSpan) -> (r: Result<String, BuildError>)
    ensures
        match r {
            Ok(s) => unescaped(raw@) == Some(s@),
            Err(e) => unescaped(raw@) is None && (e matches BuildError::InvalidStringEscape {
                span: s,
                ..
            } && s == span),
        },
{
    match unescape(raw.as_str()) {
        Ok(s) => Ok(s),
        Err(e) => Err(BuildError::InvalidStringEscape { message: escape_error_message(&e), span }),
    }
}

/// A literal, a name, `()`, a parenthesised expression or a record literal.
#[verifier::rlimit(60)]
fn parse_primary(p: &TrestleParser, pos: usize) -> (r: Result<(Expression, usize), ParseError>)
    requires
        p.wf(),
        pos <= p.tokens@.len(),
    ensures
        parsed(p, pos as int, r),
        built(r, g_primary(p.forms(), pos as int)),
    decreases p.tokens@.len() - pos, 5nat,
{
    if pos >= p.tokens.len() {
        return Err(error_at(p, pos, "expected an expression"));
    }
    assert(p.forms().forms[pos as int].lexeme == kind_lexeme(p.tokens@[pos as int].kind));
    let span = span_of(p, pos, pos + 1);
    let literal = match &p.tokens[pos].kind {
        TokenKind::Int(digits) => match int_literal_value(digits) {
            Some(n) => Literal::Int(n),
            None => {
                return Err(
                    ParseError::Build(
                        BuildError::IntLiteralOutOfRange { literal: digits.clone(), span },
                    ),
                );
            },
        },
        TokenKind::Float(text) => Literal::Float(text.clone()),
        TokenKind::Str(raw) => match string_literal_value(raw, span) {
            Ok(s) => Literal::String(s),
            Err(e) => {
                return Err(ParseError::Build(e));
            },
        },
        TokenKind::True => Literal::Bool(true),
        TokenKind::False => Literal::Bool(false),
        TokenKind::Ident(name) => {
            return Ok((Expression { kind: ExpressionKind::Var(name.clone()), span }, pos + 1));
        },
        TokenKind::LParen => {
            if at_rparen(p, pos + 1) {
                let unit = span_of(p, pos, pos + 2);
                return Ok(
                    (Expression { kind: ExpressionKind::Literal(Literal::Unit), span: unit }, pos
                        + 2),
                );
            }
            let (inner, q) = match build_expr(p, pos + 1, false) {
                Ok(e) => e,
                Err(e) => {
                    return Err(e);
                },
            };
            if !at_rparen(p, q) {
                return Err(error_at(p, q, "expected `)`"));
            }
            proof {
                lemma_start_of_monotonic(p, pos as int, (pos + 1) as int);
            }
            return Ok((inner, q + 1));
        },
        TokenKind::LBrace => {
            if record_ahead(p, pos) {
                return parse_record_literal(p, pos);
            }
            return Err(error_at(p, pos, "expected an expression"));
        },
        _ => {
            return Err(error_at(p, pos, "expected an expression"));
        },
    };
    Ok((Expression { kind: ExpressionKind::Literal(literal), span }, pos + 1))
}

/// The arguments of a call whose `(` stands at `q`: the arguments and the position of `)`.
#[verifier::rlimit(60)]
fn parse_arguments(p: &TrestleParser, q: usize) -> (r: Result<(Vec<Expression>, usize), ParseError>)
    requires
        p.wf(),
        tok_is(p.forms(), q as int, TokenKind::LParen),
    ensures
        match r {
            Ok((arguments, close)) => {
                &&& q < close < p.tokens@.len()
                &&& call_args_from(p.forms(), q as int) == Ok::<(Seq<ExprForm>, int), ParseFailure>(
                    (forms_of(arguments@), close as int),
                )
                &&& forall|i: int|
                    0 <= i < arguments@.len() ==> expr_wf(#[trigger] arguments@[i])
                        && p.tokens@[q as int].span.offset <= arguments@[i].span.offset
                        && arguments@[i].span.end() <= p.start_of(close as int)
            },
            Err(err) => {
                &&& error_span(err).end() <= p.end
                &&& call_args_from(p.forms(), q as int) == Err::<(Seq<ExprForm>, int), ParseFailure>(
                    failure_form(err),
                )
            },
        },
    decreases p.tokens@.len() - q, 5nat,
{
    reveal(call_args_from);
    let mut arguments: Vec<Expression> = Vec::new();
    let mut r = q + 1;
    assert(forms_of(arguments@) =~= Seq::<ExprForm>::empty());
    if at_rparen(p, r) {
        return Ok((arguments, r));
    }
    loop
        invariant_except_break
            g_args(p.forms(), r as int, forms_of(arguments@)) == g_args(p.forms(), q + 1, Seq::empty()),
        invariant
            !tok_is(p.forms(), q + 1, TokenKind::RParen),
            p.wf(),
            q < r <= p.tokens@.len(),
            tok_is(p.forms(), q as int, TokenKind::LParen),
            forall|i: int|
                0 <= i < arguments@.len() ==> expr_wf(#[trigger] arguments@[i])
                    && p.tokens@[q as int].span.offset <= arguments@[i].span.offset
                    && arguments@[i].span.end() <= p.start_of(r as int),
        ensures
            q < r < p.tokens@.len(),
            g_args(p.forms(), q + 1, Seq::empty()) == Ok::<(Seq<ExprForm>, int), ParseFailure>((forms_of(arguments@), r as int)),
            forall|i: int|
                0 <= i < arguments@.len() ==> expr_wf(#[trigger] arguments@[i])
                    && p.tokens@[q as int].span.offset <= arguments@[i].span.offset
                    && arguments@[i].span.end() <= p.start_of(r as int),
        decreases p.tokens@.len() - r,
    {
        let ghost start = r as int;
        let ghost acc = forms_of(arguments@);
        let (a, next) = match build_expr(p, r, false) {
            Ok(a) => a,
            Err(err) => {
                proof {
                    reveal(call_args_from);
                }
                return Err(err);
            },
        };
        proof {
            lemma_start_of_monotonic(p, q as int, r as int);
            lemma_start_of_monotonic(p, (next - 1) as int, next as int);
        }
        let ghost form = expr_form(a);
        arguments.push(a);
        assert(forms_of(arguments@) =~= acc.push(form));
        r = next;
        if at_comma(p, r) {
            r = r + 1;
            proof {
                lemma_start_of_monotonic(p, (r - 1) as int, r as int);
            }
            if at_rparen(p, r) {
                assert(g_args(p.forms(), start, acc) == Ok::<(Seq<ExprForm>, int), ParseFailure>((forms_of(arguments@), r as int)));
                break;
            }
        } else if at_rparen(p, r) {
            assert(g_args(p.forms(), start, acc) == Ok::<(Seq<ExprForm>, int), ParseFailure>((forms_of(arguments@), r as int)));
            break;
        } else {
            proof {
                reveal(call_args_from);
            }
            return Err(error_at(p, r, "expected `,` or `)`"));
        }
    }
    Ok((arguments, r))
}

/// One call `(…)` or field read `.name` at `q`, applied to `e`.
/// One call `(…)` at `q`, applied to `e`.
#[verifier::rlimit(60)]
fn postfix_call(p: &TrestleParser, pos: usize, e: Expression, q: usize) -> (r: Result<
    (Expression, usize),
    ParseError,
>)
    requires
        p.wf(),
        pos < q < p.tokens@.len(),
        !p.tokens@[q as int].space_before,
        tok_is(p.forms(), q as int, TokenKind::LParen),
        p.covers(pos as int, q as int, e.span),
        expr_wf(e),
    ensures
        match r {
            Ok((next_e, next)) => {
                &&& q < next <= p.tokens@.len()
                &&& p.covers(pos as int, next as int, next_e.span)
                &&& expr_wf(next_e)
                &&& postfix_from(p.forms(), expr_form(e), q as int) == postfix_from(
                    p.forms(),
                    expr_form(next_e),
                    next as int,
                )
            },
            Err(err) => error_span(err).end() <= p.end && postfix_from(
                p.forms(),
                expr_form(e),
                q as int,
            ) == Err::<(ExprForm, int), ParseFailure>(failure_form(err)),
        },
    decreases p.tokens@.len() - q, 6nat,
{
    proof {
        lemma_start_of_monotonic(p, (q - 1) as int, q as int);
    }
    let ghost form = expr_form(e);
    let (arguments, close) = match parse_arguments(p, q) {
        Ok(found) => found,
        Err(err) => {
            proof {
                lemma_postfix_call_fails(p.forms(), form, q as int);
            }
            return Err(err);
        },
    };
    let call = span_of(p, q, close + 1);
    let span = merge_spans(e.span, call);
    proof {
        lemma_postfix_call(p.forms(), form, q as int, forms_of(arguments@), close as int);
        lemma_expr_form_call(Box::new(e), arguments, span);
    }
    let next_e = Expression {
        kind: ExpressionKind::FunctionInvocation { function: Box::new(e), arguments },
        span,
    };
    Ok((next_e, close + 1))
}

/// One field read `.name` at `q`, applied to `e`.
fn postfix_field(p: &TrestleParser, pos: usize, e: Expression, q: usize) -> (r: Result<
    (Expression, usize),
    ParseError,
>)
    requires
        p.wf(),
        pos < q < p.tokens@.len(),
        !p.tokens@[q as int].space_before,
        tok_is(p.forms(), q as int, TokenKind::Dot),
        p.covers(pos as int, q as int, e.span),
        expr_wf(e),
    ensures
        match r {
            Ok((next_e, next)) => {
                &&& q < next <= p.tokens@.len()
                &&& p.covers(pos as int, next as int, next_e.span)
                &&& expr_wf(next_e)
                &&& postfix_from(p.forms(), expr_form(e), q as int) == postfix_from(
                    p.forms(),
                    expr_form(next_e),
                    next as int,
                )
            },
            Err(err) => error_span(err).end() <= p.end && postfix_from(
                p.forms(),
                expr_form(e),
                q as int,
            ) == Err::<(ExprForm, int), ParseFailure>(failure_form(err)),
        },
{
    proof {
        lemma_start_of_monotonic(p, (q - 1) as int, q as int);
        lemma_postfix_field(p.forms(), expr_form(e), q as int);
    }
    if !at_ident(p, q + 1) {
        return Err(error_at(p, q + 1, "expected a field name after `.`"));
    }
    let identifier = ident_text(p, q + 1);
    let access = span_of(p, q, q + 2);
    let span = merge_spans(e.span, access);
    let next_e = Expression {
        kind: ExpressionKind::FieldAccess { target: Box::new(e), identifier },
        span,
    };
    Ok((next_e, q + 2))
}

/// A primary followed by calls `(…)` and field reads `.name`, each touching what it follows.
fn parse_postfix(p: &TrestleParser, pos: usize) -> (r: Result<(Expression, usize), ParseError>)
    requires
        p.wf(),
        pos <= p.tokens@.len(),
    ensures
        parsed(p, pos as int, r),
        built(r, g_postfix(p.forms(), pos as int)),
    decreases p.tokens@.len() - pos, 7nat,
{
    let (mut e, mut q) = match parse_primary(p, pos) {
        Ok(r) => r,
        Err(err) => {
            return Err(err);
        },
    };
    let ghost target = g_postfix(p.forms(), pos as int);
    proof {
        lemma_postfix_start(p.forms(), pos as int);
    }
    assert(target == postfix_from(p.forms(), expr_form(e), q as int));
    while q < p.tokens.len() && !p.tokens[q].space_before && (at_lparen(p, q)
        || matches!(p.tokens[q].kind, TokenKind::Dot))
        invariant
            postfix_from(p.forms(), expr_form(e), q as int) == target,
            target == g_postfix(p.forms(), pos as int),
            p.wf(),
            pos < q <= p.tokens@.len(),
            p.covers(pos as int, q as int, e.span),
            expr_wf(e),
        decreases p.tokens@.len() - q,
    {
        let step = if at_lparen(p, q) {
            postfix_call(p, pos, e, q)
        } else {
            postfix_field(p, pos, e, q)
        };
        let (next_e, next) = match step {
            Ok(found) => found,
            Err(err) => {
                return Err(err);
            },
        };
        e = next_e;
        q = next;
    }
    proof {
        lemma_postfix_stop(p.forms(), expr_form(e), q as int);
    }
    Ok((e, q))
}

/// Prefix `-` and `!` over a postfix expression.
fn parse_unary(p: &TrestleParser, pos: usize) -> (r: Result<(Expression, usize), ParseError>)
    requires
        p.wf(),
        pos <= p.tokens@.len(),
    ensures
        parsed(p, pos as int, r),
        built(r, g_unary(p.forms(), pos as int)),
    decreases p.tokens@.len() - pos, 10nat,
{
    if pos < p.tokens.len() {
        let op = match &p.tokens[pos].kind {
            TokenKind::Minus => Some(UnaryOp::Neg),
            TokenKind::Bang => Some(UnaryOp::Not),
            _ => None,
        };
        if let Some(op) = op {
            let (operand, next) = match parse_unary(p, pos + 1) {
                Ok(o) => o,
                Err(e) => {
                    return Err(e);
                },
            };
            let op_span = span_of(p, pos, pos + 1);
            proof {
                lemma_start_of_monotonic(p, pos as int, (pos + 1) as int);
                assert(p.tokens@[next - 1].span.end() <= p.end);
            }
            let span = merge_spans(op_span, operand.span);
            let e = Expression { kind: ExpressionKind::Unary(op, Box::new(operand)), span };
            return Ok((e, next));
        }
    }
    parse_postfix(p, pos)
}

/// Operators binding at `min` or tighter, over unary operands, grouped to the left.
fn parse_binary(p: &TrestleParser, pos: usize, min: u8, nl: bool) -> (r: Result<
    (Expression, usize),
    ParseError,
>)
    requires
        p.wf(),
        pos <= p.tokens@.len(),
    ensures
        parsed(p, pos as int, r),
        built(r, g_binary(p.forms(), pos as int, min as int, nl)),
    decreases p.tokens@.len() - pos, 15nat,
{
    let (mut lhs, mut q) = match parse_unary(p, pos) {
        Ok(r) => r,
        Err(e) => {
            return Err(e);
        },
    };
    loop
        invariant
            g_binary_rest(p.forms(), expr_form(lhs), q as int, min as int, nl) == g_binary(
                p.forms(),
                pos as int,
                min as int,
                nl,
            ),
            p.wf(),
            pos < q <= p.tokens@.len(),
            p.covers(pos as int, q as int, lhs.span),
            expr_wf(lhs),
        ensures
            g_binary(p.forms(), pos as int, min as int, nl) == Ok::<(ExprForm, int), ParseFailure>((expr_form(lhs), q as int)),
        decreases p.tokens@.len() - q,
    {
        let (op, level) = match infix_at(p, q) {
            Some(found) => found,
            None => {
                assert(g_binary_rest(p.forms(), expr_form(lhs), q as int, min as int, nl) == Ok::<(ExprForm, int), ParseFailure>(
                    (expr_form(lhs), q as int),
                ));
                break;
            },
        };
        if level < min {
            assert(g_binary_rest(p.forms(), expr_form(lhs), q as int, min as int, nl) == Ok::<(ExprForm, int), ParseFailure>(
                (expr_form(lhs), q as int),
            ));
            break;
        }
        if nl && p.tokens[q].newline_before && !matches!(op, BinaryOp::Pipe) {
            assert(g_binary_rest(p.forms(), expr_form(lhs), q as int, min as int, nl) == Ok::<(ExprForm, int), ParseFailure>(
                (expr_form(lhs), q as int),
            ));
            break;
        }
        let (rhs, next) = match parse_binary(p, q + 1, level + 1, nl) {
            Ok(r) => r,
            Err(e) => {
                return Err(e);
            },
        };
        proof {
            lemma_start_of_monotonic(p, (q - 1) as int, (q + 1) as int);
            assert(p.tokens@[next - 1].span.end() <= p.end);
        }
        let span = merge_spans(lhs.span, rhs.span);
        lhs = Expression { kind: ExpressionKind::Binary(op, Box::new(lhs), Box::new(rhs)), span };
        q = next;
    }
    Ok((lhs, q))
}

/// One expression, the one [`g_expr`] gives.
pub fn build_expr(p: &TrestleParser, pos: usize, nl: bool) -> (r: Result<
    (Expression, usize),
    ParseError,
>)
    requires
        p.wf(),
        pos <= p.tokens@.len(),
    ensures
        parsed(p, pos as int, r),
        built(r, g_expr(p.forms(), pos as int, nl)),
    decreases p.tokens@.len() - pos, 25nat,
{
    if pos >= p.tokens.len() {
        return Err(error_at(p, pos, "expected an expression"));
    }
    match &p.tokens[pos].kind {
        TokenKind::Type => parse_type_declaration(p, pos),
        TokenKind::Let => parse_let(p, pos, nl),
        TokenKind::If => parse_if(p, pos, nl),
        TokenKind::LBrace => if record_ahead(p, pos) {
            parse_binary(p, pos, 1, nl)
        } else {
            parse_block(p, pos)
        },
        TokenKind::LParen => match lambda_arrow(p, pos) {
            Some(arrow) => parse_lambda(p, pos, arrow, nl),
            None => parse_binary(p, pos, 1, nl),
        },
        _ => parse_binary(p, pos, 1, nl),
    }
}

} // verus!
