//! What inference computes, stated over the mathematical forms of the tree, the type
//! tables and the unification map.

use vstd::prelude::*;

use super::typed_ast::{ExprView, KindView, LambdaView, Literal, LiteralView, TypeView};
use super::error::TypeCheckError;
use super::unification::{
    NodeView, UNIFY_FUEL, UnifyErrorView, field_type_from, has_field, names_view, reported,
    spec_representative, spec_unify,
};
use crate::binding_resolution::binding_resolved::ResolvedBinding;
use crate::binding_resolution::binding_resolved::{
    ResolvedExpression, ResolvedExpressionKind, ResolvedLiteral, ResolvedTypeExpression,
    ResolvedTypeExpressionKind,
};
use crate::parse::ast::{BinaryOp, UnaryOp};
use crate::span::SourceSpan;

verus! {

/// The type a written type denotes, given the types the type names are bound to; `None`
/// where a name's slot is missing or empty.
pub open spec fn denoted_type(t: ResolvedTypeExpression, types: Seq<Option<TypeView>>) -> Option<
    TypeView,
>
    decreases t,
{
    match t.kind {
        ResolvedTypeExpressionKind::Named(b) => if b.0 < types.len() {
            types[b.0 as int]
        } else {
            None
        },
        ResolvedTypeExpressionKind::Record(fields) => if forall|i: int|
            0 <= i < fields@.len() ==> denoted_type(#[trigger] fields@[i].1, types) is Some {
            Some(
                TypeView::Record(
                    Seq::new(
                        fields@.len(),
                        |i: int|
                            (
                                fields@[i].0@,
                                if 0 <= i < fields@.len() {
                                    denoted_type(fields@[i].1, types)->Some_0
                                } else {
                                    TypeView::Unit
                                },
                            ),
                    ),
                ),
            )
        } else {
            None
        },
        ResolvedTypeExpressionKind::Lambda(l) => {
            let ret = denoted_type(*l.return_type, types);
            match l.parameter {
                Some(p) => match (denoted_type(*p.type_dec, types), ret) {
                    (Some(pt), Some(rt)) => Some(TypeView::Fn(Some(Box::new(pt)), Box::new(rt))),
                    _ => None,
                },
                None => match ret {
                    Some(rt) => Some(TypeView::Fn(None, Box::new(rt))),
                    None => None,
                },
            }
        },
    }
}

/// The type of an optional annotation: the type it denotes, or a fresh variable minted in
/// `nodes` when there is none. The map after, and the type (`None` where the annotation
/// denotes nothing).
pub open spec fn annotated_or_fresh(
    dec: Option<ResolvedTypeExpression>,
    types: Seq<Option<TypeView>>,
    nodes: Seq<NodeView>,
) -> (Seq<NodeView>, Option<TypeView>) {
    match dec {
        Some(d) => (nodes, denoted_type(d, types)),
        None => (nodes.push(NodeView::Free), Some(TypeView::Var(nodes.len()))),
    }
}

/// Applying the arguments of types `args[next..]` one arrow at a time to a callee of type
/// `callee`: each parameter is unified with its argument, and an unknown callee is given a
/// function shape with a fresh result. The map after, and the type left (`None` on failure).
pub open spec fn applied_type(
    nodes: Seq<NodeView>,
    callee: TypeView,
    args: Seq<TypeView>,
    next: nat,
) -> (Seq<NodeView>, Option<TypeView>)
    decreases args.len() - next,
{
    if next >= args.len() {
        (nodes, Some(callee))
    } else {
        match spec_representative(nodes, callee) {
            TypeView::Fn(Some(param), ret) => {
                let (after, unified) = spec_unify(nodes, *param, args[next as int], UNIFY_FUEL as nat);
                if unified is Ok {
                    applied_type(after, *ret, args, next + 1)
                } else {
                    (after, None)
                }
            },
            TypeView::Var(v) => {
                let result = TypeView::Var(nodes.len());
                let shape = TypeView::Fn(Some(Box::new(args[next as int])), Box::new(result));
                let (after, unified) = spec_unify(
                    nodes.push(NodeView::Free),
                    TypeView::Var(v),
                    shape,
                    UNIFY_FUEL as nat,
                );
                if unified is Ok {
                    applied_type(after, result, args, next + 1)
                } else {
                    (after, None)
                }
            },
            _ => (nodes, None),
        }
    }
}

/// The type of a call of a callee of type `callee` with arguments of types `args`. With no
/// arguments a function without a parameter gives its result, and anything else itself.
pub open spec fn call_type(nodes: Seq<NodeView>, callee: TypeView, args: Seq<TypeView>) -> (
    Seq<NodeView>,
    Option<TypeView>,
) {
    let resolved = spec_representative(nodes, callee);
    if args.len() == 0 {
        match resolved {
            TypeView::Fn(None, ret) => (nodes, Some(*ret)),
            other => (nodes, Some(other)),
        }
    } else {
        match resolved {
            TypeView::Fn(..) | TypeView::Var(_) => applied_type(nodes, resolved, args, 0),
            _ => (nodes, None),
        }
    }
}

/// The types of a run of typed expressions.
pub open spec fn types_of(es: Seq<ExprView>) -> Seq<TypeView> {
    Seq::new(es.len(), |i: int| es[i].ty)
}

/// What inference reads and writes: the type slot of every variable binding and of every
/// type binding, and the unification map.
pub struct InferState {
    pub vars: Seq<Option<TypeView>>,
    pub types: Seq<Option<TypeView>>,
    pub nodes: Seq<NodeView>,
}

/// `st` with the unification map `nodes`.
pub open spec fn with_nodes(st: InferState, nodes: Seq<NodeView>) -> InferState {
    InferState { vars: st.vars, types: st.types, nodes }
}

/// The type both operands of `op` must have, and the type it gives; `Pipe` is not among
/// them.
pub open spec fn operator_signature(op: BinaryOp) -> (TypeView, TypeView) {
    match op {
        BinaryOp::Add | BinaryOp::Sub | BinaryOp::Mul | BinaryOp::Div => (
            TypeView::Literal(Literal::Int),
            TypeView::Literal(Literal::Int),
        ),
        BinaryOp::And | BinaryOp::Or => (
            TypeView::Literal(Literal::Bool),
            TypeView::Literal(Literal::Bool),
        ),
        _ => (TypeView::Literal(Literal::Int), TypeView::Literal(Literal::Bool)),
    }
}

/// Typing a binary node whose operands are typed `l` and `r`, from the map `nodes`: an
/// operator unifies each operand in turn with the type it takes; a pipe needs a function of
/// one parameter on its right, whose parameter it unifies with the left operand, and gives
/// that function's result. The map after, and the typed node (`None` on failure).
pub open spec fn binary_typed(
    nodes: Seq<NodeView>,
    op: BinaryOp,
    l: ExprView,
    r: ExprView,
    span: SourceSpan,
) -> (Seq<NodeView>, Option<ExprView>) {
    let kind = KindView::Binary(op, Box::new(l), Box::new(r));
    if op == BinaryOp::Pipe {
        match spec_representative(nodes, r.ty) {
            TypeView::Fn(Some(input), output) => {
                let (after, unified) = spec_unify(nodes, l.ty, *input, UNIFY_FUEL as nat);
                (
                    after,
                    if unified is Ok {
                        Some(ExprView { kind, span, ty: *output })
                    } else {
                        None
                    },
                )
            },
            _ => (nodes, None),
        }
    } else {
        let (operand, result) = operator_signature(op);
        let (first, left_ok) = spec_unify(nodes, l.ty, operand, UNIFY_FUEL as nat);
        if left_ok is Err {
            (first, None)
        } else {
            let (second, right_ok) = spec_unify(first, r.ty, operand, UNIFY_FUEL as nat);
            (
                second,
                if right_ok is Ok {
                    Some(ExprView { kind, span, ty: result })
                } else {
                    None
                },
            )
        }
    }
}

/// The record type of typed fields.
pub open spec fn record_type_of(fields: Seq<(Seq<char>, ExprView)>) -> TypeView {
    TypeView::Record(Seq::new(fields.len(), |i: int| (fields[i].0, fields[i].1.ty)))
}

/// Infers the fields of a record literal in order; `None` at the first failure.
pub open spec fn infer_fields(st: InferState, fields: Seq<(String, ResolvedExpression)>) -> (
    InferState,
    Option<Seq<(Seq<char>, ExprView)>>,
)
    decreases fields,
{
    if fields.len() == 0 {
        (st, Some(Seq::empty()))
    } else {
        let (st1, done) = infer_fields(st, fields.drop_last());
        match done {
            None => (st1, None),
            Some(done) => {
                let (st2, value) = spec_infer(st1, fields.last().1);
                match value {
                    None => (st2, None),
                    Some(v) => (st2, Some(done.push((fields.last().0@, v)))),
                }
            },
        }
    }
}

/// Infers a run of expressions in order; `None` at the first failure.
pub open spec fn infer_all(st: InferState, es: Seq<ResolvedExpression>) -> (
    InferState,
    Option<Seq<ExprView>>,
)
    decreases es,
{
    if es.len() == 0 {
        (st, Some(Seq::empty()))
    } else {
        let (st1, done) = infer_all(st, es.drop_last());
        match done {
            None => (st1, None),
            Some(done) => {
                let (st2, value) = spec_infer(st1, es.last());
                match value {
                    None => (st2, None),
                    Some(v) => (st2, Some(done.push(v))),
                }
            },
        }
    }
}

/// Inference of one resolved expression from the state `st`: the state after, and the typed
/// tree, or `None` where inference fails. Children are inferred left to right, except that a
/// call infers its arguments before its callee; each constraint is solved by unification as
/// soon as both sides are known.
pub open spec fn spec_infer(st: InferState, e: ResolvedExpression) -> (InferState, Option<ExprView>)
    decreases e,
{
    let span = e.span;
    match e.kind {
        ResolvedExpressionKind::Literal(literal) => match literal {
            ResolvedLiteral::Int(n) => (
                st,
                Some(
                    ExprView {
                        kind: KindView::Literal(LiteralView::Int(n)),
                        span,
                        ty: TypeView::Literal(Literal::Int),
                    },
                ),
            ),
            ResolvedLiteral::Bool(b) => (
                st,
                Some(
                    ExprView {
                        kind: KindView::Literal(LiteralView::Bool(b)),
                        span,
                        ty: TypeView::Literal(Literal::Bool),
                    },
                ),
            ),
            ResolvedLiteral::Float(t) => (
                st,
                Some(
                    ExprView {
                        kind: KindView::Literal(LiteralView::Float(t@)),
                        span,
                        ty: TypeView::Literal(Literal::Float),
                    },
                ),
            ),
            ResolvedLiteral::String(t) => (
                st,
                Some(
                    ExprView {
                        kind: KindView::Literal(LiteralView::Str(t@)),
                        span,
                        ty: TypeView::Literal(Literal::String),
                    },
                ),
            ),
            ResolvedLiteral::Unit => (
                st,
                Some(
                    ExprView {
                        kind: KindView::Literal(LiteralView::Unit),
                        span,
                        ty: TypeView::Literal(Literal::Unit),
                    },
                ),
            ),
            ResolvedLiteral::Record(fields) => {
                let (st1, typed) = infer_fields(st, fields@);
                match typed {
                    None => (st1, None),
                    Some(tf) => (
                        st1,
                        Some(
                            ExprView {
                                kind: KindView::Literal(LiteralView::Record(tf)),
                                span,
                                ty: record_type_of(tf),
                            },
                        ),
                    ),
                }
            },
        },
        ResolvedExpressionKind::Var(b) => if b.0 < st.vars.len() && st.vars[b.0 as int] is Some {
            (
                st,
                Some(
                    ExprView {
                        kind: KindView::Var(b.0 as nat),
                        span,
                        ty: st.vars[b.0 as int]->Some_0,
                    },
                ),
            )
        } else {
            (st, None)
        },
        ResolvedExpressionKind::Binary(op, l, r) => {
            let (st1, tl) = spec_infer(st, *l);
            match tl {
                None => (st1, None),
                Some(tl) => {
                    let (st2, tr) = spec_infer(st1, *r);
                    match tr {
                        None => (st2, None),
                        Some(tr) => {
                            let (after, typed) = binary_typed(st2.nodes, op, tl, tr, span);
                            (with_nodes(st2, after), typed)
                        },
                    }
                },
            }
        },
        ResolvedExpressionKind::Unary(op, operand) => {
            let (st1, to) = spec_infer(st, *operand);
            match to {
                None => (st1, None),
                Some(to) => {
                    let ty = match op {
                        UnaryOp::Neg => TypeView::Literal(Literal::Int),
                        UnaryOp::Not => TypeView::Literal(Literal::Bool),
                    };
                    let (after, unified) = spec_unify(st1.nodes, to.ty, ty, UNIFY_FUEL as nat);
                    (
                        with_nodes(st1, after),
                        if unified is Ok {
                            Some(ExprView { kind: KindView::Unary(op, Box::new(to)), span, ty })
                        } else {
                            None
                        },
                    )
                },
            }
        },
        ResolvedExpressionKind::Lambda(l) => {
            let (st1, parameter, param_ok) = match l.parameter {
                Some(p) => {
                    let (nodes1, pt) = annotated_or_fresh(p.type_dec, st.types, st.nodes);
                    match pt {
                        Some(pt) => if p.binding.0 < st.vars.len() {
                            (
                                InferState {
                                    vars: st.vars.update(p.binding.0 as int, Some(pt)),
                                    types: st.types,
                                    nodes: nodes1,
                                },
                                Some((p.binding.0 as nat, pt)),
                                true,
                            )
                        } else {
                            (with_nodes(st, nodes1), None, false)
                        },
                        None => (with_nodes(st, nodes1), None, false),
                    }
                },
                None => (st, None, true),
            };
            if !param_ok {
                (st1, None)
            } else {
                let (st2, body) = spec_infer(st1, *l.body);
                match body {
                    None => (st2, None),
                    Some(body) => {
                        let (nodes3, rt) = annotated_or_fresh(l.return_type, st2.types, st2.nodes);
                        match rt {
                            None => (with_nodes(st2, nodes3), None),
                            Some(rt) => {
                                let (nodes4, unified) = spec_unify(
                                    nodes3,
                                    body.ty,
                                    rt,
                                    UNIFY_FUEL as nat,
                                );
                                (
                                    with_nodes(st2, nodes4),
                                    if unified is Ok {
                                        Some(
                                            ExprView {
                                                kind: KindView::Lambda(
                                                    LambdaView { parameter, body: Box::new(body) },
                                                ),
                                                span,
                                                ty: TypeView::Fn(
                                                    match parameter {
                                                        Some((_, t)) => Some(Box::new(t)),
                                                        None => None,
                                                    },
                                                    Box::new(body.ty),
                                                ),
                                            },
                                        )
                                    } else {
                                        None
                                    },
                                )
                            },
                        }
                    },
                }
            }
        },
        ResolvedExpressionKind::FunctionInvocation { function, arguments } => {
            let (st1, targs) = infer_all(st, arguments@);
            match targs {
                None => (st1, None),
                Some(targs) => {
                    let (st2, tf) = spec_infer(st1, *function);
                    match tf {
                        None => (st2, None),
                        Some(tf) => {
                            let (nodes3, out) = call_type(st2.nodes, tf.ty, types_of(targs));
                            (
                                with_nodes(st2, nodes3),
                                match out {
                                    Some(out) => Some(
                                        ExprView {
                                            kind: KindView::Call(Box::new(tf), targs),
                                            span,
                                            ty: out,
                                        },
                                    ),
                                    None => None,
                                },
                            )
                        },
                    }
                },
            }
        },
        ResolvedExpressionKind::FieldAccess { target, field_name } => {
            let (st1, tt) = spec_infer(st, *target);
            match tt {
                None => (st1, None),
                Some(tt) => match spec_representative(st1.nodes, tt.ty) {
                    TypeView::Record(fields) => if has_field(fields, field_name@) {
                        (
                            st1,
                            Some(
                                ExprView {
                                    kind: KindView::FieldAccess(Box::new(tt), field_name@),
                                    span,
                                    ty: field_type_from(fields, field_name@, 0),
                                },
                            ),
                        )
                    } else {
                        (st1, None)
                    },
                    _ => (st1, None),
                },
            }
        },
        ResolvedExpressionKind::Let { binding, type_dec, value } => {
            let (st1, tv) = spec_infer(st, *value);
            match tv {
                None => (st1, None),
                Some(tv) => {
                    let (nodes2, bt) = annotated_or_fresh(type_dec, st1.types, st1.nodes);
                    match bt {
                        None => (with_nodes(st1, nodes2), None),
                        Some(bt) => if binding.0 < st1.vars.len() {
                            let (nodes3, unified) = spec_unify(nodes2, tv.ty, bt, UNIFY_FUEL as nat);
                            (
                                InferState {
                                    vars: st1.vars.update(binding.0 as int, Some(bt)),
                                    types: st1.types,
                                    nodes: nodes3,
                                },
                                if unified is Ok {
                                    Some(
                                        ExprView {
                                            kind: KindView::Let(binding.0 as nat, Box::new(tv)),
                                            span,
                                            ty: TypeView::Unit,
                                        },
                                    )
                                } else {
                                    None
                                },
                            )
                        } else {
                            (with_nodes(st1, nodes2), None)
                        },
                    }
                },
            }
        },
        ResolvedExpressionKind::Block(es) => {
            let (st1, tes) = infer_all(st, es@);
            match tes {
                None => (st1, None),
                Some(tes) => (
                    st1,
                    Some(
                        ExprView {
                            kind: KindView::Block(tes),
                            span,
                            ty: if tes.len() == 0 {
                                TypeView::Unit
                            } else {
                                tes.last().ty
                            },
                        },
                    ),
                ),
            }
        },
        ResolvedExpressionKind::If { condition, true_condition, false_condition } => {
            let (st1, tc) = spec_infer(st, *condition);
            match tc {
                None => (st1, None),
                Some(tc) => {
                    let (nodes2, cond_ok) = spec_unify(
                        st1.nodes,
                        tc.ty,
                        TypeView::Literal(Literal::Bool),
                        UNIFY_FUEL as nat,
                    );
                    if cond_ok is Err {
                        (with_nodes(st1, nodes2), None)
                    } else {
                        let (st3, tt) = spec_infer(with_nodes(st1, nodes2), *true_condition);
                        match tt {
                            None => (st3, None),
                            Some(tt) => match false_condition {
                                None => (
                                    st3,
                                    Some(
                                        ExprView {
                                            kind: KindView::If(Box::new(tc), Box::new(tt), None),
                                            span,
                                            ty: tt.ty,
                                        },
                                    ),
                                ),
                                Some(f) => {
                                    let (st4, tf) = spec_infer(st3, *f);
                                    match tf {
                                        None => (st4, None),
                                        Some(tf) => {
                                            let (nodes5, else_ok) = spec_unify(
                                                st4.nodes,
                                                tf.ty,
                                                tt.ty,
                                                UNIFY_FUEL as nat,
                                            );
                                            (
                                                with_nodes(st4, nodes5),
                                                if else_ok is Ok {
                                                    Some(
                                                        ExprView {
                                                            kind: KindView::If(
                                                                Box::new(tc),
                                                                Box::new(tt),
                                                                Some(Box::new(tf)),
                                                            ),
                                                            span,
                                                            ty: tt.ty,
                                                        },
                                                    )
                                                } else {
                                                    None
                                                },
                                            )
                                        },
                                    }
                                },
                            },
                        }
                    }
                },
            }
        },
        ResolvedExpressionKind::TypeDeclaration { identifier, type_expression } => match denoted_type(
            type_expression,
            st.types,
        ) {
            Some(t) => if identifier.0 < st.types.len() {
                (
                    InferState {
                        vars: st.vars,
                        types: st.types.update(identifier.0 as int, Some(t)),
                        nodes: st.nodes,
                    },
                    Some(
                        ExprView {
                            kind: KindView::TypeDeclaration(identifier.0 as nat, t),
                            span,
                            ty: t,
                        },
                    ),
                )
            } else {
                (st, None)
            },
            None => (st, None),
        },
    }
}

/// Why inference fails, in mathematical form.
pub enum InferFailure {
    /// Unification failed with this error, reported at this span.
    Unify(UnifyErrorView, SourceSpan),
    NotAFunction(TypeView, SourceSpan),
    PipeIntoArgumentless(SourceSpan),
    ArgumentsToArgumentless(SourceSpan),
    TooManyArguments(SourceSpan),
    NotARecord(TypeView, SourceSpan),
    /// The field asked for, the fields the record has.
    NoSuchField(Seq<char>, Seq<Seq<char>>, SourceSpan),
    /// The variable binding read before it was given a type.
    MissingAnnotation(nat, SourceSpan),
    /// A table index out of range or an empty type slot, which resolved programs never hold.
    Internal,
}

/// The error `e` reports the failure `f`; `bindings` names the variable bindings.
pub open spec fn failure_is(e: TypeCheckError, f: InferFailure, bindings: Seq<ResolvedBinding>) -> bool {
    match f {
        InferFailure::Unify(u, span) => reported(e, u, span),
        InferFailure::NotAFunction(t, span) => e matches TypeCheckError::NotAFunction { found, span: s }
            && found@ == t && s == span,
        InferFailure::PipeIntoArgumentless(span) => e matches TypeCheckError::PipeIntoArgumentlessFunction {
            span: s,
        } && s == span,
        InferFailure::ArgumentsToArgumentless(span) => e matches TypeCheckError::ArgumentsToArgumentlessFunction {
            span: s,
        } && s == span,
        InferFailure::TooManyArguments(span) => e matches TypeCheckError::TooManyArguments { span: s }
            && s == span,
        InferFailure::NotARecord(t, span) => e matches TypeCheckError::NotARecord { found, span: s }
            && found@ == t && s == span,
        InferFailure::NoSuchField(name, names, span) => e matches TypeCheckError::RecordDoesNotHaveField {
            field_name,
            available,
            span: s,
        } && field_name@ == name && names_view(available@) == names && s == span,
        InferFailure::MissingAnnotation(b, span) => if b < bindings.len() {
            e matches TypeCheckError::MissingAnnotation { name, span: s } && name@ == bindings[b as int].name@
                && s == span
        } else {
            e is InternalError
        },
        InferFailure::Internal => e is InternalError,
    }
}

/// The names of record fields.
pub open spec fn field_names(fields: Seq<(Seq<char>, TypeView)>) -> Seq<Seq<char>> {
    Seq::new(fields.len(), |i: int| fields[i].0)
}

/// Why [`binary_typed`] fails.
pub open spec fn binary_failure(
    nodes: Seq<NodeView>,
    op: BinaryOp,
    l: ExprView,
    r: ExprView,
    span: SourceSpan,
) -> InferFailure {
    if op == BinaryOp::Pipe {
        match spec_representative(nodes, r.ty) {
            TypeView::Fn(Some(input), _) => InferFailure::Unify(
                spec_unify(nodes, l.ty, *input, UNIFY_FUEL as nat).1->Err_0,
                span,
            ),
            TypeView::Fn(None, _) => InferFailure::PipeIntoArgumentless(r.span),
            _ => InferFailure::NotAFunction(r.ty, span),
        }
    } else {
        let (operand, _) = operator_signature(op);
        let (first, left_ok) = spec_unify(nodes, l.ty, operand, UNIFY_FUEL as nat);
        if left_ok is Err {
            InferFailure::Unify(left_ok->Err_0, l.span)
        } else {
            InferFailure::Unify(spec_unify(first, r.ty, operand, UNIFY_FUEL as nat).1->Err_0, r.span)
        }
    }
}

/// Why [`applied_type`] fails.
pub open spec fn applied_failure(
    nodes: Seq<NodeView>,
    callee: TypeView,
    args: Seq<TypeView>,
    next: nat,
    span: SourceSpan,
) -> InferFailure
    decreases args.len() - next,
{
    if next >= args.len() {
        InferFailure::Internal
    } else {
        match spec_representative(nodes, callee) {
            TypeView::Fn(Some(param), ret) => {
                let (after, unified) = spec_unify(nodes, *param, args[next as int], UNIFY_FUEL as nat);
                if unified is Ok {
                    applied_failure(after, *ret, args, next + 1, span)
                } else {
                    InferFailure::Unify(unified->Err_0, span)
                }
            },
            TypeView::Fn(None, _) => InferFailure::ArgumentsToArgumentless(span),
            TypeView::Var(v) => {
                let result = TypeView::Var(nodes.len());
                let shape = TypeView::Fn(Some(Box::new(args[next as int])), Box::new(result));
                let (after, unified) = spec_unify(
                    nodes.push(NodeView::Free),
                    TypeView::Var(v),
                    shape,
                    UNIFY_FUEL as nat,
                );
                if unified is Ok {
                    applied_failure(after, result, args, next + 1, span)
                } else {
                    InferFailure::Unify(unified->Err_0, span)
                }
            },
            _ => InferFailure::TooManyArguments(span),
        }
    }
}

/// Why [`call_type`] fails.
pub open spec fn call_failure(nodes: Seq<NodeView>, callee: TypeView, args: Seq<TypeView>, span: SourceSpan) -> InferFailure {
    let resolved = spec_representative(nodes, callee);
    match resolved {
        TypeView::Fn(..) | TypeView::Var(_) => applied_failure(nodes, resolved, args, 0, span),
        _ => InferFailure::NotAFunction(resolved, span),
    }
}

/// Why inferring the fields of a record literal fails: the first field that fails.
pub open spec fn fields_failure(st: InferState, fields: Seq<(String, ResolvedExpression)>) -> InferFailure
    decreases fields,
{
    if fields.len() == 0 {
        InferFailure::Internal
    } else {
        let (st1, done) = infer_fields(st, fields.drop_last());
        match done {
            None => fields_failure(st, fields.drop_last()),
            Some(_) => infer_failure(st1, fields.last().1),
        }
    }
}

/// Why inferring a run fails: the first expression that fails.
pub open spec fn all_failure(st: InferState, es: Seq<ResolvedExpression>) -> InferFailure
    decreases es,
{
    if es.len() == 0 {
        InferFailure::Internal
    } else {
        let (st1, done) = infer_all(st, es.drop_last());
        match done {
            None => all_failure(st, es.drop_last()),
            Some(_) => infer_failure(st1, es.last()),
        }
    }
}

/// Why inferring `e` from `st` fails, where [`spec_infer`] gives no tree: the first
/// constraint, in the order inference meets them, that cannot be met.
#[verifier::opaque]
pub open spec fn infer_failure(st: InferState, e: ResolvedExpression) -> InferFailure
    decreases e,
{
    let span = e.span;
    match e.kind {
        ResolvedExpressionKind::Literal(ResolvedLiteral::Record(fields)) => fields_failure(st, fields@),
        ResolvedExpressionKind::Literal(_) => InferFailure::Internal,
        ResolvedExpressionKind::Var(b) => if b.0 < st.vars.len() {
            InferFailure::MissingAnnotation(b.0 as nat, span)
        } else {
            InferFailure::Internal
        },
        ResolvedExpressionKind::Binary(op, l, r) => {
            let (st1, tl) = spec_infer(st, *l);
            match tl {
                None => infer_failure(st, *l),
                Some(tl) => {
                    let (st2, tr) = spec_infer(st1, *r);
                    match tr {
                        None => infer_failure(st1, *r),
                        Some(tr) => binary_failure(st2.nodes, op, tl, tr, span),
                    }
                },
            }
        },
        ResolvedExpressionKind::Unary(op, operand) => {
            let (st1, to) = spec_infer(st, *operand);
            match to {
                None => infer_failure(st, *operand),
                Some(to) => {
                    let ty = match op {
                        UnaryOp::Neg => TypeView::Literal(Literal::Int),
                        UnaryOp::Not => TypeView::Literal(Literal::Bool),
                    };
                    InferFailure::Unify(
                        spec_unify(st1.nodes, to.ty, ty, UNIFY_FUEL as nat).1->Err_0,
                        to.span,
                    )
                },
            }
        },
        ResolvedExpressionKind::Lambda(l) => {
            let (st1, param_ok) = match l.parameter {
                Some(p) => {
                    let (nodes1, pt) = annotated_or_fresh(p.type_dec, st.types, st.nodes);
                    match pt {
                        Some(pt) => if p.binding.0 < st.vars.len() {
                            (
                                InferState {
                                    vars: st.vars.update(p.binding.0 as int, Some(pt)),
                                    types: st.types,
                                    nodes: nodes1,
                                },
                                true,
                            )
                        } else {
                            (with_nodes(st, nodes1), false)
                        },
                        None => (with_nodes(st, nodes1), false),
                    }
                },
                None => (st, true),
            };
            if !param_ok {
                InferFailure::Internal
            } else {
                let (st2, body) = spec_infer(st1, *l.body);
                match body {
                    None => infer_failure(st1, *l.body),
                    Some(body) => {
                        let (nodes3, rt) = annotated_or_fresh(l.return_type, st2.types, st2.nodes);
                        match rt {
                            None => InferFailure::Internal,
                            Some(rt) => InferFailure::Unify(
                                spec_unify(nodes3, body.ty, rt, UNIFY_FUEL as nat).1->Err_0,
                                span,
                            ),
                        }
                    },
                }
            }
        },
        ResolvedExpressionKind::FunctionInvocation { function, arguments } => {
            let (st1, targs) = infer_all(st, arguments@);
            match targs {
                None => all_failure(st, arguments@),
                Some(targs) => {
                    let (st2, tf) = spec_infer(st1, *function);
                    match tf {
                        None => infer_failure(st1, *function),
                        Some(tf) => call_failure(st2.nodes, tf.ty, types_of(targs), span),
                    }
                },
            }
        },
        ResolvedExpressionKind::FieldAccess { target, field_name } => {
            let (st1, tt) = spec_infer(st, *target);
            match tt {
                None => infer_failure(st, *target),
                Some(tt) => match spec_representative(st1.nodes, tt.ty) {
                    TypeView::Record(fields) => InferFailure::NoSuchField(
                        field_name@,
                        field_names(fields),
                        span,
                    ),
                    _ => InferFailure::NotARecord(tt.ty, span),
                },
            }
        },
        ResolvedExpressionKind::Let { binding, type_dec, value } => {
            let (st1, tv) = spec_infer(st, *value);
            match tv {
                None => infer_failure(st, *value),
                Some(tv) => {
                    let (nodes2, bt) = annotated_or_fresh(type_dec, st1.types, st1.nodes);
                    match bt {
                        None => InferFailure::Internal,
                        Some(bt) => if binding.0 < st1.vars.len() {
                            InferFailure::Unify(
                                spec_unify(nodes2, tv.ty, bt, UNIFY_FUEL as nat).1->Err_0,
                                span,
                            )
                        } else {
                            InferFailure::Internal
                        },
                    }
                },
            }
        },
        ResolvedExpressionKind::Block(es) => all_failure(st, es@),
        ResolvedExpressionKind::If { condition, true_condition, false_condition } => {
            let (st1, tc) = spec_infer(st, *condition);
            match tc {
                None => infer_failure(st, *condition),
                Some(tc) => {
                    let (nodes2, cond_ok) = spec_unify(
                        st1.nodes,
                        tc.ty,
                        TypeView::Literal(Literal::Bool),
                        UNIFY_FUEL as nat,
                    );
                    if cond_ok is Err {
                        InferFailure::Unify(cond_ok->Err_0, span)
                    } else {
                        let (st3, tt) = spec_infer(with_nodes(st1, nodes2), *true_condition);
                        match tt {
                            None => infer_failure(with_nodes(st1, nodes2), *true_condition),
                            Some(tt) => match false_condition {
                                None => InferFailure::Internal,
                                Some(f) => {
                                    let (st4, tf) = spec_infer(st3, *f);
                                    match tf {
                                        None => infer_failure(st3, *f),
                                        Some(tf) => InferFailure::Unify(
                                            spec_unify(st4.nodes, tf.ty, tt.ty, UNIFY_FUEL as nat).1->Err_0,
                                            span,
                                        ),
                                    }
                                },
                            },
                        }
                    }
                },
            }
        },
        ResolvedExpressionKind::TypeDeclaration { .. } => InferFailure::Internal,
    }
}

/// How a record literal fails: at its first failing field.
pub proof fn lemma_failure_record(st: InferState, e: ResolvedExpression)
    requires
        e.kind matches ResolvedExpressionKind::Literal(ResolvedLiteral::Record(_)),
    ensures
        e.kind matches ResolvedExpressionKind::Literal(ResolvedLiteral::Record(fields))
            ==> infer_failure(st, e) == fields_failure(st, fields@),
{
    reveal(infer_failure);
}

/// How a variable fails: it has no type yet.
pub proof fn lemma_failure_var(st: InferState, e: ResolvedExpression)
    requires
        e.kind is Var,
    ensures
        e.kind matches ResolvedExpressionKind::Var(b) ==> infer_failure(st, e) == if b.0
            < st.vars.len() {
            InferFailure::MissingAnnotation(b.0 as nat, e.span)
        } else {
            InferFailure::Internal
        },
{
    reveal(infer_failure);
}

/// How a binary node fails: in its left operand, else in its right, else in its operator.
pub proof fn lemma_failure_binary(st: InferState, e: ResolvedExpression)
    requires
        e.kind is Binary,
    ensures
        e.kind matches ResolvedExpressionKind::Binary(op, l, r) ==> {
            let (st1, tl) = spec_infer(st, *l);
            let (st2, tr) = spec_infer(st1, *r);
            &&& tl is None ==> infer_failure(st, e) == infer_failure(st, *l)
            &&& tl is Some && tr is None ==> infer_failure(st, e) == infer_failure(st1, *r)
            &&& tl is Some && tr is Some ==> infer_failure(st, e) == binary_failure(
                st2.nodes,
                op,
                tl->Some_0,
                tr->Some_0,
                e.span,
            )
        },
{
    reveal(infer_failure);
}

/// How a unary node fails: in its operand, else in unifying the operand's type.
pub proof fn lemma_failure_unary(st: InferState, e: ResolvedExpression)
    requires
        e.kind is Unary,
    ensures
        e.kind matches ResolvedExpressionKind::Unary(op, operand) ==> {
            let (st1, to) = spec_infer(st, *operand);
            let ty = match op {
                UnaryOp::Neg => TypeView::Literal(Literal::Int),
                UnaryOp::Not => TypeView::Literal(Literal::Bool),
            };
            &&& to is None ==> infer_failure(st, e) == infer_failure(st, *operand)
            &&& to is Some ==> infer_failure(st, e) == InferFailure::Unify(
                spec_unify(st1.nodes, to->Some_0.ty, ty, UNIFY_FUEL as nat).1->Err_0,
                to->Some_0.span,
            )
        },
{
    reveal(infer_failure);
}

/// How a call fails: in its first failing argument, else in its callee, else in applying the
/// arguments.
pub proof fn lemma_failure_call(st: InferState, e: ResolvedExpression)
    requires
        e.kind is FunctionInvocation,
    ensures
        e.kind matches ResolvedExpressionKind::FunctionInvocation { function, arguments } ==> {
            let (st1, targs) = infer_all(st, arguments@);
            let (st2, tf) = spec_infer(st1, *function);
            &&& targs is None ==> infer_failure(st, e) == all_failure(st, arguments@)
            &&& targs is Some && tf is None ==> infer_failure(st, e) == infer_failure(st1, *function)
            &&& targs is Some && tf is Some ==> infer_failure(st, e) == call_failure(
                st2.nodes,
                tf->Some_0.ty,
                types_of(targs->Some_0),
                e.span,
            )
        },
{
    reveal(infer_failure);
}

/// How a field read fails: in its target, else because the target is no record or lacks the
/// field.
pub proof fn lemma_failure_field(st: InferState, e: ResolvedExpression)
    requires
        e.kind is FieldAccess,
    ensures
        e.kind matches ResolvedExpressionKind::FieldAccess { target, field_name } ==> {
            let (st1, tt) = spec_infer(st, *target);
            &&& tt is None ==> infer_failure(st, e) == infer_failure(st, *target)
            &&& tt is Some ==> infer_failure(st, e) == match spec_representative(
                st1.nodes,
                tt->Some_0.ty,
            ) {
                TypeView::Record(fields) => InferFailure::NoSuchField(
                    field_name@,
                    field_names(fields),
                    e.span,
                ),
                _ => InferFailure::NotARecord(tt->Some_0.ty, e.span),
            }
        },
{
    reveal(infer_failure);
}

/// How a `let` fails: in its value, else in its annotation or binding, else in unifying.
#[verifier::rlimit(40)]
pub proof fn lemma_failure_let(st: InferState, e: ResolvedExpression)
    requires
        e.kind is Let,
    ensures
        e.kind matches ResolvedExpressionKind::Let { binding, type_dec, value } ==> {
            let (st1, tv) = spec_infer(st, *value);
            let (nodes2, bt) = annotated_or_fresh(type_dec, st1.types, st1.nodes);
            &&& tv is None ==> infer_failure(st, e) == infer_failure(st, *value)
            &&& tv is Some && (bt is None || binding.0 >= st1.vars.len()) ==> infer_failure(st, e)
                == InferFailure::Internal
            &&& tv is Some && bt is Some && binding.0 < st1.vars.len() ==> infer_failure(st, e)
                == InferFailure::Unify(
                spec_unify(nodes2, tv->Some_0.ty, bt->Some_0, UNIFY_FUEL as nat).1->Err_0,
                e.span,
            )
        },
{
    reveal(infer_failure);
}

/// How a block fails: in its first failing expression.
pub proof fn lemma_failure_block(st: InferState, e: ResolvedExpression)
    requires
        e.kind is Block,
    ensures
        e.kind matches ResolvedExpressionKind::Block(es) ==> infer_failure(st, e) == all_failure(
            st,
            es@,
        ),
{
    reveal(infer_failure);
}

/// How an `if` fails: in its condition, else in unifying it with `Bool`, else in its first
/// branch, else in its other branch, else in unifying the branches.
#[verifier::rlimit(40)]
pub proof fn lemma_failure_if(st: InferState, e: ResolvedExpression)
    requires
        e.kind is If,
    ensures
        e.kind matches ResolvedExpressionKind::If { condition, true_condition, false_condition }
            ==> {
            let (st1, tc) = spec_infer(st, *condition);
            let (nodes2, cond_ok) = spec_unify(
                st1.nodes,
                tc->Some_0.ty,
                TypeView::Literal(Literal::Bool),
                UNIFY_FUEL as nat,
            );
            let (st3, tt) = spec_infer(with_nodes(st1, nodes2), *true_condition);
            &&& tc is None ==> infer_failure(st, e) == infer_failure(st, *condition)
            &&& tc is Some && cond_ok is Err ==> infer_failure(st, e) == InferFailure::Unify(
                cond_ok->Err_0,
                e.span,
            )
            &&& tc is Some && cond_ok is Ok && tt is None ==> infer_failure(st, e) == infer_failure(
                with_nodes(st1, nodes2),
                *true_condition,
            )
            &&& tc is Some && cond_ok is Ok && tt is Some && false_condition is Some ==> {
                let f = *false_condition->Some_0;
                let (st4, tf) = spec_infer(st3, f);
                &&& tf is None ==> infer_failure(st, e) == infer_failure(st3, f)
                &&& tf is Some ==> infer_failure(st, e) == InferFailure::Unify(
                    spec_unify(st4.nodes, tf->Some_0.ty, tt->Some_0.ty, UNIFY_FUEL as nat).1->Err_0,
                    e.span,
                )
            }
        },
{
    reveal(infer_failure);
}

/// How a lambda fails: in its parameter's annotation or binding, else in its body, else in
/// its return annotation, else in unifying the body with it.
pub proof fn lemma_failure_lambda(st: InferState, e: ResolvedExpression)
    requires
        e.kind is Lambda,
    ensures
        e.kind matches ResolvedExpressionKind::Lambda(l) ==> {
            let (st1, param_ok) = match l.parameter {
                Some(p) => {
                    let (nodes1, pt) = annotated_or_fresh(p.type_dec, st.types, st.nodes);
                    match pt {
                        Some(pt) => if p.binding.0 < st.vars.len() {
                            (
                                InferState {
                                    vars: st.vars.update(p.binding.0 as int, Some(pt)),
                                    types: st.types,
                                    nodes: nodes1,
                                },
                                true,
                            )
                        } else {
                            (with_nodes(st, nodes1), false)
                        },
                        None => (with_nodes(st, nodes1), false),
                    }
                },
                None => (st, true),
            };
            let (st2, body) = spec_infer(st1, *l.body);
            let (nodes3, rt) = annotated_or_fresh(l.return_type, st2.types, st2.nodes);
            &&& !param_ok ==> infer_failure(st, e) == InferFailure::Internal
            &&& param_ok && body is None ==> infer_failure(st, e) == infer_failure(st1, *l.body)
            &&& param_ok && body is Some && rt is None ==> infer_failure(st, e)
                == InferFailure::Internal
            &&& param_ok && body is Some && rt is Some ==> infer_failure(st, e)
                == InferFailure::Unify(
                spec_unify(nodes3, body->Some_0.ty, rt->Some_0, UNIFY_FUEL as nat).1->Err_0,
                e.span,
            )
        },
{
    reveal(infer_failure);
}

/// A `type` declaration fails only on an internal inconsistency.
pub proof fn lemma_failure_type_declaration(e: ResolvedExpression)
    requires
        e.kind is TypeDeclaration,
    ensures
        forall|st: InferState| #[trigger] infer_failure(st, e) == InferFailure::Internal,
{
    reveal(infer_failure);
}

/// Inferring a run in turn, going on past failures: the state it ends in and the failure of
/// each expression that fails, in order, each inferred from the state the one before left.
pub open spec fn run_through(st: InferState, es: Seq<ResolvedExpression>) -> (
    InferState,
    Seq<InferFailure>,
)
    decreases es.len(),
{
    if es.len() == 0 {
        (st, Seq::empty())
    } else {
        let (st1, failures) = run_through(st, es.drop_last());
        let (st2, typed) = spec_infer(st1, es.last());
        (
            st2,
            if typed is None {
                failures.push(infer_failure(st1, es.last()))
            } else {
                failures
            },
        )
    }
}

/// A run fails where its first failing expression fails.
pub proof fn lemma_all_failure_at(st: InferState, es: Seq<ResolvedExpression>, i: int, n: int)
    requires
        0 <= i < n <= es.len(),
        infer_all(st, es.take(i)).1 is Some,
        spec_infer(infer_all(st, es.take(i)).0, es[i]).1 is None,
    ensures
        all_failure(st, es.take(n)) == infer_failure(infer_all(st, es.take(i)).0, es[i]),
        infer_all(st, es.take(n)).1 is None,
        infer_all(st, es.take(n)).0 == spec_infer(infer_all(st, es.take(i)).0, es[i]).0,
    decreases n - i,
{
    reveal(infer_failure);
    let taken = es.take(n);
    if n == i + 1 {
        assert(taken.drop_last() =~= es.take(i));
        assert(taken.last() == es[i]);
        assert(taken.len() > 0);
        assert(all_failure(st, taken) == infer_failure(infer_all(st, es.take(i)).0, es[i]));
    } else {
        lemma_all_failure_at(st, es, i, n - 1);
        assert(es.take(n).drop_last() =~= es.take(n - 1));
    }
}

/// A record literal fails where its first failing field fails.
pub proof fn lemma_fields_failure_at(
    st: InferState,
    fields: Seq<(String, ResolvedExpression)>,
    i: int,
    n: int,
)
    requires
        0 <= i < n <= fields.len(),
        infer_fields(st, fields.take(i)).1 is Some,
        spec_infer(infer_fields(st, fields.take(i)).0, fields[i].1).1 is None,
    ensures
        fields_failure(st, fields.take(n)) == infer_failure(
            infer_fields(st, fields.take(i)).0,
            fields[i].1,
        ),
        infer_fields(st, fields.take(n)).1 is None,
        infer_fields(st, fields.take(n)).0 == spec_infer(
            infer_fields(st, fields.take(i)).0,
            fields[i].1,
        ).0,
    decreases n - i,
{
    reveal(infer_failure);
    let taken = fields.take(n);
    if n == i + 1 {
        assert(taken.drop_last() =~= fields.take(i));
        assert(taken.last() == fields[i]);
        assert(taken.len() > 0);
        assert(fields_failure(st, taken) == infer_failure(
            infer_fields(st, fields.take(i)).0,
            fields[i].1,
        ));
    } else {
        lemma_fields_failure_at(st, fields, i, n - 1);
        assert(fields.take(n).drop_last() =~= fields.take(n - 1));
    }
}

/// Applying arguments never fails for want of a variable's type.
pub proof fn lemma_applied_failure_kind(
    nodes: Seq<NodeView>,
    callee: TypeView,
    args: Seq<TypeView>,
    next: nat,
    span: SourceSpan,
)
    ensures
        !(applied_failure(nodes, callee, args, next, span) is MissingAnnotation),
    decreases args.len() - next,
{
    if next < args.len() {
        match spec_representative(nodes, callee) {
            TypeView::Fn(Some(param), ret) => {
                let (after, _) = spec_unify(nodes, *param, args[next as int], UNIFY_FUEL as nat);
                lemma_applied_failure_kind(after, *ret, args, next + 1, span);
            },
            TypeView::Var(v) => {
                let result = TypeView::Var(nodes.len());
                let shape = TypeView::Fn(Some(Box::new(args[next as int])), Box::new(result));
                let (after, _) = spec_unify(
                    nodes.push(NodeView::Free),
                    TypeView::Var(v),
                    shape,
                    UNIFY_FUEL as nat,
                );
                lemma_applied_failure_kind(after, result, args, next + 1, span);
            },
            _ => {},
        }
    }
}

/// Once inferring a prefix of a run has failed, inferring any longer prefix fails.
pub proof fn lemma_infer_all_failed(st: InferState, es: Seq<ResolvedExpression>, k: int, n: int)
    requires
        0 <= k <= n <= es.len(),
        infer_all(st, es.take(k)).1 is None,
    ensures
        infer_all(st, es.take(n)).1 is None,
    decreases n - k,
{
    if n > k {
        lemma_infer_all_failed(st, es, k, n - 1);
        assert(es.take(n).drop_last() =~= es.take(n - 1));
    }
}

/// The type slots a program starts with: the builtin types `Int`, `Float`, `String`, `Bool`
/// and `Unit` in the first five, and the rest empty.
pub open spec fn prelude_slots(count: nat) -> Seq<Option<TypeView>> {
    Seq::new(
        count,
        |i: int|
            if i == 0 {
                Some(TypeView::Literal(Literal::Int))
            } else if i == 1 {
                Some(TypeView::Literal(Literal::Float))
            } else if i == 2 {
                Some(TypeView::Literal(Literal::String))
            } else if i == 3 {
                Some(TypeView::Literal(Literal::Bool))
            } else if i == 4 {
                Some(TypeView::Literal(Literal::Unit))
            } else {
                None
            },
    )
}

/// The state type checking starts from: no variable typed yet, the builtin types in their
/// slots, and an empty map.
pub open spec fn initial_state(binding_count: nat, type_binding_count: nat) -> InferState {
    InferState {
        vars: Seq::new(binding_count, |i: int| None),
        types: prelude_slots(type_binding_count),
        nodes: Seq::empty(),
    }
}

/// Every slot is filled.
pub open spec fn all_typed(slots: Seq<Option<TypeView>>) -> bool {
    forall|i: int| 0 <= i < slots.len() ==> #[trigger] slots[i] is Some
}

} // verus!
