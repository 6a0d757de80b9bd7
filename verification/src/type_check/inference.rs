//! Bottom-up type inference over the resolved tree, solving constraints by unification.

use vstd::prelude::*;

use super::binding_table::{BindingToTypeMap, TypeBindingToTypeMap};
use super::error::TypeCheckError;
use super::typed_ast::{
    ExprView, ExpressionKind, KindView, Lambda, Literal, LiteralView, Param, Type, TypeView,
    TypeCheckedExpression, TypeCheckedLiteral, clone_type, expr_view, exprs_view, record_view,
    well_typed,
};
use super::typing::{
    InferState, annotated_or_fresh, applied_failure, applied_type, binary_failure, binary_typed,
    call_failure, call_type, denoted_type, failure_is, field_names, infer_all, infer_failure,
    infer_fields, initial_state, lemma_all_failure_at, lemma_applied_failure_kind,
    lemma_failure_binary, lemma_failure_block, lemma_failure_call, lemma_failure_field,
    lemma_failure_if, lemma_failure_lambda, lemma_failure_let, lemma_failure_record,
    lemma_failure_type_declaration, lemma_failure_unary, lemma_failure_var, lemma_fields_failure_at,
    spec_infer, types_of,
};
use super::unification::{
    UNIFY_FUEL, UnificationMap, field_position, has_field, lemma_field_type_first_match, spec_unify,
    names_view, reported,
};
use crate::binding_resolution::binding_resolved::{
    ResolvedBinding, ResolvedExpression, ResolvedExpressionKind, ResolvedLiteral,
    ResolvedTypeExpression, ResolvedTypeExpressionKind, TypeBindingId,
};
use crate::parse::ast::{BinaryOp, UnaryOp};
use crate::prelude::prelude_types;
use crate::span::SourceSpan;

verus! {

/// The type slots of every binding in both namespaces.
pub struct InferenceCtx {
    pub variable_env: BindingToTypeMap,
    pub type_env: TypeBindingToTypeMap,
}

impl InferenceCtx {
    pub open spec fn sizes(&self) -> (nat, nat) {
        (self.variable_env.slots().len(), self.type_env.slots().len())
    }

    pub fn new(binding_count: usize, type_binding_count: usize) -> (ctx: InferenceCtx)
        requires
            type_binding_count >= 5,
        ensures
            ctx.sizes() == (binding_count as nat, type_binding_count as nat),
            ctx.variable_env.slots() == initial_state(
                binding_count as nat,
                type_binding_count as nat,
            ).vars,
            ctx.type_env.slots() == initial_state(binding_count as nat, type_binding_count as nat).types,
    {
        let type_env = create_type_env_with_prelude_types(type_binding_count);
        let variable_env = BindingToTypeMap::new(binding_count);
        proof {
            let st = initial_state(binding_count as nat, type_binding_count as nat);
            assert(variable_env.slots() =~= st.vars);
            assert(type_env.slots() =~= st.types);
        }
        InferenceCtx { variable_env, type_env }
    }
}

/// A type table with the builtin types in their slots (the first ids) and the rest empty.
pub fn create_type_env_with_prelude_types(type_binding_count: usize) -> (env: TypeBindingToTypeMap)
    requires
        type_binding_count >= 5,
    ensures
        env.slots().len() == type_binding_count,
        env.slots()[0] == Some(Type::Literal(Literal::Int)@),
        env.slots()[1] == Some(Type::Literal(Literal::Float)@),
        env.slots()[2] == Some(Type::Literal(Literal::String)@),
        env.slots()[3] == Some(Type::Literal(Literal::Bool)@),
        env.slots()[4] == Some(Type::Literal(Literal::Unit)@),
        forall|i: int| 5 <= i < type_binding_count ==> #[trigger] env.slots()[i] is None,
{
    let prelude = prelude_types();
    let mut env = TypeBindingToTypeMap::new(type_binding_count);
    let mut index: usize = 0;
    while index < prelude.len()
        invariant
            prelude@.len() == 5,
            prelude@[0].ty@ == Type::Literal(Literal::Int)@,
            prelude@[1].ty@ == Type::Literal(Literal::Float)@,
            prelude@[2].ty@ == Type::Literal(Literal::String)@,
            prelude@[3].ty@ == Type::Literal(Literal::Bool)@,
            prelude@[4].ty@ == Type::Literal(Literal::Unit)@,
            0 <= index <= 5,
            type_binding_count >= 5,
            env.slots().len() == type_binding_count,
            forall|i: int| 0 <= i < index ==> #[trigger] env.slots()[i] == Some(prelude@[i].ty@),
            forall|i: int| index <= i < type_binding_count ==> #[trigger] env.slots()[i] is None,
        decreases 5 - index,
    {
        env.set(TypeBindingId(index), clone_type(&prelude[index].ty));
        index = index + 1;
    }
    env
}

/// `typed` is `untyped` with types added: the same kind of node with the same span,
/// operator, binding ids and names, over parts that in turn annotate the untyped parts.
pub open spec fn annotates(typed: ExprView, untyped: ResolvedExpression) -> bool
    decreases untyped,
{
    typed.span == untyped.span && match untyped.kind {
        ResolvedExpressionKind::Literal(literal) => match literal {
            ResolvedLiteral::Int(n) => typed.kind == KindView::Literal(LiteralView::Int(n)),
            ResolvedLiteral::Bool(b) => typed.kind == KindView::Literal(LiteralView::Bool(b)),
            ResolvedLiteral::Float(t) => typed.kind == KindView::Literal(LiteralView::Float(t@)),
            ResolvedLiteral::String(t) => typed.kind == KindView::Literal(LiteralView::Str(t@)),
            ResolvedLiteral::Unit => typed.kind == KindView::Literal(LiteralView::Unit),
            ResolvedLiteral::Record(fields) => match typed.kind {
                KindView::Literal(LiteralView::Record(tf)) => tf.len() == fields@.len() && forall|
                    i: int,
                |
                    0 <= i < fields@.len() ==> (#[trigger] tf[i]).0 == fields@[i].0@ && annotates(
                        tf[i].1,
                        fields@[i].1,
                    ),
                _ => false,
            },
        },
        ResolvedExpressionKind::Var(id) => typed.kind == KindView::Var(id.0 as nat),
        ResolvedExpressionKind::Binary(op, l, r) => match typed.kind {
            KindView::Binary(op2, tl, tr) => op2 == op && annotates(*tl, *l) && annotates(*tr, *r),
            _ => false,
        },
        ResolvedExpressionKind::Unary(op, operand) => match typed.kind {
            KindView::Unary(op2, t) => op2 == op && annotates(*t, *operand),
            _ => false,
        },
        ResolvedExpressionKind::Lambda(ul) => match typed.kind {
            KindView::Lambda(tl) => (match (tl.parameter, ul.parameter) {
                (Some((b, _)), Some(p)) => b == p.binding.0 as nat,
                (None, None) => true,
                _ => false,
            }) && annotates(*tl.body, *ul.body),
            _ => false,
        },
        ResolvedExpressionKind::FunctionInvocation { function, arguments } => match typed.kind {
            KindView::Call(tf, targs) => annotates(*tf, *function) && targs.len()
                == arguments@.len() && forall|i: int|
                0 <= i < arguments@.len() ==> annotates(#[trigger] targs[i], arguments@[i]),
            _ => false,
        },
        ResolvedExpressionKind::FieldAccess { target, field_name } => match typed.kind {
            KindView::FieldAccess(t, name) => name == field_name@ && annotates(*t, *target),
            _ => false,
        },
        ResolvedExpressionKind::Let { binding, value, .. } => match typed.kind {
            KindView::Let(b, v) => b == binding.0 as nat && annotates(*v, *value),
            _ => false,
        },
        ResolvedExpressionKind::Block(exprs) => match typed.kind {
            KindView::Block(tes) => tes.len() == exprs@.len() && forall|i: int|
                0 <= i < exprs@.len() ==> annotates(#[trigger] tes[i], exprs@[i]),
            _ => false,
        },
        ResolvedExpressionKind::If { condition, true_condition, false_condition } => match typed.kind {
            KindView::If(c, t, f) => annotates(*c, *condition) && annotates(*t, *true_condition)
                && match (f, false_condition) {
                (Some(f), Some(g)) => annotates(*f, *g),
                (None, None) => true,
                _ => false,
            },
            _ => false,
        },
        ResolvedExpressionKind::TypeDeclaration { identifier, .. } => match typed.kind {
            KindView::TypeDeclaration(id, _) => id == identifier.0 as nat,
            _ => false,
        },
    }
}

/// Substituting types keeps an annotation an annotation: it changes types only.
pub proof fn lemma_subst_keeps_annotation(
    nodes: Seq<super::unification::NodeView>,
    typed: ExprView,
    untyped: ResolvedExpression,
)
    requires
        annotates(typed, untyped),
    ensures
        annotates(super::substitution::subst_expr(nodes, typed), untyped),
    decreases untyped,
{
    let s = super::substitution::subst_expr(nodes, typed);
    match untyped.kind {
        ResolvedExpressionKind::Literal(ResolvedLiteral::Record(fields)) => {
            match (typed.kind, s.kind) {
                (KindView::Literal(LiteralView::Record(tf)), KindView::Literal(LiteralView::Record(sf))) => {
                    assert forall|i: int| 0 <= i < fields@.len() implies (#[trigger] sf[i]).0
                        == fields@[i].0@ && annotates(sf[i].1, fields@[i].1) by {
                        assert(sf[i] == (tf[i].0, super::substitution::subst_expr(nodes, tf[i].1)));
                        lemma_subst_keeps_annotation(nodes, tf[i].1, fields@[i].1);
                    }
                },
                _ => {},
            }
        },
        ResolvedExpressionKind::Binary(_, l, r) => match typed.kind {
            KindView::Binary(_, tl, tr) => {
                lemma_subst_keeps_annotation(nodes, *tl, *l);
                lemma_subst_keeps_annotation(nodes, *tr, *r);
            },
            _ => {},
        },
        ResolvedExpressionKind::Unary(_, operand) => match typed.kind {
            KindView::Unary(_, t) => {
                lemma_subst_keeps_annotation(nodes, *t, *operand);
            },
            _ => {},
        },
        ResolvedExpressionKind::Lambda(ul) => match typed.kind {
            KindView::Lambda(tl) => {
                lemma_subst_keeps_annotation(nodes, *tl.body, *ul.body);
            },
            _ => {},
        },
        ResolvedExpressionKind::FunctionInvocation { function, arguments } => match (typed.kind, s.kind) {
            (KindView::Call(tf, targs), KindView::Call(_, sargs)) => {
                lemma_subst_keeps_annotation(nodes, *tf, *function);
                assert forall|i: int| 0 <= i < arguments@.len() implies annotates(
                    #[trigger] sargs[i],
                    arguments@[i],
                ) by {
                    assert(sargs[i] == super::substitution::subst_expr(nodes, targs[i]));
                    lemma_subst_keeps_annotation(nodes, targs[i], arguments@[i]);
                }
            },
            _ => {},
        },
        ResolvedExpressionKind::FieldAccess { target, .. } => match typed.kind {
            KindView::FieldAccess(t, _) => {
                lemma_subst_keeps_annotation(nodes, *t, *target);
            },
            _ => {},
        },
        ResolvedExpressionKind::Let { value, .. } => match typed.kind {
            KindView::Let(_, v) => {
                lemma_subst_keeps_annotation(nodes, *v, *value);
            },
            _ => {},
        },
        ResolvedExpressionKind::Block(exprs) => match (typed.kind, s.kind) {
            (KindView::Block(tes), KindView::Block(ses)) => {
                assert forall|i: int| 0 <= i < exprs@.len() implies annotates(
                    #[trigger] ses[i],
                    exprs@[i],
                ) by {
                    assert(ses[i] == super::substitution::subst_expr(nodes, tes[i]));
                    lemma_subst_keeps_annotation(nodes, tes[i], exprs@[i]);
                }
            },
            _ => {},
        },
        ResolvedExpressionKind::If { condition, true_condition, false_condition } => match typed.kind {
            KindView::If(c, t, f) => {
                lemma_subst_keeps_annotation(nodes, *c, *condition);
                lemma_subst_keeps_annotation(nodes, *t, *true_condition);
                match (f, false_condition) {
                    (Some(f), Some(g)) => lemma_subst_keeps_annotation(nodes, *f, *g),
                    _ => {},
                }
            },
            _ => {},
        },
        _ => {},
    }
}

/// The state inference reads and writes, as mathematics.
pub open spec fn infer_state(ctx: InferenceCtx, map: UnificationMap) -> InferState {
    InferState { vars: ctx.variable_env.slots(), types: ctx.type_env.slots(), nodes: map.nodes() }
}

/// What inferring `e` promises, from the context `ctx0` and map `map0` to the context
/// `ctx1` and map `map1` it leaves, when it returns `typed`: it succeeds exactly when
/// [`spec_infer`] does, and then its tree and the state it leaves are those that
/// [`spec_infer`] gives; the tree annotates `e` and is well typed. When it fails, its error
/// reports [`infer_failure`], variables named by `bindings`. Either way it leaves the state
/// [`spec_infer`] gives.
pub open spec fn infer_post(
    ctx0: InferenceCtx,
    map0: UnificationMap,
    ctx1: InferenceCtx,
    map1: UnificationMap,
    e: ResolvedExpression,
    typed: Result<TypeCheckedExpression, TypeCheckError>,
    bindings: Seq<ResolvedBinding>,
) -> bool {
    &&& ctx1.sizes() == ctx0.sizes()
    &&& map1.nodes().len() >= map0.nodes().len()
    &&& (typed is Ok <==> spec_infer(infer_state(ctx0, map0), e).1 is Some)
    &&& (typed matches Ok(t) ==> t.span == e.span && annotates(t@, e) && well_typed(t@)
        && spec_infer(infer_state(ctx0, map0), e) == (infer_state(ctx1, map1), Some(t@)))
    &&& (typed matches Err(err) ==> failure_is(err, infer_failure(infer_state(ctx0, map0), e), bindings))
    &&& spec_infer(infer_state(ctx0, map0), e).0 == infer_state(ctx1, map1)
}

/// A literal node of the literal type `ty`.
fn typed_literal(literal: TypeCheckedLiteral, ty: Literal, span: SourceSpan) -> (e:
    TypeCheckedExpression)
    requires
        !(literal is Record),
    ensures
        e@ == (ExprView {
            kind: KindView::Literal(super::typed_ast::literal_view(literal)),
            span,
            ty: TypeView::Literal(ty),
        }),
{
    TypeCheckedExpression { kind: ExpressionKind::Literal(literal), span, ty: Type::Literal(ty) }
}

/// Infers the type of one resolved expression. Slots of bindings the expression declares
/// are filled as it goes, and constraints are solved into `unification_map`.
#[verifier::loop_isolation(false)]
pub fn infer_type_of_expression(
    untyped_expression: &ResolvedExpression,
    ctx: &mut InferenceCtx,
    unification_map: &mut UnificationMap,
    bindings: &Vec<ResolvedBinding>,
) -> (typed: Result<TypeCheckedExpression, TypeCheckError>)
    ensures
        infer_post(
            *old(ctx),
            *old(unification_map),
            *final(ctx),
            *final(unification_map),
            *untyped_expression,
            typed,
            bindings@,
        ),
    decreases untyped_expression, 1nat,
{
    let span = untyped_expression.span;
    match &untyped_expression.kind {
        ResolvedExpressionKind::Literal(ResolvedLiteral::Unit) => Ok(
            typed_literal(TypeCheckedLiteral::Unit, Literal::Unit, span),
        ),
        ResolvedExpressionKind::Literal(ResolvedLiteral::Int(value)) => Ok(
            typed_literal(TypeCheckedLiteral::Int(*value), Literal::Int, span),
        ),
        ResolvedExpressionKind::Literal(ResolvedLiteral::String(value)) => Ok(
            typed_literal(TypeCheckedLiteral::String(value.clone()), Literal::String, span),
        ),
        ResolvedExpressionKind::Literal(ResolvedLiteral::Bool(value)) => Ok(
            typed_literal(TypeCheckedLiteral::Bool(*value), Literal::Bool, span),
        ),
        ResolvedExpressionKind::Literal(ResolvedLiteral::Float(value)) => Ok(
            typed_literal(TypeCheckedLiteral::Float(value.clone()), Literal::Float, span),
        ),
        ResolvedExpressionKind::Literal(ResolvedLiteral::Record(_)) => infer_record(
            untyped_expression,
            ctx,
            unification_map,
            bindings,
        ),
        ResolvedExpressionKind::Var(binding_id) => {
            proof {
                lemma_failure_var(infer_state(*ctx, *unification_map), *untyped_expression);
            }
            if binding_id.0 >= ctx.variable_env.len() {
                return Err(binding_out_of_range(span));
            }
            let ty = match ctx.variable_env.get(*binding_id) {
                Some(ty) => clone_type(ty),
                None => {
                    if binding_id.0 >= bindings.len() {
                        return Err(binding_out_of_range(span));
                    }
                    return Err(
                        TypeCheckError::MissingAnnotation {
                            name: bindings[binding_id.0].name.clone(),
                            span,
                        },
                    );
                },
            };
            Ok(TypeCheckedExpression { kind: ExpressionKind::Var(*binding_id), span, ty })
        },
        ResolvedExpressionKind::Binary(..) => infer_binary(
            untyped_expression,
            ctx,
            unification_map,
            bindings,
        ),
        ResolvedExpressionKind::Unary(..) => infer_unary(
            untyped_expression,
            ctx,
            unification_map,
            bindings,
        ),
        ResolvedExpressionKind::Lambda(_) => infer_lambda(
            untyped_expression,
            ctx,
            unification_map,
            bindings,
        ),
        ResolvedExpressionKind::FunctionInvocation { .. } => infer_call(
            untyped_expression,
            ctx,
            unification_map,
            bindings,
        ),
        ResolvedExpressionKind::Let { .. } => infer_let(
            untyped_expression,
            ctx,
            unification_map,
            bindings,
        ),
        ResolvedExpressionKind::Block(_) => infer_block(
            untyped_expression,
            ctx,
            unification_map,
            bindings,
        ),
        ResolvedExpressionKind::If { .. } => infer_if(
            untyped_expression,
            ctx,
            unification_map,
            bindings,
        ),
        ResolvedExpressionKind::TypeDeclaration { .. } => infer_type_declaration(
            untyped_expression,
            ctx,
        ),
        ResolvedExpressionKind::FieldAccess { .. } => infer_field_access(
            untyped_expression,
            ctx,
            unification_map,
            bindings,
        ),
    }
}

/// Infers a record literal: its fields in order, then the record of their types.
#[verifier::loop_isolation(false)]
#[verifier::rlimit(40)]
fn infer_record(
    untyped_expression: &ResolvedExpression,
    ctx: &mut InferenceCtx,
    unification_map: &mut UnificationMap,
    bindings: &Vec<ResolvedBinding>,
) -> (typed: Result<TypeCheckedExpression, TypeCheckError>)
    requires
        untyped_expression.kind matches ResolvedExpressionKind::Literal(ResolvedLiteral::Record(_)),
    ensures
        infer_post(
            *old(ctx),
            *old(unification_map),
            *final(ctx),
            *final(unification_map),
            *untyped_expression,
            typed,
            bindings@,
        ),
    decreases untyped_expression, 0nat,
{
    let span = untyped_expression.span;
    proof {
        lemma_failure_record(infer_state(*ctx, *unification_map), *untyped_expression);
    }
    let ghost st0 = infer_state(*ctx, *unification_map);
    let ghost sizes = ctx.sizes();
    let ghost start = unification_map.nodes().len();
    let record = match &untyped_expression.kind {
        ResolvedExpressionKind::Literal(ResolvedLiteral::Record(record)) => record,
        _ => vstd::pervasive::unreached(),
    };
    let mut fields: Vec<(String, TypeCheckedExpression)> = Vec::new();
    let mut field_types: Vec<(String, Type)> = Vec::new();
    let mut i: usize = 0;
    while i < record.len()
        invariant
            ctx.sizes() == sizes,
            unification_map.nodes().len() >= start,
            i <= record.len(),
            fields@.len() == i,
            field_types@.len() == i,
            forall|j: int|
                0 <= j < i ==> (#[trigger] fields@[j]).0@ == record@[j].0@ && annotates(
                    expr_view(fields@[j].1),
                    record@[j].1,
                ) && well_typed(expr_view(fields@[j].1)) && field_types@[j].0@ == record@[j].0@
                    && field_types@[j].1@ == expr_view(fields@[j].1).ty,
            infer_fields(st0, record@.take(i as int)) == (
                infer_state(*ctx, *unification_map),
                Some(Seq::new(i as nat, |j: int| (fields@[j].0@, expr_view(fields@[j].1)))),
            ),
        decreases record.len() - i,
    {
        proof {
            assert(decreases_to!(*untyped_expression => record@[i as int].1));
            assert(record@.take(i + 1).drop_last() =~= record@.take(i as int));
            assert(record@.take(i + 1).last() == record@[i as int]);
        }
        let ghost done = Seq::new(i as nat, |j: int| (fields@[j].0@, expr_view(fields@[j].1)));
        let value = match infer_type_of_expression(&record[i].1, ctx, unification_map, bindings) {
            Ok(value) => value,
            Err(e) => {
                proof {
                    lemma_fields_failure_at(st0, record@, i as int, record@.len() as int);
                    assert(record@.take(record@.len() as int) =~= record@);
                }
                return Err(e);
            },
        };
        let ghost value_view = value@;
        field_types.push((record[i].0.clone(), clone_type(&value.ty)));
        fields.push((record[i].0.clone(), value));
        proof {
            assert(Seq::new((i + 1) as nat, |j: int| (fields@[j].0@, expr_view(fields@[j].1)))
                =~= done.push((record@[i as int].0@, value_view)));
        }
        i = i + 1;
    }
    let ghost fields_view = fields@;
    let ghost types_view = field_types@;
    let ghost tf = Seq::new(fields_view.len(), |j: int| (fields_view[j].0@, expr_view(fields_view[j].1)));
    let lit = TypeCheckedLiteral::Record(fields);
    let ghost lv = super::typed_ast::literal_view(lit);
    proof {
        match lv {
            LiteralView::Record(s) => {
                assert(s =~= tf);
            },
            _ => {},
        }
    }
    let k = ExpressionKind::Literal(lit);
    assert(super::typed_ast::kind_view(k) == KindView::Literal(LiteralView::Record(tf)));
    let t = Type::Record(field_types);
    let result = TypeCheckedExpression { kind: k, span, ty: t };
    proof {
        assert(record@.take(record@.len() as int) =~= record@);
        let e = result@;
        assert(e.ty == super::typing::record_type_of(tf)) by {
            assert(record_view(e.ty) =~= record_view(super::typing::record_type_of(tf)));
        }
        assert forall|j: int| 0 <= j < record@.len() implies (#[trigger] tf[j]).0 == record@[j].0@
            && annotates(tf[j].1, record@[j].1) by {}
        assert forall|j: int| 0 <= j < tf.len() implies well_typed(#[trigger] tf[j].1) by {}
        let rv = record_view(e.ty);
        assert forall|j: int| 0 <= j < tf.len() implies #[trigger] rv[j] == (tf[j].0, tf[j].1.ty) by {
            assert(rv[j] == (types_view[j].0@, types_view[j].1@));
        }
    }
    Ok(result)
}

/// Infers a binary node: both operands, then the operator's constraints.
#[verifier::rlimit(40)]
fn infer_binary(
    untyped_expression: &ResolvedExpression,
    ctx: &mut InferenceCtx,
    unification_map: &mut UnificationMap,
    bindings: &Vec<ResolvedBinding>,
) -> (typed: Result<TypeCheckedExpression, TypeCheckError>)
    requires
        untyped_expression.kind is Binary,
    ensures
        infer_post(
            *old(ctx),
            *old(unification_map),
            *final(ctx),
            *final(unification_map),
            *untyped_expression,
            typed,
            bindings@,
        ),
    decreases untyped_expression, 0nat,
{
    let span = untyped_expression.span;
    proof {
        lemma_failure_binary(infer_state(*ctx, *unification_map), *untyped_expression);
    }
    let (op, lhs, rhs) = match &untyped_expression.kind {
        ResolvedExpressionKind::Binary(op, lhs, rhs) => (*op, lhs, rhs),
        _ => vstd::pervasive::unreached(),
    };
    let ghost st0 = infer_state(*ctx, *unification_map);
    let ghost (l0, r0) = (**lhs, **rhs);
    let lhs = infer_type_of_expression(lhs, ctx, unification_map, bindings)?;
    let ghost st1 = infer_state(*ctx, *unification_map);
    let rhs = infer_type_of_expression(rhs, ctx, unification_map, bindings)?;
    let ghost st2 = infer_state(*ctx, *unification_map);
    let ghost (lv, rv) = (lhs@, rhs@);
    proof {
        assert(spec_infer(st0, l0) == (st1, Some(lv)));
        assert(spec_infer(st1, r0) == (st2, Some(rv)));
    }
    let typed = type_binary(unification_map, op, lhs, rhs, span);
    proof {
        let (after, result) = binary_typed(st2.nodes, op, lv, rv, span);
        assert(spec_infer(st0, *untyped_expression) == (
            super::typing::with_nodes(st2, after),
            result,
        ));
        assert(infer_state(*ctx, *unification_map) == super::typing::with_nodes(
            st2,
            unification_map.nodes(),
        ));
    }
    typed
}

/// Types a binary node whose operands are typed: see [`binary_typed`].
fn type_binary(
    unification_map: &mut UnificationMap,
    op: BinaryOp,
    lhs: TypeCheckedExpression,
    rhs: TypeCheckedExpression,
    span: SourceSpan,
) -> (typed: Result<TypeCheckedExpression, TypeCheckError>)
    ensures
        final(unification_map).nodes().len() == old(unification_map).nodes().len(),
        typed is Ok <==> binary_typed(old(unification_map).nodes(), op, lhs@, rhs@, span).1 is Some,
        typed matches Ok(t) ==> binary_typed(old(unification_map).nodes(), op, lhs@, rhs@, span)
            == (final(unification_map).nodes(), Some(t@)) && t.span == span,
        typed matches Err(e) ==> failure_is(
            e,
            binary_failure(old(unification_map).nodes(), op, lhs@, rhs@, span),
            Seq::empty(),
        ),
        final(unification_map).nodes() == binary_typed(
            old(unification_map).nodes(),
            op,
            lhs@,
            rhs@,
            span,
        ).0,
{
    let ghost lv = lhs@;
    let ghost rv = rhs@;
    let (kind, ty) = match op {
        BinaryOp::Add | BinaryOp::Sub | BinaryOp::Mul | BinaryOp::Div => unify_binary_op(
            unification_map,
            op,
            lhs,
            Type::Literal(Literal::Int),
            rhs,
            Type::Literal(Literal::Int),
            Type::Literal(Literal::Int),
        )?,
        BinaryOp::Lt | BinaryOp::Gt | BinaryOp::Le | BinaryOp::Ge | BinaryOp::Eq | BinaryOp::Neq => {
            unify_binary_op(
                unification_map,
                op,
                lhs,
                Type::Literal(Literal::Int),
                rhs,
                Type::Literal(Literal::Int),
                Type::Literal(Literal::Bool),
            )?
        },
        BinaryOp::And | BinaryOp::Or => unify_binary_op(
            unification_map,
            op,
            lhs,
            Type::Literal(Literal::Bool),
            rhs,
            Type::Literal(Literal::Bool),
            Type::Literal(Literal::Bool),
        )?,
        BinaryOp::Pipe => {
            let rep = unification_map.representative(&rhs.ty);
            let (input, output) = match rep {
                Type::Fn(input, output) => (input, output),
                _ => {
                    return Err(TypeCheckError::NotAFunction { found: rhs.ty, span });
                },
            };
            let input = match input {
                Some(input) => input,
                None => {
                    return Err(TypeCheckError::PipeIntoArgumentlessFunction { span: rhs.span });
                },
            };
            unification_map.unify(&lhs.ty, &input, span)?;
            (ExpressionKind::Binary(op, Box::new(lhs), Box::new(rhs)), *output)
        },
    };
    Ok(TypeCheckedExpression { kind, span, ty })
}

/// Infers a unary node: its operand, unified with the type the operator takes.
fn infer_unary(
    untyped_expression: &ResolvedExpression,
    ctx: &mut InferenceCtx,
    unification_map: &mut UnificationMap,
    bindings: &Vec<ResolvedBinding>,
) -> (typed: Result<TypeCheckedExpression, TypeCheckError>)
    requires
        untyped_expression.kind is Unary,
    ensures
        infer_post(
            *old(ctx),
            *old(unification_map),
            *final(ctx),
            *final(unification_map),
            *untyped_expression,
            typed,
            bindings@,
        ),
    decreases untyped_expression, 0nat,
{
    let span = untyped_expression.span;
    proof {
        lemma_failure_unary(infer_state(*ctx, *unification_map), *untyped_expression);
    }
    let (op, operand) = match &untyped_expression.kind {
        ResolvedExpressionKind::Unary(op, operand) => (*op, operand),
        _ => vstd::pervasive::unreached(),
    };
    let operand = infer_type_of_expression(operand, ctx, unification_map, bindings)?;
    let ty = match op {
        UnaryOp::Neg => Type::Literal(Literal::Int),
        UnaryOp::Not => Type::Literal(Literal::Bool),
    };
    unification_map.unify(&operand.ty, &ty, operand.span)?;
    Ok(TypeCheckedExpression { kind: ExpressionKind::Unary(op, Box::new(operand)), span, ty })
}

/// Infers a lambda: its parameter's type (annotated or fresh) goes into the parameter's slot,
/// then the body is inferred and unified with the annotated or fresh return type.
fn infer_lambda(
    untyped_expression: &ResolvedExpression,
    ctx: &mut InferenceCtx,
    unification_map: &mut UnificationMap,
    bindings: &Vec<ResolvedBinding>,
) -> (typed: Result<TypeCheckedExpression, TypeCheckError>)
    requires
        untyped_expression.kind is Lambda,
    ensures
        infer_post(
            *old(ctx),
            *old(unification_map),
            *final(ctx),
            *final(unification_map),
            *untyped_expression,
            typed,
            bindings@,
        ),
    decreases untyped_expression, 0nat,
{
    let span = untyped_expression.span;
    proof {
        lemma_failure_lambda(infer_state(*ctx, *unification_map), *untyped_expression);
    }
    let resolved_lambda = match &untyped_expression.kind {
        ResolvedExpressionKind::Lambda(resolved_lambda) => resolved_lambda,
        _ => vstd::pervasive::unreached(),
    };
    let parameter: Option<Param> = match &resolved_lambda.parameter {
        Some(untyped_param) => {
            let type_from_type_dec = resolve_type_dec(
                &untyped_param.type_dec,
                unification_map,
                ctx,
            )?;
            if untyped_param.binding.0 >= ctx.variable_env.len() {
                return Err(binding_out_of_range(span));
            }
            ctx.variable_env.set(untyped_param.binding, clone_type(&type_from_type_dec));
            Some(Param { binding: untyped_param.binding, ty: type_from_type_dec })
        },
        None => None,
    };
    let param_type = match &parameter {
        Some(p) => Some(Box::new(clone_type(&p.ty))),
        None => None,
    };
    let body = infer_type_of_expression(&resolved_lambda.body, ctx, unification_map, bindings)?;
    let return_type = resolve_type_dec(&resolved_lambda.return_type, unification_map, ctx)?;
    unification_map.unify(&body.ty, &return_type, span)?;
    let lambda_return_type = clone_type(&body.ty);
    let lambda = Lambda { parameter, body: Box::new(body) };
    let ghost lv = super::typed_ast::lambda_view(lambda);
    assert(lv.body.ty == lambda_return_type@);
    assert(match lv.parameter {
        Some((_, t)) => param_type matches Some(pt) && t == (*pt)@,
        None => param_type is None,
    });
    let k = ExpressionKind::Lambda(lambda);
    assert(super::typed_ast::kind_view(k) == KindView::Lambda(lv));
    let t = Type::Fn(param_type, Box::new(lambda_return_type));
    Ok(TypeCheckedExpression { kind: k, span, ty: t })
}

/// Infers a call: the arguments in order, then the callee, then the type that applying the
/// arguments to the callee leaves.
#[verifier::loop_isolation(false)]
#[verifier::rlimit(80)]
fn infer_call(
    untyped_expression: &ResolvedExpression,
    ctx: &mut InferenceCtx,
    unification_map: &mut UnificationMap,
    bindings: &Vec<ResolvedBinding>,
) -> (typed: Result<TypeCheckedExpression, TypeCheckError>)
    requires
        untyped_expression.kind is FunctionInvocation,
    ensures
        infer_post(
            *old(ctx),
            *old(unification_map),
            *final(ctx),
            *final(unification_map),
            *untyped_expression,
            typed,
            bindings@,
        ),
    decreases untyped_expression, 0nat,
{
    let span = untyped_expression.span;
    proof {
        lemma_failure_call(infer_state(*ctx, *unification_map), *untyped_expression);
    }
    let ghost st0 = infer_state(*ctx, *unification_map);
    let ghost sizes = ctx.sizes();
    let ghost start = unification_map.nodes().len();
    let (function, arguments) = match &untyped_expression.kind {
        ResolvedExpressionKind::FunctionInvocation { function, arguments } => (function, arguments),
        _ => vstd::pervasive::unreached(),
    };
    let mut analysed_args: Vec<TypeCheckedExpression> = Vec::new();
    let mut i: usize = 0;
    while i < arguments.len()
        invariant
            ctx.sizes() == sizes,
            unification_map.nodes().len() >= start,
            i <= arguments.len(),
            analysed_args@.len() == i,
            forall|j: int|
                0 <= j < i ==> annotates(expr_view(#[trigger] analysed_args@[j]), arguments@[j])
                    && well_typed(expr_view(analysed_args@[j])),
            infer_all(st0, arguments@.take(i as int)) == (
                infer_state(*ctx, *unification_map),
                Some(exprs_view(analysed_args@)),
            ),
        decreases arguments.len() - i,
    {
        proof {
            assert(decreases_to!(*untyped_expression => arguments@[i as int]));
            assert(arguments@.take(i + 1).drop_last() =~= arguments@.take(i as int));
            assert(arguments@.take(i + 1).last() == arguments@[i as int]);
        }
        let ghost done = exprs_view(analysed_args@);
        let arg = match infer_type_of_expression(&arguments[i], ctx, unification_map, bindings) {
            Ok(arg) => arg,
            Err(e) => {
                proof {
                    lemma_all_failure_at(st0, arguments@, i as int, arguments@.len() as int);
                    assert(arguments@.take(arguments@.len() as int) =~= arguments@);
                }
                return Err(e);
            },
        };
        let ghost arg_view = arg@;
        analysed_args.push(arg);
        proof {
            assert(exprs_view(analysed_args@) =~= done.push(arg_view));
        }
        i = i + 1;
    }
    proof {
        assert(arguments@.take(arguments@.len() as int) =~= arguments@);
    }
    let typed_function = infer_type_of_expression(function, ctx, unification_map, bindings)?;
    let ghost nodes2 = unification_map.nodes();
    let output_type = match get_type_after_applying_arguments(
        unification_map,
        &typed_function.ty,
        &analysed_args,
        span,
    ) {
        Ok(t) => t,
        Err(e) => {
            proof {
                let resolved = super::unification::spec_representative(nodes2, typed_function.ty@);
                lemma_applied_failure_kind(
                    nodes2,
                    resolved,
                    types_of(exprs_view(analysed_args@)),
                    0,
                    span,
                );
            }
            return Err(e);
        },
    };
    let ghost args_view = analysed_args@;
    let k = ExpressionKind::FunctionInvocation {
        function: Box::new(typed_function),
        arguments: analysed_args,
    };
    let result = TypeCheckedExpression { kind: k, span, ty: output_type };
    proof {
        let e = result@;
        match e.kind {
            KindView::Call(_, targs) => {
                assert(targs =~= exprs_view(args_view));
                assert forall|j: int| 0 <= j < arguments@.len() implies annotates(
                    #[trigger] targs[j],
                    arguments@[j],
                ) && well_typed(targs[j]) by {}
            },
            _ => {},
        }
    }
    Ok(result)
}

/// Infers a `let`: the value, then the annotated or fresh type that goes into the binding's
/// slot and is unified with the value's type.
fn infer_let(
    untyped_expression: &ResolvedExpression,
    ctx: &mut InferenceCtx,
    unification_map: &mut UnificationMap,
    bindings: &Vec<ResolvedBinding>,
) -> (typed: Result<TypeCheckedExpression, TypeCheckError>)
    requires
        untyped_expression.kind is Let,
    ensures
        infer_post(
            *old(ctx),
            *old(unification_map),
            *final(ctx),
            *final(unification_map),
            *untyped_expression,
            typed,
            bindings@,
        ),
    decreases untyped_expression, 0nat,
{
    let span = untyped_expression.span;
    proof {
        lemma_failure_let(infer_state(*ctx, *unification_map), *untyped_expression);
    }
    let (binding, type_dec, value) = match &untyped_expression.kind {
        ResolvedExpressionKind::Let { binding, type_dec, value } => (*binding, type_dec, value),
        _ => vstd::pervasive::unreached(),
    };
    let value = infer_type_of_expression(value, ctx, unification_map, bindings)?;
    let bound_ty = resolve_type_dec(type_dec, unification_map, ctx)?;
    if binding.0 >= ctx.variable_env.len() {
        return Err(binding_out_of_range(span));
    }
    ctx.variable_env.set(binding, clone_type(&bound_ty));
    unification_map.unify(&value.ty, &bound_ty, span)?;
    Ok(
        TypeCheckedExpression {
            kind: ExpressionKind::Let { binding, value: Box::new(value) },
            span,
            ty: Type::Unit,
        },
    )
}

/// Infers a block: its expressions in order; its type is the last one's, or `Unit`.
#[verifier::loop_isolation(false)]
#[verifier::rlimit(60)]
fn infer_block(
    untyped_expression: &ResolvedExpression,
    ctx: &mut InferenceCtx,
    unification_map: &mut UnificationMap,
    bindings: &Vec<ResolvedBinding>,
) -> (typed: Result<TypeCheckedExpression, TypeCheckError>)
    requires
        untyped_expression.kind is Block,
    ensures
        infer_post(
            *old(ctx),
            *old(unification_map),
            *final(ctx),
            *final(unification_map),
            *untyped_expression,
            typed,
            bindings@,
        ),
    decreases untyped_expression, 0nat,
{
    let span = untyped_expression.span;
    proof {
        lemma_failure_block(infer_state(*ctx, *unification_map), *untyped_expression);
    }
    let ghost st0 = infer_state(*ctx, *unification_map);
    let ghost sizes = ctx.sizes();
    let ghost start = unification_map.nodes().len();
    let expressions = match &untyped_expression.kind {
        ResolvedExpressionKind::Block(expressions) => expressions,
        _ => vstd::pervasive::unreached(),
    };
    let mut analysed: Vec<TypeCheckedExpression> = Vec::new();
    let mut i: usize = 0;
    while i < expressions.len()
        invariant
            ctx.sizes() == sizes,
            unification_map.nodes().len() >= start,
            i <= expressions.len(),
            analysed@.len() == i,
            forall|j: int|
                0 <= j < i ==> annotates(expr_view(#[trigger] analysed@[j]), expressions@[j])
                    && well_typed(expr_view(analysed@[j])),
            infer_all(st0, expressions@.take(i as int)) == (
                infer_state(*ctx, *unification_map),
                Some(exprs_view(analysed@)),
            ),
        decreases expressions.len() - i,
    {
        proof {
            assert(decreases_to!(*untyped_expression => expressions@[i as int]));
            assert(expressions@.take(i + 1).drop_last() =~= expressions@.take(i as int));
            assert(expressions@.take(i + 1).last() == expressions@[i as int]);
        }
        let ghost done = exprs_view(analysed@);
        let e = match infer_type_of_expression(&expressions[i], ctx, unification_map, bindings) {
            Ok(e) => e,
            Err(error) => {
                proof {
                    lemma_all_failure_at(st0, expressions@, i as int, expressions@.len() as int);
                    assert(expressions@.take(expressions@.len() as int) =~= expressions@);
                }
                return Err(error);
            },
        };
        let ghost e_view = e@;
        analysed.push(e);
        proof {
            assert(exprs_view(analysed@) =~= done.push(e_view));
        }
        i = i + 1;
    }
    proof {
        assert(expressions@.take(expressions@.len() as int) =~= expressions@);
    }
    let ty = if analysed.len() == 0 {
        Type::Unit
    } else {
        clone_type(&analysed[analysed.len() - 1].ty)
    };
    let ghost es_view = analysed@;
    let result = TypeCheckedExpression { kind: ExpressionKind::Block(analysed), span, ty };
    proof {
        let e = result@;
        match e.kind {
            KindView::Block(tes) => {
                assert(tes =~= exprs_view(es_view));
                assert forall|j: int| 0 <= j < expressions@.len() implies annotates(
                    #[trigger] tes[j],
                    expressions@[j],
                ) && well_typed(tes[j]) by {}
                if tes.len() > 0 {
                    assert(tes.last() == expr_view(es_view[es_view.len() - 1]));
                }
            },
            _ => {},
        }
    }
    Ok(result)
}

/// Infers an `if`: the condition, unified with `Bool`, then the first branch, then the
/// other branch if there is one, unified with the first.
#[verifier::rlimit(40)]
fn infer_if(
    untyped_expression: &ResolvedExpression,
    ctx: &mut InferenceCtx,
    unification_map: &mut UnificationMap,
    bindings: &Vec<ResolvedBinding>,
) -> (typed: Result<TypeCheckedExpression, TypeCheckError>)
    requires
        untyped_expression.kind is If,
    ensures
        infer_post(
            *old(ctx),
            *old(unification_map),
            *final(ctx),
            *final(unification_map),
            *untyped_expression,
            typed,
            bindings@,
        ),
    decreases untyped_expression, 0nat,
{
    let span = untyped_expression.span;
    proof {
        lemma_failure_if(infer_state(*ctx, *unification_map), *untyped_expression);
    }
    let (condition, true_condition, false_condition) = match &untyped_expression.kind {
        ResolvedExpressionKind::If { condition, true_condition, false_condition } => (
            condition,
            true_condition,
            false_condition,
        ),
        _ => vstd::pervasive::unreached(),
    };
    let typed_condition = infer_type_of_expression(condition, ctx, unification_map, bindings)?;
    unification_map.unify(&typed_condition.ty, &Type::Literal(Literal::Bool), span)?;
    let true_condition = infer_type_of_expression(true_condition, ctx, unification_map, bindings)?;
    let true_condition_type = clone_type(&true_condition.ty);
    match false_condition {
        None => Ok(
            TypeCheckedExpression {
                kind: ExpressionKind::If {
                    condition: Box::new(typed_condition),
                    then_branch: Box::new(true_condition),
                    else_branch: None,
                },
                span,
                ty: true_condition_type,
            },
        ),
        Some(false_condition) => {
            let false_condition = infer_type_of_expression(
                false_condition,
                ctx,
                unification_map,
                bindings,
            )?;
            unification_map.unify(&false_condition.ty, &true_condition.ty, span)?;
            Ok(
                TypeCheckedExpression {
                    kind: ExpressionKind::If {
                        condition: Box::new(typed_condition),
                        then_branch: Box::new(true_condition),
                        else_branch: Some(Box::new(false_condition)),
                    },
                    span,
                    ty: true_condition_type,
                },
            )
        },
    }
}

/// Infers a `type` declaration: the type it denotes goes into the declared name's slot.
fn infer_type_declaration(untyped_expression: &ResolvedExpression, ctx: &mut InferenceCtx) -> (typed:
    Result<TypeCheckedExpression, TypeCheckError>)
    requires
        untyped_expression.kind is TypeDeclaration,
    ensures
        forall|map: UnificationMap, bindings: Seq<ResolvedBinding>|
            infer_post(*old(ctx), map, *final(ctx), map, *untyped_expression, typed, bindings),
{
    let span = untyped_expression.span;
    proof {
        lemma_failure_type_declaration(*untyped_expression);
    }
    let (identifier, type_expression) = match &untyped_expression.kind {
        ResolvedExpressionKind::TypeDeclaration { identifier, type_expression } => (
            *identifier,
            type_expression,
        ),
        _ => vstd::pervasive::unreached(),
    };
    let evaluated_type = get_type_from_type_expression(type_expression, ctx)?;
    if identifier.0 >= ctx.type_env.len() {
        return Err(binding_out_of_range(span));
    }
    ctx.type_env.set(identifier, clone_type(&evaluated_type));
    let ty = clone_type(&evaluated_type);
    Ok(
        TypeCheckedExpression {
            kind: ExpressionKind::TypeDeclaration { identifier, type_expression: evaluated_type },
            span,
            ty,
        },
    )
}

/// Infers a field read: the target, whose type must stand for a record with a field of that
/// name; the read has the first such field's type.
fn infer_field_access(
    untyped_expression: &ResolvedExpression,
    ctx: &mut InferenceCtx,
    unification_map: &mut UnificationMap,
    bindings: &Vec<ResolvedBinding>,
) -> (typed: Result<TypeCheckedExpression, TypeCheckError>)
    requires
        untyped_expression.kind is FieldAccess,
    ensures
        infer_post(
            *old(ctx),
            *old(unification_map),
            *final(ctx),
            *final(unification_map),
            *untyped_expression,
            typed,
            bindings@,
        ),
    decreases untyped_expression, 0nat,
{
    let span = untyped_expression.span;
    proof {
        lemma_failure_field(infer_state(*ctx, *unification_map), *untyped_expression);
    }
    let (target, field_name) = match &untyped_expression.kind {
        ResolvedExpressionKind::FieldAccess { target, field_name } => (target, field_name),
        _ => vstd::pervasive::unreached(),
    };
    let target = infer_type_of_expression(target, ctx, unification_map, bindings)?;
    let rep = unification_map.representative(&target.ty);
    let field_types = match rep {
        Type::Record(field_types) => field_types,
        _ => {
            return Err(TypeCheckError::NotARecord { found: target.ty, span });
        },
    };
    let ghost fields_view = record_view(Type::Record(field_types)@);
    proof {
        assert forall|j: int| 0 <= j < field_types@.len() implies #[trigger] fields_view[j] == (
            field_types@[j].0@,
            field_types@[j].1@,
        ) by {}
    }
    let ty = match field_position(&field_types, field_name) {
        Some(j) => {
            proof {
                lemma_field_type_first_match(fields_view, field_name@, 0, j as nat);
                assert(fields_view[j as int].0 == field_name@);
                assert(has_field(fields_view, field_name@));
            }
            clone_type(&field_types[j].1)
        },
        None => {
            proof {
                if has_field(fields_view, field_name@) {
                    let j = choose|j: int|
                        0 <= j < fields_view.len() && #[trigger] fields_view[j].0 == field_name@;
                    assert(field_types@[j].0@ == field_name@);
                }
            }
            let mut available: Vec<String> = Vec::new();
            let mut k: usize = 0;
            while k < field_types.len()
                invariant
                    0 <= k <= field_types.len(),
                    names_view(available@) =~= field_names(fields_view).take(k as int),
                    forall|j: int| 0 <= j < field_types@.len() ==> #[trigger] fields_view[j] == (
                        field_types@[j].0@,
                        field_types@[j].1@,
                    ),
                    fields_view.len() == field_types@.len(),
                decreases field_types.len() - k,
            {
                let ghost before = available@;
                available.push(field_types[k].0.clone());
                assert(names_view(available@) =~= names_view(before).push(field_types@[k as int].0@));
                k = k + 1;
            }
            assert(field_names(fields_view).take(field_types@.len() as int) =~= field_names(fields_view));
            return Err(
                TypeCheckError::RecordDoesNotHaveField {
                    field_name: field_name.clone(),
                    available,
                    span,
                },
            );
        },
    };
    Ok(
        TypeCheckedExpression {
            kind: ExpressionKind::FieldAccess {
                target: Box::new(target),
                field_name: field_name.clone(),
            },
            span,
            ty,
        },
    )
}

/// The error for a binding id outside its table, which resolution never produces.
fn binding_out_of_range(span: SourceSpan) -> (error: TypeCheckError)
    ensures
        error is InternalError,
        error.spec_span() == span,
{
    TypeCheckError::InternalError {
        message: String::from_str("a binding id lies outside the binding table"),
        span,
    }
}

/// The type a written type expression denotes.
#[verifier::loop_isolation(false)]
pub fn get_type_from_type_expression(
    type_expression: &ResolvedTypeExpression,
    ctx: &InferenceCtx,
) -> (ty: Result<Type, TypeCheckError>)
    ensures
        ty is Ok <==> denoted_type(*type_expression, ctx.type_env.slots()) is Some,
        ty matches Ok(t) ==> denoted_type(*type_expression, ctx.type_env.slots()) == Some(t@),
        ty matches Err(e) ==> e is InternalError,
    decreases type_expression,
{
    let ghost slots = ctx.type_env.slots();
    match &type_expression.kind {
        ResolvedTypeExpressionKind::Named(type_binding_id) => {
            if type_binding_id.0 >= ctx.type_env.len() {
                return Err(binding_out_of_range(type_expression.span));
            }
            match ctx.type_env.get(*type_binding_id) {
                None => Err(
                    TypeCheckError::InternalError {
                        message: String::from_str(
                            "Could not find the type for the given type binding id",
                        ),
                        span: type_expression.span,
                    },
                ),
                Some(referenced_type) => Ok(clone_type(referenced_type)),
            }
        },
        ResolvedTypeExpressionKind::Record(fields) => {
            let mut types: Vec<(String, Type)> = Vec::new();
            let mut i: usize = 0;
            while i < fields.len()
                invariant
                    0 <= i <= fields.len(),
                    types@.len() == i,
                    forall|j: int|
                        0 <= j < i ==> (#[trigger] types@[j]).0@ == fields@[j].0@ && denoted_type(
                            fields@[j].1,
                            ctx.type_env.slots(),
                        ) == Some(types@[j].1@),
                decreases fields.len() - i,
            {
                proof {
                    assert(decreases_to!(*type_expression => fields@[i as int].1));
                }
                let t = get_type_from_type_expression(&fields[i].1, ctx)?;
                types.push((fields[i].0.clone(), t));
                i = i + 1;
            }
            proof {
                assert forall|j: int| 0 <= j < fields@.len() implies denoted_type(
                    #[trigger] fields@[j].1,
                    slots,
                ) is Some by {
                    assert(types@[j].0@ == fields@[j].0@);
                }
                let d = denoted_type(*type_expression, ctx.type_env.slots());
                assert(d is Some);
                assert(Type::Record(types)@ == d->Some_0) by {
                    assert(record_view(Type::Record(types)@) =~= record_view(d->Some_0));
                }
            }
            Ok(Type::Record(types))
        },
        ResolvedTypeExpressionKind::Lambda(lambda) => {
            let parameter = match &lambda.parameter {
                Some(p) => Some(Box::new(get_type_from_type_expression(&p.type_dec, ctx)?)),
                None => None,
            };
            let return_type = get_type_from_type_expression(&lambda.return_type, ctx)?;
            Ok(Type::Fn(parameter, Box::new(return_type)))
        },
    }
}

/// Unifies both operands with the types an operator takes; the operator's result type.
fn unify_binary_op(
    unification_map: &mut UnificationMap,
    op: BinaryOp,
    lhs: TypeCheckedExpression,
    lhs_type: Type,
    rhs: TypeCheckedExpression,
    rhs_type: Type,
    return_type: Type,
) -> (result: Result<(ExpressionKind, Type), TypeCheckError>)
    ensures
        final(unification_map).nodes().len() == old(unification_map).nodes().len(),
        result matches Ok((k, t)) ==> t == return_type && k == ExpressionKind::Binary(
            op,
            Box::new(lhs),
            Box::new(rhs),
        ),
        result is Ok <==> spec_unify(
            old(unification_map).nodes(),
            lhs.ty@,
            lhs_type@,
            UNIFY_FUEL as nat,
        ).1 is Ok && spec_unify(
            spec_unify(old(unification_map).nodes(), lhs.ty@, lhs_type@, UNIFY_FUEL as nat).0,
            rhs.ty@,
            rhs_type@,
            UNIFY_FUEL as nat,
        ).1 is Ok,
        final(unification_map).nodes() == {
            let (first, left_ok) = spec_unify(
                old(unification_map).nodes(),
                lhs.ty@,
                lhs_type@,
                UNIFY_FUEL as nat,
            );
            if left_ok is Err {
                first
            } else {
                spec_unify(first, rhs.ty@, rhs_type@, UNIFY_FUEL as nat).0
            }
        },
        result matches Err(e) ==> {
            let (first, left_ok) = spec_unify(
                old(unification_map).nodes(),
                lhs.ty@,
                lhs_type@,
                UNIFY_FUEL as nat,
            );
            if left_ok is Err {
                reported(e, left_ok->Err_0, lhs.span)
            } else {
                reported(e, spec_unify(first, rhs.ty@, rhs_type@, UNIFY_FUEL as nat).1->Err_0, rhs.span)
            }
        },
{
    unification_map.unify(&lhs.ty, &lhs_type, lhs.span)?;
    unification_map.unify(&rhs.ty, &rhs_type, rhs.span)?;
    Ok((ExpressionKind::Binary(op, Box::new(lhs), Box::new(rhs)), return_type))
}

/// The type a call produces once `arguments` are applied, one per arrow.
pub fn get_type_after_applying_arguments(
    unification_map: &mut UnificationMap,
    fn_type: &Type,
    arguments: &Vec<TypeCheckedExpression>,
    span: SourceSpan,
) -> (result: Result<Type, TypeCheckError>)
    ensures
        final(unification_map).nodes().len() >= old(unification_map).nodes().len(),
        result is Ok <==> call_type(
            old(unification_map).nodes(),
            fn_type@,
            types_of(exprs_view(arguments@)),
        ).1 is Some,
        result matches Ok(t) ==> (final(unification_map).nodes(), Some(t@)) == call_type(
            old(unification_map).nodes(),
            fn_type@,
            types_of(exprs_view(arguments@)),
        ),
        arguments@.len() > 0 && spec_shape(old(unification_map).nodes(), fn_type@) is NotCallable
            ==> (result matches Err(TypeCheckError::NotAFunction { .. })),
        result matches Err(e) ==> failure_is(
            e,
            call_failure(
                old(unification_map).nodes(),
                fn_type@,
                types_of(exprs_view(arguments@)),
                span,
            ),
            Seq::empty(),
        ),
        final(unification_map).nodes() == call_type(
            old(unification_map).nodes(),
            fn_type@,
            types_of(exprs_view(arguments@)),
        ).0,
{
    let resolved = unification_map.representative(fn_type);
    if arguments.len() == 0 {
        return match resolved {
            Type::Fn(None, return_type) => Ok(*return_type),
            other => Ok(other),
        };
    }
    match &resolved {
        Type::Fn(..) | Type::Var(_) => apply_arguments(unification_map, &resolved, arguments, 0, span),
        _ => Err(TypeCheckError::NotAFunction { found: resolved, span }),
    }
}

/// What a callee's type allows: a function, an unknown, or neither.
pub enum CalleeShape {
    Function,
    Unknown,
    NotCallable,
}

pub open spec fn spec_shape(nodes: Seq<super::unification::NodeView>, t: super::typed_ast::TypeView) -> CalleeShape {
    match super::unification::spec_representative(nodes, t) {
        super::typed_ast::TypeView::Fn(..) => CalleeShape::Function,
        super::typed_ast::TypeView::Var(_) => CalleeShape::Unknown,
        _ => CalleeShape::NotCallable,
    }
}

/// Peels one arrow of `fn_type` per argument from `next` on, unifying each parameter with its
/// argument. An unknown callee is given a function shape as it goes.
fn apply_arguments(
    unification_map: &mut UnificationMap,
    fn_type: &Type,
    arguments: &Vec<TypeCheckedExpression>,
    next: usize,
    span: SourceSpan,
) -> (result: Result<Type, TypeCheckError>)
    requires
        next <= arguments@.len(),
    ensures
        final(unification_map).nodes().len() >= old(unification_map).nodes().len(),
        result is Ok <==> applied_type(
            old(unification_map).nodes(),
            fn_type@,
            types_of(exprs_view(arguments@)),
            next as nat,
        ).1 is Some,
        result matches Ok(t) ==> (final(unification_map).nodes(), Some(t@)) == applied_type(
            old(unification_map).nodes(),
            fn_type@,
            types_of(exprs_view(arguments@)),
            next as nat,
        ),
        result matches Err(e) ==> failure_is(
            e,
            applied_failure(
                old(unification_map).nodes(),
                fn_type@,
                types_of(exprs_view(arguments@)),
                next as nat,
                span,
            ),
            Seq::empty(),
        ),
        final(unification_map).nodes() == applied_type(
            old(unification_map).nodes(),
            fn_type@,
            types_of(exprs_view(arguments@)),
            next as nat,
        ).0,
    decreases arguments@.len() - next,
{
    if next >= arguments.len() {
        return Ok(clone_type(fn_type));
    }
    let arg = &arguments[next];
    match unification_map.representative(fn_type) {
        Type::Fn(Some(param_type), return_type) => {
            unification_map.unify(&param_type, &arg.ty, span)?;
            apply_arguments(unification_map, &return_type, arguments, next + 1, span)
        },
        Type::Fn(None, _) => Err(TypeCheckError::ArgumentsToArgumentlessFunction { span }),
        Type::Var(v) => {
            let callee = Type::Var(v);
            let result = Type::Var(unification_map.mint_new_type_var());
            let fn_shape = Type::Fn(Some(Box::new(clone_type(&arg.ty))), Box::new(clone_type(&result)));
            unification_map.unify(&callee, &fn_shape, span)?;
            apply_arguments(unification_map, &result, arguments, next + 1, span)
        },
        _ => Err(TypeCheckError::TooManyArguments { span }),
    }
}

/// The annotated type, or a fresh variable when there is no annotation.
fn resolve_type_dec(
    dec: &Option<ResolvedTypeExpression>,
    unification_map: &mut UnificationMap,
    ctx: &InferenceCtx,
) -> (ty: Result<Type, TypeCheckError>)
    ensures
        final(unification_map).nodes().len() >= old(unification_map).nodes().len(),
        final(unification_map).nodes() == annotated_or_fresh(
            *dec,
            ctx.type_env.slots(),
            old(unification_map).nodes(),
        ).0,
        ty is Ok <==> annotated_or_fresh(
            *dec,
            ctx.type_env.slots(),
            old(unification_map).nodes(),
        ).1 is Some,
        ty matches Ok(t) ==> annotated_or_fresh(
            *dec,
            ctx.type_env.slots(),
            old(unification_map).nodes(),
        ).1 == Some(t@),
        dec is None ==> (ty matches Ok(Type::Var(v)) && v.0 == old(unification_map).nodes().len()),
        ty matches Err(e) ==> e is InternalError,
{
    match dec {
        Some(dec) => get_type_from_type_expression(dec, ctx),
        None => Ok(Type::Var(unification_map.mint_new_type_var())),
    }
}

} // verus!
