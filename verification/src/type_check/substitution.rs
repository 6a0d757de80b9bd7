//! Rewrites every type in a checked tree with what unification settled on.

use vstd::prelude::*;

use super::typed_ast::{
    ExprView, ExpressionKind, KindView, Lambda, LambdaView, LiteralView, Param,
    TypeCheckedExpression, TypeCheckedLiteral, TypeView, expr_view, kind_view, literal_view,
    node_type_ok, record_view, well_typed,
};
use super::agreement::{lemma_root_found_is_root, lemma_root_of_root};
use super::unification::{
    NodeView, UNIFY_FUEL, UnificationMap, spec_representative, spec_root, spec_subst,
};

verus! {

/// A type with every solved variable replaced, as far as `nodes` settles it.
pub open spec fn subst_type(nodes: Seq<NodeView>, t: TypeView) -> TypeView {
    spec_subst(nodes, t, UNIFY_FUEL as nat)
}

/// Substituting `t` never meets a solved variable with its fuel spent: the solutions it
/// passes through nest no deeper than `fuel`.
pub open spec fn subst_completes(nodes: Seq<NodeView>, t: TypeView, fuel: nat) -> bool
    decreases fuel, t,
{
    match t {
        TypeView::Var(v) => match spec_root(nodes, v as int) {
            Some(r) => match nodes[r] {
                NodeView::Concrete(c) => fuel > 0 && subst_completes(nodes, c, (fuel - 1) as nat),
                _ => true,
            },
            None => true,
        },
        TypeView::Fn(p, r) => (match p {
            Some(p) => subst_completes(nodes, *p, fuel),
            None => true,
        }) && subst_completes(nodes, *r, fuel),
        TypeView::Record(fields) => forall|i: int|
            0 <= i < fields.len() ==> subst_completes(nodes, #[trigger] fields[i].1, fuel),
        _ => true,
    }
}

/// Every variable in `t` is its own representative: the root of a class with no solution,
/// or a variable the map never minted.
pub open spec fn settled(nodes: Seq<NodeView>, t: TypeView) -> bool
    decreases t,
{
    match t {
        TypeView::Var(_) => spec_representative(nodes, t) == t,
        TypeView::Fn(p, r) => (match p {
            Some(p) => settled(nodes, *p),
            None => true,
        }) && settled(nodes, *r),
        TypeView::Record(fields) => forall|i: int|
            0 <= i < fields.len() ==> settled(nodes, #[trigger] fields[i].1),
        _ => true,
    }
}

/// Substitution leaves a settled type as it is.
proof fn lemma_settled_is_fixed(nodes: Seq<NodeView>, u: TypeView, fuel: nat)
    requires
        settled(nodes, u),
    ensures
        spec_subst(nodes, u, fuel) == u,
    decreases fuel, u,
{
    match u {
        TypeView::Var(v) => {
            if let Some(r) = spec_root(nodes, v as int) {
                lemma_root_found_is_root(nodes, v as int, nodes.len());
                if let NodeView::Concrete(c) = nodes[r] {
                    if fuel > 0 {
                        lemma_settled_is_fixed(nodes, u, (fuel - 1) as nat);
                    }
                }
            }
        },
        TypeView::Fn(p, r) => {
            if let Some(p) = p {
                lemma_settled_is_fixed(nodes, *p, fuel);
            }
            lemma_settled_is_fixed(nodes, *r, fuel);
        },
        TypeView::Record(fields) => {
            assert forall|i: int| 0 <= i < fields.len() implies spec_subst(
                nodes,
                #[trigger] fields[i].1,
                fuel,
            ) == fields[i].1 by {
                lemma_settled_is_fixed(nodes, fields[i].1, fuel);
            }
            if let TypeView::Record(out) = spec_subst(nodes, u, fuel) {
                assert(out =~= fields);
            }
        },
        _ => {},
    }
}

/// What a substitution that completes gives is settled.
proof fn lemma_subst_settles(nodes: Seq<NodeView>, t: TypeView, fuel: nat)
    requires
        subst_completes(nodes, t, fuel),
    ensures
        settled(nodes, spec_subst(nodes, t, fuel)),
    decreases fuel, t,
{
    match t {
        TypeView::Var(v) => {
            if let Some(r) = spec_root(nodes, v as int) {
                lemma_root_found_is_root(nodes, v as int, nodes.len());
                if let NodeView::Concrete(c) = nodes[r] {
                    lemma_subst_settles(nodes, c, (fuel - 1) as nat);
                } else {
                    lemma_root_of_root(nodes, r);
                }
            }
        },
        TypeView::Fn(p, r) => {
            if let Some(p) = p {
                lemma_subst_settles(nodes, *p, fuel);
            }
            lemma_subst_settles(nodes, *r, fuel);
        },
        TypeView::Record(fields) => {
            assert forall|i: int| 0 <= i < fields.len() implies settled(
                nodes,
                spec_subst(nodes, #[trigger] fields[i].1, fuel),
            ) by {
                lemma_subst_settles(nodes, fields[i].1, fuel);
            }
        },
        _ => {},
    }
}

/// Substitution is idempotent: what it leaves of a variable is the root of a class with no
/// solution, or a variable never minted, so substituting its result again changes nothing.
/// This holds wherever substitution completes within its fuel.
pub proof fn lemma_subst_idempotent(nodes: Seq<NodeView>, t: TypeView, fuel: nat)
    requires
        subst_completes(nodes, t, fuel),
    ensures
        settled(nodes, spec_subst(nodes, t, fuel)),
        spec_subst(nodes, spec_subst(nodes, t, fuel), fuel) == spec_subst(nodes, t, fuel),
{
    lemma_subst_settles(nodes, t, fuel);
    lemma_settled_is_fixed(nodes, spec_subst(nodes, t, fuel), fuel);
}

/// The tree `e` with every type in it, its own and its parts', passed through [`subst_type`].
pub open spec fn subst_expr(nodes: Seq<NodeView>, e: ExprView) -> ExprView
    decreases e,
{
    ExprView {
        kind: match e.kind {
            KindView::Literal(LiteralView::Record(fields)) => KindView::Literal(
                LiteralView::Record(
                    Seq::new(
                        fields.len(),
                        |i: int|
                            (
                                fields[i].0,
                                if 0 <= i < fields.len() {
                                    subst_expr(nodes, fields[i].1)
                                } else {
                                    arbitrary()
                                },
                            ),
                    ),
                ),
            ),
            KindView::Literal(literal) => KindView::Literal(literal),
            KindView::Var(id) => KindView::Var(id),
            KindView::Binary(op, l, r) => KindView::Binary(
                op,
                Box::new(subst_expr(nodes, *l)),
                Box::new(subst_expr(nodes, *r)),
            ),
            KindView::Unary(op, operand) => KindView::Unary(
                op,
                Box::new(subst_expr(nodes, *operand)),
            ),
            KindView::Call(function, args) => KindView::Call(
                Box::new(subst_expr(nodes, *function)),
                Seq::new(
                    args.len(),
                    |i: int|
                        if 0 <= i < args.len() {
                            subst_expr(nodes, args[i])
                        } else {
                            arbitrary()
                        },
                ),
            ),
            KindView::If(c, t, f) => KindView::If(
                Box::new(subst_expr(nodes, *c)),
                Box::new(subst_expr(nodes, *t)),
                match f {
                    Some(f) => Some(Box::new(subst_expr(nodes, *f))),
                    None => None,
                },
            ),
            KindView::Lambda(l) => KindView::Lambda(
                LambdaView {
                    parameter: match l.parameter {
                        Some((b, t)) => Some((b, subst_type(nodes, t))),
                        None => None,
                    },
                    body: Box::new(subst_expr(nodes, *l.body)),
                },
            ),
            KindView::Let(b, v) => KindView::Let(b, Box::new(subst_expr(nodes, *v))),
            KindView::Block(es) => KindView::Block(
                Seq::new(
                    es.len(),
                    |i: int|
                        if 0 <= i < es.len() {
                            subst_expr(nodes, es[i])
                        } else {
                            arbitrary()
                        },
                ),
            ),
            KindView::FieldAccess(target, name) => KindView::FieldAccess(
                Box::new(subst_expr(nodes, *target)),
                name,
            ),
            KindView::TypeDeclaration(id, t) => KindView::TypeDeclaration(id, subst_type(nodes, t)),
        },
        span: e.span,
        ty: subst_type(nodes, e.ty),
    }
}

/// Substitution keeps a tree well typed: it rewrites every type by the same map, and the
/// typing rules of [`node_type_ok`] are all equalities between types.
pub proof fn lemma_subst_keeps_typing(nodes: Seq<NodeView>, e: ExprView)
    requires
        well_typed(e),
    ensures
        well_typed(subst_expr(nodes, e)),
    decreases e,
{
    let s = subst_expr(nodes, e);
    match e.kind {
        KindView::Literal(LiteralView::Record(fields)) => {
            let sf = match s.kind {
                KindView::Literal(LiteralView::Record(sf)) => sf,
                _ => Seq::empty(),
            };
            assert(sf.len() == fields.len());
            assert forall|i: int| 0 <= i < sf.len() implies well_typed(#[trigger] sf[i].1) by {
                assert(sf[i] == (fields[i].0, subst_expr(nodes, fields[i].1)));
                lemma_subst_keeps_typing(nodes, fields[i].1);
            }
            let rs = record_view(s.ty);
            let re = record_view(e.ty);
            assert(s.ty == subst_type(nodes, e.ty));
            assert(rs.len() == re.len());
            assert forall|i: int| 0 <= i < sf.len() implies #[trigger] rs[i] == (
                sf[i].0,
                sf[i].1.ty,
            ) by {
                assert(re[i] == (fields[i].0, fields[i].1.ty));
                assert(rs[i] == (re[i].0, subst_type(nodes, re[i].1)));
                assert(sf[i] == (fields[i].0, subst_expr(nodes, fields[i].1)));
            }
        },
        KindView::Binary(_, l, r) => {
            lemma_subst_keeps_typing(nodes, *l);
            lemma_subst_keeps_typing(nodes, *r);
        },
        KindView::Unary(_, operand) => {
            lemma_subst_keeps_typing(nodes, *operand);
        },
        KindView::Call(function, args) => {
            lemma_subst_keeps_typing(nodes, *function);
            let sa = match s.kind {
                KindView::Call(_, sa) => sa,
                _ => Seq::empty(),
            };
            assert forall|i: int| 0 <= i < sa.len() implies well_typed(#[trigger] sa[i]) by {
                assert(sa[i] == subst_expr(nodes, args[i]));
                lemma_subst_keeps_typing(nodes, args[i]);
            }
        },
        KindView::If(c, t, f) => {
            lemma_subst_keeps_typing(nodes, *c);
            lemma_subst_keeps_typing(nodes, *t);
            match f {
                Some(f) => lemma_subst_keeps_typing(nodes, *f),
                None => {},
            }
        },
        KindView::Lambda(l) => {
            lemma_subst_keeps_typing(nodes, *l.body);
        },
        KindView::Let(_, v) => {
            lemma_subst_keeps_typing(nodes, *v);
        },
        KindView::Block(es) => {
            let se = match s.kind {
                KindView::Block(se) => se,
                _ => Seq::empty(),
            };
            assert forall|i: int| 0 <= i < se.len() implies well_typed(#[trigger] se[i]) by {
                assert(se[i] == subst_expr(nodes, es[i]));
                lemma_subst_keeps_typing(nodes, es[i]);
            }
            if es.len() > 0 {
                assert(se.last() == subst_expr(nodes, es.last()));
            }
        },
        KindView::FieldAccess(target, _) => {
            lemma_subst_keeps_typing(nodes, *target);
        },
        _ => {},
    }
}

/// `expr` with its type, and every type within it, substituted through `map`.
#[verifier::loop_isolation(false)]
#[verifier::rlimit(60)]
pub fn subsitute_in_expr(map: &UnificationMap, expr: &TypeCheckedExpression) -> (substituted:
    TypeCheckedExpression)
    ensures
        substituted@ == subst_expr(map.nodes(), expr@),
    decreases expr,
{
    let kind = match &expr.kind {
        ExpressionKind::Literal(literal) => {
            let literal = match literal {
                TypeCheckedLiteral::Int(v) => TypeCheckedLiteral::Int(*v),
                TypeCheckedLiteral::Bool(v) => TypeCheckedLiteral::Bool(*v),
                TypeCheckedLiteral::Float(v) => TypeCheckedLiteral::Float(v.clone()),
                TypeCheckedLiteral::String(v) => TypeCheckedLiteral::String(v.clone()),
                TypeCheckedLiteral::Unit => TypeCheckedLiteral::Unit,
                TypeCheckedLiteral::Record(fields) => {
                    let mut out: Vec<(String, TypeCheckedExpression)> = Vec::new();
                    let mut i: usize = 0;
                    while i < fields.len()
                        invariant
                            0 <= i <= fields.len(),
                            out@.len() == i,
                            forall|j: int|
                                0 <= j < i ==> #[trigger] out@[j].0@ == fields@[j].0@ && expr_view(
                                    out@[j].1,
                                ) == subst_expr(map.nodes(), expr_view(fields@[j].1)),
                        decreases fields.len() - i,
                    {
                        proof {
                            assert(decreases_to!(*expr => fields@[i as int].1));
                        }
                        out.push((fields[i].0.clone(), subsitute_in_expr(map, &fields[i].1)));
                        i = i + 1;
                    }
                    let r = TypeCheckedLiteral::Record(out);
                    proof {
                        let b = match literal_view(*literal) {
                            LiteralView::Record(b) => b,
                            _ => Seq::empty(),
                        };
                        match (literal_view(r), subst_expr(map.nodes(), expr@).kind) {
                            (LiteralView::Record(a), KindView::Literal(LiteralView::Record(c))) => {
                                assert forall|i: int| 0 <= i < a.len() implies a[i] == c[i] by {
                                    assert(c[i] == (b[i].0, subst_expr(map.nodes(), b[i].1)));
                                }
                                assert(a =~= c);
                            },
                            _ => {},
                        }
                    }
                    r
                },
            };
            ExpressionKind::Literal(literal)
        },
        ExpressionKind::Var(id) => ExpressionKind::Var(*id),
        ExpressionKind::Binary(op, lhs, rhs) => ExpressionKind::Binary(
            *op,
            Box::new(subsitute_in_expr(map, lhs)),
            Box::new(subsitute_in_expr(map, rhs)),
        ),
        ExpressionKind::Unary(op, operand) => ExpressionKind::Unary(
            *op,
            Box::new(subsitute_in_expr(map, operand)),
        ),
        ExpressionKind::If { condition, then_branch, else_branch } => {
            let else_branch = match else_branch {
                Some(else_branch) => Some(Box::new(subsitute_in_expr(map, else_branch))),
                None => None,
            };
            ExpressionKind::If {
                condition: Box::new(subsitute_in_expr(map, condition)),
                then_branch: Box::new(subsitute_in_expr(map, then_branch)),
                else_branch,
            }
        },
        ExpressionKind::Lambda(lambda) => {
            let parameter = match &lambda.parameter {
                Some(param) => Some(Param { binding: param.binding, ty: map.subsitute(&param.ty) }),
                None => None,
            };
            ExpressionKind::Lambda(
                Lambda { parameter, body: Box::new(subsitute_in_expr(map, &lambda.body)) },
            )
        },
        ExpressionKind::FunctionInvocation { function, arguments } => {
            let mut out: Vec<TypeCheckedExpression> = Vec::new();
            let mut i: usize = 0;
            while i < arguments.len()
                invariant
                    0 <= i <= arguments.len(),
                    out@.len() == i,
                    forall|j: int|
                        0 <= j < i ==> #[trigger] expr_view(out@[j]) == subst_expr(
                            map.nodes(),
                            expr_view(arguments@[j]),
                        ),
                decreases arguments.len() - i,
            {
                proof {
                    assert(decreases_to!(*expr => arguments@[i as int]));
                }
                out.push(subsitute_in_expr(map, &arguments[i]));
                i = i + 1;
            }
            let ghost out_view = out@;
            let k = ExpressionKind::FunctionInvocation {
                function: Box::new(subsitute_in_expr(map, function)),
                arguments: out,
            };
            proof {
                let b = match kind_view(expr.kind) {
                    KindView::Call(_, b) => b,
                    _ => Seq::empty(),
                };
                match (kind_view(k), subst_expr(map.nodes(), expr@).kind) {
                    (KindView::Call(_, a), KindView::Call(_, c)) => {
                        assert forall|i: int| 0 <= i < a.len() implies a[i] == c[i] by {
                            assert(a[i] == expr_view(out_view[i]));
                            assert(c[i] == subst_expr(map.nodes(), b[i]));
                        }
                        assert(a =~= c);
                    },
                    _ => {},
                }
            }
            k
        },
        ExpressionKind::Let { binding, value } => ExpressionKind::Let {
            binding: *binding,
            value: Box::new(subsitute_in_expr(map, value)),
        },
        ExpressionKind::FieldAccess { target, field_name } => ExpressionKind::FieldAccess {
            target: Box::new(subsitute_in_expr(map, target)),
            field_name: field_name.clone(),
        },
        ExpressionKind::Block(expressions) => {
            let mut out: Vec<TypeCheckedExpression> = Vec::new();
            let mut i: usize = 0;
            while i < expressions.len()
                invariant
                    0 <= i <= expressions.len(),
                    out@.len() == i,
                    forall|j: int|
                        0 <= j < i ==> #[trigger] expr_view(out@[j]) == subst_expr(
                            map.nodes(),
                            expr_view(expressions@[j]),
                        ),
                decreases expressions.len() - i,
            {
                proof {
                    assert(decreases_to!(*expr => expressions@[i as int]));
                }
                out.push(subsitute_in_expr(map, &expressions[i]));
                i = i + 1;
            }
            let ghost out_view = out@;
            let k = ExpressionKind::Block(out);
            proof {
                let b = match kind_view(expr.kind) {
                    KindView::Block(b) => b,
                    _ => Seq::empty(),
                };
                match (kind_view(k), subst_expr(map.nodes(), expr@).kind) {
                    (KindView::Block(a), KindView::Block(c)) => {
                        assert forall|i: int| 0 <= i < a.len() implies a[i] == c[i] by {
                            assert(a[i] == expr_view(out_view[i]));
                            assert(c[i] == subst_expr(map.nodes(), b[i]));
                        }
                        assert(a =~= c);
                    },
                    _ => {},
                }
            }
            k
        },
        ExpressionKind::TypeDeclaration { identifier, type_expression } => {
            ExpressionKind::TypeDeclaration {
                identifier: *identifier,
                type_expression: map.subsitute(type_expression),
            }
        },
    };
    assert(expr.kind is Literal ==> kind_view(kind) == subst_expr(map.nodes(), expr@).kind);
    assert(expr.kind is Var ==> kind_view(kind) == subst_expr(map.nodes(), expr@).kind);
    assert(expr.kind is Binary ==> kind_view(kind) == subst_expr(map.nodes(), expr@).kind);
    assert(expr.kind is Unary ==> kind_view(kind) == subst_expr(map.nodes(), expr@).kind);
    assert(expr.kind is If ==> kind_view(kind) == subst_expr(map.nodes(), expr@).kind);
    assert(expr.kind is Lambda ==> kind_view(kind) == subst_expr(map.nodes(), expr@).kind);
    assert(expr.kind is FunctionInvocation ==> kind_view(kind) == subst_expr(map.nodes(), expr@).kind);
    assert(expr.kind is Let ==> kind_view(kind) == subst_expr(map.nodes(), expr@).kind);
    assert(expr.kind is FieldAccess ==> kind_view(kind) == subst_expr(map.nodes(), expr@).kind);
    assert(expr.kind is Block ==> kind_view(kind) == subst_expr(map.nodes(), expr@).kind);
    assert(expr.kind is TypeDeclaration ==> kind_view(kind) == subst_expr(map.nodes(), expr@).kind);
    TypeCheckedExpression { kind, span: expr.span, ty: map.subsitute(&expr.ty) }
}

} // verus!
