//! What inference leaves true: every constraint it solved still holds, at every depth, in the
//! map it ends with.

use vstd::prelude::*;

use super::agreement::{
    agree, lemma_agree_after_mint, lemma_agree_same_representative, lemma_agree_trans,
    lemma_representative_after_mint, lemma_representative_idempotent, lemma_unify_keeps,
    lemma_unify_sound, refs_in_range, solutions_not_vars,
};
use super::typed_ast::{ExprView, KindView, Literal, LiteralView, TypeView};
use super::typing::{
    InferState, annotated_or_fresh, applied_type, binary_typed, call_type, infer_all,
    infer_fields, initial_state, operator_signature, spec_infer, types_of, with_nodes,
};
use crate::binding_resolution::binding_resolved::{
    ResolvedExpression, ResolvedExpressionKind, ResolvedLiteral,
};
use super::unification::{
    NodeView, UNIFY_FUEL, field_type_from, has_field, spec_representative, spec_unify,
};
use crate::parse::ast::{BinaryOp, UnaryOp};

verus! {

/// A map as unification builds it: no variable solved to a bare variable, and every
/// reference pointing into the map.
pub open spec fn map_valid(nodes: Seq<NodeView>) -> bool {
    solutions_not_vars(nodes) && refs_in_range(nodes)
}

/// `after` knows at least what `before` knew: it is valid, no shorter, every agreement of
/// `before` holds in it, and every type that `before` had solved stands for the same thing.
pub open spec fn grows(before: Seq<NodeView>, after: Seq<NodeView>) -> bool {
    &&& before.len() <= after.len()
    &&& map_valid(after)
    &&& forall|a: TypeView, b: TypeView, k: nat|
        agree(before, a, b, k) ==> #[trigger] agree(after, a, b, k)
    &&& forall|t: TypeView|
        !(spec_representative(before, t) is Var) ==> #[trigger] spec_representative(after, t)
            == spec_representative(before, t)
}

/// `found` and `expected` agree at every depth.
pub open spec fn agrees(nodes: Seq<NodeView>, found: TypeView, expected: TypeView) -> bool {
    forall|k: nat| #[trigger] agree(nodes, found, expected, k)
}

/// The type a callee must have to take arguments of the types `args[next..]`, one per arrow,
/// and give `result`.
pub open spec fn curried(args: Seq<TypeView>, next: nat, result: TypeView) -> TypeView
    decreases args.len() - next,
{
    if next >= args.len() {
        result
    } else {
        TypeView::Fn(Some(Box::new(args[next as int])), Box::new(curried(args, next + 1, result)))
    }
}

/// The type an operand of a unary operator must have.
pub open spec fn unary_operand(op: UnaryOp) -> TypeView {
    match op {
        UnaryOp::Neg => TypeView::Literal(Literal::Int),
        UnaryOp::Not => TypeView::Literal(Literal::Bool),
    }
}

/// Every constraint inference solves for the typed tree `t` holds in `nodes`: each operand
/// agrees with the type its operator takes; the right side of a pipe stands for a function
/// of one parameter, with which the left side agrees, and the pipe has its result type; an
/// `if`'s condition agrees with `Bool` and its other branch with its first; a field read is of
/// a record that has the field, and has that field's type; a callee agrees with a function
/// taking the arguments one per arrow and giving the call's type, and a call with no
/// arguments has the result of an argumentless callee, or else the callee's own type.
pub open spec fn constraints_hold(nodes: Seq<NodeView>, t: ExprView) -> bool
    decreases t,
{
    match t.kind {
        KindView::Literal(LiteralView::Record(fields)) => forall|i: int|
            0 <= i < fields.len() ==> constraints_hold(nodes, #[trigger] fields[i].1),
        KindView::Binary(op, l, r) => constraints_hold(nodes, *l) && constraints_hold(nodes, *r)
            && if op == BinaryOp::Pipe {
            (spec_representative(nodes, r.ty) matches TypeView::Fn(Some(input), output) && agrees(
                nodes,
                l.ty,
                *input,
            ) && t.ty == *output)
        } else {
            agrees(nodes, l.ty, operator_signature(op).0) && agrees(
                nodes,
                r.ty,
                operator_signature(op).0,
            )
        },
        KindView::Unary(op, operand) => constraints_hold(nodes, *operand) && agrees(
            nodes,
            operand.ty,
            unary_operand(op),
        ),
        KindView::Call(function, args) => constraints_hold(nodes, *function) && (forall|i: int|
            0 <= i < args.len() ==> constraints_hold(nodes, #[trigger] args[i])) && if args.len()
            == 0 {
            (spec_representative(nodes, function.ty) matches TypeView::Fn(None, ret) && agrees(
                nodes,
                t.ty,
                *ret,
            )) || agrees(nodes, t.ty, function.ty)
        } else {
            agrees(nodes, function.ty, curried(types_of(args), 0, t.ty))
        },
        KindView::If(c, then_branch, else_branch) => constraints_hold(nodes, *c) && constraints_hold(
            nodes,
            *then_branch,
        ) && agrees(nodes, c.ty, TypeView::Literal(Literal::Bool)) && match else_branch {
            Some(other) => constraints_hold(nodes, *other) && agrees(
                nodes,
                other.ty,
                then_branch.ty,
            ),
            None => true,
        },
        KindView::Lambda(l) => constraints_hold(nodes, *l.body),
        KindView::Let(_, value) => constraints_hold(nodes, *value),
        KindView::Block(es) => forall|i: int|
            0 <= i < es.len() ==> constraints_hold(nodes, #[trigger] es[i]),
        KindView::FieldAccess(target, name) => constraints_hold(nodes, *target) && (
        spec_representative(nodes, target.ty) matches TypeView::Record(fields) && has_field(
            fields,
            name,
        ) && t.ty == field_type_from(fields, name, 0)),
        _ => true,
    }
}

proof fn lemma_grows_refl(nodes: Seq<NodeView>)
    requires
        map_valid(nodes),
    ensures
        grows(nodes, nodes),
{
}

proof fn lemma_grows_trans(n1: Seq<NodeView>, n2: Seq<NodeView>, n3: Seq<NodeView>)
    requires
        grows(n1, n2),
        grows(n2, n3),
    ensures
        grows(n1, n3),
{
    assert forall|a: TypeView, b: TypeView, k: nat| agree(n1, a, b, k) implies #[trigger] agree(
        n3,
        a,
        b,
        k,
    ) by {
        assert(agree(n2, a, b, k));
    }
    assert forall|t: TypeView| !(spec_representative(n1, t) is Var) implies #[trigger] spec_representative(
        n3,
        t,
    ) == spec_representative(n1, t) by {
        assert(spec_representative(n2, t) == spec_representative(n1, t));
    }
}

/// Unifying grows the map; when it succeeds, the two types agree at every depth.
proof fn lemma_grows_unify(nodes: Seq<NodeView>, found: TypeView, expected: TypeView)
    requires
        map_valid(nodes),
    ensures
        grows(nodes, spec_unify(nodes, found, expected, UNIFY_FUEL as nat).0),
        spec_unify(nodes, found, expected, UNIFY_FUEL as nat).1 is Ok ==> agrees(
            spec_unify(nodes, found, expected, UNIFY_FUEL as nat).0,
            found,
            expected,
        ),
{
    let after = spec_unify(nodes, found, expected, UNIFY_FUEL as nat).0;
    lemma_unify_keeps(nodes, found, expected, UNIFY_FUEL as nat, found, found, 0, found);
    assert forall|a: TypeView, b: TypeView, k: nat| agree(nodes, a, b, k) implies #[trigger] agree(
        after,
        a,
        b,
        k,
    ) by {
        lemma_unify_keeps(nodes, found, expected, UNIFY_FUEL as nat, a, b, k, a);
    }
    assert forall|t: TypeView| !(spec_representative(nodes, t) is Var) implies #[trigger] spec_representative(
        after,
        t,
    ) == spec_representative(nodes, t) by {
        lemma_unify_keeps(nodes, found, expected, UNIFY_FUEL as nat, t, t, 0, t);
    }
    if spec_unify(nodes, found, expected, UNIFY_FUEL as nat).1 is Ok {
        assert forall|k: nat| #[trigger] agree(after, found, expected, k) by {
            lemma_unify_sound(nodes, found, expected, k);
        }
    }
}

/// Minting a fresh variable grows the map.
proof fn lemma_grows_mint(nodes: Seq<NodeView>)
    requires
        map_valid(nodes),
    ensures
        grows(nodes, nodes.push(NodeView::Free)),
{
    let minted = nodes.push(NodeView::Free);
    assert forall|a: TypeView, b: TypeView, k: nat| agree(nodes, a, b, k) implies #[trigger] agree(
        minted,
        a,
        b,
        k,
    ) by {
        lemma_agree_after_mint(nodes, a, b, k);
    }
    assert forall|t: TypeView| !(spec_representative(nodes, t) is Var) implies #[trigger] spec_representative(
        minted,
        t,
    ) == spec_representative(nodes, t) by {
        lemma_representative_after_mint(nodes, t);
    }
    assert(solutions_not_vars(minted)) by {
        assert forall|i: int| 0 <= i < minted.len() implies (#[trigger] minted[i] matches NodeView::Concrete(c)
            ==> !(c is Var)) by {
            if i < nodes.len() {
                assert(minted[i] == nodes[i]);
            }
        }
    }
    assert(refs_in_range(minted)) by {
        assert forall|i: int| 0 <= i < minted.len() implies (#[trigger] minted[i] matches NodeView::Reference(r)
            ==> r < minted.len()) by {
            if i < nodes.len() {
                assert(minted[i] == nodes[i]);
            }
        }
    }
}

proof fn lemma_agrees_persist(n1: Seq<NodeView>, n2: Seq<NodeView>, a: TypeView, b: TypeView)
    requires
        grows(n1, n2),
        agrees(n1, a, b),
    ensures
        agrees(n2, a, b),
{
    assert forall|k: nat| #[trigger] agree(n2, a, b, k) by {
        assert(agree(n1, a, b, k));
    }
}

/// What holds of a typed tree in a map holds in any map that grows from it.
pub proof fn lemma_constraints_persist(n1: Seq<NodeView>, n2: Seq<NodeView>, t: ExprView)
    requires
        grows(n1, n2),
        constraints_hold(n1, t),
    ensures
        constraints_hold(n2, t),
    decreases t,
{
    match t.kind {
        KindView::Literal(LiteralView::Record(fields)) => {
            assert forall|i: int| 0 <= i < fields.len() implies constraints_hold(
                n2,
                #[trigger] fields[i].1,
            ) by {
                lemma_constraints_persist(n1, n2, fields[i].1);
            }
        },
        KindView::Binary(op, l, r) => {
            lemma_constraints_persist(n1, n2, *l);
            lemma_constraints_persist(n1, n2, *r);
            if op == BinaryOp::Pipe {
                if let TypeView::Fn(Some(input), output) = spec_representative(n1, r.ty) {
                    lemma_agrees_persist(n1, n2, l.ty, *input);
                }
            } else {
                lemma_agrees_persist(n1, n2, l.ty, operator_signature(op).0);
                lemma_agrees_persist(n1, n2, r.ty, operator_signature(op).0);
            }
        },
        KindView::Unary(op, operand) => {
            lemma_constraints_persist(n1, n2, *operand);
            lemma_agrees_persist(n1, n2, operand.ty, unary_operand(op));
        },
        KindView::Call(function, args) => {
            lemma_constraints_persist(n1, n2, *function);
            assert forall|i: int| 0 <= i < args.len() implies constraints_hold(
                n2,
                #[trigger] args[i],
            ) by {
                lemma_constraints_persist(n1, n2, args[i]);
            }
            if args.len() == 0 {
                match spec_representative(n1, function.ty) {
                    TypeView::Fn(None, ret) => {
                        if agrees(n1, t.ty, *ret) {
                            lemma_agrees_persist(n1, n2, t.ty, *ret);
                        } else {
                            lemma_agrees_persist(n1, n2, t.ty, function.ty);
                        }
                    },
                    _ => {
                        lemma_agrees_persist(n1, n2, t.ty, function.ty);
                    },
                }
            } else {
                lemma_agrees_persist(n1, n2, function.ty, curried(types_of(args), 0, t.ty));
            }
        },
        KindView::If(c, then_branch, else_branch) => {
            lemma_constraints_persist(n1, n2, *c);
            lemma_constraints_persist(n1, n2, *then_branch);
            lemma_agrees_persist(n1, n2, c.ty, TypeView::Literal(Literal::Bool));
            if let Some(other) = else_branch {
                lemma_constraints_persist(n1, n2, *other);
                lemma_agrees_persist(n1, n2, other.ty, then_branch.ty);
            }
        },
        KindView::Lambda(l) => {
            lemma_constraints_persist(n1, n2, *l.body);
        },
        KindView::Let(_, value) => {
            lemma_constraints_persist(n1, n2, *value);
        },
        KindView::Block(es) => {
            assert forall|i: int| 0 <= i < es.len() implies constraints_hold(
                n2,
                #[trigger] es[i],
            ) by {
                lemma_constraints_persist(n1, n2, es[i]);
            }
        },
        KindView::FieldAccess(target, _) => {
            lemma_constraints_persist(n1, n2, *target);
        },
        _ => {},
    }
}

proof fn lemma_grows_annotated(
    dec: Option<crate::binding_resolution::binding_resolved::ResolvedTypeExpression>,
    types: Seq<Option<TypeView>>,
    nodes: Seq<NodeView>,
)
    requires
        map_valid(nodes),
    ensures
        grows(nodes, annotated_or_fresh(dec, types, nodes).0),
{
    if dec is None {
        lemma_grows_mint(nodes);
    }
}

proof fn lemma_grows_applied(nodes: Seq<NodeView>, callee: TypeView, args: Seq<TypeView>, next: nat)
    requires
        map_valid(nodes),
    ensures
        grows(nodes, applied_type(nodes, callee, args, next).0),
    decreases args.len() - next,
{
    if next < args.len() {
        match spec_representative(nodes, callee) {
            TypeView::Fn(Some(param), ret) => {
                let (after, unified) = spec_unify(nodes, *param, args[next as int], UNIFY_FUEL as nat);
                lemma_grows_unify(nodes, *param, args[next as int]);
                if unified is Ok {
                    lemma_grows_applied(after, *ret, args, next + 1);
                    lemma_grows_trans(nodes, after, applied_type(after, *ret, args, next + 1).0);
                }
            },
            TypeView::Var(v) => {
                let minted = nodes.push(NodeView::Free);
                let result = TypeView::Var(nodes.len());
                let shape = TypeView::Fn(Some(Box::new(args[next as int])), Box::new(result));
                lemma_grows_mint(nodes);
                let (after, unified) = spec_unify(minted, TypeView::Var(v), shape, UNIFY_FUEL as nat);
                lemma_grows_unify(minted, TypeView::Var(v), shape);
                lemma_grows_trans(nodes, minted, after);
                if unified is Ok {
                    lemma_grows_applied(after, result, args, next + 1);
                    lemma_grows_trans(nodes, after, applied_type(after, result, args, next + 1).0);
                }
            },
            _ => {
                lemma_grows_refl(nodes);
            },
        }
    } else {
        lemma_grows_refl(nodes);
    }
}

proof fn lemma_grows_call(nodes: Seq<NodeView>, callee: TypeView, args: Seq<TypeView>)
    requires
        map_valid(nodes),
    ensures
        grows(nodes, call_type(nodes, callee, args).0),
{
    let resolved = spec_representative(nodes, callee);
    if args.len() > 0 && (resolved is Fn || resolved is Var) {
        lemma_grows_applied(nodes, resolved, args, 0);
    } else {
        lemma_grows_refl(nodes);
    }
}

/// Applying arguments that succeed leaves the callee agreeing with a function taking them
/// one per arrow and giving what is left.
proof fn lemma_applied_agrees(nodes: Seq<NodeView>, callee: TypeView, args: Seq<TypeView>, next: nat)
    requires
        map_valid(nodes),
        next <= args.len(),
        applied_type(nodes, callee, args, next).1 is Some,
    ensures
        agrees(
            applied_type(nodes, callee, args, next).0,
            callee,
            curried(args, next, applied_type(nodes, callee, args, next).1->Some_0),
        ),
    decreases args.len() - next,
{
    let (after, r) = applied_type(nodes, callee, args, next);
    let r = r->Some_0;
    if next >= args.len() {
        assert forall|k: nat| #[trigger] agree(after, callee, curried(args, next, r), k) by {
            lemma_agree_same_representative(after, callee, callee, k);
        }
    } else {
        let arg = args[next as int];
        match spec_representative(nodes, callee) {
            TypeView::Fn(Some(param), ret) => {
                let (after1, _) = spec_unify(nodes, *param, arg, UNIFY_FUEL as nat);
                lemma_grows_unify(nodes, *param, arg);
                lemma_applied_agrees(after1, *ret, args, next + 1);
                lemma_grows_applied(after1, *ret, args, next + 1);
                lemma_grows_trans(nodes, after1, after);
                assert forall|k: nat| #[trigger] agree(after, callee, curried(args, next, r), k) by {
                    if k > 0 {
                        let j = (k - 1) as nat;
                        lemma_unify_sound(nodes, *param, arg, j);
                        assert(agree(after1, *param, arg, j));
                        assert(agree(after, *param, arg, j));
                        assert(agree(after, *ret, curried(args, next + 1, r), j));
                    }
                }
            },
            TypeView::Var(v) => {
                let minted = nodes.push(NodeView::Free);
                let result = TypeView::Var(nodes.len());
                let shape = TypeView::Fn(Some(Box::new(arg)), Box::new(result));
                lemma_grows_mint(nodes);
                let (after1, _) = spec_unify(minted, TypeView::Var(v), shape, UNIFY_FUEL as nat);
                lemma_grows_unify(minted, TypeView::Var(v), shape);
                lemma_grows_trans(nodes, minted, after1);
                lemma_applied_agrees(after1, result, args, next + 1);
                lemma_grows_applied(after1, result, args, next + 1);
                lemma_grows_trans(nodes, after1, after);
                lemma_grows_trans(minted, after1, after);
                lemma_representative_idempotent(nodes, callee);
                assert forall|k: nat| #[trigger] agree(after, callee, curried(args, next, r), k) by {
                    lemma_agree_same_representative(nodes, callee, TypeView::Var(v), k);
                    assert(agree(after, callee, TypeView::Var(v), k));
                    lemma_unify_sound(minted, TypeView::Var(v), shape, k);
                    assert(agree(after, TypeView::Var(v), shape, k));
                    if k > 0 {
                        let j = (k - 1) as nat;
                        lemma_agree_same_representative(after, arg, arg, j);
                        assert(agree(after, result, curried(args, next + 1, r), j));
                    }
                    assert(agree(after, shape, curried(args, next, r), k));
                    lemma_agree_trans(after, TypeView::Var(v), shape, curried(args, next, r), k);
                    lemma_agree_trans(after, callee, TypeView::Var(v), curried(args, next, r), k);
                }
            },
            _ => {},
        }
    }
}

/// A call that succeeds meets the call's constraint in the map it leaves.
proof fn lemma_call_agrees(nodes: Seq<NodeView>, callee: TypeView, args: Seq<TypeView>)
    requires
        map_valid(nodes),
        call_type(nodes, callee, args).1 is Some,
    ensures
        ({
            let (after, out) = call_type(nodes, callee, args);
            let t = out->Some_0;
            if args.len() == 0 {
                (spec_representative(after, callee) matches TypeView::Fn(None, ret) && agrees(
                    after,
                    t,
                    *ret,
                )) || agrees(after, t, callee)
            } else {
                agrees(after, callee, curried(args, 0, t))
            }
        }),
{
    let resolved = spec_representative(nodes, callee);
    lemma_representative_idempotent(nodes, callee);
    let (after, out) = call_type(nodes, callee, args);
    let t = out->Some_0;
    if args.len() == 0 {
        match resolved {
            TypeView::Fn(None, ret) => {
                assert forall|k: nat| #[trigger] agree(after, t, *ret, k) by {
                    lemma_agree_same_representative(after, t, *ret, k);
                }
            },
            _ => {
                assert forall|k: nat| #[trigger] agree(after, t, callee, k) by {
                    lemma_agree_same_representative(after, t, callee, k);
                }
            },
        }
    } else {
        lemma_applied_agrees(nodes, resolved, args, 0);
        lemma_grows_applied(nodes, resolved, args, 0);
        assert forall|k: nat| #[trigger] agree(after, callee, curried(args, 0, t), k) by {
            lemma_agree_same_representative(nodes, callee, resolved, k);
            assert(agree(after, callee, resolved, k));
            lemma_agree_trans(after, callee, resolved, curried(args, 0, t), k);
        }
    }
}

/// Typing a binary node grows the map, and what it types meets the node's own constraint.
proof fn lemma_binary_holds(
    nodes: Seq<NodeView>,
    op: BinaryOp,
    l: ExprView,
    r: ExprView,
    span: crate::span::SourceSpan,
)
    requires
        map_valid(nodes),
    ensures
        grows(nodes, binary_typed(nodes, op, l, r, span).0),
        binary_typed(nodes, op, l, r, span).1 matches Some(t) ==> t.kind == KindView::Binary(
            op,
            Box::new(l),
            Box::new(r),
        ) && if op == BinaryOp::Pipe {
            (spec_representative(binary_typed(nodes, op, l, r, span).0, r.ty) matches TypeView::Fn(
                Some(input),
                output,
            ) && agrees(binary_typed(nodes, op, l, r, span).0, l.ty, *input) && t.ty == *output)
        } else {
            agrees(binary_typed(nodes, op, l, r, span).0, l.ty, operator_signature(op).0) && agrees(
                binary_typed(nodes, op, l, r, span).0,
                r.ty,
                operator_signature(op).0,
            )
        },
{
    if op == BinaryOp::Pipe {
        match spec_representative(nodes, r.ty) {
            TypeView::Fn(Some(input), output) => {
                lemma_grows_unify(nodes, l.ty, *input);
                let after = spec_unify(nodes, l.ty, *input, UNIFY_FUEL as nat).0;
                assert(spec_representative(after, r.ty) == spec_representative(nodes, r.ty));
            },
            _ => {
                lemma_grows_refl(nodes);
            },
        }
    } else {
        let operand = operator_signature(op).0;
        let (first, left_ok) = spec_unify(nodes, l.ty, operand, UNIFY_FUEL as nat);
        lemma_grows_unify(nodes, l.ty, operand);
        if left_ok is Ok {
            lemma_grows_unify(first, r.ty, operand);
            let second = spec_unify(first, r.ty, operand, UNIFY_FUEL as nat).0;
            lemma_grows_trans(nodes, first, second);
            if spec_unify(first, r.ty, operand, UNIFY_FUEL as nat).1 is Ok {
                lemma_agrees_persist(first, second, l.ty, operand);
            }
        }
    }
}

/// Inference grows the map, and the typed tree it gives meets every constraint in the map it
/// ends with.
pub proof fn lemma_infer_holds(st: InferState, e: ResolvedExpression)
    requires
        map_valid(st.nodes),
    ensures
        grows(st.nodes, spec_infer(st, e).0.nodes),
        spec_infer(st, e).1 matches Some(t) ==> constraints_hold(spec_infer(st, e).0.nodes, t),
    decreases e, 1nat,
{
    match e.kind {
        ResolvedExpressionKind::Literal(ResolvedLiteral::Record(fields)) => {
            lemma_infer_record_holds(st, e);
        },
        ResolvedExpressionKind::Binary(..) => {
            lemma_infer_binary_holds(st, e);
        },
        ResolvedExpressionKind::Unary(..) => {
            lemma_infer_unary_holds(st, e);
        },
        ResolvedExpressionKind::Lambda(..) => {
            lemma_infer_lambda_holds(st, e);
        },
        ResolvedExpressionKind::FunctionInvocation { .. } => {
            lemma_infer_call_holds(st, e);
        },
        ResolvedExpressionKind::FieldAccess { .. } => {
            lemma_infer_field_holds(st, e);
        },
        ResolvedExpressionKind::Let { .. } => {
            lemma_infer_let_holds(st, e);
        },
        ResolvedExpressionKind::Block(..) => {
            lemma_infer_block_holds(st, e);
        },
        ResolvedExpressionKind::If { .. } => {
            lemma_infer_if_holds(st, e);
        },
        _ => {
            lemma_grows_refl(st.nodes);
        },
    }
}

proof fn lemma_infer_record_holds(st: InferState, e: ResolvedExpression)
    requires
        map_valid(st.nodes),
        e.kind matches ResolvedExpressionKind::Literal(ResolvedLiteral::Record(_)),
    ensures
        grows(st.nodes, spec_infer(st, e).0.nodes),
        spec_infer(st, e).1 matches Some(t) ==> constraints_hold(spec_infer(st, e).0.nodes, t),
    decreases e, 0nat,
{
    if let ResolvedExpressionKind::Literal(ResolvedLiteral::Record(fields)) = e.kind {
        lemma_infer_fields_holds(st, fields@);
    }
}

proof fn lemma_infer_fields_holds(st: InferState, fields: Seq<(String, ResolvedExpression)>)
    requires
        map_valid(st.nodes),
    ensures
        grows(st.nodes, infer_fields(st, fields).0.nodes),
        infer_fields(st, fields).1 matches Some(tf) ==> forall|i: int|
            0 <= i < tf.len() ==> constraints_hold(
                infer_fields(st, fields).0.nodes,
                #[trigger] tf[i].1,
            ),
    decreases fields, 0nat,
{
    if fields.len() == 0 {
        lemma_grows_refl(st.nodes);
    } else {
        lemma_infer_fields_holds(st, fields.drop_last());
        let (st1, done) = infer_fields(st, fields.drop_last());
        if let Some(done) = done {
            lemma_infer_holds(st1, fields.last().1);
            let (st2, v) = spec_infer(st1, fields.last().1);
            lemma_grows_trans(st.nodes, st1.nodes, st2.nodes);
            if let Some(v) = v {
                let all = done.push((fields.last().0@, v));
                assert forall|i: int| 0 <= i < all.len() implies constraints_hold(
                    st2.nodes,
                    #[trigger] all[i].1,
                ) by {
                    if i < done.len() {
                        lemma_constraints_persist(st1.nodes, st2.nodes, done[i].1);
                    }
                }
            }
        }
    }
}

proof fn lemma_infer_all_holds(st: InferState, es: Seq<ResolvedExpression>)
    requires
        map_valid(st.nodes),
    ensures
        grows(st.nodes, infer_all(st, es).0.nodes),
        infer_all(st, es).1 matches Some(ts) ==> forall|i: int|
            0 <= i < ts.len() ==> constraints_hold(infer_all(st, es).0.nodes, #[trigger] ts[i]),
    decreases es, 0nat,
{
    if es.len() == 0 {
        lemma_grows_refl(st.nodes);
    } else {
        lemma_infer_all_holds(st, es.drop_last());
        let (st1, done) = infer_all(st, es.drop_last());
        if let Some(done) = done {
            lemma_infer_holds(st1, es.last());
            let (st2, v) = spec_infer(st1, es.last());
            lemma_grows_trans(st.nodes, st1.nodes, st2.nodes);
            if let Some(v) = v {
                let all = done.push(v);
                assert forall|i: int| 0 <= i < all.len() implies constraints_hold(
                    st2.nodes,
                    #[trigger] all[i],
                ) by {
                    if i < done.len() {
                        lemma_constraints_persist(st1.nodes, st2.nodes, done[i]);
                    }
                }
            }
        }
    }
}

proof fn lemma_infer_binary_holds(st: InferState, e: ResolvedExpression)
    requires
        map_valid(st.nodes),
        e.kind is Binary,
    ensures
        grows(st.nodes, spec_infer(st, e).0.nodes),
        spec_infer(st, e).1 matches Some(t) ==> constraints_hold(spec_infer(st, e).0.nodes, t),
    decreases e, 0nat,
{
    if let ResolvedExpressionKind::Binary(op, l, r) = e.kind {
        lemma_infer_holds(st, *l);
        let (st1, tl) = spec_infer(st, *l);
        if let Some(tl) = tl {
            lemma_infer_holds(st1, *r);
            let (st2, tr) = spec_infer(st1, *r);
            lemma_grows_trans(st.nodes, st1.nodes, st2.nodes);
            if let Some(tr) = tr {
                lemma_binary_holds(st2.nodes, op, tl, tr, e.span);
                let after = binary_typed(st2.nodes, op, tl, tr, e.span).0;
                lemma_grows_trans(st.nodes, st2.nodes, after);
                lemma_grows_trans(st1.nodes, st2.nodes, after);
                lemma_constraints_persist(st1.nodes, after, tl);
                lemma_constraints_persist(st2.nodes, after, tr);
            }
        }
    }
}

proof fn lemma_infer_unary_holds(st: InferState, e: ResolvedExpression)
    requires
        map_valid(st.nodes),
        e.kind is Unary,
    ensures
        grows(st.nodes, spec_infer(st, e).0.nodes),
        spec_infer(st, e).1 matches Some(t) ==> constraints_hold(spec_infer(st, e).0.nodes, t),
    decreases e, 0nat,
{
    if let ResolvedExpressionKind::Unary(op, operand) = e.kind {
        lemma_infer_holds(st, *operand);
        let (st1, to) = spec_infer(st, *operand);
        if let Some(to) = to {
            let ty = unary_operand(op);
            lemma_grows_unify(st1.nodes, to.ty, ty);
            let after = spec_unify(st1.nodes, to.ty, ty, UNIFY_FUEL as nat).0;
            lemma_grows_trans(st.nodes, st1.nodes, after);
            lemma_constraints_persist(st1.nodes, after, to);
        }
    }
}

proof fn lemma_infer_lambda_holds(st: InferState, e: ResolvedExpression)
    requires
        map_valid(st.nodes),
        e.kind is Lambda,
    ensures
        grows(st.nodes, spec_infer(st, e).0.nodes),
        spec_infer(st, e).1 matches Some(t) ==> constraints_hold(spec_infer(st, e).0.nodes, t),
    decreases e, 0nat,
{
    if let ResolvedExpressionKind::Lambda(l) = e.kind {
        let (st1, parameter, param_ok) = match l.parameter {
            Some(p) => {
                let (nodes1, pt) = annotated_or_fresh(p.type_dec, st.types, st.nodes);
                match pt {
                    Some(pt) => if p.binding.0 < st.vars.len() {
                        (
                            InferState {
                                vars: st.vars.update(p.binding.0 as int, Some(pt)),
                                types: st.types,
                                nodes: nodes1,
                            },
                            Some((p.binding.0 as nat, pt)),
                            true,
                        )
                    } else {
                        (with_nodes(st, nodes1), None, false)
                    },
                    None => (with_nodes(st, nodes1), None, false),
                }
            },
            None => (st, None, true),
        };
        let nodes1 = st1.nodes;
        match l.parameter {
            Some(p) => lemma_grows_annotated(p.type_dec, st.types, st.nodes),
            None => lemma_grows_refl(st.nodes),
        }
        lemma_infer_holds(st1, *l.body);
        let (st2, body) = spec_infer(st1, *l.body);
        lemma_grows_trans(st.nodes, nodes1, st2.nodes);
        if let Some(body) = body {
            lemma_grows_annotated(l.return_type, st2.types, st2.nodes);
            let (nodes3, rt) = annotated_or_fresh(l.return_type, st2.types, st2.nodes);
            lemma_grows_trans(st.nodes, st2.nodes, nodes3);
            if let Some(rt) = rt {
                lemma_grows_unify(nodes3, body.ty, rt);
                let nodes4 = spec_unify(nodes3, body.ty, rt, UNIFY_FUEL as nat).0;
                lemma_grows_trans(st.nodes, nodes3, nodes4);
                lemma_grows_trans(st2.nodes, nodes3, nodes4);
                lemma_constraints_persist(st2.nodes, nodes4, body);
            }
        }
    }
}

proof fn lemma_infer_call_holds(st: InferState, e: ResolvedExpression)
    requires
        map_valid(st.nodes),
        e.kind is FunctionInvocation,
    ensures
        grows(st.nodes, spec_infer(st, e).0.nodes),
        spec_infer(st, e).1 matches Some(t) ==> constraints_hold(spec_infer(st, e).0.nodes, t),
    decreases e, 0nat,
{
    if let ResolvedExpressionKind::FunctionInvocation { function, arguments } = e.kind {
        lemma_infer_all_holds(st, arguments@);
        let (st1, targs) = infer_all(st, arguments@);
        if let Some(targs) = targs {
            lemma_infer_holds(st1, *function);
            let (st2, tf) = spec_infer(st1, *function);
            lemma_grows_trans(st.nodes, st1.nodes, st2.nodes);
            if let Some(tf) = tf {
                lemma_grows_call(st2.nodes, tf.ty, types_of(targs));
                let nodes3 = call_type(st2.nodes, tf.ty, types_of(targs)).0;
                lemma_grows_trans(st.nodes, st2.nodes, nodes3);
                lemma_grows_trans(st1.nodes, st2.nodes, nodes3);
                lemma_constraints_persist(st2.nodes, nodes3, tf);
                assert forall|i: int| 0 <= i < targs.len() implies constraints_hold(
                    nodes3,
                    #[trigger] targs[i],
                ) by {
                    lemma_constraints_persist(st1.nodes, nodes3, targs[i]);
                }
                if call_type(st2.nodes, tf.ty, types_of(targs)).1 is Some {
                    lemma_call_agrees(st2.nodes, tf.ty, types_of(targs));
                }
            }
        }
    }
}

proof fn lemma_infer_field_holds(st: InferState, e: ResolvedExpression)
    requires
        map_valid(st.nodes),
        e.kind is FieldAccess,
    ensures
        grows(st.nodes, spec_infer(st, e).0.nodes),
        spec_infer(st, e).1 matches Some(t) ==> constraints_hold(spec_infer(st, e).0.nodes, t),
    decreases e, 0nat,
{
    if let ResolvedExpressionKind::FieldAccess { target, .. } = e.kind {
        lemma_infer_holds(st, *target);
    }
}

proof fn lemma_infer_let_holds(st: InferState, e: ResolvedExpression)
    requires
        map_valid(st.nodes),
        e.kind is Let,
    ensures
        grows(st.nodes, spec_infer(st, e).0.nodes),
        spec_infer(st, e).1 matches Some(t) ==> constraints_hold(spec_infer(st, e).0.nodes, t),
    decreases e, 0nat,
{
    if let ResolvedExpressionKind::Let { type_dec, value, .. } = e.kind {
        lemma_infer_holds(st, *value);
        let (st1, tv) = spec_infer(st, *value);
        if let Some(tv) = tv {
            lemma_grows_annotated(type_dec, st1.types, st1.nodes);
            let (nodes2, bt) = annotated_or_fresh(type_dec, st1.types, st1.nodes);
            lemma_grows_trans(st.nodes, st1.nodes, nodes2);
            if let Some(bt) = bt {
                lemma_grows_unify(nodes2, tv.ty, bt);
                let nodes3 = spec_unify(nodes2, tv.ty, bt, UNIFY_FUEL as nat).0;
                lemma_grows_trans(st.nodes, nodes2, nodes3);
                lemma_grows_trans(st1.nodes, nodes2, nodes3);
                lemma_constraints_persist(st1.nodes, nodes3, tv);
            }
        }
    }
}

proof fn lemma_infer_block_holds(st: InferState, e: ResolvedExpression)
    requires
        map_valid(st.nodes),
        e.kind is Block,
    ensures
        grows(st.nodes, spec_infer(st, e).0.nodes),
        spec_infer(st, e).1 matches Some(t) ==> constraints_hold(spec_infer(st, e).0.nodes, t),
    decreases e, 0nat,
{
    if let ResolvedExpressionKind::Block(es) = e.kind {
        lemma_infer_all_holds(st, es@);
    }
}

#[verifier::rlimit(80)]
proof fn lemma_infer_if_holds(st: InferState, e: ResolvedExpression)
    requires
        map_valid(st.nodes),
        e.kind is If,
    ensures
        grows(st.nodes, spec_infer(st, e).0.nodes),
        spec_infer(st, e).1 matches Some(t) ==> constraints_hold(spec_infer(st, e).0.nodes, t),
    decreases e, 0nat,
{
    if let ResolvedExpressionKind::If { condition, true_condition, false_condition } = e.kind {
        lemma_infer_holds(st, *condition);
        let (st1, tc) = spec_infer(st, *condition);
        if let Some(tc) = tc {
            let bool_type = TypeView::Literal(Literal::Bool);
            lemma_grows_unify(st1.nodes, tc.ty, bool_type);
            let (nodes2, cond_ok) = spec_unify(st1.nodes, tc.ty, bool_type, UNIFY_FUEL as nat);
            lemma_grows_trans(st.nodes, st1.nodes, nodes2);
            if cond_ok is Ok {
                let st2 = with_nodes(st1, nodes2);
                lemma_infer_holds(st2, *true_condition);
                let (st3, tt) = spec_infer(st2, *true_condition);
                lemma_grows_trans(st.nodes, nodes2, st3.nodes);
                lemma_grows_trans(st1.nodes, nodes2, st3.nodes);
                if let Some(tt) = tt {
                    match false_condition {
                        None => {
                            lemma_constraints_persist(st1.nodes, st3.nodes, tc);
                            lemma_agrees_persist(nodes2, st3.nodes, tc.ty, bool_type);
                        },
                        Some(f) => {
                            lemma_infer_holds(st3, *f);
                            let (st4, tf) = spec_infer(st3, *f);
                            lemma_grows_trans(st.nodes, st3.nodes, st4.nodes);
                            if let Some(tf) = tf {
                                lemma_grows_unify(st4.nodes, tf.ty, tt.ty);
                                let nodes5 = spec_unify(st4.nodes, tf.ty, tt.ty, UNIFY_FUEL as nat).0;
                                lemma_grows_trans(st.nodes, st4.nodes, nodes5);
                                lemma_grows_trans(st3.nodes, st4.nodes, nodes5);
                                lemma_grows_trans(st1.nodes, st3.nodes, nodes5);
                                lemma_grows_trans(nodes2, st3.nodes, nodes5);
                                lemma_constraints_persist(st1.nodes, nodes5, tc);
                                lemma_constraints_persist(st3.nodes, nodes5, tt);
                                lemma_constraints_persist(st4.nodes, nodes5, tf);
                                lemma_agrees_persist(nodes2, nodes5, tc.ty, bool_type);
                            }
                        },
                    }
                }
            }
        }
    }
}

/// Type inference is sound with respect to its own constraints: when every top-level
/// expression infers, each typed tree meets every constraint inference solved for it, at
/// every depth, in the map inference ends with. Type checking starts from the map of
/// [`initial_state`], which is empty and so valid.
pub proof fn lemma_inference_constraints_hold(st: InferState, es: Seq<ResolvedExpression>)
    requires
        map_valid(st.nodes),
    ensures
        infer_all(st, es).1 matches Some(ts) ==> forall|i: int|
            0 <= i < ts.len() ==> constraints_hold(infer_all(st, es).0.nodes, #[trigger] ts[i]),
{
    lemma_infer_all_holds(st, es);
}

/// Type checking starts from a valid map.
pub proof fn lemma_initial_map_valid(binding_count: nat, type_binding_count: nat)
    ensures
        map_valid(initial_state(binding_count, type_binding_count).nodes),
{
}

} // verus!
