//! The evaluator: runs a type-checked program, expression by expression, and yields the
//! value of the last one.
//!
//! Its meaning is the big-step semantics [`eval`] below, stated over the views of the tree
//! and of the values. Every recursive step spends one unit of a budget; a well-typed program
//! never comes near the budget that [`evaluate`] grants, and running out is reported as a
//! broken type-checking invariant.

pub mod error;

use std::rc::Rc;

use vstd::prelude::*;

pub use error::EvalError;

use crate::binding_resolution::binding_resolved::BindingId;
use crate::parse::ast::{BinaryOp, UnaryOp};
use crate::sharing::share;
use crate::span::SourceSpan;
use crate::type_check::typed_ast::{
    ExprView, ExpressionKind, KindView, Lambda, LambdaView, LiteralView, TypeCheckedExpression,
    TypeCheckedLiteral, TypeCheckedProgram, clone_lambda, exprs_view, expr_view, kind_view,
    literal_view,
};

verus! {

/// A run-time value. A float keeps the characters it was written with; a record keeps its
/// fields in the order of its literal, which is by name.
#[derive(Debug)]
pub enum Value {
    Int(i64),
    Bool(bool),
    Float(String),
    String(String),
    Record(Vec<(String, Value)>),
    Unit,
    Closure { lambda: Rc<Lambda>, env: Environment },
}

/// The bindings in scope, as a persistent list: extending an environment leaves it as it was.
#[derive(Debug, Default)]
pub struct Environment(Option<Rc<Scope>>);

#[derive(Debug)]
struct Scope {
    id: BindingId,
    value: Value,
    parent: Option<Rc<Scope>>,
}

/// The mathematical form of a [`Value`]. A closure is its lambda and the environment it
/// captured.
pub enum ValueView {
    Int(i64),
    Bool(bool),
    Float(Seq<char>),
    Str(Seq<char>),
    Record(Seq<(Seq<char>, ValueView)>),
    Unit,
    Closure(LambdaView, Seq<(nat, ValueView)>),
}

pub closed spec fn value_view(v: Value) -> ValueView
    decreases v,
{
    match v {
        Value::Int(n) => ValueView::Int(n),
        Value::Bool(b) => ValueView::Bool(b),
        Value::Float(text) => ValueView::Float(text@),
        Value::String(text) => ValueView::Str(text@),
        Value::Unit => ValueView::Unit,
        Value::Record(fields) => ValueView::Record(
            Seq::new(
                fields@.len(),
                |i: int|
                    (
                        fields@[i].0@,
                        if 0 <= i < fields@.len() {
                            value_view(fields@[i].1)
                        } else {
                            ValueView::Unit
                        },
                    ),
            ),
        ),
        Value::Closure { lambda, env } => ValueView::Closure(
            (*lambda)@,
            scopes_view(env.0),
        ),
    }
}

/// The bindings of a chain of scopes, oldest first.
spec fn scopes_view(scopes: Option<Rc<Scope>>) -> Seq<(nat, ValueView)>
    decreases scopes,
{
    match scopes {
        None => Seq::empty(),
        Some(scope) => scopes_view(scope.parent).push((scope.id.0 as nat, value_view(scope.value))),
    }
}

impl View for Value {
    type V = ValueView;

    closed spec fn view(&self) -> ValueView {
        value_view(*self)
    }
}

impl View for Environment {
    type V = Seq<(nat, ValueView)>;

    closed spec fn view(&self) -> Seq<(nat, ValueView)> {
        scopes_view(self.0)
    }
}

/// The views of a record's fields.
pub open spec fn fields_view(fields: Seq<(String, Value)>) -> Seq<(Seq<char>, ValueView)> {
    Seq::new(fields.len(), |i: int| (fields[i].0@, fields[i].1@))
}

/// The value of the most recent binding of `id`.
pub open spec fn lookup_view(env: Seq<(nat, ValueView)>, id: nat) -> Option<ValueView>
    decreases env.len(),
{
    if env.len() == 0 {
        None
    } else if env.last().0 == id {
        Some(env.last().1)
    } else {
        lookup_view(env.drop_last(), id)
    }
}

/// The value of the first field named `name`, looking from position `i` on.
pub open spec fn field_from(
    fields: Seq<(Seq<char>, ValueView)>,
    name: Seq<char>,
    i: nat,
) -> Option<ValueView>
    decreases fields.len() - i,
{
    if i >= fields.len() {
        None
    } else if fields[i as int].0 == name {
        Some(fields[i as int].1)
    } else {
        field_from(fields, name, i + 1)
    }
}

pub open spec fn invariant_error(span: SourceSpan, context: &'static str) -> EvalError {
    EvalError::InvariantDueToTypeCheck { context, span }
}

pub open spec fn abs(x: int) -> int {
    if x < 0 {
        -x
    } else {
        x
    }
}

/// Integer division that rounds toward zero, as Rust's `/` does.
pub open spec fn div_toward_zero(x: int, d: int) -> int {
    if (x < 0) == (d < 0) {
        abs(x) / abs(d)
    } else {
        -(abs(x) / abs(d))
    }
}

/// The exact result of an arithmetic operator, before it is fitted into 64 bits.
pub open spec fn exact_arithmetic(op: BinaryOp, l: int, r: int) -> int {
    match op {
        BinaryOp::Add => l + r,
        BinaryOp::Sub => l - r,
        BinaryOp::Mul => l * r,
        _ => div_toward_zero(l, r),
    }
}

pub open spec fn operator_symbol(op: BinaryOp) -> &'static str {
    match op {
        BinaryOp::Add => "+",
        BinaryOp::Sub => "-",
        BinaryOp::Mul => "*",
        _ => "/",
    }
}

pub open spec fn comparison(op: BinaryOp, l: i64, r: i64) -> bool {
    match op {
        BinaryOp::Lt => l < r,
        BinaryOp::Gt => l > r,
        BinaryOp::Le => l <= r,
        BinaryOp::Ge => l >= r,
        BinaryOp::Eq => l == r,
        _ => l != r,
    }
}

pub open spec fn is_arithmetic(op: BinaryOp) -> bool {
    op == BinaryOp::Add || op == BinaryOp::Sub || op == BinaryOp::Mul || op == BinaryOp::Div
}

pub open spec fn is_comparison(op: BinaryOp) -> bool {
    op == BinaryOp::Lt || op == BinaryOp::Gt || op == BinaryOp::Le || op == BinaryOp::Ge
        || op == BinaryOp::Eq || op == BinaryOp::Neq
}

/// What a unary operator gives for an evaluated operand.
pub open spec fn unary_result(op: UnaryOp, v: ValueView, span: SourceSpan) -> Result<
    ValueView,
    EvalError,
> {
    match op {
        UnaryOp::Neg => match v {
            ValueView::Int(n) => if n == i64::MIN {
                Err(EvalError::ArithmeticOverflow { operator: "-", lhs: 0, rhs: n, span })
            } else {
                Ok(ValueView::Int((-n) as i64))
            },
            _ => Err(invariant_error(span, "negation operand did not evaluate to an Int")),
        },
        UnaryOp::Not => match v {
            ValueView::Bool(b) => Ok(ValueView::Bool(!b)),
            _ => Err(invariant_error(span, "`!` operand did not evaluate to a Bool")),
        },
    }
}

/// What a binary operator gives for two evaluated operands; a pipe applies its right
/// operand to its left.
pub open spec fn binary_result(
    fuel: nat,
    op: BinaryOp,
    lhs: ValueView,
    rhs: ValueView,
    span: SourceSpan,
) -> Result<ValueView, EvalError>
    decreases fuel, 2nat,
{
    if is_arithmetic(op) {
        match (lhs, rhs) {
            (ValueView::Int(l), ValueView::Int(r)) => if op == BinaryOp::Div && r == 0 {
                Err(EvalError::DivisionByZero { span })
            } else if i64::MIN <= exact_arithmetic(op, l as int, r as int) <= i64::MAX {
                Ok(ValueView::Int(exact_arithmetic(op, l as int, r as int) as i64))
            } else {
                Err(
                    EvalError::ArithmeticOverflow {
                        operator: operator_symbol(op),
                        lhs: l,
                        rhs: r,
                        span,
                    },
                )
            },
            _ => Err(invariant_error(span, "arithmetic operands did not evaluate to Ints")),
        }
    } else if is_comparison(op) {
        match (lhs, rhs) {
            (ValueView::Int(l), ValueView::Int(r)) => Ok(ValueView::Bool(comparison(op, l, r))),
            _ => Err(invariant_error(span, "comparison operands did not evaluate to Ints")),
        }
    } else if op == BinaryOp::And || op == BinaryOp::Or {
        match (lhs, rhs) {
            (ValueView::Bool(l), ValueView::Bool(r)) => Ok(
                ValueView::Bool(
                    if op == BinaryOp::And {
                        l && r
                    } else {
                        l || r
                    },
                ),
            ),
            _ => Err(invariant_error(span, "logical operands did not evaluate to Bools")),
        }
    } else {
        apply_result(fuel, rhs, Some(lhs), span)
    }
}

/// Calling a closure: its body runs in the environment it captured, extended with the
/// argument when it takes one.
pub open spec fn apply_result(
    fuel: nat,
    callee: ValueView,
    arg: Option<ValueView>,
    span: SourceSpan,
) -> Result<ValueView, EvalError>
    decreases fuel, 1nat,
{
    match callee {
        ValueView::Closure(lambda, captured) => match (arg, lambda.parameter) {
            (Some(a), Some(param)) => eval(fuel, captured.push((param.0, a)), *lambda.body).1,
            (None, None) => eval(fuel, captured, *lambda.body).1,
            _ => Err(
                invariant_error(span, "argument count does not match the closure's parameter"),
            ),
        },
        _ => Err(invariant_error(span, "callee did not evaluate to a closure")),
    }
}

/// Evaluates `args[i..]` in turn and applies the function value to each; the environment
/// threads through.
pub open spec fn eval_arguments(
    fuel: nat,
    env: Seq<(nat, ValueView)>,
    function: ValueView,
    args: Seq<ExprView>,
    i: nat,
    span: SourceSpan,
) -> (Seq<(nat, ValueView)>, Result<ValueView, EvalError>)
    decreases fuel, (args.len() - i + 2) as nat,
{
    if i >= args.len() {
        (env, Ok(function))
    } else {
        let (env1, arg) = eval(fuel, env, args[i as int]);
        match arg {
            Err(e) => (env1, Err(e)),
            Ok(a) => match apply_result(fuel, function, Some(a), span) {
                Err(e) => (env1, Err(e)),
                Ok(next) => eval_arguments(fuel, env1, next, args, i + 1, span),
            },
        }
    }
}

/// Evaluates `exprs[i..]` in turn; the value is the last one's, or `last` if none is left.
pub open spec fn eval_sequence(
    fuel: nat,
    env: Seq<(nat, ValueView)>,
    exprs: Seq<ExprView>,
    i: nat,
    last: ValueView,
) -> Result<ValueView, EvalError>
    decreases fuel, (exprs.len() - i + 2) as nat,
{
    if i >= exprs.len() {
        Ok(last)
    } else {
        let (env1, r) = eval(fuel, env, exprs[i as int]);
        match r {
            Err(e) => Err(e),
            Ok(v) => eval_sequence(fuel, env1, exprs, i + 1, v),
        }
    }
}

/// Evaluates the fields `fields[i..]` of a record literal in turn, appending to `done`.
pub open spec fn eval_fields(
    fuel: nat,
    env: Seq<(nat, ValueView)>,
    fields: Seq<(Seq<char>, ExprView)>,
    i: nat,
    done: Seq<(Seq<char>, ValueView)>,
) -> (Seq<(nat, ValueView)>, Result<Seq<(Seq<char>, ValueView)>, EvalError>)
    decreases fuel, (fields.len() - i + 2) as nat,
{
    if i >= fields.len() {
        (env, Ok(done))
    } else {
        let (env1, r) = eval(fuel, env, fields[i as int].1);
        match r {
            Err(e) => (env1, Err(e)),
            Ok(v) => eval_fields(fuel, env1, fields, i + 1, done.push((fields[i as int].0, v))),
        }
    }
}

/// The big-step semantics: the environment after evaluating `e` in `env`, and its value or
/// why it has none. A `let` extends the environment it is evaluated in; a block's own
/// bindings end with it.
pub open spec fn eval(fuel: nat, env: Seq<(nat, ValueView)>, e: ExprView) -> (
    Seq<(nat, ValueView)>,
    Result<ValueView, EvalError>,
)
    decreases fuel, 0nat,
{
    if fuel == 0 {
        (env, Err(invariant_error(e.span, "evaluation ran past its step budget")))
    } else {
        let f = (fuel - 1) as nat;
        match e.kind {
            KindView::Literal(literal) => match literal {
                LiteralView::Int(n) => (env, Ok(ValueView::Int(n))),
                LiteralView::Bool(b) => (env, Ok(ValueView::Bool(b))),
                LiteralView::Float(text) => (env, Ok(ValueView::Float(text))),
                LiteralView::Str(text) => (env, Ok(ValueView::Str(text))),
                LiteralView::Unit => (env, Ok(ValueView::Unit)),
                LiteralView::Record(fields) => {
                    let (env1, r) = eval_fields(f, env, fields, 0, Seq::empty());
                    (
                        env1,
                        match r {
                            Ok(values) => Ok(ValueView::Record(values)),
                            Err(x) => Err(x),
                        },
                    )
                },
            },
            KindView::Var(id) => (
                env,
                match lookup_view(env, id) {
                    Some(v) => Ok(v),
                    None => Err(
                        invariant_error(e.span, "resolved variable is not bound in the environment"),
                    ),
                },
            ),
            KindView::Binary(op, lhs, rhs) => {
                let (env1, l) = eval(f, env, *lhs);
                match l {
                    Err(x) => (env1, Err(x)),
                    Ok(lv) => {
                        let (env2, r) = eval(f, env1, *rhs);
                        match r {
                            Err(x) => (env2, Err(x)),
                            Ok(rv) => (env2, binary_result(f, op, lv, rv, e.span)),
                        }
                    },
                }
            },
            KindView::Unary(op, operand) => {
                let (env1, v) = eval(f, env, *operand);
                match v {
                    Err(x) => (env1, Err(x)),
                    Ok(v) => (env1, unary_result(op, v, operand.span)),
                }
            },
            KindView::Call(callee, args) => {
                let (env1, fv) = eval(f, env, *callee);
                match fv {
                    Err(x) => (env1, Err(x)),
                    Ok(fv) => if args.len() == 0 && (fv matches ValueView::Closure(lambda, _)
                        && lambda.parameter is None) {
                        (env1, apply_result(f, fv, None, callee.span))
                    } else {
                        eval_arguments(f, env1, fv, args, 0, callee.span)
                    },
                }
            },
            KindView::If(condition, then_branch, else_branch) => {
                let (env1, c) = eval(f, env, *condition);
                match c {
                    Err(x) => (env1, Err(x)),
                    Ok(ValueView::Bool(taken)) => if taken {
                        eval(f, env1, *then_branch)
                    } else {
                        match else_branch {
                            Some(other) => eval(f, env1, *other),
                            None => (env1, Ok(ValueView::Unit)),
                        }
                    },
                    Ok(_) => (
                        env1,
                        Err(invariant_error(condition.span, "if condition did not evaluate to a Bool")),
                    ),
                }
            },
            KindView::Lambda(lambda) => (env, Ok(ValueView::Closure(lambda, env))),
            KindView::Let(id, value) => {
                let (env1, v) = eval(f, env, *value);
                match v {
                    Err(x) => (env1, Err(x)),
                    Ok(v) => (env1.push((id, v)), Ok(ValueView::Unit)),
                }
            },
            KindView::Block(exprs) => (env, eval_sequence(f, env, exprs, 0, ValueView::Unit)),
            KindView::FieldAccess(target, name) => {
                let (env1, t) = eval(f, env, *target);
                match t {
                    Err(x) => (env1, Err(x)),
                    Ok(ValueView::Record(fields)) => (
                        env1,
                        match field_from(fields, name, 0) {
                            Some(v) => Ok(v),
                            None => Err(
                                invariant_error(e.span, "record is missing a type-checked field"),
                            ),
                        },
                    ),
                    Ok(_) => (
                        env1,
                        Err(
                            invariant_error(
                                target.span,
                                "field access target did not evaluate to a record",
                            ),
                        ),
                    ),
                }
            },
            KindView::TypeDeclaration(_, _) => (env, Ok(ValueView::Unit)),
        }
    }
}

/// Extending an environment binds the new name for every later lookup of it, and leaves
/// every other name as it was: a newer binding shadows an older one of the same id.
pub proof fn lemma_lookup_after_extend(
    env: Seq<(nat, ValueView)>,
    id: nat,
    value: ValueView,
    other: nat,
)
    ensures
        lookup_view(env.push((id, value)), id) == Some(value),
        other != id ==> lookup_view(env.push((id, value)), other) == lookup_view(env, other),
{
    assert(env.push((id, value)).drop_last() =~= env);
}

/// A block's bindings end with it: evaluating a block leaves the environment as it was.
pub proof fn lemma_block_keeps_environment(fuel: nat, env: Seq<(nat, ValueView)>, e: ExprView)
    requires
        e.kind is Block,
    ensures
        eval(fuel, env, e).0 == env,
{
}

/// A `let` whose value evaluates binds that value: the name looks it up afterwards.
pub proof fn lemma_let_binds_its_value(fuel: nat, env: Seq<(nat, ValueView)>, e: ExprView)
    requires
        e.kind is Let,
        eval(fuel, env, e).1 is Ok,
    ensures
        ({
            let (id, value) = match e.kind {
                KindView::Let(id, value) => (id, *value),
                _ => (0, e),
            };
            let (env1, v) = eval((fuel - 1) as nat, env, value);
            &&& v is Ok
            &&& eval(fuel, env, e).0 == env1.push((id, v->Ok_0))
            &&& lookup_view(eval(fuel, env, e).0, id) == Some(v->Ok_0)
        }),
{
    match e.kind {
        KindView::Let(id, value) => {
            let (env1, v) = eval((fuel - 1) as nat, env, *value);
            if let Ok(val) = v {
                lemma_lookup_after_extend(env1, id, val, id);
            }
        },
        _ => {},
    }
}

/// Piping is calling: `x |> f` evaluates to what `f(x)` does, whatever the types and spans
/// the two expressions carry. The operands are evaluated in the opposite order, so this is
/// stated where neither operand changes the environment and at most one of them fails, and
/// where `f`, if it evaluates, gives a function of one parameter.
pub proof fn lemma_pipe_is_call(
    fuel: nat,
    env: Seq<(nat, ValueView)>,
    pipe: ExprView,
    call: ExprView,
    x: ExprView,
    f: ExprView,
)
    requires
        pipe.kind == KindView::Binary(BinaryOp::Pipe, Box::new(x), Box::new(f)),
        call.kind == KindView::Call(Box::new(f), seq![x]),
        fuel > 0,
        eval((fuel - 1) as nat, env, x).0 == env,
        eval((fuel - 1) as nat, env, f).0 == env,
        eval((fuel - 1) as nat, env, x).1 is Ok || eval((fuel - 1) as nat, env, f).1 is Ok,
        eval((fuel - 1) as nat, env, f).1 is Ok ==> (eval((fuel - 1) as nat, env, f).1->Ok_0 matches ValueView::Closure(lambda, _)
            && lambda.parameter is Some),
    ensures
        eval(fuel, env, pipe).1 == eval(fuel, env, call).1,
{
    let g = (fuel - 1) as nat;
    let args = seq![x];
    assert(args[0] == x);
    let fv = eval(g, env, f).1;
    let xv = eval(g, env, x).1;
    if let Ok(callee) = fv {
        if let Ok(a) = xv {
            assert(binary_result(g, BinaryOp::Pipe, a, callee, pipe.span) == apply_result(
                g,
                callee,
                Some(a),
                pipe.span,
            ));
            assert(apply_result(g, callee, Some(a), pipe.span) == apply_result(
                g,
                callee,
                Some(a),
                f.span,
            ));
            let after = apply_result(g, callee, Some(a), f.span);
            if let Ok(next) = after {
                assert(eval_arguments(g, env, next, args, 1, f.span) == (
                    env,
                    Ok::<ValueView, EvalError>(next),
                ));
            }
            assert(eval_arguments(g, env, callee, args, 0, f.span).1 == after);
        } else {
            assert(eval_arguments(g, env, callee, args, 0, f.span).1 == xv);
        }
    }
}

/// Comparisons compare the two integers as integers: for Int operands `l` and `r`, each
/// comparison gives the truth of that relation between them (so `n >= n` and `n <= n` are
/// true and `n < n` false).
pub proof fn lemma_comparisons_compare_integers(fuel: nat, l: i64, r: i64, span: SourceSpan)
    ensures
        binary_result(fuel, BinaryOp::Lt, ValueView::Int(l), ValueView::Int(r), span) == Ok::<
            ValueView,
            EvalError,
        >(ValueView::Bool((l as int) < (r as int))),
        binary_result(fuel, BinaryOp::Gt, ValueView::Int(l), ValueView::Int(r), span) == Ok::<
            ValueView,
            EvalError,
        >(ValueView::Bool((l as int) > (r as int))),
        binary_result(fuel, BinaryOp::Le, ValueView::Int(l), ValueView::Int(r), span) == Ok::<
            ValueView,
            EvalError,
        >(ValueView::Bool((l as int) <= (r as int))),
        binary_result(fuel, BinaryOp::Ge, ValueView::Int(l), ValueView::Int(r), span) == Ok::<
            ValueView,
            EvalError,
        >(ValueView::Bool((l as int) >= (r as int))),
        binary_result(fuel, BinaryOp::Eq, ValueView::Int(l), ValueView::Int(r), span) == Ok::<
            ValueView,
            EvalError,
        >(ValueView::Bool((l as int) == (r as int))),
        binary_result(fuel, BinaryOp::Neq, ValueView::Int(l), ValueView::Int(r), span) == Ok::<
            ValueView,
            EvalError,
        >(ValueView::Bool((l as int) != (r as int))),
{
}

/// Evaluating a comparison of two integer literals gives the truth of that relation between
/// the two integers, given a budget of at least two steps.
pub proof fn lemma_literal_comparison(
    fuel: nat,
    env: Seq<(nat, ValueView)>,
    e: ExprView,
    op: BinaryOp,
    lhs: ExprView,
    rhs: ExprView,
    l: i64,
    r: i64,
)
    requires
        fuel >= 2,
        e.kind == KindView::Binary(op, Box::new(lhs), Box::new(rhs)),
        lhs.kind == KindView::Literal(LiteralView::Int(l)),
        rhs.kind == KindView::Literal(LiteralView::Int(r)),
    ensures
        op == BinaryOp::Lt ==> eval(fuel, env, e).1 == Ok::<ValueView, EvalError>(
            ValueView::Bool((l as int) < (r as int)),
        ),
        op == BinaryOp::Gt ==> eval(fuel, env, e).1 == Ok::<ValueView, EvalError>(
            ValueView::Bool((l as int) > (r as int)),
        ),
        op == BinaryOp::Le ==> eval(fuel, env, e).1 == Ok::<ValueView, EvalError>(
            ValueView::Bool((l as int) <= (r as int)),
        ),
        op == BinaryOp::Ge ==> eval(fuel, env, e).1 == Ok::<ValueView, EvalError>(
            ValueView::Bool((l as int) >= (r as int)),
        ),
        op == BinaryOp::Eq ==> eval(fuel, env, e).1 == Ok::<ValueView, EvalError>(
            ValueView::Bool((l as int) == (r as int)),
        ),
        op == BinaryOp::Neq ==> eval(fuel, env, e).1 == Ok::<ValueView, EvalError>(
            ValueView::Bool((l as int) != (r as int)),
        ),
{
    let f = (fuel - 1) as nat;
    assert(eval(f, env, lhs) == (env, Ok::<ValueView, EvalError>(ValueView::Int(l))));
    assert(eval(f, env, rhs) == (env, Ok::<ValueView, EvalError>(ValueView::Int(r))));
    lemma_comparisons_compare_integers(f, l, r, e.span);
}

/// `&&` and `||` do not short-circuit: the left operand is evaluated, then the right one in
/// the environment the left one left, whatever value the left one gave, so the right
/// operand's failure is the expression's failure even where the left operand alone would
/// decide the result (`false && ...`, `true || ...`). The evaluator follows [`eval`] exactly,
/// so this is what evaluating such an expression does.
pub proof fn lemma_logical_operators_evaluate_both(
    fuel: nat,
    env: Seq<(nat, ValueView)>,
    e: ExprView,
    op: BinaryOp,
    lhs: ExprView,
    rhs: ExprView,
)
    requires
        op == BinaryOp::And || op == BinaryOp::Or,
        e.kind == KindView::Binary(op, Box::new(lhs), Box::new(rhs)),
        fuel > 0,
        eval((fuel - 1) as nat, env, lhs).1 is Ok,
        eval((fuel - 1) as nat, eval((fuel - 1) as nat, env, lhs).0, rhs).1 is Err,
    ensures
        eval(fuel, env, e).1 == eval((fuel - 1) as nat, eval((fuel - 1) as nat, env, lhs).0, rhs).1,
{
}

/// The error of an evaluation that used up its budget.
pub open spec fn ran_out(r: Result<ValueView, EvalError>) -> bool {
    r matches Err(EvalError::InvariantDueToTypeCheck { context, .. })
        && context == "evaluation ran past its step budget"
}

/// More budget changes nothing for an evaluation that did not run out: the budget only ever
/// cuts an evaluation short.
pub proof fn lemma_more_budget_same_result(
    fuel: nat,
    more: nat,
    env: Seq<(nat, ValueView)>,
    e: ExprView,
)
    requires
        fuel <= more,
        !ran_out(eval(fuel, env, e).1),
    ensures
        eval(more, env, e) == eval(fuel, env, e),
    decreases fuel, 0nat,
{
    if fuel == 0 {
        return;
    }
    let f = (fuel - 1) as nat;
    let g = (more - 1) as nat;
    match e.kind {
        KindView::Literal(LiteralView::Record(fields)) => {
            lemma_fields_budget(f, g, env, fields, 0, Seq::empty());
        },
        KindView::Binary(op, lhs, rhs) => {
            lemma_more_budget_same_result(f, g, env, *lhs);
            let (env1, l) = eval(f, env, *lhs);
            if let Ok(lv) = l {
                lemma_more_budget_same_result(f, g, env1, *rhs);
                let (env2, r) = eval(f, env1, *rhs);
                if let Ok(rv) = r {
                    lemma_binary_budget(f, g, op, lv, rv, e.span);
                }
            }
        },
        KindView::Unary(_, operand) => {
            lemma_more_budget_same_result(f, g, env, *operand);
        },
        KindView::Call(callee, args) => {
            lemma_more_budget_same_result(f, g, env, *callee);
            let (env1, fv) = eval(f, env, *callee);
            if let Ok(fv) = fv {
                if args.len() == 0 && (fv matches ValueView::Closure(lambda, _)
                    && lambda.parameter is None) {
                    lemma_apply_budget(f, g, fv, None, callee.span);
                } else {
                    lemma_arguments_budget(f, g, env1, fv, args, 0, callee.span);
                }
            }
        },
        KindView::If(condition, then_branch, else_branch) => {
            lemma_more_budget_same_result(f, g, env, *condition);
            let (env1, c) = eval(f, env, *condition);
            if let Ok(ValueView::Bool(taken)) = c {
                if taken {
                    lemma_more_budget_same_result(f, g, env1, *then_branch);
                } else if let Some(other) = else_branch {
                    lemma_more_budget_same_result(f, g, env1, *other);
                }
            }
        },
        KindView::Let(_, value) => {
            lemma_more_budget_same_result(f, g, env, *value);
        },
        KindView::Block(exprs) => {
            lemma_sequence_budget(f, g, env, exprs, 0, ValueView::Unit);
        },
        KindView::FieldAccess(target, _) => {
            lemma_more_budget_same_result(f, g, env, *target);
        },
        _ => {},
    }
}

proof fn lemma_binary_budget(
    fuel: nat,
    more: nat,
    op: BinaryOp,
    lhs: ValueView,
    rhs: ValueView,
    span: SourceSpan,
)
    requires
        fuel <= more,
        !ran_out(binary_result(fuel, op, lhs, rhs, span)),
    ensures
        binary_result(more, op, lhs, rhs, span) == binary_result(fuel, op, lhs, rhs, span),
    decreases fuel, 2nat,
{
    if op == BinaryOp::Pipe {
        lemma_apply_budget(fuel, more, rhs, Some(lhs), span);
    }
}

proof fn lemma_apply_budget(
    fuel: nat,
    more: nat,
    callee: ValueView,
    arg: Option<ValueView>,
    span: SourceSpan,
)
    requires
        fuel <= more,
        !ran_out(apply_result(fuel, callee, arg, span)),
    ensures
        apply_result(more, callee, arg, span) == apply_result(fuel, callee, arg, span),
    decreases fuel, 1nat,
{
    match callee {
        ValueView::Closure(lambda, captured) => match (arg, lambda.parameter) {
            (Some(a), Some(param)) => {
                lemma_more_budget_same_result(fuel, more, captured.push((param.0, a)), *lambda.body);
            },
            (None, None) => {
                lemma_more_budget_same_result(fuel, more, captured, *lambda.body);
            },
            _ => {},
        },
        _ => {},
    }
}

proof fn lemma_arguments_budget(
    fuel: nat,
    more: nat,
    env: Seq<(nat, ValueView)>,
    function: ValueView,
    args: Seq<ExprView>,
    i: nat,
    span: SourceSpan,
)
    requires
        fuel <= more,
        !ran_out(eval_arguments(fuel, env, function, args, i, span).1),
    ensures
        eval_arguments(more, env, function, args, i, span) == eval_arguments(
            fuel,
            env,
            function,
            args,
            i,
            span,
        ),
    decreases fuel, (args.len() - i + 2) as nat,
{
    if i < args.len() {
        lemma_more_budget_same_result(fuel, more, env, args[i as int]);
        let (env1, arg) = eval(fuel, env, args[i as int]);
        if let Ok(a) = arg {
            lemma_apply_budget(fuel, more, function, Some(a), span);
            if let Ok(next) = apply_result(fuel, function, Some(a), span) {
                lemma_arguments_budget(fuel, more, env1, next, args, i + 1, span);
            }
        }
    }
}

proof fn lemma_sequence_budget(
    fuel: nat,
    more: nat,
    env: Seq<(nat, ValueView)>,
    exprs: Seq<ExprView>,
    i: nat,
    last: ValueView,
)
    requires
        fuel <= more,
        !ran_out(eval_sequence(fuel, env, exprs, i, last)),
    ensures
        eval_sequence(more, env, exprs, i, last) == eval_sequence(fuel, env, exprs, i, last),
    decreases fuel, (exprs.len() - i + 2) as nat,
{
    if i < exprs.len() {
        lemma_more_budget_same_result(fuel, more, env, exprs[i as int]);
        let (env1, r) = eval(fuel, env, exprs[i as int]);
        if let Ok(v) = r {
            lemma_sequence_budget(fuel, more, env1, exprs, i + 1, v);
        }
    }
}

proof fn lemma_fields_budget(
    fuel: nat,
    more: nat,
    env: Seq<(nat, ValueView)>,
    fields: Seq<(Seq<char>, ExprView)>,
    i: nat,
    done: Seq<(Seq<char>, ValueView)>,
)
    requires
        fuel <= more,
        !(eval_fields(fuel, env, fields, i, done).1 matches Err(x) && ran_out(Err(x))),
    ensures
        eval_fields(more, env, fields, i, done) == eval_fields(fuel, env, fields, i, done),
    decreases fuel, (fields.len() - i + 2) as nat,
{
    if i < fields.len() {
        lemma_more_budget_same_result(fuel, more, env, fields[i as int].1);
        let (env1, r) = eval(fuel, env, fields[i as int].1);
        if let Ok(v) = r {
            lemma_fields_budget(fuel, more, env1, fields, i + 1, done.push((fields[i as int].0, v)));
        }
    }
}

/// The budget that [`evaluate`] grants each top-level expression.
pub const EVALUATION_FUEL: u64 = 0xffff_ffff_ffff_ffff;

/// What running a whole program gives: its expressions in turn, from an empty environment.
pub open spec fn run(exprs: Seq<ExprView>) -> Result<ValueView, EvalError> {
    eval_sequence(EVALUATION_FUEL as nat, Seq::empty(), exprs, 0, ValueView::Unit)
}

pub open spec fn outcome_view(r: Result<Value, EvalError>) -> Result<ValueView, EvalError> {
    match r {
        Ok(v) => Ok(v@),
        Err(e) => Err(e),
    }
}

pub open spec fn argument_view(a: Option<Value>) -> Option<ValueView> {
    match a {
        Some(v) => Some(v@),
        None => None,
    }
}

impl Environment {
    pub fn empty() -> (env: Self)
        ensures
            env@ == Seq::<(nat, ValueView)>::empty(),
    {
        Environment(None)
    }

    /// The same bindings, sharing their storage.
    pub fn share(&self) -> (env: Self)
        ensures
            env@ == self@,
    {
        match &self.0 {
            Some(scope) => Environment(Some(share(scope))),
            None => Environment(None),
        }
    }

    /// This environment with `id` bound to `value` on top.
    pub fn extend(&self, id: BindingId, value: Value) -> (env: Self)
        ensures
            env@ == self@.push((id.0 as nat, value@)),
    {
        let parent = match &self.0 {
            Some(scope) => Some(share(scope)),
            None => None,
        };
        Environment(Some(Rc::new(Scope { id, value, parent })))
    }

    /// The value of the most recent binding of `id`.
    pub fn lookup(&self, id: BindingId) -> (found: Option<&Value>)
        ensures
            match found {
                Some(v) => lookup_view(self@, id.0 as nat) == Some(v@),
                None => lookup_view(self@, id.0 as nat) is None,
            },
    {
        lookup_in(&self.0, id)
    }
}

fn lookup_in(scopes: &Option<Rc<Scope>>, id: BindingId) -> (found: Option<&Value>)
    ensures
        match found {
            Some(v) => lookup_view(scopes_view(*scopes), id.0 as nat) == Some(v@),
            None => lookup_view(scopes_view(*scopes), id.0 as nat) is None,
        },
    decreases scopes,
{
    match scopes {
        None => None,
        Some(scope) => {
            let ghost s = scopes_view(*scopes);
            assert(s.drop_last() =~= scopes_view(scope.parent));
            if scope.id.0 == id.0 {
                Some(&scope.value)
            } else {
                lookup_in(&scope.parent, id)
            }
        },
    }
}

/// A copy of a value; a closure's lambda and environment are shared, not copied.
#[verifier::loop_isolation(false)]
pub fn clone_value(v: &Value) -> (c: Value)
    ensures
        c@ == v@,
    decreases v,
{
    match v {
        Value::Int(n) => Value::Int(*n),
        Value::Bool(b) => Value::Bool(*b),
        Value::Float(text) => Value::Float(text.clone()),
        Value::String(text) => Value::String(text.clone()),
        Value::Unit => Value::Unit,
        Value::Closure { lambda, env } => Value::Closure { lambda: share(lambda), env: env.share() },
        Value::Record(fields) => {
            let mut copy: Vec<(String, Value)> = Vec::new();
            let mut i: usize = 0;
            while i < fields.len()
                invariant
                    0 <= i <= fields.len(),
                    copy@.len() == i,
                    forall|j: int|
                        0 <= j < i ==> #[trigger] copy@[j].0@ == fields@[j].0@ && value_view(
                            copy@[j].1,
                        ) == value_view(fields@[j].1),
                decreases fields.len() - i,
            {
                proof {
                    assert(decreases_to!(*v => fields@[i as int].1));
                }
                let name = fields[i].0.clone();
                let value = clone_value(&fields[i].1);
                copy.push((name, value));
                i = i + 1;
            }
            let c = Value::Record(copy);
            assert(value_view(c) == value_view(*v)) by {
                match (value_view(c), value_view(*v)) {
                    (ValueView::Record(a), ValueView::Record(b)) => {
                        assert(a =~= b);
                    },
                    _ => {},
                }
            }
            c
        },
    }
}

proof fn lemma_record_view(fields: Vec<(String, Value)>)
    ensures
        Value::Record(fields)@ == ValueView::Record(fields_view(fields@)),
{
    match Value::Record(fields)@ {
        ValueView::Record(a) => {
            assert(a =~= fields_view(fields@));
        },
        _ => {},
    }
}

/// The position of the first field named `name`.
fn find_field(fields: &Vec<(String, Value)>, name: &String) -> (found: Option<usize>)
    ensures
        match found {
            Some(i) => i < fields@.len() && field_from(fields_view(fields@), name@, 0) == Some(
                fields@[i as int].1@,
            ),
            None => field_from(fields_view(fields@), name@, 0) is None,
        },
{
    let ghost view = fields_view(fields@);
    let mut i: usize = 0;
    while i < fields.len()
        invariant
            i <= fields.len(),
            view == fields_view(fields@),
            field_from(view, name@, 0) == field_from(view, name@, i as nat),
        decreases fields.len() - i,
    {
        if fields[i].0 == *name {
            return Some(i);
        }
        i = i + 1;
    }
    None
}

fn eval_unary(op: UnaryOp, operand: Value, span: SourceSpan) -> (r: Result<Value, EvalError>)
    ensures
        outcome_view(r) == unary_result(op, operand@, span),
{
    match op {
        UnaryOp::Neg => match operand {
            Value::Int(n) => if n == i64::MIN {
                Err(EvalError::ArithmeticOverflow { operator: "-", lhs: 0, rhs: n, span })
            } else {
                Ok(Value::Int(-n))
            },
            _ => Err(
                EvalError::invariant_due_to_type_check(
                    span,
                    "negation operand did not evaluate to an Int",
                ),
            ),
        },
        UnaryOp::Not => match operand {
            Value::Bool(b) => Ok(Value::Bool(!b)),
            _ => Err(
                EvalError::invariant_due_to_type_check(
                    span,
                    "`!` operand did not evaluate to a Bool",
                ),
            ),
        },
    }
}

fn eval_arithmetic(op: BinaryOp, l: i64, r: i64, span: SourceSpan) -> (res: Result<Value, EvalError>)
    requires
        is_arithmetic(op),
    ensures
        outcome_view(res) == binary_result(0, op, ValueView::Int(l), ValueView::Int(r), span),
{
    if op == BinaryOp::Div && r == 0 {
        return Err(EvalError::DivisionByZero { span });
    }
    let (symbol, result) = match op {
        BinaryOp::Add => ("+", l.checked_add(r)),
        BinaryOp::Sub => ("-", l.checked_sub(r)),
        BinaryOp::Mul => ("*", l.checked_mul(r)),
        _ => ("/", l.checked_div(r)),
    };
    match result {
        Some(v) => Ok(Value::Int(v)),
        None => Err(EvalError::ArithmeticOverflow { operator: symbol, lhs: l, rhs: r, span }),
    }
}

fn eval_binary(fuel: u64, op: BinaryOp, lhs: Value, rhs: Value, span: SourceSpan) -> (r: Result<
    Value,
    EvalError,
>)
    ensures
        outcome_view(r) == binary_result(fuel as nat, op, lhs@, rhs@, span),
    decreases fuel, 2nat,
{
    match op {
        BinaryOp::Add | BinaryOp::Sub | BinaryOp::Mul | BinaryOp::Div => match (&lhs, &rhs) {
            (Value::Int(l), Value::Int(r)) => eval_arithmetic(op, *l, *r, span),
            _ => Err(
                EvalError::invariant_due_to_type_check(
                    span,
                    "arithmetic operands did not evaluate to Ints",
                ),
            ),
        },
        BinaryOp::Lt | BinaryOp::Gt | BinaryOp::Le | BinaryOp::Ge | BinaryOp::Eq | BinaryOp::Neq => {
            match (&lhs, &rhs) {
                (Value::Int(l), Value::Int(r)) => {
                    let (l, r) = (*l, *r);
                    Ok(
                        Value::Bool(
                            match op {
                                BinaryOp::Lt => l < r,
                                BinaryOp::Gt => l > r,
                                BinaryOp::Le => l <= r,
                                BinaryOp::Ge => l >= r,
                                BinaryOp::Eq => l == r,
                                _ => l != r,
                            },
                        ),
                    )
                },
                _ => Err(
                    EvalError::invariant_due_to_type_check(
                        span,
                        "comparison operands did not evaluate to Ints",
                    ),
                ),
            }
        },
        BinaryOp::And | BinaryOp::Or => match (&lhs, &rhs) {
            (Value::Bool(l), Value::Bool(r)) => Ok(
                Value::Bool(
                    if op == BinaryOp::And {
                        *l && *r
                    } else {
                        *l || *r
                    },
                ),
            ),
            _ => Err(
                EvalError::invariant_due_to_type_check(
                    span,
                    "logical operands did not evaluate to Bools",
                ),
            ),
        },
        BinaryOp::Pipe => apply(fuel, rhs, Some(lhs), span),
    }
}

fn apply(fuel: u64, callee: Value, arg: Option<Value>, span: SourceSpan) -> (r: Result<
    Value,
    EvalError,
>)
    ensures
        outcome_view(r) == apply_result(fuel as nat, callee@, argument_view(arg), span),
    decreases fuel, 1nat,
{
    match callee {
        Value::Closure { lambda, env } => match (arg, &lambda.parameter) {
            (Some(a), Some(param)) => {
                let mut inner = env.extend(param.binding, a);
                eval_expr(fuel, &mut inner, &lambda.body)
            },
            (None, None) => {
                let mut inner = env;
                eval_expr(fuel, &mut inner, &lambda.body)
            },
            _ => Err(
                EvalError::invariant_due_to_type_check(
                    span,
                    "argument count does not match the closure's parameter",
                ),
            ),
        },
        _ => Err(
            EvalError::invariant_due_to_type_check(span, "callee did not evaluate to a closure"),
        ),
    }
}

#[verifier::loop_isolation(false)]
fn eval_expr(fuel: u64, env: &mut Environment, expr: &TypeCheckedExpression) -> (r: Result<
    Value,
    EvalError,
>)
    ensures
        (final(env)@, outcome_view(r)) == eval(fuel as nat, old(env)@, expr@),
    decreases fuel, 0nat,
{
    if fuel == 0 {
        return Err(
            EvalError::invariant_due_to_type_check(
                expr.span,
                "evaluation ran past its step budget",
            ),
        );
    }
    let f = fuel - 1;
    let ghost env0 = env@;
    match &expr.kind {
        ExpressionKind::Literal(literal) => match literal {
            TypeCheckedLiteral::Int(n) => Ok(Value::Int(*n)),
            TypeCheckedLiteral::Bool(b) => Ok(Value::Bool(*b)),
            TypeCheckedLiteral::Float(text) => Ok(Value::Float(text.clone())),
            TypeCheckedLiteral::String(text) => Ok(Value::String(text.clone())),
            TypeCheckedLiteral::Unit => Ok(Value::Unit),
            TypeCheckedLiteral::Record(fields) => {
                let ghost fv = Seq::new(
                    fields@.len(),
                    |j: int| (fields@[j].0@, expr_view(fields@[j].1)),
                );
                assert(expr@.kind == KindView::Literal(LiteralView::Record(fv))) by {
                    assert(expr@.kind == kind_view(expr.kind));
                    match literal_view(*literal) {
                        LiteralView::Record(a) => {
                            assert(a =~= fv);
                        },
                        _ => {},
                    }
                }
                let mut values: Vec<(String, Value)> = Vec::new();
                assert(fields_view(values@) =~= Seq::empty());
                let mut i: usize = 0;
                while i < fields.len()
                    invariant
                        i <= fields.len(),
                        values@.len() == i,
                        fv.len() == fields@.len(),
                        forall|j: int|
                            0 <= j < fields@.len() ==> #[trigger] fv[j] == (
                                fields@[j].0@,
                                expr_view(fields@[j].1),
                            ),
                        eval_fields(f as nat, env0, fv, 0, Seq::empty()) == eval_fields(
                            f as nat,
                            env@,
                            fv,
                            i as nat,
                            fields_view(values@),
                        ),
                    decreases fields.len() - i,
                {
                    let v = eval_expr(f, env, &fields[i].1);
                    let v = match v {
                        Ok(v) => v,
                        Err(x) => {
                            return Err(x);
                        },
                    };
                    let name = fields[i].0.clone();
                    let ghost before = values@;
                    values.push((name, v));
                    assert(fields_view(values@) =~= fields_view(before).push(
                        (fv[i as int].0, values@[i as int].1@),
                    ));
                    i = i + 1;
                }
                proof {
                    lemma_record_view(values);
                }
                Ok(Value::Record(values))
            },
        },
        ExpressionKind::Var(id) => match env.lookup(*id) {
            Some(v) => Ok(clone_value(v)),
            None => Err(
                EvalError::invariant_due_to_type_check(
                    expr.span,
                    "resolved variable is not bound in the environment",
                ),
            ),
        },
        ExpressionKind::Binary(op, lhs, rhs) => {
            let l = match eval_expr(f, env, lhs) {
                Ok(v) => v,
                Err(x) => {
                    return Err(x);
                },
            };
            let r = match eval_expr(f, env, rhs) {
                Ok(v) => v,
                Err(x) => {
                    return Err(x);
                },
            };
            eval_binary(f, *op, l, r, expr.span)
        },
        ExpressionKind::Unary(op, operand) => {
            let v = match eval_expr(f, env, operand) {
                Ok(v) => v,
                Err(x) => {
                    return Err(x);
                },
            };
            eval_unary(*op, v, operand.span)
        },
        ExpressionKind::FunctionInvocation { function, arguments } => {
            let callee = match eval_expr(f, env, function) {
                Ok(v) => v,
                Err(x) => {
                    return Err(x);
                },
            };
            if arguments.len() == 0 {
                let nullary = match &callee {
                    Value::Closure { lambda, .. } => lambda.parameter.is_none(),
                    _ => false,
                };
                if nullary {
                    return apply(f, callee, None, function.span);
                }
            }
            let ghost args = exprs_view(arguments@);
            let ghost env1 = env@;
            let ghost callee_view = callee@;
            assert(match expr@.kind {
                KindView::Call(_, a) => a =~= args,
                _ => false,
            });
            let mut acc = callee;
            let mut i: usize = 0;
            while i < arguments.len()
                invariant
                    i <= arguments.len(),
                    args == exprs_view(arguments@),
                    eval_arguments(f as nat, env1, callee_view, args, 0, function.span)
                        == eval_arguments(f as nat, env@, acc@, args, i as nat, function.span),
                decreases arguments.len() - i,
            {
                let a = match eval_expr(f, env, &arguments[i]) {
                    Ok(v) => v,
                    Err(x) => {
                        return Err(x);
                    },
                };
                acc = match apply(f, acc, Some(a), function.span) {
                    Ok(v) => v,
                    Err(x) => {
                        return Err(x);
                    },
                };
                i = i + 1;
            }
            Ok(acc)
        },
        ExpressionKind::If { condition, then_branch, else_branch } => {
            let c = match eval_expr(f, env, condition) {
                Ok(v) => v,
                Err(x) => {
                    return Err(x);
                },
            };
            match c {
                Value::Bool(taken) => if taken {
                    eval_expr(f, env, then_branch)
                } else {
                    match else_branch {
                        Some(other) => eval_expr(f, env, other),
                        None => Ok(Value::Unit),
                    }
                },
                _ => Err(
                    EvalError::invariant_due_to_type_check(
                        condition.span,
                        "if condition did not evaluate to a Bool",
                    ),
                ),
            }
        },
        ExpressionKind::Lambda(lambda) => Ok(
            Value::Closure { lambda: Rc::new(clone_lambda(lambda)), env: env.share() },
        ),
        ExpressionKind::Let { binding, value } => {
            let v = match eval_expr(f, env, value) {
                Ok(v) => v,
                Err(x) => {
                    return Err(x);
                },
            };
            let extended = env.extend(*binding, v);
            *env = extended;
            Ok(Value::Unit)
        },
        ExpressionKind::Block(exprs) => {
            let ghost es = exprs_view(exprs@);
            assert(match expr@.kind {
                KindView::Block(a) => a =~= es,
                _ => false,
            });
            let mut inner = env.share();
            let mut result = Value::Unit;
            let mut i: usize = 0;
            while i < exprs.len()
                invariant
                    i <= exprs.len(),
                    es == exprs_view(exprs@),
                    env@ == env0,
                    eval_sequence(f as nat, env0, es, 0, ValueView::Unit) == eval_sequence(
                        f as nat,
                        inner@,
                        es,
                        i as nat,
                        result@,
                    ),
                decreases exprs.len() - i,
            {
                result = match eval_expr(f, &mut inner, &exprs[i]) {
                    Ok(v) => v,
                    Err(x) => {
                        return Err(x);
                    },
                };
                i = i + 1;
            }
            Ok(result)
        },
        ExpressionKind::FieldAccess { target, field_name } => {
            let t = match eval_expr(f, env, target) {
                Ok(v) => v,
                Err(x) => {
                    return Err(x);
                },
            };
            match t {
                Value::Record(fields) => {
                    proof {
                        lemma_record_view(fields);
                    }
                    match find_field(&fields, field_name) {
                        Some(i) => Ok(clone_value(&fields[i].1)),
                        None => Err(
                            EvalError::invariant_due_to_type_check(
                                expr.span,
                                "record is missing a type-checked field",
                            ),
                        ),
                    }
                },
                _ => Err(
                    EvalError::invariant_due_to_type_check(
                        target.span,
                        "field access target did not evaluate to a record",
                    ),
                ),
            }
        },
        ExpressionKind::TypeDeclaration { .. } => Ok(Value::Unit),
    }
}

/// Runs a program: its expressions in turn, from an empty environment, each with
/// [`EVALUATION_FUEL`]; the value is the last one's, or `Unit` for an empty program.
pub fn evaluate(program: TypeCheckedProgram) -> (r: Result<Value, EvalError>)
    ensures
        outcome_view(r) == run(exprs_view(program.expressions@)),
{
    let ghost es = exprs_view(program.expressions@);
    let mut env = Environment::empty();
    let mut result = Value::Unit;
    let mut i: usize = 0;
    while i < program.expressions.len()
        invariant
            i <= program.expressions.len(),
            es == exprs_view(program.expressions@),
            run(es) == eval_sequence(
                EVALUATION_FUEL as nat,
                env@,
                es,
                i as nat,
                result@,
            ),
        decreases program.expressions.len() - i,
    {
        result = match eval_expr(EVALUATION_FUEL, &mut env, &program.expressions[i]) {
            Ok(v) => v,
            Err(x) => {
                return Err(x);
            },
        };
        i = i + 1;
    }
    Ok(result)
}

} // verus!
