//! The type-checked tree: every expression carries its inferred type.

use vstd::prelude::*;

use crate::binding_resolution::binding_resolved::{BindingId, TypeBindingId};
use crate::parse::ast::{BinaryOp, UnaryOp};
use crate::span::SourceSpan;

verus! {

/// A unification variable.
#[derive(Clone, Copy, Debug, PartialEq, Eq, Structural)]
pub struct TypeVarId(pub usize);

#[derive(Clone, Copy, Debug, PartialEq, Eq, Structural)]
pub enum Literal {
    Int,
    Bool,
    Float,
    String,
    Unit,
}

/// A type. A record's fields are kept sorted by name, with no name twice.
#[derive(Debug, PartialEq)]
pub enum Type {
    Unit,
    Literal(Literal),
    Var(TypeVarId),
    Fn(Option<Box<Type>>, Box<Type>),
    Record(Vec<(String, Type)>),
}

/// The mathematical form of a [`Type`]: names are character sequences.
pub enum TypeView {
    Unit,
    Literal(Literal),
    Var(nat),
    Fn(Option<Box<TypeView>>, Box<TypeView>),
    Record(Seq<(Seq<char>, TypeView)>),
}

pub open spec fn type_view(t: Type) -> TypeView
    decreases t,
{
    match t {
        Type::Unit => TypeView::Unit,
        Type::Literal(l) => TypeView::Literal(l),
        Type::Var(v) => TypeView::Var(v.0 as nat),
        Type::Fn(p, r) => TypeView::Fn(
            match p {
                Some(p) => Some(Box::new(type_view(*p))),
                None => None,
            },
            Box::new(type_view(*r)),
        ),
        Type::Record(fields) => TypeView::Record(
            Seq::new(
                fields@.len(),
                |i: int|
                    (
                        fields@[i].0@,
                        if 0 <= i < fields@.len() {
                            type_view(fields@[i].1)
                        } else {
                            TypeView::Unit
                        },
                    ),
            ),
        ),
    }
}

/// The fields of a record type's view; empty for any other type.
pub open spec fn record_view(t: TypeView) -> Seq<(Seq<char>, TypeView)> {
    match t {
        TypeView::Record(fields) => fields,
        _ => Seq::empty(),
    }
}

impl View for Type {
    type V = TypeView;

    open spec fn view(&self) -> TypeView {
        type_view(*self)
    }
}

/// A copy of `t`.
#[verifier::loop_isolation(false)]
pub fn clone_type(t: &Type) -> (c: Type)
    ensures
        c@ == t@,
    decreases t,
{
    match t {
        Type::Unit => Type::Unit,
        Type::Literal(l) => Type::Literal(*l),
        Type::Var(v) => Type::Var(*v),
        Type::Fn(p, r) => {
            let p2 = match p {
                Some(p) => Some(Box::new(clone_type(p))),
                None => None,
            };
            Type::Fn(p2, Box::new(clone_type(r)))
        },
        Type::Record(fields) => {
            let mut copy: Vec<(String, Type)> = Vec::new();
            let mut i: usize = 0;
            while i < fields.len()
                invariant
                    0 <= i <= fields.len(),
                    copy@.len() == i,
                    forall|j: int|
                        0 <= j < i ==> #[trigger] copy@[j].0@ == fields@[j].0@ && type_view(
                            copy@[j].1,
                        ) == type_view(fields@[j].1),
                decreases fields.len() - i,
            {
                let name = fields[i].0.clone();
                proof {
                    assert(decreases_to!(*t => fields@[i as int].1));
                }
                let ty = clone_type(&fields[i].1);
                copy.push((name, ty));
                i = i + 1;
            }
            let c = Type::Record(copy);
            assert(type_view(c) =~= type_view(*t)) by {
                let a = record_view(type_view(c));
                let b = record_view(type_view(*t));
                assert(a =~= b);
            }
            c
        },
    }
}

pub open spec fn field_eq(a: (String, Type), b: (String, Type)) -> bool {
    a.0@ == b.0@ && type_view(a.1) == type_view(b.1)
}

/// Whether two types are equal.
#[verifier::loop_isolation(false)]
pub fn types_equal(a: &Type, b: &Type) -> (equal: bool)
    ensures
        equal == (a@ == b@),
    decreases a,
{
    match (a, b) {
        (Type::Unit, Type::Unit) => true,
        (Type::Literal(x), Type::Literal(y)) => *x == *y,
        (Type::Var(x), Type::Var(y)) => x.0 == y.0,
        (Type::Fn(pa, ra), Type::Fn(pb, rb)) => {
            let params = match (pa, pb) {
                (None, None) => true,
                (Some(x), Some(y)) => types_equal(x, y),
                _ => false,
            };
            params && types_equal(ra, rb)
        },
        (Type::Record(fa), Type::Record(fb)) => {
            if fa.len() != fb.len() {
                proof {
                    let x = record_view(type_view(*a));
                    let y = record_view(type_view(*b));
                    assert(x.len() != y.len());
                }
                return false;
            }
            let mut i: usize = 0;
            while i < fa.len()
                invariant
                    0 <= i <= fa.len(),
                    fa.len() == fb.len(),
                    forall|j: int|
                        0 <= j < i ==> field_eq(#[trigger] fa@[j], fb@[j]),
                decreases fa.len() - i,
            {
                proof {
                    assert(decreases_to!(*a => fa@[i as int].1));
                }
                if !(fa[i].0 == fb[i].0) || !types_equal(&fa[i].1, &fb[i].1) {
                    proof {
                        let x = record_view(type_view(*a));
                        let y = record_view(type_view(*b));
                        assert(x[i as int] != y[i as int]);
                    }
                    return false;
                }
                assert(fa@[i as int].0@ == fb@[i as int].0@);
                assert(type_view(fa@[i as int].1) == type_view(fb@[i as int].1));
                i = i + 1;
            }
            proof {
                let x = record_view(type_view(*a));
                let y = record_view(type_view(*b));
                assert(x =~= y);
            }
            true
        },
        _ => false,
    }
}

#[derive(Debug, PartialEq)]
pub struct TypedBinding {
    pub name: String,
    pub ty: Type,
    pub span: SourceSpan,
}

#[derive(Debug, PartialEq)]
pub struct TypeCheckedExpression {
    pub kind: ExpressionKind,
    pub span: SourceSpan,
    pub ty: Type,
}

/// A literal value. A float keeps the characters it was written with.
#[derive(Debug, PartialEq)]
pub enum TypeCheckedLiteral {
    Int(i64),
    Bool(bool),
    Float(String),
    String(String),
    Record(Vec<(String, TypeCheckedExpression)>),
    Unit,
}

#[derive(Debug, PartialEq)]
pub enum ExpressionKind {
    Literal(TypeCheckedLiteral),
    Var(BindingId),
    Binary(BinaryOp, Box<TypeCheckedExpression>, Box<TypeCheckedExpression>),
    Unary(UnaryOp, Box<TypeCheckedExpression>),
    FunctionInvocation {
        function: Box<TypeCheckedExpression>,
        arguments: Vec<TypeCheckedExpression>,
    },
    If {
        condition: Box<TypeCheckedExpression>,
        then_branch: Box<TypeCheckedExpression>,
        else_branch: Option<Box<TypeCheckedExpression>>,
    },
    Lambda(Lambda),
    Let { binding: BindingId, value: Box<TypeCheckedExpression> },
    Block(Vec<TypeCheckedExpression>),
    FieldAccess { target: Box<TypeCheckedExpression>, field_name: String },
    TypeDeclaration { identifier: TypeBindingId, type_expression: Type },
}

#[derive(Debug, PartialEq)]
pub struct Param {
    pub binding: BindingId,
    pub ty: Type,
}

#[derive(Debug, PartialEq)]
pub struct Lambda {
    pub parameter: Option<Param>,
    pub body: Box<TypeCheckedExpression>,
}

#[derive(Debug, PartialEq)]
pub struct TypeCheckedProgram {
    pub expressions: Vec<TypeCheckedExpression>,
    pub bindings: Vec<TypedBinding>,
    pub type_bindings: Vec<TypedBinding>,
}

/// The mathematical form of a [`TypeCheckedLiteral`].
pub enum LiteralView {
    Int(i64),
    Bool(bool),
    Float(Seq<char>),
    Str(Seq<char>),
    Record(Seq<(Seq<char>, ExprView)>),
    Unit,
}

/// The mathematical form of an [`ExpressionKind`]: ids are numbers, names are character
/// sequences and lists are sequences.
pub enum KindView {
    Literal(LiteralView),
    Var(nat),
    Binary(BinaryOp, Box<ExprView>, Box<ExprView>),
    Unary(UnaryOp, Box<ExprView>),
    Call(Box<ExprView>, Seq<ExprView>),
    If(Box<ExprView>, Box<ExprView>, Option<Box<ExprView>>),
    Lambda(LambdaView),
    Let(nat, Box<ExprView>),
    Block(Seq<ExprView>),
    FieldAccess(Box<ExprView>, Seq<char>),
    TypeDeclaration(nat, TypeView),
}

/// The mathematical form of a [`TypeCheckedExpression`].
pub struct ExprView {
    pub kind: KindView,
    pub span: SourceSpan,
    pub ty: TypeView,
}

/// The mathematical form of a [`Lambda`]: the parameter's binding and type, and the body.
pub struct LambdaView {
    pub parameter: Option<(nat, TypeView)>,
    pub body: Box<ExprView>,
}

pub open spec fn expr_view(e: TypeCheckedExpression) -> ExprView
    decreases e,
{
    ExprView { kind: kind_view(e.kind), span: e.span, ty: type_view(e.ty) }
}

pub open spec fn lambda_view(l: Lambda) -> LambdaView
    decreases l,
{
    LambdaView {
        parameter: match l.parameter {
            Some(p) => Some((p.binding.0 as nat, type_view(p.ty))),
            None => None,
        },
        body: Box::new(expr_view(*l.body)),
    }
}

pub open spec fn literal_view(l: TypeCheckedLiteral) -> LiteralView
    decreases l,
{
    match l {
        TypeCheckedLiteral::Int(n) => LiteralView::Int(n),
        TypeCheckedLiteral::Bool(b) => LiteralView::Bool(b),
        TypeCheckedLiteral::Float(text) => LiteralView::Float(text@),
        TypeCheckedLiteral::String(text) => LiteralView::Str(text@),
        TypeCheckedLiteral::Unit => LiteralView::Unit,
        TypeCheckedLiteral::Record(fields) => LiteralView::Record(
            Seq::new(
                fields@.len(),
                |i: int|
                    (
                        fields@[i].0@,
                        if 0 <= i < fields@.len() {
                            expr_view(fields@[i].1)
                        } else {
                            arbitrary()
                        },
                    ),
            ),
        ),
    }
}

pub open spec fn kind_view(k: ExpressionKind) -> KindView
    decreases k,
{
    match k {
        ExpressionKind::Literal(l) => KindView::Literal(literal_view(l)),
        ExpressionKind::Var(id) => KindView::Var(id.0 as nat),
        ExpressionKind::Binary(op, l, r) => KindView::Binary(
            op,
            Box::new(expr_view(*l)),
            Box::new(expr_view(*r)),
        ),
        ExpressionKind::Unary(op, operand) => KindView::Unary(op, Box::new(expr_view(*operand))),
        ExpressionKind::FunctionInvocation { function, arguments } => KindView::Call(
            Box::new(expr_view(*function)),
            Seq::new(
                arguments@.len(),
                |i: int|
                    if 0 <= i < arguments@.len() {
                        expr_view(arguments@[i])
                    } else {
                        arbitrary()
                    },
            ),
        ),
        ExpressionKind::If { condition, then_branch, else_branch } => KindView::If(
            Box::new(expr_view(*condition)),
            Box::new(expr_view(*then_branch)),
            match else_branch {
                Some(e) => Some(Box::new(expr_view(*e))),
                None => None,
            },
        ),
        ExpressionKind::Lambda(l) => KindView::Lambda(lambda_view(l)),
        ExpressionKind::Let { binding, value } => KindView::Let(
            binding.0 as nat,
            Box::new(expr_view(*value)),
        ),
        ExpressionKind::Block(exprs) => KindView::Block(
            Seq::new(
                exprs@.len(),
                |i: int|
                    if 0 <= i < exprs@.len() {
                        expr_view(exprs@[i])
                    } else {
                        arbitrary()
                    },
            ),
        ),
        ExpressionKind::FieldAccess { target, field_name } => KindView::FieldAccess(
            Box::new(expr_view(*target)),
            field_name@,
        ),
        ExpressionKind::TypeDeclaration { identifier, type_expression } => KindView::TypeDeclaration(
            identifier.0 as nat,
            type_view(type_expression),
        ),
    }
}

impl View for TypeCheckedExpression {
    type V = ExprView;

    open spec fn view(&self) -> ExprView {
        expr_view(*self)
    }
}

impl View for Lambda {
    type V = LambdaView;

    open spec fn view(&self) -> LambdaView {
        lambda_view(*self)
    }
}

/// The views of a list of expressions.
pub open spec fn exprs_view(es: Seq<TypeCheckedExpression>) -> Seq<ExprView> {
    Seq::new(es.len(), |i: int| expr_view(es[i]))
}

/// A copy of an expression.
pub fn clone_expression(e: &TypeCheckedExpression) -> (c: TypeCheckedExpression)
    ensures
        c@ == e@,
    decreases e, 0nat,
{
    TypeCheckedExpression { kind: clone_kind(&e.kind), span: e.span, ty: clone_type(&e.ty) }
}

fn clone_boxed(e: &Box<TypeCheckedExpression>) -> (c: Box<TypeCheckedExpression>)
    ensures
        expr_view(*c) == expr_view(**e),
    decreases e, 1nat,
{
    Box::new(clone_expression(e))
}

/// A copy of a lambda.
pub fn clone_lambda(l: &Lambda) -> (c: Lambda)
    ensures
        c@ == l@,
    decreases l, 0nat,
{
    let parameter = match &l.parameter {
        Some(p) => Some(Param { binding: p.binding, ty: clone_type(&p.ty) }),
        None => None,
    };
    Lambda { parameter, body: clone_boxed(&l.body) }
}

#[verifier::loop_isolation(false)]
fn clone_expressions(es: &Vec<TypeCheckedExpression>) -> (c: Vec<TypeCheckedExpression>)
    ensures
        c@.len() == es@.len(),
        forall|i: int| 0 <= i < es@.len() ==> #[trigger] expr_view(c@[i]) == expr_view(es@[i]),
    decreases es, 0nat,
{
    let mut copy: Vec<TypeCheckedExpression> = Vec::new();
    let mut i: usize = 0;
    while i < es.len()
        invariant
            0 <= i <= es.len(),
            copy@.len() == i,
            forall|j: int| 0 <= j < i ==> #[trigger] expr_view(copy@[j]) == expr_view(es@[j]),
        decreases es.len() - i,
    {
        proof {
            assert(decreases_to!(*es => es@[i as int]));
        }
        copy.push(clone_expression(&es[i]));
        i = i + 1;
    }
    copy
}

#[verifier::loop_isolation(false)]
fn clone_kind(k: &ExpressionKind) -> (c: ExpressionKind)
    ensures
        kind_view(c) == kind_view(*k),
    decreases k, 0nat,
{
    match k {
        ExpressionKind::Literal(l) => {
            let copy = match l {
                TypeCheckedLiteral::Int(n) => TypeCheckedLiteral::Int(*n),
                TypeCheckedLiteral::Bool(b) => TypeCheckedLiteral::Bool(*b),
                TypeCheckedLiteral::Float(t) => TypeCheckedLiteral::Float(t.clone()),
                TypeCheckedLiteral::String(t) => TypeCheckedLiteral::String(t.clone()),
                TypeCheckedLiteral::Unit => TypeCheckedLiteral::Unit,
                TypeCheckedLiteral::Record(fields) => {
                    let mut copy: Vec<(String, TypeCheckedExpression)> = Vec::new();
                    let mut i: usize = 0;
                    while i < fields.len()
                        invariant
                            0 <= i <= fields.len(),
                            copy@.len() == i,
                            forall|j: int|
                                0 <= j < i ==> #[trigger] copy@[j].0@ == fields@[j].0@
                                    && expr_view(copy@[j].1) == expr_view(fields@[j].1),
                        decreases fields.len() - i,
                    {
                        proof {
                            assert(decreases_to!(*k => fields@[i as int].1));
                        }
                        let name = fields[i].0.clone();
                        let value = clone_expression(&fields[i].1);
                        copy.push((name, value));
                        i = i + 1;
                    }
                    let c = TypeCheckedLiteral::Record(copy);
                    assert(literal_view(c) == literal_view(*l)) by {
                        let a = match literal_view(c) {
                            LiteralView::Record(f) => f,
                            _ => Seq::empty(),
                        };
                        let b = match literal_view(*l) {
                            LiteralView::Record(f) => f,
                            _ => Seq::empty(),
                        };
                        assert(a =~= b);
                    }
                    c
                },
            };
            ExpressionKind::Literal(copy)
        },
        ExpressionKind::Var(id) => ExpressionKind::Var(*id),
        ExpressionKind::Binary(op, l, r) => ExpressionKind::Binary(*op, clone_boxed(l), clone_boxed(r)),
        ExpressionKind::Unary(op, operand) => ExpressionKind::Unary(*op, clone_boxed(operand)),
        ExpressionKind::FunctionInvocation { function, arguments } => {
            let function = clone_boxed(function);
            let arguments2 = clone_expressions(arguments);
            let c = ExpressionKind::FunctionInvocation { function, arguments: arguments2 };
            assert(kind_view(c) == kind_view(*k)) by {
                match (kind_view(c), kind_view(*k)) {
                    (KindView::Call(_, a), KindView::Call(_, b)) => {
                        assert forall|i: int| 0 <= i < a.len() implies a[i] == b[i] by {
                            assert(expr_view(arguments2@[i]) == expr_view(arguments@[i]));
                        }
                        assert(a =~= b);
                    },
                    _ => {},
                }
            }
            c
        },
        ExpressionKind::If { condition, then_branch, else_branch } => {
            let else_branch = match else_branch {
                Some(e) => Some(clone_boxed(e)),
                None => None,
            };
            ExpressionKind::If {
                condition: clone_boxed(condition),
                then_branch: clone_boxed(then_branch),
                else_branch,
            }
        },
        ExpressionKind::Lambda(l) => ExpressionKind::Lambda(clone_lambda(l)),
        ExpressionKind::Let { binding, value } => ExpressionKind::Let {
            binding: *binding,
            value: clone_boxed(value),
        },
        ExpressionKind::Block(exprs) => {
            let copy = clone_expressions(exprs);
            let c = ExpressionKind::Block(copy);
            assert(kind_view(c) == kind_view(*k)) by {
                match (kind_view(c), kind_view(*k)) {
                    (KindView::Block(a), KindView::Block(b)) => {
                        assert forall|i: int| 0 <= i < a.len() implies a[i] == b[i] by {
                            assert(expr_view(copy@[i]) == expr_view(exprs@[i]));
                        }
                        assert(a =~= b);
                    },
                    _ => {},
                }
            }
            c
        },
        ExpressionKind::FieldAccess { target, field_name } => ExpressionKind::FieldAccess {
            target: clone_boxed(target),
            field_name: field_name.clone(),
        },
        ExpressionKind::TypeDeclaration { identifier, type_expression } => {
            ExpressionKind::TypeDeclaration {
                identifier: *identifier,
                type_expression: clone_type(type_expression),
            }
        },
    }
}

/// The type a binary operator's result has, where the operator alone settles it: `Int` for
/// arithmetic, `Bool` for comparisons and logic. A pipe's result is its function's.
pub open spec fn operator_result_type(op: BinaryOp) -> Option<TypeView> {
    match op {
        BinaryOp::Add | BinaryOp::Sub | BinaryOp::Mul | BinaryOp::Div => Some(
            TypeView::Literal(Literal::Int),
        ),
        BinaryOp::Pipe => None,
        _ => Some(TypeView::Literal(Literal::Bool)),
    }
}

/// The type of a node agrees with its kind and its parts, wherever they settle it: a
/// literal has its literal's type, a record literal the record of its fields' types, an
/// operator its result type, a lambda the function from its parameter's type to its body's,
/// `let` `Unit`, a block its last expression's (or `Unit`), an `if` its first branch's, and
/// a type declaration the type it declares. Names, calls and field reads depend on what is
/// bound and on unification, so nothing is said of them here.
pub open spec fn node_type_ok(e: ExprView) -> bool {
    match e.kind {
        KindView::Literal(LiteralView::Int(_)) => e.ty == TypeView::Literal(Literal::Int),
        KindView::Literal(LiteralView::Bool(_)) => e.ty == TypeView::Literal(Literal::Bool),
        KindView::Literal(LiteralView::Float(_)) => e.ty == TypeView::Literal(Literal::Float),
        KindView::Literal(LiteralView::Str(_)) => e.ty == TypeView::Literal(Literal::String),
        KindView::Literal(LiteralView::Unit) => e.ty == TypeView::Literal(Literal::Unit),
        KindView::Literal(LiteralView::Record(fields)) => e.ty is Record && record_view(e.ty).len()
            == fields.len() && forall|i: int|
            0 <= i < fields.len() ==> #[trigger] record_view(e.ty)[i] == (
                fields[i].0,
                fields[i].1.ty,
            ),
        KindView::Binary(op, _, _) => match operator_result_type(op) {
            Some(t) => e.ty == t,
            None => true,
        },
        KindView::Unary(UnaryOp::Neg, _) => e.ty == TypeView::Literal(Literal::Int),
        KindView::Unary(UnaryOp::Not, _) => e.ty == TypeView::Literal(Literal::Bool),
        KindView::Lambda(l) => e.ty == TypeView::Fn(
            match l.parameter {
                Some((_, t)) => Some(Box::new(t)),
                None => None,
            },
            Box::new(l.body.ty),
        ),
        KindView::Let(_, _) => e.ty == TypeView::Unit,
        KindView::Block(es) => e.ty == if es.len() == 0 {
            TypeView::Unit
        } else {
            es.last().ty
        },
        KindView::If(_, then_branch, _) => e.ty == then_branch.ty,
        KindView::TypeDeclaration(_, t) => e.ty == t,
        _ => true,
    }
}

/// [`node_type_ok`] holds at every node of the tree.
pub open spec fn well_typed(e: ExprView) -> bool
    decreases e,
{
    node_type_ok(e) && match e.kind {
        KindView::Literal(LiteralView::Record(fields)) => forall|i: int|
            0 <= i < fields.len() ==> well_typed(#[trigger] fields[i].1),
        KindView::Binary(_, l, r) => well_typed(*l) && well_typed(*r),
        KindView::Unary(_, operand) => well_typed(*operand),
        KindView::Call(function, args) => well_typed(*function) && forall|i: int|
            0 <= i < args.len() ==> well_typed(#[trigger] args[i]),
        KindView::If(c, t, f) => well_typed(*c) && well_typed(*t) && match f {
            Some(f) => well_typed(*f),
            None => true,
        },
        KindView::Lambda(l) => well_typed(*l.body),
        KindView::Let(_, v) => well_typed(*v),
        KindView::Block(es) => forall|i: int| 0 <= i < es.len() ==> well_typed(#[trigger] es[i]),
        KindView::FieldAccess(target, _) => well_typed(*target),
        _ => true,
    }
}

} // verus!
