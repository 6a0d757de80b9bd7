//! What resolving names means: which written names are in sight where, and how a resolved
//! tree corresponds to the tree it was resolved from.

use vstd::prelude::*;

use super::error::BindingResolutionError;
use super::binding_resolved::{
    ResolvedBinding, ResolvedExpression, ResolvedExpressionKind, ResolvedLiteral,
    ResolvedTypeExpression, ResolvedTypeExpressionKind,
};
use super::scope::{
    ScopeEntry, TypeBindingScopeEntry, VariableBindingScopeEntry, latest_named, spec_lookup,
    spec_lookup_type,
};
use crate::parse::ast::{Expression, ExpressionKind, Literal, TypeExpression, TypeExpressionKind};
use crate::span::SourceSpan;

verus! {

/// The names a scope binds, oldest first.
pub open spec fn variable_names(entries: Seq<VariableBindingScopeEntry>) -> Seq<Seq<char>> {
    Seq::new(entries.len(), |i: int| entries[i].name@)
}

/// The type names a scope binds, oldest first.
pub open spec fn type_names_of(entries: Seq<TypeBindingScopeEntry>) -> Seq<Seq<char>> {
    Seq::new(entries.len(), |i: int| entries[i].name@)
}

proof fn lemma_latest_named_found<T: ScopeEntry>(entries: Seq<T>, name: Seq<char>, n: int)
    requires
        0 <= n <= entries.len(),
    ensures
        latest_named(entries, name, n) is Some <==> exists|i: int|
            0 <= i < n && (#[trigger] entries[i]).spec_name() == name,
    decreases n,
{
    if n > 0 {
        lemma_latest_named_found(entries, name, n - 1);
        if entries[n - 1].spec_name() == name {
        } else {
            if exists|i: int| 0 <= i < n && (#[trigger] entries[i]).spec_name() == name {
                let i = choose|i: int| 0 <= i < n && (#[trigger] entries[i]).spec_name() == name;
                assert(i < n - 1);
            }
        }
    }
}

/// A name resolves exactly when the scope binds it.
pub proof fn lemma_lookup_finds_bound_names(entries: Seq<VariableBindingScopeEntry>, name: Seq<char>)
    ensures
        spec_lookup(entries, name) is Some <==> variable_names(entries).contains(name),
{
    lemma_latest_named_found(entries, name, entries.len() as int);
    if variable_names(entries).contains(name) {
        let i = choose|i: int|
            0 <= i < variable_names(entries).len() && variable_names(entries)[i] == name;
        assert(entries[i].spec_name() == name);
    }
    if spec_lookup(entries, name) is Some {
        let i = choose|i: int|
            0 <= i < entries.len() && (#[trigger] entries[i]).spec_name() == name;
        assert(variable_names(entries)[i] == name);
    }
}

/// A type name resolves exactly when the scope binds it.
pub proof fn lemma_lookup_finds_bound_type_names(
    entries: Seq<TypeBindingScopeEntry>,
    name: Seq<char>,
)
    ensures
        spec_lookup_type(entries, name) is Some <==> type_names_of(entries).contains(name),
{
    lemma_latest_named_found(entries, name, entries.len() as int);
    if type_names_of(entries).contains(name) {
        let i = choose|i: int|
            0 <= i < type_names_of(entries).len() && type_names_of(entries)[i] == name;
        assert(entries[i].spec_name() == name);
    }
    if spec_lookup_type(entries, name) is Some {
        let i = choose|i: int|
            0 <= i < entries.len() && (#[trigger] entries[i]).spec_name() == name;
        assert(type_names_of(entries)[i] == name);
    }
}

/// Every type name written in `t` is among `names`.
pub open spec fn type_names_bound(t: TypeExpression, names: Seq<Seq<char>>) -> bool
    decreases t,
{
    match t.kind {
        TypeExpressionKind::Named(name) => names.contains(name@),
        TypeExpressionKind::Record(fields) => forall|i: int|
            0 <= i < fields@.len() ==> type_names_bound(#[trigger] fields@[i].1, names),
        TypeExpressionKind::Lambda(l) => (match l.parameter {
            Some(p) => type_names_bound(*p.type_dec, names),
            None => true,
        }) && type_names_bound(*l.return_type, names),
    }
}

/// An optional annotation, if present, names only types among `names`.
pub open spec fn annotation_names_bound(t: Option<TypeExpression>, names: Seq<Seq<char>>) -> bool {
    match t {
        Some(t) => type_names_bound(t, names),
        None => true,
    }
}

/// `r` is `t` with every type name replaced by the binding it resolves to in `types`.
pub open spec fn type_resolves(
    r: ResolvedTypeExpression,
    t: TypeExpression,
    types: Seq<TypeBindingScopeEntry>,
) -> bool
    decreases t,
{
    r.span == t.span && match t.kind {
        TypeExpressionKind::Named(name) => spec_lookup_type(types, name@) matches Some(b)
            && r.kind == ResolvedTypeExpressionKind::Named(b),
        TypeExpressionKind::Record(fields) => r.kind matches ResolvedTypeExpressionKind::Record(
            resolved,
        ) && resolved@.len() == fields@.len() && forall|i: int|
            0 <= i < fields@.len() ==> (#[trigger] resolved@[i]).0 == fields@[i].0
                && type_resolves(resolved@[i].1, fields@[i].1, types),
        TypeExpressionKind::Lambda(l) => r.kind matches ResolvedTypeExpressionKind::Lambda(rl)
            && type_resolves(*rl.return_type, *l.return_type, types) && match (
            l.parameter,
            rl.parameter,
        ) {
            (None, None) => true,
            (Some(p), Some(rp)) => rp.name == p.name && type_resolves(
                *rp.type_dec,
                *p.type_dec,
                types,
            ),
            _ => false,
        },
    }
}

/// An optional annotation resolves to an optional resolved annotation.
pub open spec fn annotation_resolves(
    r: Option<ResolvedTypeExpression>,
    t: Option<TypeExpression>,
    types: Seq<TypeBindingScopeEntry>,
) -> bool {
    match (r, t) {
        (None, None) => true,
        (Some(r), Some(t)) => type_resolves(r, t, types),
        _ => false,
    }
}

/// The variable names in sight after `e`, given those in sight before it: a `let` adds its
/// name for the expressions that follow it.
pub open spec fn names_after(e: Expression, names: Seq<Seq<char>>) -> Seq<Seq<char>> {
    match e.kind {
        ExpressionKind::Let { name, .. } => names.push(name@),
        _ => names,
    }
}

/// The type names in sight after `e`: a `type` declaration adds its name.
pub open spec fn type_names_after(e: Expression, names: Seq<Seq<char>>) -> Seq<Seq<char>> {
    match e.kind {
        ExpressionKind::TypeDeclaration { identifier, .. } => names.push(identifier@),
        _ => names,
    }
}

/// The variable names in sight before the `i`th of a run of expressions.
pub open spec fn names_before(es: Seq<Expression>, names: Seq<Seq<char>>, i: int) -> Seq<Seq<char>>
    decreases i,
{
    if i <= 0 {
        names
    } else {
        names_after(es[i - 1], names_before(es, names, i - 1))
    }
}

/// The type names in sight before the `i`th of a run of expressions.
pub open spec fn type_names_before(es: Seq<Expression>, names: Seq<Seq<char>>, i: int) -> Seq<
    Seq<char>,
>
    decreases i,
{
    if i <= 0 {
        names
    } else {
        type_names_after(es[i - 1], type_names_before(es, names, i - 1))
    }
}

/// Every name written in `e` is in sight where it is written, given the variable names
/// `vars` and type names `types` in sight of `e`. A `let`'s own name is not in sight of its
/// value; a lambda's parameter is in sight of its body only.
pub open spec fn names_bound(e: Expression, vars: Seq<Seq<char>>, types: Seq<Seq<char>>) -> bool
    decreases e,
{
    match e.kind {
        ExpressionKind::Var(name) => vars.contains(name@),
        ExpressionKind::Literal(Literal::Record(fields)) => forall|i: int|
            0 <= i < fields@.len() ==> names_bound(#[trigger] fields@[i].1, vars, types),
        ExpressionKind::Literal(_) => true,
        ExpressionKind::Binary(_, l, r) => names_bound(*l, vars, types) && names_bound(
            *r,
            vars,
            types,
        ),
        ExpressionKind::Unary(_, operand) => names_bound(*operand, vars, types),
        ExpressionKind::Lambda(l) => annotation_names_bound(l.return_type, types) && match l.parameter {
            Some(p) => annotation_names_bound(p.type_dec, types) && names_bound(
                *l.body,
                vars.push(p.name@),
                types,
            ),
            None => names_bound(*l.body, vars, types),
        },
        ExpressionKind::FunctionInvocation { function, arguments } => names_bound(
            *function,
            vars,
            types,
        ) && forall|i: int|
            0 <= i < arguments@.len() ==> names_bound(
                #[trigger] arguments@[i],
                names_after(*function, vars),
                type_names_after(*function, types),
            ),
        ExpressionKind::FieldAccess { target, .. } => names_bound(*target, vars, types),
        ExpressionKind::Let { type_dec, value, .. } => annotation_names_bound(type_dec, types)
            && names_bound(*value, vars, types),
        ExpressionKind::Block(es) => forall|i: int|
            0 <= i < es@.len() ==> names_bound(
                #[trigger] es@[i],
                names_before(es@, vars, i),
                type_names_before(es@, types, i),
            ),
        ExpressionKind::If { condition, true_pathway, false_pathway } => names_bound(
            *condition,
            vars,
            types,
        ) && names_bound(*true_pathway, vars, types) && match false_pathway {
            Some(other) => names_bound(*other, vars, types),
            None => true,
        },
        ExpressionKind::TypeDeclaration { type_expression, .. } => type_names_bound(
            type_expression,
            types,
        ),
    }
}

/// Slot `id` of a binding table holds a binding named `name`, sited at `span`.
pub open spec fn minted(table: Seq<ResolvedBinding>, id: usize, name: String, span: SourceSpan) -> bool {
    id < table.len() && table[id as int] == ResolvedBinding { name, span }
}

/// The variable scope after `e`, resolved as `r`: a `let` binds its name to its binding.
pub open spec fn vars_after(
    e: Expression,
    r: ResolvedExpression,
    vars: Seq<VariableBindingScopeEntry>,
) -> Seq<VariableBindingScopeEntry> {
    match (e.kind, r.kind) {
        (ExpressionKind::Let { name, .. }, ResolvedExpressionKind::Let { binding, .. }) => vars.push(
            VariableBindingScopeEntry { name, binding },
        ),
        _ => vars,
    }
}

/// The type scope after `e`, resolved as `r`: a `type` declaration binds its name.
pub open spec fn types_after(
    e: Expression,
    r: ResolvedExpression,
    types: Seq<TypeBindingScopeEntry>,
) -> Seq<TypeBindingScopeEntry> {
    match (e.kind, r.kind) {
        (
            ExpressionKind::TypeDeclaration { identifier, .. },
            ResolvedExpressionKind::TypeDeclaration { identifier: binding, .. },
        ) => types.push(TypeBindingScopeEntry { name: identifier, binding }),
        _ => types,
    }
}

/// The variable scope before the `i`th of a run of expressions resolved as `rs`.
pub open spec fn vars_before(
    es: Seq<Expression>,
    rs: Seq<ResolvedExpression>,
    vars: Seq<VariableBindingScopeEntry>,
    i: int,
) -> Seq<VariableBindingScopeEntry>
    decreases i,
{
    if i <= 0 {
        vars
    } else {
        vars_after(es[i - 1], rs[i - 1], vars_before(es, rs, vars, i - 1))
    }
}

/// The type scope before the `i`th of a run of expressions resolved as `rs`.
pub open spec fn types_before(
    es: Seq<Expression>,
    rs: Seq<ResolvedExpression>,
    types: Seq<TypeBindingScopeEntry>,
    i: int,
) -> Seq<TypeBindingScopeEntry>
    decreases i,
{
    if i <= 0 {
        types
    } else {
        types_after(es[i - 1], rs[i - 1], types_before(es, rs, types, i - 1))
    }
}

/// `r` is `e` with every name replaced by the binding it resolves to where it is written,
/// given the scopes `vars` and `types` in sight of `e`. Each `let`, lambda parameter and
/// `type` declaration has a binding of its own name, sited at the expression that makes it,
/// in the tables `var_table` and `type_table`.
pub open spec fn resolves(
    r: ResolvedExpression,
    e: Expression,
    vars: Seq<VariableBindingScopeEntry>,
    types: Seq<TypeBindingScopeEntry>,
    var_table: Seq<ResolvedBinding>,
    type_table: Seq<ResolvedBinding>,
) -> bool
    decreases e,
{
    r.span == e.span && match e.kind {
        ExpressionKind::Var(name) => spec_lookup(vars, name@) matches Some(b) && r.kind
            == ResolvedExpressionKind::Var(b),
        ExpressionKind::Literal(Literal::Int(v)) => r.kind == ResolvedExpressionKind::Literal(
            ResolvedLiteral::Int(v),
        ),
        ExpressionKind::Literal(Literal::Bool(v)) => r.kind == ResolvedExpressionKind::Literal(
            ResolvedLiteral::Bool(v),
        ),
        ExpressionKind::Literal(Literal::Float(v)) => r.kind == ResolvedExpressionKind::Literal(
            ResolvedLiteral::Float(v),
        ),
        ExpressionKind::Literal(Literal::String(v)) => r.kind == ResolvedExpressionKind::Literal(
            ResolvedLiteral::String(v),
        ),
        ExpressionKind::Literal(Literal::Unit) => r.kind == ResolvedExpressionKind::Literal(
            ResolvedLiteral::Unit,
        ),
        ExpressionKind::Literal(Literal::Record(fields)) => r.kind
            matches ResolvedExpressionKind::Literal(ResolvedLiteral::Record(resolved))
            && resolved@.len() == fields@.len() && forall|i: int|
            0 <= i < fields@.len() ==> (#[trigger] resolved@[i]).0 == fields@[i].0 && resolves(
                resolved@[i].1,
                fields@[i].1,
                vars,
                types,
                var_table,
                type_table,
            ),
        ExpressionKind::Binary(op, l, rr) => r.kind matches ResolvedExpressionKind::Binary(
            rop,
            rl,
            rrr,
        ) && rop == op && resolves(*rl, *l, vars, types, var_table, type_table) && resolves(
            *rrr,
            *rr,
            vars,
            types,
            var_table,
            type_table,
        ),
        ExpressionKind::Unary(op, operand) => r.kind matches ResolvedExpressionKind::Unary(
            rop,
            ro,
        ) && rop == op && resolves(*ro, *operand, vars, types, var_table, type_table),
        ExpressionKind::Lambda(l) => r.kind matches ResolvedExpressionKind::Lambda(rl)
            && annotation_resolves(rl.return_type, l.return_type, types) && match (
            l.parameter,
            rl.parameter,
        ) {
            (None, None) => resolves(*rl.body, *l.body, vars, types, var_table, type_table),
            (Some(p), Some(rp)) => minted(var_table, rp.binding.0, p.name, e.span)
                && annotation_resolves(rp.type_dec, p.type_dec, types) && resolves(
                *rl.body,
                *l.body,
                vars.push(VariableBindingScopeEntry { name: p.name, binding: rp.binding }),
                types,
                var_table,
                type_table,
            ),
            _ => false,
        },
        ExpressionKind::FunctionInvocation { function, arguments } => r.kind
            matches ResolvedExpressionKind::FunctionInvocation {
            function: rf,
            arguments: ra,
        } && resolves(*rf, *function, vars, types, var_table, type_table) && ra@.len()
            == arguments@.len() && forall|i: int|
            0 <= i < arguments@.len() ==> resolves(
                #[trigger] ra@[i],
                arguments@[i],
                vars_after(*function, *rf, vars),
                types_after(*function, *rf, types),
                var_table,
                type_table,
            ),
        ExpressionKind::FieldAccess { target, identifier } => r.kind
            matches ResolvedExpressionKind::FieldAccess { target: rt, field_name }
            && field_name == identifier && resolves(*rt, *target, vars, types, var_table, type_table),
        ExpressionKind::Let { name, type_dec, value } => r.kind
            matches ResolvedExpressionKind::Let { binding, type_dec: rtd, value: rv } && minted(
            var_table,
            binding.0,
            name,
            e.span,
        ) && annotation_resolves(rtd, type_dec, types) && resolves(
            *rv,
            *value,
            vars,
            types,
            var_table,
            type_table,
        ),
        ExpressionKind::Block(es) => r.kind matches ResolvedExpressionKind::Block(rs)
            && rs@.len() == es@.len() && forall|i: int|
            0 <= i < es@.len() ==> resolves(
                #[trigger] rs@[i],
                es@[i],
                vars_before(es@, rs@, vars, i),
                types_before(es@, rs@, types, i),
                var_table,
                type_table,
            ),
        ExpressionKind::If { condition, true_pathway, false_pathway } => r.kind
            matches ResolvedExpressionKind::If {
            condition: rc,
            true_condition: rt,
            false_condition: rf,
        } && resolves(*rc, *condition, vars, types, var_table, type_table) && resolves(
            *rt,
            *true_pathway,
            vars,
            types,
            var_table,
            type_table,
        ) && match (false_pathway, rf) {
            (None, None) => true,
            (Some(f), Some(g)) => resolves(*g, *f, vars, types, var_table, type_table),
            _ => false,
        },
        ExpressionKind::TypeDeclaration { identifier, type_expression } => r.kind
            matches ResolvedExpressionKind::TypeDeclaration {
            identifier: binding,
            type_expression: rte,
        } && minted(type_table, binding.0, identifier, e.span) && type_resolves(
            rte,
            type_expression,
            types,
        ),
    }
}

/// Resolving `r` with `counts` variable and type bindings minted so far mints each binding
/// `r` declares as the next one, in the order resolution meets them: a lambda's parameter
/// before its body, a `let`'s binding after its value, a `type`'s binding after its type.
/// The counts it ends with, or `None` where a declaration holds another id.
pub open spec fn mints(r: ResolvedExpression, counts: (nat, nat)) -> Option<(nat, nat)>
    decreases r,
{
    match r.kind {
        ResolvedExpressionKind::Literal(ResolvedLiteral::Record(fields)) => mints_fields(
            fields@,
            counts,
        ),
        ResolvedExpressionKind::Literal(_) | ResolvedExpressionKind::Var(_) => Some(counts),
        ResolvedExpressionKind::Binary(_, l, rr) => match mints(*l, counts) {
            Some(c) => mints(*rr, c),
            None => None,
        },
        ResolvedExpressionKind::Unary(_, o) => mints(*o, counts),
        ResolvedExpressionKind::Lambda(l) => match l.parameter {
            Some(p) => if p.binding.0 == counts.0 {
                mints(*l.body, (counts.0 + 1, counts.1))
            } else {
                None
            },
            None => mints(*l.body, counts),
        },
        ResolvedExpressionKind::FunctionInvocation { function, arguments } => match mints(
            *function,
            counts,
        ) {
            Some(c) => mints_all(arguments@, c),
            None => None,
        },
        ResolvedExpressionKind::FieldAccess { target, .. } => mints(*target, counts),
        ResolvedExpressionKind::Let { binding, value, .. } => match mints(*value, counts) {
            Some(c) => if binding.0 == c.0 {
                Some((c.0 + 1, c.1))
            } else {
                None
            },
            None => None,
        },
        ResolvedExpressionKind::Block(es) => mints_all(es@, counts),
        ResolvedExpressionKind::If { condition, true_condition, false_condition } => match mints(
            *condition,
            counts,
        ) {
            Some(c) => match mints(*true_condition, c) {
                Some(c2) => match false_condition {
                    Some(f) => mints(*f, c2),
                    None => Some(c2),
                },
                None => None,
            },
            None => None,
        },
        ResolvedExpressionKind::TypeDeclaration { identifier, .. } => if identifier.0 == counts.1 {
            Some((counts.0, counts.1 + 1))
        } else {
            None
        },
    }
}

/// [`mints`] over a run of expressions in turn.
pub open spec fn mints_all(es: Seq<ResolvedExpression>, counts: (nat, nat)) -> Option<(nat, nat)>
    decreases es,
{
    if es.len() == 0 {
        Some(counts)
    } else {
        match mints_all(es.drop_last(), counts) {
            Some(c) => mints(es.last(), c),
            None => None,
        }
    }
}

/// [`mints`] over the fields of a record literal in turn.
pub open spec fn mints_fields(fields: Seq<(String, ResolvedExpression)>, counts: (nat, nat)) -> Option<
    (nat, nat),
>
    decreases fields,
{
    if fields.len() == 0 {
        Some(counts)
    } else {
        match mints_fields(fields.drop_last(), counts) {
            Some(c) => mints(fields.last().1, c),
            None => None,
        }
    }
}

/// How many variable bindings `e` declares: one for each `let` and each lambda parameter in it.
pub open spec fn var_decls(e: Expression) -> nat
    decreases e,
{
    match e.kind {
        ExpressionKind::Literal(Literal::Record(fields)) => var_decls_fields(fields@),
        ExpressionKind::Binary(_, l, r) => var_decls(*l) + var_decls(*r),
        ExpressionKind::Unary(_, operand) => var_decls(*operand),
        ExpressionKind::Lambda(l) => match l.parameter {
            Some(_) => 1 + var_decls(*l.body),
            None => var_decls(*l.body),
        },
        ExpressionKind::FunctionInvocation { function, arguments } => var_decls(*function)
            + var_decls_run(arguments@),
        ExpressionKind::FieldAccess { target, .. } => var_decls(*target),
        ExpressionKind::Let { value, .. } => 1 + var_decls(*value),
        ExpressionKind::Block(es) => var_decls_run(es@),
        ExpressionKind::If { condition, true_pathway, false_pathway } => var_decls(*condition)
            + var_decls(*true_pathway) + match false_pathway {
            Some(other) => var_decls(*other),
            None => 0,
        },
        _ => 0,
    }
}

/// [`var_decls`] summed over the values of `fields`.
pub open spec fn var_decls_fields(fields: Seq<(String, Expression)>) -> nat
    decreases fields,
{
    if fields.len() == 0 {
        0
    } else {
        var_decls(fields[0].1) + var_decls_fields(fields.drop_first())
    }
}

/// [`var_decls`] summed over `es`.
pub open spec fn var_decls_run(es: Seq<Expression>) -> nat
    decreases es,
{
    if es.len() == 0 {
        0
    } else {
        var_decls(es[0]) + var_decls_run(es.drop_first())
    }
}

/// The scopes after an expression bind the names [`names_after`] and [`type_names_after`]
/// say they do.
pub proof fn lemma_names_after(
    e: Expression,
    r: ResolvedExpression,
    vars: Seq<VariableBindingScopeEntry>,
    types: Seq<TypeBindingScopeEntry>,
    var_table: Seq<ResolvedBinding>,
    type_table: Seq<ResolvedBinding>,
)
    requires
        resolves(r, e, vars, types, var_table, type_table),
    ensures
        variable_names(vars_after(e, r, vars)) == names_after(e, variable_names(vars)),
        type_names_of(types_after(e, r, types)) == type_names_after(e, type_names_of(types)),
{
    assert(variable_names(vars_after(e, r, vars)) =~= names_after(e, variable_names(vars)));
    assert(type_names_of(types_after(e, r, types)) =~= type_names_after(e, type_names_of(types)));
}

/// The scopes before the `i`th expression of a run depend only on the first `i` results.
pub proof fn lemma_before_depends_on_prefix(
    es: Seq<Expression>,
    rs1: Seq<ResolvedExpression>,
    rs2: Seq<ResolvedExpression>,
    vars: Seq<VariableBindingScopeEntry>,
    types: Seq<TypeBindingScopeEntry>,
    i: int,
)
    requires
        forall|k: int| 0 <= k < i ==> rs1[k] == rs2[k],
    ensures
        vars_before(es, rs1, vars, i) == vars_before(es, rs2, vars, i),
        types_before(es, rs1, types, i) == types_before(es, rs2, types, i),
    decreases i,
{
    if i > 0 {
        lemma_before_depends_on_prefix(es, rs1, rs2, vars, types, i - 1);
    }
}

/// `small` is a prefix of `large`.
pub open spec fn table_extends(small: Seq<ResolvedBinding>, large: Seq<ResolvedBinding>) -> bool {
    small.len() <= large.len() && forall|i: int| 0 <= i < small.len() ==> large[i] == small[i]
}

/// What resolves against binding tables still resolves once the tables have grown.
pub proof fn lemma_resolves_as_tables_grow(
    r: ResolvedExpression,
    e: Expression,
    vars: Seq<VariableBindingScopeEntry>,
    types: Seq<TypeBindingScopeEntry>,
    var_table: Seq<ResolvedBinding>,
    type_table: Seq<ResolvedBinding>,
    var_table2: Seq<ResolvedBinding>,
    type_table2: Seq<ResolvedBinding>,
)
    requires
        resolves(r, e, vars, types, var_table, type_table),
        table_extends(var_table, var_table2),
        table_extends(type_table, type_table2),
    ensures
        resolves(r, e, vars, types, var_table2, type_table2),
    decreases e,
{
    match e.kind {
        ExpressionKind::Literal(Literal::Record(fields)) => {
            if let ResolvedExpressionKind::Literal(ResolvedLiteral::Record(resolved)) = r.kind {
                assert forall|i: int| 0 <= i < fields@.len() implies (#[trigger] resolved@[i]).0
                    == fields@[i].0 && resolves(
                    resolved@[i].1,
                    fields@[i].1,
                    vars,
                    types,
                    var_table2,
                    type_table2,
                ) by {
                    lemma_resolves_as_tables_grow(
                        resolved@[i].1,
                        fields@[i].1,
                        vars,
                        types,
                        var_table,
                        type_table,
                        var_table2,
                        type_table2,
                    );
                }
            }
        },
        ExpressionKind::Binary(_, l, rr) => {
            if let ResolvedExpressionKind::Binary(_, rl, rrr) = r.kind {
                lemma_resolves_as_tables_grow(*rl, *l, vars, types, var_table, type_table, var_table2, type_table2);
                lemma_resolves_as_tables_grow(*rrr, *rr, vars, types, var_table, type_table, var_table2, type_table2);
            }
        },
        ExpressionKind::Unary(_, operand) => {
            if let ResolvedExpressionKind::Unary(_, ro) = r.kind {
                lemma_resolves_as_tables_grow(*ro, *operand, vars, types, var_table, type_table, var_table2, type_table2);
            }
        },
        ExpressionKind::Lambda(l) => {
            if let ResolvedExpressionKind::Lambda(rl) = r.kind {
                match (l.parameter, rl.parameter) {
                    (Some(p), Some(rp)) => {
                        lemma_resolves_as_tables_grow(
                            *rl.body,
                            *l.body,
                            vars.push(VariableBindingScopeEntry { name: p.name, binding: rp.binding }),
                            types,
                            var_table,
                            type_table,
                            var_table2,
                            type_table2,
                        );
                    },
                    _ => {
                        lemma_resolves_as_tables_grow(*rl.body, *l.body, vars, types, var_table, type_table, var_table2, type_table2);
                    },
                }
            }
        },
        ExpressionKind::FunctionInvocation { function, arguments } => {
            if let ResolvedExpressionKind::FunctionInvocation { function: rf, arguments: ra } = r.kind {
                lemma_resolves_as_tables_grow(*rf, *function, vars, types, var_table, type_table, var_table2, type_table2);
                assert forall|i: int| 0 <= i < arguments@.len() implies resolves(
                    #[trigger] ra@[i],
                    arguments@[i],
                    vars_after(*function, *rf, vars),
                    types_after(*function, *rf, types),
                    var_table2,
                    type_table2,
                ) by {
                    lemma_resolves_as_tables_grow(
                        ra@[i],
                        arguments@[i],
                        vars_after(*function, *rf, vars),
                        types_after(*function, *rf, types),
                        var_table,
                        type_table,
                        var_table2,
                        type_table2,
                    );
                }
            }
        },
        ExpressionKind::FieldAccess { target, .. } => {
            if let ResolvedExpressionKind::FieldAccess { target: rt, .. } = r.kind {
                lemma_resolves_as_tables_grow(*rt, *target, vars, types, var_table, type_table, var_table2, type_table2);
            }
        },
        ExpressionKind::Let { value, .. } => {
            if let ResolvedExpressionKind::Let { value: rv, .. } = r.kind {
                lemma_resolves_as_tables_grow(*rv, *value, vars, types, var_table, type_table, var_table2, type_table2);
            }
        },
        ExpressionKind::Block(es) => {
            if let ResolvedExpressionKind::Block(rs) = r.kind {
                assert forall|i: int| 0 <= i < es@.len() implies resolves(
                    #[trigger] rs@[i],
                    es@[i],
                    vars_before(es@, rs@, vars, i),
                    types_before(es@, rs@, types, i),
                    var_table2,
                    type_table2,
                ) by {
                    lemma_resolves_as_tables_grow(
                        rs@[i],
                        es@[i],
                        vars_before(es@, rs@, vars, i),
                        types_before(es@, rs@, types, i),
                        var_table,
                        type_table,
                        var_table2,
                        type_table2,
                    );
                }
            }
        },
        ExpressionKind::If { condition, true_pathway, false_pathway } => {
            if let ResolvedExpressionKind::If { condition: rc, true_condition: rt, false_condition: rf } = r.kind {
                lemma_resolves_as_tables_grow(*rc, *condition, vars, types, var_table, type_table, var_table2, type_table2);
                lemma_resolves_as_tables_grow(*rt, *true_pathway, vars, types, var_table, type_table, var_table2, type_table2);
                if let (Some(f), Some(g)) = (false_pathway, rf) {
                    lemma_resolves_as_tables_grow(*g, *f, vars, types, var_table, type_table, var_table2, type_table2);
                }
            }
        },
        _ => {},
    }
}

/// A resolution failure, as mathematics.
pub enum ResolutionFailure {
    UnboundName(Seq<char>, SourceSpan),
    DuplicateBinding(Seq<char>, SourceSpan, SourceSpan),
    UnboundTypeName(Seq<char>, SourceSpan),
}

pub open spec fn failure_view(e: BindingResolutionError) -> ResolutionFailure {
    match e {
        BindingResolutionError::UnboundName { name, span } => ResolutionFailure::UnboundName(
            name@,
            span,
        ),
        BindingResolutionError::DuplicateBinding { name, span, original_span } =>
            ResolutionFailure::DuplicateBinding(name@, span, original_span),
        BindingResolutionError::UnboundTypeName { name, span } => ResolutionFailure::UnboundTypeName(
            name@,
            span,
        ),
    }
}

/// The first type name in `t`, in reading order, that `names` does not bind.
pub open spec fn first_type_failure(t: TypeExpression, names: Seq<Seq<char>>) -> Option<
    ResolutionFailure,
>
    decreases t,
{
    match t.kind {
        TypeExpressionKind::Named(name) => if names.contains(name@) {
            None
        } else {
            Some(ResolutionFailure::UnboundTypeName(name@, t.span))
        },
        TypeExpressionKind::Record(fields) => first_field_type_failure(fields@, names),
        TypeExpressionKind::Lambda(l) => match l.parameter {
            Some(p) => match first_type_failure(*p.type_dec, names) {
                Some(f) => Some(f),
                None => first_type_failure(*l.return_type, names),
            },
            None => first_type_failure(*l.return_type, names),
        },
    }
}

/// The first failure among the types of `fields`, in order.
pub open spec fn first_field_type_failure(
    fields: Seq<(String, TypeExpression)>,
    names: Seq<Seq<char>>,
) -> Option<ResolutionFailure>
    decreases fields,
{
    if fields.len() == 0 {
        None
    } else {
        match first_type_failure(fields[0].1, names) {
            Some(f) => Some(f),
            None => first_field_type_failure(fields.drop_first(), names),
        }
    }
}

/// The failure of an optional annotation.
pub open spec fn annotation_failure(t: Option<TypeExpression>, names: Seq<Seq<char>>) -> Option<
    ResolutionFailure,
> {
    match t {
        Some(t) => first_type_failure(t, names),
        None => None,
    }
}

/// The first failure of two in turn.
pub open spec fn either(first: Option<ResolutionFailure>, then: Option<ResolutionFailure>) -> Option<
    ResolutionFailure,
> {
    match first {
        Some(f) => Some(f),
        None => then,
    }
}

/// The first name in `e`, in the order resolution visits them, that is not in sight where it
/// is written: a lambda's parameter annotation, then its body, then its return annotation; a
/// call's callee, then its arguments; a `let`'s annotation, then its value; a block's
/// expressions in turn, each seeing the `let`s and `type`s before it.
pub open spec fn first_failure(e: Expression, vars: Seq<Seq<char>>, types: Seq<Seq<char>>) -> Option<
    ResolutionFailure,
>
    decreases e,
{
    match e.kind {
        ExpressionKind::Var(name) => if vars.contains(name@) {
            None
        } else {
            Some(ResolutionFailure::UnboundName(name@, e.span))
        },
        ExpressionKind::Literal(Literal::Record(fields)) => first_field_failure(fields@, vars, types),
        ExpressionKind::Literal(_) => None,
        ExpressionKind::Binary(_, l, r) => either(
            first_failure(*l, vars, types),
            first_failure(*r, vars, types),
        ),
        ExpressionKind::Unary(_, operand) => first_failure(*operand, vars, types),
        ExpressionKind::Lambda(l) => match l.parameter {
            Some(p) => either(
                annotation_failure(p.type_dec, types),
                either(
                    first_failure(*l.body, vars.push(p.name@), types),
                    annotation_failure(l.return_type, types),
                ),
            ),
            None => either(
                first_failure(*l.body, vars, types),
                annotation_failure(l.return_type, types),
            ),
        },
        ExpressionKind::FunctionInvocation { function, arguments } => either(
            first_failure(*function, vars, types),
            first_run_failure(
                arguments@,
                names_after(*function, vars),
                type_names_after(*function, types),
            ),
        ),
        ExpressionKind::FieldAccess { target, .. } => first_failure(*target, vars, types),
        ExpressionKind::Let { type_dec, value, .. } => either(
            annotation_failure(type_dec, types),
            first_failure(*value, vars, types),
        ),
        ExpressionKind::Block(es) => first_block_failure(es@, vars, types),
        ExpressionKind::If { condition, true_pathway, false_pathway } => either(
            first_failure(*condition, vars, types),
            either(
                first_failure(*true_pathway, vars, types),
                match false_pathway {
                    Some(other) => first_failure(*other, vars, types),
                    None => None,
                },
            ),
        ),
        ExpressionKind::TypeDeclaration { type_expression, .. } => first_type_failure(
            type_expression,
            types,
        ),
    }
}

/// The first failure among the values of `fields`, all in the same scope.
pub open spec fn first_field_failure(
    fields: Seq<(String, Expression)>,
    vars: Seq<Seq<char>>,
    types: Seq<Seq<char>>,
) -> Option<ResolutionFailure>
    decreases fields,
{
    if fields.len() == 0 {
        None
    } else {
        either(
            first_failure(fields[0].1, vars, types),
            first_field_failure(fields.drop_first(), vars, types),
        )
    }
}

/// The first failure among `es`, all in the same scope.
pub open spec fn first_run_failure(
    es: Seq<Expression>,
    vars: Seq<Seq<char>>,
    types: Seq<Seq<char>>,
) -> Option<ResolutionFailure>
    decreases es,
{
    if es.len() == 0 {
        None
    } else {
        either(first_failure(es[0], vars, types), first_run_failure(es.drop_first(), vars, types))
    }
}

/// The first failure among `es`, each seeing the `let`s and `type`s before it.
pub open spec fn first_block_failure(
    es: Seq<Expression>,
    vars: Seq<Seq<char>>,
    types: Seq<Seq<char>>,
) -> Option<ResolutionFailure>
    decreases es,
{
    if es.len() == 0 {
        None
    } else {
        either(
            first_failure(es[0], vars, types),
            first_block_failure(
                es.drop_first(),
                names_after(es[0], vars),
                type_names_after(es[0], types),
            ),
        )
    }
}

} // verus!
