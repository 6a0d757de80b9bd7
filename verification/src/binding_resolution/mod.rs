pub mod binding_arena;
pub mod binding_resolved;
pub mod correspondence;
pub mod error;
pub mod scope;

use vstd::prelude::*;

pub use binding_resolved::{
    BindingId, BindingResolvedProgram, ResolvedBinding, ResolvedExpression,
    ResolvedExpressionKind, ResolvedLambda, ResolvedLiteral, ResolvedParam,
};
pub use error::BindingResolutionError;

use binding_arena::{TypeBindingArena, VariableBindingArena};
use binding_resolved::{
    ResolvedLambdaTypeExpression, ResolvedOptionallyNamedTypeExpression, ResolvedTypeExpression,
    ResolvedTypeExpressionKind, TypeBindingId,
};
use correspondence::{
    ResolutionFailure, annotation_failure, failure_view, first_block_failure, first_failure,
    first_field_failure, first_field_type_failure, first_run_failure, first_type_failure,
    annotation_names_bound, annotation_resolves, lemma_before_depends_on_prefix,
    lemma_lookup_finds_bound_names, lemma_lookup_finds_bound_type_names, lemma_names_after,
    lemma_resolves_as_tables_grow, minted, mints, mints_all, mints_fields, names_after, names_before, names_bound, resolves,
    table_extends, type_names_after, type_names_before, type_names_bound, type_names_of,
    type_resolves, types_after, types_before, var_decls, var_decls_fields, var_decls_run,
    variable_names, vars_after, vars_before,
};
use scope::{Scope, TypeBindingScopeEntry, VariableBindingScopeEntry};

use crate::parse::ast::{self, Expression, ExpressionKind, Literal, Param};
use crate::prelude::{prelude_span, spec_type_names, type_names};
use crate::span::SourceSpan;

verus! {

/// The arenas that hand out binding ids in both namespaces.
pub struct ResolveContext {
    pub var_binding_arena: VariableBindingArena,
    pub type_binding_arena: TypeBindingArena,
}

impl ResolveContext {
    pub open spec fn sizes(&self) -> (nat, nat) {
        (self.var_binding_arena.items().len(), self.type_binding_arena.items().len())
    }
}

/// The top-level `let`s declared so far, as names and sites.
pub open spec fn declared_view(declared: Seq<(String, SourceSpan)>) -> Seq<(Seq<char>, SourceSpan)> {
    Seq::new(declared.len(), |i: int| (declared[i].0@, declared[i].1))
}

/// The site of the first declaration named `name`.
pub open spec fn first_site(declared: Seq<(Seq<char>, SourceSpan)>, name: Seq<char>) -> Option<
    SourceSpan,
>
    decreases declared.len(),
{
    if declared.len() == 0 {
        None
    } else if declared[0].0 == name {
        Some(declared[0].1)
    } else {
        first_site(declared.drop_first(), name)
    }
}

/// The span of the first top-level `let` named `name`, among those seen so far.
fn declared_span(declared: &Vec<(String, SourceSpan)>, name: &String) -> (span: Option<SourceSpan>)
    ensures
        span is Some <==> exists|i: int|
            0 <= i < declared@.len() && #[trigger] declared@[i].0@ == name@,
        span == first_site(declared_view(declared@), name@),
{
    let ghost all = declared_view(declared@);
    let mut i: usize = 0;
    proof {
        assert(all.subrange(0, all.len() as int) =~= all);
    }
    while i < declared.len()
        invariant
            0 <= i <= declared.len(),
            all == declared_view(declared@),
            forall|j: int| 0 <= j < i ==> #[trigger] declared@[j].0@ != name@,
            first_site(all, name@) == first_site(all.subrange(i as int, all.len() as int), name@),
        decreases declared.len() - i,
    {
        let ghost rest = all.subrange(i as int, all.len() as int);
        proof {
            assert(rest[0] == all[i as int]);
            assert(rest.drop_first() =~= all.subrange(i + 1, all.len() as int));
        }
        if declared[i].0 == *name {
            return Some(declared[i].1);
        }
        i = i + 1;
    }
    proof {
        assert(all.subrange(i as int, all.len() as int).len() == 0);
    }
    None
}

/// `e` is a `let` of the name `name`.
pub open spec fn let_named(e: Expression, name: Seq<char>) -> bool {
    e.kind matches ExpressionKind::Let { name: n, .. } && n@ == name
}

/// No two top-level `let`s among the first `n` expressions bind the same name.
pub open spec fn top_level_lets_distinct(es: Seq<Expression>, n: int) -> bool {
    forall|j: int, k: int|
        0 <= j < k < n ==> !(#[trigger] es[k].kind matches ExpressionKind::Let { name, .. }
            && let_named(#[trigger] es[j], name@))
}

/// The type scope a program starts in: the builtin types, bound to the first slots of the
/// type table.
pub open spec fn prelude_types(table: Seq<ResolvedBinding>) -> Seq<TypeBindingScopeEntry> {
    Seq::new(5, |k: int| TypeBindingScopeEntry { name: table[k].name, binding: TypeBindingId(k as usize) })
}

/// Every name of the top-level expressions is in sight where it is written, each expression
/// seeing the `let`s and `type`s before it, and the builtin types.
pub open spec fn program_names_bound(es: Seq<Expression>, n: int) -> bool {
    forall|i: int|
        0 <= i < n ==> names_bound(
            #[trigger] es[i],
            names_before(es, Seq::empty(), i),
            type_names_before(es, spec_type_names(), i),
        )
}

/// What resolving top-level expressions in turn has seen: the variable and type names in sight
/// (an expression that fails adds none), the top-level `let`s declared (the first of each name,
/// with its site), and the failures reported, in order.
pub struct ResolveProgress {
    pub vars: Seq<Seq<char>>,
    pub types: Seq<Seq<char>>,
    pub declared: Seq<(Seq<char>, SourceSpan)>,
    pub failures: Seq<ResolutionFailure>,
}

/// The failures a list of errors reports.
pub open spec fn failures_view(errors: Seq<BindingResolutionError>) -> Seq<ResolutionFailure> {
    Seq::new(errors.len(), |i: int| failure_view(errors[i]))
}

/// The declarations after the top-level expression `e`, and the duplicate it reports if it
/// is a `let` of a name already declared.
pub open spec fn declare(declared: Seq<(Seq<char>, SourceSpan)>, e: Expression) -> (
    Seq<(Seq<char>, SourceSpan)>,
    Seq<ResolutionFailure>,
) {
    match e.kind {
        ExpressionKind::Let { name, .. } => match first_site(declared, name@) {
            Some(site) => (
                declared,
                seq![ResolutionFailure::DuplicateBinding(name@, e.span, site)],
            ),
            None => (declared.push((name@, e.span)), Seq::empty()),
        },
        _ => (declared, Seq::empty()),
    }
}

/// The progress after resolving one more top-level expression `e`.
pub open spec fn progress_after(before: ResolveProgress, e: Expression) -> ResolveProgress {
    let (declared, duplicate) = declare(before.declared, e);
    match first_failure(e, before.vars, before.types) {
        Some(f) => ResolveProgress {
            vars: before.vars,
            types: before.types,
            declared,
            failures: before.failures + duplicate + seq![f],
        },
        None => ResolveProgress {
            vars: names_after(e, before.vars),
            types: type_names_after(e, before.types),
            declared,
            failures: before.failures + duplicate,
        },
    }
}

/// The progress after resolving the top-level expressions `es` in turn, starting with the
/// builtin type names in sight.
pub open spec fn resolve_progress(es: Seq<Expression>) -> ResolveProgress
    decreases es.len(),
{
    if es.len() == 0 {
        ResolveProgress {
            vars: Seq::empty(),
            types: spec_type_names(),
            declared: Seq::empty(),
            failures: Seq::empty(),
        }
    } else {
        progress_after(resolve_progress(es.drop_last()), es.last())
    }
}

proof fn lemma_progress_step(es: Seq<Expression>, i: int)
    requires
        0 <= i < es.len(),
    ensures
        resolve_progress(es.take(i + 1)) == progress_after(resolve_progress(es.take(i)), es[i]),
{
    assert(es.take(i + 1).drop_last() =~= es.take(i));
}

/// What resolving `program` promises of its outcome `resolved`; see [`resolve`].
pub open spec fn resolve_post(program: ast::ParsedProgram, resolved: Result<BindingResolvedProgram, Vec<BindingResolutionError>>) -> bool {
    &&& (resolved is Ok <==> top_level_lets_distinct(
            program.expressions@,
            program.expressions@.len() as int,
        ) && program_names_bound(program.expressions@, program.expressions@.len() as int))
    &&& (resolved matches Ok(p) ==> p.expressions@.len() == program.expressions@.len()
            && p.type_bindings@.len() >= 5 && (forall|i: int|
            0 <= i < 5 ==> (#[trigger] p.type_bindings@[i]).name@ == spec_type_names()[i]
                && p.type_bindings@[i].span == prelude_span_value()) && (forall|i: int|
            0 <= i < p.expressions@.len() ==> resolves(
                #[trigger] p.expressions@[i],
                program.expressions@[i],
                vars_before(program.expressions@, p.expressions@, Seq::empty(), i),
                types_before(
                    program.expressions@,
                    p.expressions@,
                    prelude_types(p.type_bindings@),
                    i,
                ),
                p.bindings@,
                p.type_bindings@,
            )))
    &&& (resolved matches Ok(p) ==> mints_all(p.expressions@, (0, 5)) == Some(
            (p.bindings@.len(), p.type_bindings@.len()),
        ))
    &&& (resolved matches Err(errors) ==> errors@.len() > 0)
    &&& (resolved is Ok <==> resolve_progress(program.expressions@).failures.len() == 0)
    &&& (resolved matches Err(errors) ==> failures_view(errors@) == resolve_progress(
            program.expressions@,
        ).failures)
}

/// Resolves every top-level expression in order, each seeing the lets before it. Builtin type
/// names are bound first. Every failure is collected; a top-level `let` of a name already
/// declared at top level is a `DuplicateBinding`. It succeeds exactly when no top-level name
/// is bound twice and every name is in sight where it is written.
#[verifier::loop_isolation(false)]
#[verifier::spinoff_prover]
#[verifier::rlimit(100)]
pub fn resolve(program: ast::ParsedProgram) -> (resolved: Result<
    BindingResolvedProgram,
    Vec<BindingResolutionError>,
>)
    ensures
        resolve_post(program, resolved),

{
    let mut ctx = ResolveContext {
        type_binding_arena: TypeBindingArena::new(),
        var_binding_arena: VariableBindingArena::new(),
    };
    let names = type_names();
    let mut scope = Scope::new();
    let mut k: usize = 0;
    while k < names.len()
        invariant
            0 <= k <= names.len(),
            names@.len() == 5,
            ctx.type_binding_arena.items().len() == k,
            ctx.var_binding_arena.items().len() == 0,
            scope.variables() == Seq::<VariableBindingScopeEntry>::empty(),
            scope.types().len() == k,
            forall|i: int|
                0 <= i < k ==> (#[trigger] ctx.type_binding_arena.items()[i]).name@
                    == spec_type_names()[i] && ctx.type_binding_arena.items()[i].span
                    == prelude_span_value() && scope.types()[i] == (TypeBindingScopeEntry {
                    name: ctx.type_binding_arena.items()[i].name,
                    binding: TypeBindingId(i as usize),
                }),
        decreases names.len() - k,
    {
        let name = String::from_str(names[k]);
        let binding = ctx.type_binding_arena.extend(
            ResolvedBinding { name: name.clone(), span: prelude_span() },
        );
        scope = scope.extend_type(TypeBindingScopeEntry { name, binding });
        k = k + 1;
    }
    let ghost prelude = ctx.type_binding_arena.items();
    let ghost es = program.expressions@;
    proof {
        assert(scope.types() =~= prelude_types(prelude));
        assert(type_names_of(scope.types()) =~= spec_type_names());
        assert(variable_names(scope.variables()) =~= Seq::<Seq<char>>::empty());
    }
    let mut expressions: Vec<ResolvedExpression> = Vec::new();
    let mut errors: Vec<BindingResolutionError> = Vec::new();
    let mut declared: Vec<(String, SourceSpan)> = Vec::new();
    let mut i: usize = 0;
    while i < program.expressions.len()
        invariant
            0 <= i <= program.expressions.len(),
            es == program.expressions@,
            ctx.type_binding_arena.items().len() >= 5,
            forall|j: int|
                0 <= j < 5 ==> #[trigger] ctx.type_binding_arena.items()[j] == prelude[j],
            prelude.len() == 5,
            forall|d: int|
                0 <= d < declared@.len() ==> exists|j: int|
                    0 <= j < i && let_named(es[j], (#[trigger] declared@[d]).0@),
            forall|j: int, n: Seq<char>|
                0 <= j < i && #[trigger] let_named(es[j], n) ==> exists|d: int|
                    0 <= d < declared@.len() && (#[trigger] declared@[d]).0@ == n,
            errors@.len() == 0 <==> top_level_lets_distinct(es, i as int) && program_names_bound(
                es,
                i as int,
            ),
            errors@.len() == 0 ==> expressions@.len() == i,
            errors@.len() == 0 ==> mints_all(expressions@, (0, 5)) == Some(ctx.sizes()),
            variable_names(scope.variables()) == resolve_progress(es.take(i as int)).vars,
            type_names_of(scope.types()) == resolve_progress(es.take(i as int)).types,
            declared_view(declared@) == resolve_progress(es.take(i as int)).declared,
            failures_view(errors@) == resolve_progress(es.take(i as int)).failures,
            errors@.len() == 0 ==> scope.variables() == vars_before(es, expressions@, Seq::empty(), i as int),
            errors@.len() == 0 ==> scope.types() == types_before(es, expressions@, prelude_types(prelude), i as int),
            errors@.len() == 0 ==> variable_names(scope.variables()) == names_before(es, Seq::empty(), i as int),
            errors@.len() == 0 ==> type_names_of(scope.types()) == type_names_before(es, spec_type_names(), i as int),
            errors@.len() == 0 ==> forall|j: int|
                0 <= j < i ==> resolves(
                    #[trigger] expressions@[j],
                    es[j],
                    vars_before(es, expressions@, Seq::empty(), j),
                    types_before(es, expressions@, prelude_types(prelude), j),
                    ctx.var_binding_arena.items(),
                    ctx.type_binding_arena.items(),
                ),
        decreases program.expressions.len() - i,
    {
        let expression = &program.expressions[i];
        let ghost old_declared = declared@;
        let ghost errors0 = errors@;
        let ghost progress = resolve_progress(es.take(i as int));
        proof {
            lemma_progress_step(es, i as int);
        }
        if let ExpressionKind::Let { name, .. } = &expression.kind {
            match declared_span(&declared, name) {
                Some(original_span) => {
                    errors.push(
                        BindingResolutionError::DuplicateBinding {
                            name: name.clone(),
                            span: expression.span,
                            original_span,
                        },
                    );
                },
                None => {
                    declared.push((name.clone(), expression.span));
                },
            }
        }
        proof {
            assert forall|j: int, n: Seq<char>|
                0 <= j < i + 1 && #[trigger] let_named(es[j], n) implies exists|d: int|
                0 <= d < declared@.len() && (#[trigger] declared@[d]).0@ == n by {
                if j < i {
                    let d = choose|d: int|
                        0 <= d < old_declared.len() && (#[trigger] old_declared[d]).0@ == n;
                    assert(declared@[d] == old_declared[d]);
                } else if declared@.len() > old_declared.len() {
                    assert(declared@[old_declared.len() as int].0@ == n);
                }
            }
        }
        let ghost before = ctx;
        let ghost previous = expressions@;
        let ghost errors1 = errors@;
        proof {
            let (d, dup) = declare(progress.declared, es[i as int]);
            assert(declared_view(declared@) =~= d);
            assert(failures_view(errors1) =~= failures_view(errors0) + dup);
        }
        let ghost scope_vars = scope.variables();
        let ghost scope_types = scope.types();
        match resolve_expression(expression, &scope, &mut ctx) {
            Ok((resolved, next_scope)) => {
                expressions.push(resolved);
                if errors.len() == 0 {
                    proof {
                        assert(expressions@.drop_last() =~= previous);
                        lemma_names_after(
                            es[i as int],
                            resolved,
                            scope.variables(),
                            scope.types(),
                            ctx.var_binding_arena.items(),
                            ctx.type_binding_arena.items(),
                        );
                        lemma_before_depends_on_prefix(
                            es,
                            expressions@,
                            previous,
                            Seq::empty(),
                            prelude_types(prelude),
                            i as int,
                        );
                        assert forall|j: int| 0 <= j < i + 1 implies resolves(
                            #[trigger] expressions@[j],
                            es[j],
                            vars_before(es, expressions@, Seq::empty(), j),
                            types_before(es, expressions@, prelude_types(prelude), j),
                            ctx.var_binding_arena.items(),
                            ctx.type_binding_arena.items(),
                        ) by {
                            lemma_before_depends_on_prefix(
                                es,
                                expressions@,
                                previous,
                                Seq::empty(),
                                prelude_types(prelude),
                                j,
                            );
                            if j < i {
                                assert(expressions@[j] == previous[j]);
                                lemma_lift(
                                    previous[j],
                                    es[j],
                                    vars_before(es, previous, Seq::empty(), j),
                                    types_before(es, previous, prelude_types(prelude), j),
                                    before,
                                    ctx,
                                );
                            }
                        }
                    }
                }
                scope = next_scope;
            },
            Err(error) => {
                errors.push(error);
                proof {
                    assert(failures_view(errors@) =~= failures_view(errors1).push(failure_view(error)));
                }
            },
        }
        proof {
            let (d, dup) = declare(progress.declared, es[i as int]);
            let after = progress_after(progress, es[i as int]);
            if first_failure(es[i as int], progress.vars, progress.types) is Some {
                assert(failures_view(errors@) =~= progress.failures + dup + seq![
                    first_failure(es[i as int], progress.vars, progress.types)->Some_0,
                ]);
            } else {
                assert(failures_view(errors@) =~= progress.failures + dup);
            }
            assert(failures_view(errors@) == after.failures);
        }
        proof {
            assert forall|j: int| 0 <= j < 5 implies #[trigger] ctx.type_binding_arena.items()[j]
                == prelude[j] by {
                assert(ctx.type_binding_arena.items()[j] == before.type_binding_arena.items()[j]);
            }
        }
        i = i + 1;
    }
    proof {
        assert(es.take(es.len() as int) =~= es);
    }
    if errors.len() > 0 {
        return Err(errors);
    }
    let bindings = ctx.var_binding_arena.into_vec();
    let type_bindings = ctx.type_binding_arena.into_vec();
    proof {
        assert(prelude_types(type_bindings@) =~= prelude_types(prelude));
    }
    Ok(BindingResolvedProgram { expressions, bindings, type_bindings })
}

pub open spec fn prelude_span_value() -> SourceSpan {
    SourceSpan { offset: 0, len: 0 }
}

/// Mints a variable binding named `name` and binds it on top of `scope`.
fn bind_let(name: &String, span: SourceSpan, scope: &Scope, ctx: &mut ResolveContext) -> (bound: (
    BindingId,
    Scope,
))
    ensures
        bound.0.0 == old(ctx).sizes().0,
        final(ctx).var_binding_arena.items() == old(ctx).var_binding_arena.items().push(
            ResolvedBinding { name: *name, span },
        ),
        final(ctx).type_binding_arena.items() == old(ctx).type_binding_arena.items(),
        bound.1.variables() == scope.variables().push(
            VariableBindingScopeEntry { name: *name, binding: bound.0 },
        ),
        bound.1.types() == scope.types(),
{
    let binding = ctx.var_binding_arena.extend(ResolvedBinding { name: name.clone(), span });
    let extended = scope.extend_variable(VariableBindingScopeEntry { name: name.clone(), binding });
    (binding, extended)
}

/// Arenas only grow, and what is in them stays.
pub open spec fn arenas_grow(before: ResolveContext, after: ResolveContext) -> bool {
    &&& table_extends(before.var_binding_arena.items(), after.var_binding_arena.items())
    &&& table_extends(before.type_binding_arena.items(), after.type_binding_arena.items())
}

/// What resolved against the tables of `before` resolves against those of `after`.
proof fn lemma_lift(
    r: ResolvedExpression,
    e: Expression,
    vars: Seq<VariableBindingScopeEntry>,
    types: Seq<TypeBindingScopeEntry>,
    before: ResolveContext,
    after: ResolveContext,
)
    requires
        resolves(
            r,
            e,
            vars,
            types,
            before.var_binding_arena.items(),
            before.type_binding_arena.items(),
        ),
        arenas_grow(before, after),
    ensures
        resolves(r, e, vars, types, after.var_binding_arena.items(), after.type_binding_arena.items()),
{
    lemma_resolves_as_tables_grow(
        r,
        e,
        vars,
        types,
        before.var_binding_arena.items(),
        before.type_binding_arena.items(),
        after.var_binding_arena.items(),
        after.type_binding_arena.items(),
    );
}

/// Resolves one expression in `scope`: the resolved expression and the scope its later
/// siblings see. It succeeds exactly when every name in the expression is in sight where it
/// is written; then every name is replaced by the binding it resolves to, and a `let` or a
/// `type` declaration adds its binding to the scope that comes back.
#[verifier::loop_isolation(false)]
#[verifier::spinoff_prover]
#[verifier::rlimit(100)]
pub fn resolve_expression(expr: &Expression, scope: &Scope, ctx: &mut ResolveContext) -> (result:
    Result<(ResolvedExpression, Scope), BindingResolutionError>)
    ensures
        arenas_grow(*old(ctx), *final(ctx)),
        result is Ok <==> names_bound(
            *expr,
            variable_names(scope.variables()),
            type_names_of(scope.types()),
        ),
        result matches Ok((r, s)) ==> resolves(
            r,
            *expr,
            scope.variables(),
            scope.types(),
            final(ctx).var_binding_arena.items(),
            final(ctx).type_binding_arena.items(),
        ) && s.variables() == vars_after(*expr, r, scope.variables()) && s.types() == types_after(
            *expr,
            r,
            scope.types(),
        ),
        result is Ok <==> first_failure(
            *expr,
            variable_names(scope.variables()),
            type_names_of(scope.types()),
        ) is None,
        result matches Err(e) ==> Some(failure_view(e)) == first_failure(
            *expr,
            variable_names(scope.variables()),
            type_names_of(scope.types()),
        ),
        result matches Ok((r, _)) ==> mints(r, old(ctx).sizes()) == Some(final(ctx).sizes()),
        result is Ok ==> final(ctx).sizes().0 == old(ctx).sizes().0 + var_decls(*expr),
        result is Err ==> final(ctx).sizes().0 + (if expr.kind is Let {
            1int
        } else {
            0int
        }) <= old(ctx).sizes().0 + var_decls(*expr),
    decreases expr,
{
    let span = expr.span;
    let ghost ctx0 = *ctx;
    let ghost vars = scope.variables();
    let ghost types = scope.types();
    let ghost vn = variable_names(vars);
    let ghost tn = type_names_of(types);
    let mut outgoing_scope = scope.clone();
    let kind = match &expr.kind {
        ExpressionKind::Var(string_identifier) => {
            proof {
                lemma_lookup_finds_bound_names(vars, string_identifier@);
            }
            match scope.lookup(string_identifier) {
                Some(binding) => ResolvedExpressionKind::Var(binding),
                None => {
                    return Err(
                        BindingResolutionError::UnboundName {
                            name: string_identifier.clone(),
                            span,
                        },
                    );
                },
            }
        },
        ExpressionKind::Literal(Literal::Record(map)) => {
            let mut resolved_map: Vec<(String, ResolvedExpression)> = Vec::new();
            let mut i: usize = 0;
            proof {
                assert(map@.subrange(0, map@.len() as int) =~= map@);
            }
            while i < map.len()
                invariant
                    0 <= i <= map.len(),
                    arenas_grow(ctx0, *ctx),
                    resolved_map@.len() == i,
                    forall|j: int|
                        0 <= j < i ==> (#[trigger] resolved_map@[j]).0 == map@[j].0 && resolves(
                            resolved_map@[j].1,
                            map@[j].1,
                            vars,
                            types,
                            ctx.var_binding_arena.items(),
                            ctx.type_binding_arena.items(),
                        ),
                    forall|j: int| 0 <= j < i ==> names_bound(#[trigger] map@[j].1, vn, tn),
                    first_field_failure(map@, vn, tn) == first_field_failure(
                        map@.subrange(i as int, map@.len() as int),
                        vn,
                        tn,
                    ),
                    mints_fields(resolved_map@, ctx0.sizes()) == Some(ctx.sizes()),
                    ctx.sizes().0 + var_decls_fields(map@.subrange(i as int, map@.len() as int))
                        == ctx0.sizes().0 + var_decls_fields(map@),
                decreases map.len() - i,
            {
                proof {
                    assert(decreases_to!(*expr => map@[i as int].1));
                    let rest = map@.subrange(i as int, map@.len() as int);
                    assert(rest[0] == map@[i as int]);
                    assert(rest.drop_first() =~= map@.subrange(i + 1, map@.len() as int));
                }
                let ghost before = *ctx;
                let ghost previous = resolved_map@;
                let (resolved_expression, _) = resolve_expression(&map[i].1, scope, ctx)?;
                proof {
                    assert forall|j: int| 0 <= j < i implies (#[trigger] resolved_map@[j]).0
                        == map@[j].0 && resolves(
                        resolved_map@[j].1,
                        map@[j].1,
                        vars,
                        types,
                        ctx.var_binding_arena.items(),
                        ctx.type_binding_arena.items(),
                    ) by {
                        lemma_lift(resolved_map@[j].1, map@[j].1, vars, types, before, *ctx);
                    }
                }
                resolved_map.push((map[i].0.clone(), resolved_expression));
                proof {
                    assert(resolved_map@.drop_last() =~= previous);
                }
                i = i + 1;
            }
            proof {
                assert(map@.subrange(i as int, map@.len() as int) =~= Seq::<(String, Expression)>::empty());
            }
            ResolvedExpressionKind::Literal(ResolvedLiteral::Record(resolved_map))
        },
        ExpressionKind::Literal(Literal::Unit) => ResolvedExpressionKind::Literal(
            ResolvedLiteral::Unit,
        ),
        ExpressionKind::Literal(Literal::Int(v)) => ResolvedExpressionKind::Literal(
            ResolvedLiteral::Int(*v),
        ),
        ExpressionKind::Literal(Literal::String(v)) => ResolvedExpressionKind::Literal(
            ResolvedLiteral::String(v.clone()),
        ),
        ExpressionKind::Literal(Literal::Bool(v)) => ResolvedExpressionKind::Literal(
            ResolvedLiteral::Bool(*v),
        ),
        ExpressionKind::Literal(Literal::Float(v)) => ResolvedExpressionKind::Literal(
            ResolvedLiteral::Float(v.clone()),
        ),
        ExpressionKind::Binary(op, lhs, rhs) => {
            let (lhs_resolved, _) = resolve_expression(lhs, scope, ctx)?;
            let ghost middle = *ctx;
            let (rhs_resolved, _) = resolve_expression(rhs, scope, ctx)?;
            proof {
                lemma_lift(lhs_resolved, **lhs, vars, types, middle, *ctx);
            }
            ResolvedExpressionKind::Binary(*op, Box::new(lhs_resolved), Box::new(rhs_resolved))
        },
        ExpressionKind::Unary(op, operand) => {
            let (operand, _) = resolve_expression(operand, scope, ctx)?;
            ResolvedExpressionKind::Unary(*op, Box::new(operand))
        },
        ExpressionKind::Lambda(lambda) => {
            let (parameter, updated_scope) = match &lambda.parameter {
                Some(param) => {
                    let (resolved_param, extended) = resolve_parameter(param, span, scope, ctx)?;
                    proof {
                        assert(variable_names(extended.variables()) =~= vn.push(param.name@));
                    }
                    (Some(resolved_param), extended)
                },
                None => (None, scope.clone()),
            };
            let ghost middle = *ctx;
            let (body, _) = resolve_expression(&lambda.body, &updated_scope, ctx)?;
            let return_type = match &lambda.return_type {
                Some(type_expression) => {
                    let (type_expr, _) = resolve_type_expression(type_expression, scope, ctx)?;
                    Some(type_expr)
                },
                None => None,
            };
            proof {
                if parameter is Some {
                    assert(minted(
                        ctx.var_binding_arena.items(),
                        parameter->Some_0.binding.0,
                        lambda.parameter->Some_0.name,
                        span,
                    ));
                }
            }
            ResolvedExpressionKind::Lambda(
                ResolvedLambda { body: Box::new(body), parameter, return_type },
            )
        },
        ExpressionKind::FunctionInvocation { function, arguments } => {
            let (resolved_function, function_scope) = resolve_expression(function, scope, ctx)?;
            proof {
                lemma_names_after(
                    **function,
                    resolved_function,
                    vars,
                    types,
                    ctx.var_binding_arena.items(),
                    ctx.type_binding_arena.items(),
                );
            }
            let ghost cf = ctx.sizes();
            let ghost fvars = function_scope.variables();
            let ghost ftypes = function_scope.types();
            let mut resolved_args: Vec<ResolvedExpression> = Vec::new();
            let mut i: usize = 0;
            proof {
                assert(arguments@.subrange(0, arguments@.len() as int) =~= arguments@);
            }
            while i < arguments.len()
                invariant
                    0 <= i <= arguments.len(),
                    arenas_grow(ctx0, *ctx),
                    resolved_args@.len() == i,
                    resolves(
                        resolved_function,
                        **function,
                        vars,
                        types,
                        ctx.var_binding_arena.items(),
                        ctx.type_binding_arena.items(),
                    ),
                    forall|j: int|
                        0 <= j < i ==> resolves(
                            #[trigger] resolved_args@[j],
                            arguments@[j],
                            fvars,
                            ftypes,
                            ctx.var_binding_arena.items(),
                            ctx.type_binding_arena.items(),
                        ),
                    forall|j: int|
                        0 <= j < i ==> names_bound(
                            #[trigger] arguments@[j],
                            names_after(**function, vn),
                            type_names_after(**function, tn),
                        ),
                    first_run_failure(
                        arguments@,
                        names_after(**function, vn),
                        type_names_after(**function, tn),
                    ) == first_run_failure(
                        arguments@.subrange(i as int, arguments@.len() as int),
                        names_after(**function, vn),
                        type_names_after(**function, tn),
                    ),
                    mints_all(resolved_args@, cf) == Some(ctx.sizes()),
                    ctx.sizes().0 + var_decls_run(arguments@.subrange(i as int, arguments@.len() as int))
                        == cf.0 + var_decls_run(arguments@),
                decreases arguments.len() - i,
            {
                proof {
                    assert(decreases_to!(*expr => arguments@[i as int]));
                    let rest = arguments@.subrange(i as int, arguments@.len() as int);
                    assert(rest[0] == arguments@[i as int]);
                    assert(rest.drop_first() =~= arguments@.subrange(i + 1, arguments@.len() as int));
                }
                let ghost before = *ctx;
                let ghost previous = resolved_args@;
                let (argument, _) = resolve_expression(&arguments[i], &function_scope, ctx)?;
                proof {
                    lemma_lift(resolved_function, **function, vars, types, before, *ctx);
                    assert forall|j: int| 0 <= j < i implies resolves(
                        #[trigger] resolved_args@[j],
                        arguments@[j],
                        fvars,
                        ftypes,
                        ctx.var_binding_arena.items(),
                        ctx.type_binding_arena.items(),
                    ) by {
                        lemma_lift(resolved_args@[j], arguments@[j], fvars, ftypes, before, *ctx);
                    }
                }
                resolved_args.push(argument);
                proof {
                    assert(resolved_args@.drop_last() =~= previous);
                }
                i = i + 1;
            }
            proof {
                assert(arguments@.subrange(i as int, arguments@.len() as int) =~= Seq::<Expression>::empty());
            }
            ResolvedExpressionKind::FunctionInvocation {
                function: Box::new(resolved_function),
                arguments: resolved_args,
            }
        },
        ExpressionKind::Let { name, type_dec, value } => {
            let (optional_resolved_type_dec, updated_scope) = match type_dec {
                Some(type_dec) => {
                    let (t, s) = resolve_type_expression(type_dec, scope, ctx)?;
                    (Some(t), s)
                },
                None => (None, scope.clone()),
            };
            let (resolved_value, _) = resolve_expression(value, &updated_scope, ctx)?;
            let ghost middle = *ctx;
            let (binding, extended) = bind_let(name, span, &updated_scope, ctx);
            proof {
                lemma_lift(resolved_value, **value, vars, types, middle, *ctx);
            }
            outgoing_scope = extended;
            ResolvedExpressionKind::Let {
                binding,
                type_dec: optional_resolved_type_dec,
                value: Box::new(resolved_value),
            }
        },
        ExpressionKind::Block(expressions) => {
            let mut block_scope = scope.clone();
            let mut resolved: Vec<ResolvedExpression> = Vec::new();
            let mut i: usize = 0;
            proof {
                assert(expressions@.subrange(0, expressions@.len() as int) =~= expressions@);
            }
            while i < expressions.len()
                invariant
                    0 <= i <= expressions.len(),
                    arenas_grow(ctx0, *ctx),
                    resolved@.len() == i,
                    block_scope.variables() == vars_before(expressions@, resolved@, vars, i as int),
                    block_scope.types() == types_before(expressions@, resolved@, types, i as int),
                    variable_names(block_scope.variables()) == names_before(
                        expressions@,
                        vn,
                        i as int,
                    ),
                    type_names_of(block_scope.types()) == type_names_before(
                        expressions@,
                        tn,
                        i as int,
                    ),
                    forall|j: int|
                        0 <= j < i ==> resolves(
                            #[trigger] resolved@[j],
                            expressions@[j],
                            vars_before(expressions@, resolved@, vars, j),
                            types_before(expressions@, resolved@, types, j),
                            ctx.var_binding_arena.items(),
                            ctx.type_binding_arena.items(),
                        ),
                    forall|j: int|
                        0 <= j < i ==> names_bound(
                            #[trigger] expressions@[j],
                            names_before(expressions@, vn, j),
                            type_names_before(expressions@, tn, j),
                        ),
                    first_block_failure(expressions@, vn, tn) == first_block_failure(
                        expressions@.subrange(i as int, expressions@.len() as int),
                        names_before(expressions@, vn, i as int),
                        type_names_before(expressions@, tn, i as int),
                    ),
                    mints_all(resolved@, ctx0.sizes()) == Some(ctx.sizes()),
                    ctx.sizes().0 + var_decls_run(
                        expressions@.subrange(i as int, expressions@.len() as int),
                    ) == ctx0.sizes().0 + var_decls_run(expressions@),
                decreases expressions.len() - i,
            {
                proof {
                    assert(decreases_to!(*expr => expressions@[i as int]));
                    let rest = expressions@.subrange(i as int, expressions@.len() as int);
                    assert(rest[0] == expressions@[i as int]);
                    assert(rest.drop_first() =~= expressions@.subrange(i + 1, expressions@.len() as int));
                }
                let ghost before = *ctx;
                let ghost previous = resolved@;
                let (element, next_scope) = resolve_expression(&expressions[i], &block_scope, ctx)?;
                resolved.push(element);
                proof {
                    assert(resolved@.drop_last() =~= previous);
                    lemma_names_after(
                        expressions@[i as int],
                        element,
                        block_scope.variables(),
                        block_scope.types(),
                        ctx.var_binding_arena.items(),
                        ctx.type_binding_arena.items(),
                    );
                    assert forall|k: int| 0 <= k <= i implies vars_before(
                        expressions@,
                        resolved@,
                        vars,
                        k,
                    ) == vars_before(expressions@, previous, vars, k) && types_before(
                        expressions@,
                        resolved@,
                        types,
                        k,
                    ) == types_before(expressions@, previous, types, k) by {
                        lemma_before_depends_on_prefix(expressions@, resolved@, previous, vars, types, k);
                    }
                    lemma_before_depends_on_prefix(
                        expressions@,
                        resolved@,
                        previous,
                        vars,
                        types,
                        i as int,
                    );
                    assert forall|j: int| 0 <= j < i + 1 implies resolves(
                        #[trigger] resolved@[j],
                        expressions@[j],
                        vars_before(expressions@, resolved@, vars, j),
                        types_before(expressions@, resolved@, types, j),
                        ctx.var_binding_arena.items(),
                        ctx.type_binding_arena.items(),
                    ) by {
                        if j < i {
                            assert(resolved@[j] == previous[j]);
                            lemma_lift(
                                previous[j],
                                expressions@[j],
                                vars_before(expressions@, previous, vars, j),
                                types_before(expressions@, previous, types, j),
                                before,
                                *ctx,
                            );
                        }
                    }
                }
                block_scope = next_scope;
                i = i + 1;
            }
            proof {
                assert(expressions@.subrange(i as int, expressions@.len() as int) =~= Seq::<Expression>::empty());
            }
            ResolvedExpressionKind::Block(resolved)
        },
        ExpressionKind::If { condition, true_pathway, false_pathway } => {
            let (condition_resolved, _) = resolve_expression(condition, scope, ctx)?;
            let ghost after_condition = *ctx;
            let (true_condition, _) = resolve_expression(true_pathway, scope, ctx)?;
            let ghost after_true = *ctx;
            let false_condition = match false_pathway {
                Some(false_pathway) => {
                    let (resolved, _) = resolve_expression(false_pathway, scope, ctx)?;
                    Some(Box::new(resolved))
                },
                None => None,
            };
            proof {
                lemma_lift(condition_resolved, **condition, vars, types, after_condition, *ctx);
                lemma_lift(true_condition, **true_pathway, vars, types, after_true, *ctx);
            }
            ResolvedExpressionKind::If {
                condition: Box::new(condition_resolved),
                true_condition: Box::new(true_condition),
                false_condition,
            }
        },
        ExpressionKind::TypeDeclaration { identifier, type_expression } => {
            let (resolved_type_expression, type_scope) = resolve_type_expression(
                type_expression,
                scope,
                ctx,
            )?;
            let binding = ctx.type_binding_arena.extend(
                ResolvedBinding { name: identifier.clone(), span },
            );
            outgoing_scope = type_scope.extend_type(
                TypeBindingScopeEntry { name: identifier.clone(), binding },
            );
            ResolvedExpressionKind::TypeDeclaration {
                identifier: binding,
                type_expression: resolved_type_expression,
            }
        },
        ExpressionKind::FieldAccess { target, identifier } => {
            let (target, _) = resolve_expression(target, scope, ctx)?;
            ResolvedExpressionKind::FieldAccess {
                target: Box::new(target),
                field_name: identifier.clone(),
            }
        },
    };
    Ok((ResolvedExpression { kind, span }, outgoing_scope))
}

/// Resolves the names in a written type. The scope comes back as it was.
#[verifier::loop_isolation(false)]
pub fn resolve_type_expression(
    type_expression: &ast::TypeExpression,
    scope: &Scope,
    ctx: &mut ResolveContext,
) -> (result: Result<(ResolvedTypeExpression, Scope), BindingResolutionError>)
    ensures
        *final(ctx) == *old(ctx),
        result is Ok <==> type_names_bound(*type_expression, type_names_of(scope.types())),
        result is Ok <==> first_type_failure(*type_expression, type_names_of(scope.types())) is None,
        result matches Ok((r, s)) ==> type_resolves(r, *type_expression, scope.types())
            && s.variables() == scope.variables() && s.types() == scope.types(),
        result matches Err(e) ==> e is UnboundTypeName && Some(failure_view(e))
            == first_type_failure(*type_expression, type_names_of(scope.types())),
    decreases type_expression,
{
    let ghost names = type_names_of(scope.types());
    match &type_expression.kind {
        ast::TypeExpressionKind::Named(name) => match scope.lookup_type(name) {
            Some(some_type) => {
                proof {
                    lemma_lookup_finds_bound_type_names(scope.types(), name@);
                }
                Ok(
                    (
                        ResolvedTypeExpression {
                            kind: ResolvedTypeExpressionKind::Named(some_type),
                            span: type_expression.span,
                        },
                        scope.clone(),
                    ),
                )
            },
            None => {
                proof {
                    lemma_lookup_finds_bound_type_names(scope.types(), name@);
                }
                Err(
                    BindingResolutionError::UnboundTypeName {
                        name: name.clone(),
                        span: type_expression.span,
                    },
                )
            },
        },
        ast::TypeExpressionKind::Record(fields) => {
            let mut resolved: Vec<(String, ResolvedTypeExpression)> = Vec::new();
            let mut field_scope = scope.clone();
            let mut i: usize = 0;
            proof {
                assert(fields@.subrange(0, fields@.len() as int) =~= fields@);
            }
            while i < fields.len()
                invariant
                    0 <= i <= fields.len(),
                    *ctx == *old(ctx),
                    field_scope.variables() == scope.variables(),
                    field_scope.types() == scope.types(),
                    resolved@.len() == i,
                    forall|j: int|
                        0 <= j < i ==> (#[trigger] resolved@[j]).0 == fields@[j].0 && type_resolves(
                            resolved@[j].1,
                            fields@[j].1,
                            scope.types(),
                        ),
                    forall|j: int| 0 <= j < i ==> type_names_bound(#[trigger] fields@[j].1, names),
                    first_field_type_failure(fields@, names) == first_field_type_failure(
                        fields@.subrange(i as int, fields@.len() as int),
                        names,
                    ),
                decreases fields.len() - i,
            {
                proof {
                    assert(decreases_to!(*type_expression => fields@[i as int].1));
                    let rest = fields@.subrange(i as int, fields@.len() as int);
                    assert(rest[0] == fields@[i as int]);
                    assert(rest.drop_first() =~= fields@.subrange(i + 1, fields@.len() as int));
                }
                let (value, next_scope) = resolve_type_expression(&fields[i].1, &field_scope, ctx)?;
                resolved.push((fields[i].0.clone(), value));
                field_scope = next_scope;
                i = i + 1;
            }
            assert(type_names_bound(*type_expression, names));
            assert(fields@.subrange(i as int, fields@.len() as int) =~= Seq::<(String, ast::TypeExpression)>::empty());
            Ok(
                (
                    ResolvedTypeExpression {
                        kind: ResolvedTypeExpressionKind::Record(resolved),
                        span: type_expression.span,
                    },
                    field_scope,
                ),
            )
        },
        ast::TypeExpressionKind::Lambda(lambda_type_expression) => {
            let parameter = match &lambda_type_expression.parameter {
                Some(p) => {
                    let (t, _) = resolve_type_expression(&p.type_dec, scope, ctx)?;
                    let name = match &p.name {
                        Some(n) => Some(n.clone()),
                        None => None,
                    };
                    Some(ResolvedOptionallyNamedTypeExpression { type_dec: Box::new(t), name })
                },
                None => None,
            };
            let (return_type, _) = resolve_type_expression(
                &lambda_type_expression.return_type,
                scope,
                ctx,
            )?;
            assert(type_names_bound(*type_expression, names));
            Ok(
                (
                    ResolvedTypeExpression {
                        kind: ResolvedTypeExpressionKind::Lambda(
                            ResolvedLambdaTypeExpression {
                                parameter,
                                return_type: Box::new(return_type),
                            },
                        ),
                        span: type_expression.span,
                    },
                    scope.clone(),
                ),
            )
        },
    }
}

/// Mints the parameter's binding (sited at the lambda) and binds it on top of `scope`; its
/// annotation is resolved in `scope` itself.
fn resolve_parameter(param: &Param, span: SourceSpan, scope: &Scope, ctx: &mut ResolveContext) -> (result:
    Result<(ResolvedParam, Scope), BindingResolutionError>)
    ensures
        arenas_grow(*old(ctx), *final(ctx)),
        final(ctx).type_binding_arena.items() == old(ctx).type_binding_arena.items(),
        final(ctx).sizes() == (old(ctx).sizes().0 + 1, old(ctx).sizes().1),
        result is Ok <==> annotation_names_bound(param.type_dec, type_names_of(scope.types())),
        result is Ok <==> annotation_failure(param.type_dec, type_names_of(scope.types())) is None,
        result matches Err(e) ==> Some(failure_view(e)) == annotation_failure(
            param.type_dec,
            type_names_of(scope.types()),
        ),
        result matches Ok((p, s)) ==> p.binding.0 == old(ctx).sizes().0 && minted(
            final(ctx).var_binding_arena.items(),
            p.binding.0,
            param.name,
            span,
        ) && annotation_resolves(p.type_dec, param.type_dec, scope.types()) && s.variables()
            == scope.variables().push(
            VariableBindingScopeEntry { name: param.name, binding: p.binding },
        ) && s.types() == scope.types(),
        result matches Err(e) ==> e is UnboundTypeName,
{
    let binding_id = ctx.var_binding_arena.extend(
        ResolvedBinding { name: param.name.clone(), span },
    );
    let updated_scope = scope.extend_variable(
        VariableBindingScopeEntry { name: param.name.clone(), binding: binding_id },
    );
    let type_dec = match &param.type_dec {
        Some(type_expression) => {
            let (type_expr, _) = resolve_type_expression(type_expression, scope, ctx)?;
            Some(type_expr)
        },
        None => None,
    };
    Ok((ResolvedParam { binding: binding_id, type_dec }, updated_scope))
}

} // verus!
