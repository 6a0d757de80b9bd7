use trestle::binding_resolution::binding_resolved::{
    BindingResolvedProgram, ResolvedBinding, ResolvedExpressionKind, ResolvedTypeExpressionKind, TypeBindingId,
};
use trestle::binding_resolution::binding_arena::{TypeBindingArena, VariableBindingArena};
use trestle::binding_resolution::scope::Scope;
use trestle::binding_resolution::{
    BindingResolutionError, ResolveContext, resolve, resolve_expression,
};
use trestle::parse::parse;
use trestle::prelude;
use trestle::span::SourceSpan;

fn resolve_src(src: &str) -> Result<BindingResolvedProgram, Vec<BindingResolutionError>> {
    let program = parse(src).expect("test source should parse");
    resolve(program)
}

fn later_sibling_sees_earlier_let_body() {
    let resolved = resolve_src("let a = 1\na + 2").expect("should resolve");
    assert_eq!(resolved.bindings.len(), 1);
    assert_eq!(resolved.bindings[0].name, "a");
}

#[test]
fn mod_later_sibling_sees_earlier_let() {
    later_sibling_sees_earlier_let_body();
}

#[test]
fn resolve_names_later_sibling_sees_earlier_let() {
    later_sibling_sees_earlier_let_body();
}

fn lambda_param_shadows_outer_binding_without_error_body() {
    let resolved = resolve_src("let x = 1\nlet f = (x:Int) => x")
        .expect("cross-scope shadowing is allowed");

    let ResolvedExpressionKind::Let { value, .. } = &resolved.expressions[1].kind else {
        panic!("expected the second top-level expression to be a let");
    };
    let ResolvedExpressionKind::Lambda(lambda) = &value.kind else {
        panic!("expected the let value to be a lambda");
    };
    let param = lambda.parameter.as_ref().expect("lambda has a parameter");
    let ResolvedExpressionKind::Var(body_binding) = &lambda.body.kind else {
        panic!("expected the lambda body to be a var");
    };
    assert_eq!(
        *body_binding, param.binding,
        "body `x` resolves to the param, not the outer `let x`"
    );
}

#[test]
fn mod_lambda_param_shadows_outer_binding_without_error() {
    lambda_param_shadows_outer_binding_without_error_body();
}

#[test]
fn resolve_names_lambda_param_shadows_outer_binding_without_error() {
    lambda_param_shadows_outer_binding_without_error_body();
}

#[test]
fn an_annotation_does_not_disturb_the_sibling_scope() {
    let resolved = resolve_src("let a: Int = 1\na + 2").expect("should resolve");
    assert_eq!(resolved.bindings.len(), 1);
    assert_eq!(resolved.bindings[0].name, "a");
    assert_eq!(
        resolved.type_bindings.len(),
        prelude::prelude_types().len(),
        "an annotation mentioning a prelude type mints no new type binding"
    );
}

fn same_block_redeclaration_is_one_error_body() {
    let errors = resolve_src("let x = 1\nlet x = 2").expect_err("redeclaration is an error");
    assert_eq!(errors.len(), 1);
    assert!(matches!(
        errors[0],
        BindingResolutionError::DuplicateBinding { ref name, .. } if name == "x"
    ));
}

#[test]
fn mod_same_block_redeclaration_is_one_error() {
    same_block_redeclaration_is_one_error_body();
}

#[test]
fn resolve_names_same_block_redeclaration_is_one_error() {
    same_block_redeclaration_is_one_error_body();
}

fn unbound_names_are_collected_not_bailed_body() {
    let errors = resolve_src("foo\nbar").expect_err("unbound names are errors");
    assert_eq!(errors.len(), 2);
    assert!(
        errors
            .iter()
            .all(|error| matches!(error, BindingResolutionError::UnboundName { .. }))
    );
}

#[test]
fn mod_unbound_names_are_collected_not_bailed() {
    unbound_names_are_collected_not_bailed_body();
}

#[test]
fn resolve_names_unbound_names_are_collected_not_bailed() {
    unbound_names_are_collected_not_bailed_body();
}

#[test]
fn unknown_type_name_is_an_unbound_type_error() {
    let errors = resolve_src("type Alias = Missing").expect_err("unknown type name is an error");
    assert!(matches!(
        errors[0],
        BindingResolutionError::UnboundTypeName { ref name, .. } if name == "Missing"
    ));
}

#[test]
fn a_builtin_resolves_to_its_prelude_binding() {
    let resolved = resolve_src("type Alias = Int").expect("a builtin type name resolves");

    let int_id = TypeBindingId(
        prelude::type_names()
            .iter()
            .position(|name| *name == "Int")
            .expect("`Int` is a prelude type"),
    );
    assert_eq!(resolved.type_bindings[int_id.0].name, "Int");

    let ResolvedExpressionKind::TypeDeclaration {
        type_expression, ..
    } = &resolved.expressions[0].kind
    else {
        panic!("expected a type declaration");
    };
    assert_eq!(
        type_expression.kind,
        ResolvedTypeExpressionKind::Named(int_id)
    );
}

#[test]
fn a_user_declaration_shadows_a_prelude_type() {
    let resolved = resolve_src("type Int = Float\ntype Alias = Int")
        .expect("shadowing a prelude type resolves");

    let ResolvedExpressionKind::TypeDeclaration { identifier, .. } =
        &resolved.expressions[0].kind
    else {
        panic!("expected a type declaration");
    };
    let ResolvedExpressionKind::TypeDeclaration {
        type_expression, ..
    } = &resolved.expressions[1].kind
    else {
        panic!("expected a type declaration");
    };

    assert!(
        identifier.0 >= prelude::prelude_types().len(),
        "the shadowing declaration mints an id past the prelude's"
    );
    assert_eq!(
        type_expression.kind,
        ResolvedTypeExpressionKind::Named(*identifier),
        "`Int` on the right resolves to the user's declaration, not the prelude's"
    );
}

#[test]
fn types_and_values_live_in_separate_namespaces() {
    let errors = resolve_src("type T = Int\nT").expect_err("a type name is not a value");
    assert!(matches!(
        errors[0],
        BindingResolutionError::UnboundName { ref name, .. } if name == "T"
    ));
    let errors = resolve_src("let x = 1\ntype Y = x").expect_err("a value name is not a type");
    assert!(matches!(
        errors[0],
        BindingResolutionError::UnboundTypeName { ref name, .. } if name == "x"
    ));
}

#[test]
fn an_inner_let_shadows_an_outer_one_inside_its_block_only() {
    let resolved = resolve_src("let x = 1\nlet y = {\n  let x = 2\n  x\n}\nx")
        .expect("shadowing resolves");
    assert_eq!(resolved.bindings.len(), 3);
    let ResolvedExpressionKind::Var(outer) = &resolved.expressions[2].kind else {
        panic!("expected a variable");
    };
    assert_eq!(outer.0, 0);
    let ResolvedExpressionKind::Let { value, .. } = &resolved.expressions[1].kind else {
        panic!("expected a let");
    };
    let ResolvedExpressionKind::Block(statements) = &value.kind else {
        panic!("expected a block");
    };
    let ResolvedExpressionKind::Var(inner) = &statements[1].kind else {
        panic!("expected a variable");
    };
    assert_eq!(resolved.bindings[inner.0].name, "x");
    assert_ne!(inner.0, 0);
}

#[test]
fn a_block_local_let_does_not_escape_its_block() {
    let errors = resolve_src("let outer = {\n  let inner = 1\n  inner\n}\ninner")
        .expect_err("`inner` must not escape its block");
    assert!(matches!(
        errors[0],
        BindingResolutionError::UnboundName { ref name, .. } if name == "inner"
    ));
}

#[test]
fn a_let_whose_value_fails_mints_no_binding() {
    let program = parse("let f = f").expect("test source should parse");
    let mut ctx = ResolveContext {
        var_binding_arena: VariableBindingArena::new(),
        type_binding_arena: TypeBindingArena::new(),
    };
    let result = resolve_expression(&program.expressions[0], &Scope::new(), &mut ctx);
    match result {
        Err(BindingResolutionError::UnboundName { name, .. }) => assert_eq!(name, "f"),
        _ => panic!("a let cannot see its own name in its value"),
    }
    assert_eq!(ctx.var_binding_arena.len(), 0);
    assert_eq!(ctx.type_binding_arena.len(), 0);
}

#[test]
fn bindings_are_numbered_in_the_order_they_are_minted() {
    let resolved = resolve_src("let x = 1\nlet f = (x:Int) => x").expect("shadowing resolves");
    let names: Vec<&str> = resolved.bindings.iter().map(|b| b.name.as_str()).collect();
    assert_eq!(names, vec!["x", "x", "f"]);

    let ResolvedExpressionKind::Let { binding, value, .. } = &resolved.expressions[1].kind else {
        panic!("expected a let");
    };
    assert_eq!(binding.0, 2);
    let ResolvedExpressionKind::Lambda(lambda) = &value.kind else {
        panic!("expected a lambda");
    };
    let parameter = lambda.parameter.as_ref().expect("the lambda has a parameter");
    assert_eq!(parameter.binding.0, 1);
    assert_eq!(lambda.body.kind, ResolvedExpressionKind::Var(parameter.binding));
}

#[test]
fn user_types_follow_the_prelude_in_declaration_order() {
    let resolved = resolve_src("type Int = Float\ntype Alias = Int").expect("shadowing resolves");
    let names: Vec<&str> = resolved.type_bindings.iter().map(|b| b.name.as_str()).collect();
    assert_eq!(names, vec!["Int", "Float", "String", "Bool", "Unit", "Int", "Alias"]);

    let ResolvedExpressionKind::TypeDeclaration { identifier, type_expression } =
        &resolved.expressions[0].kind
    else {
        panic!("expected a type declaration");
    };
    assert_eq!(*identifier, TypeBindingId(5));
    assert_eq!(type_expression.kind, ResolvedTypeExpressionKind::Named(TypeBindingId(1)));

    let ResolvedExpressionKind::TypeDeclaration { identifier, type_expression } =
        &resolved.expressions[1].kind
    else {
        panic!("expected a type declaration");
    };
    assert_eq!(*identifier, TypeBindingId(6));
    assert_eq!(type_expression.kind, ResolvedTypeExpressionKind::Named(TypeBindingId(5)));
}

#[test]
fn arena_ids_are_the_positions_of_their_items() {
    let mut arena = VariableBindingArena::new();
    let spans = [SourceSpan::new(0, 1), SourceSpan::new(4, 1), SourceSpan::new(9, 2)];
    let names = ["a", "b", "c"];
    let mut ids = Vec::new();
    for (name, span) in names.iter().zip(spans.iter()) {
        ids.push(arena.extend(ResolvedBinding { name: name.to_string(), span: *span }));
    }
    assert_eq!(ids.iter().map(|id| id.0).collect::<Vec<_>>(), vec![0, 1, 2]);
    let items = arena.into_vec();
    for (position, id) in ids.iter().enumerate() {
        assert_eq!(items[id.0].name, names[position]);
        assert_eq!(items[id.0].span, spans[position]);
    }
}
