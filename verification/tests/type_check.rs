use trestle::binding_resolution::resolve;
use trestle::parse::ast::{ExpressionKind, Literal as ParsedLiteral, ParsedProgram};
use trestle::parse::parse;
use trestle::span::SourceSpan;
use trestle::type_check::inference::get_type_after_applying_arguments;
use trestle::type_check::typed_ast::{
    ExpressionKind as TypedKind, Literal, Type, TypeCheckedExpression, TypeCheckedLiteral,
    clone_type,
};
use trestle::type_check::unification::UnificationMap;
use trestle::type_check::{TypeCheckError, TypeCheckedProgram, type_check};

fn analyse_src(src: &str) -> Result<TypeCheckedProgram, Vec<TypeCheckError>> {
    analyse_parsed(parse(src).expect("test source should parse"))
}

fn analyse_parsed(parsed: ParsedProgram) -> Result<TypeCheckedProgram, Vec<TypeCheckError>> {
    let resolved = resolve(parsed).expect("test source should resolve");
    type_check(resolved)
}

fn let_annotation_mismatch_is_an_error_body() {
    let errors = analyse_src("let x: Int = \"hello\"")
        .expect_err("String value annotated Int is a type error");
    assert!(matches!(errors[0], TypeCheckError::TypeMismatch { .. }));
}

#[test]
fn mod_let_annotation_mismatch_is_an_error() {
    let_annotation_mismatch_is_an_error_body();
}

#[test]
fn type_check_let_annotation_mismatch_is_an_error() {
    let_annotation_mismatch_is_an_error_body();
}

#[test]
fn accessing_an_absent_field_is_an_error() {
    let errors = analyse_src("type Point = { x: Int, y: Int }\nlet p: Point = { x: 1, y: 2 }\np.z")
        .expect_err("a field the record lacks is a type error");
    let TypeCheckError::RecordDoesNotHaveField {
        field_name,
        available,
        ..
    } = &errors[0]
    else {
        panic!("expected RecordDoesNotHaveField, got {:?}", errors[0]);
    };
    assert_eq!(field_name, "z");
    assert_eq!(available, &["x".to_string(), "y".to_string()]);
}

#[test]
fn accessing_a_field_on_a_non_record_is_an_error() {
    let errors = analyse_src("let n: Int = 1\nn.x")
        .expect_err("field access on a non-record is a type error");
    assert!(matches!(errors[0], TypeCheckError::NotARecord { .. }));
}

fn too_many_arguments_is_an_error_body() {
    const SRC: &str = "let f = (a: Int) => a\nf(1, 2)";

    let parsed = parse(SRC).expect("test source should parse");
    assert_eq!(
        parsed.expressions.len(),
        2,
        "expected a `let` and a call, got {:?}",
        parsed.expressions
    );

    match &parsed.expressions[0].kind {
        ExpressionKind::Let { name, value, .. } => {
            assert_eq!(name, "f");
            assert!(
                matches!(value.kind, ExpressionKind::Lambda(_)),
                "expected `f` to bind a lambda, got {:?}",
                value.kind
            );
        }
        other => panic!("expected a `let` binding, got {other:?}"),
    }

    match &parsed.expressions[1].kind {
        ExpressionKind::FunctionInvocation {
            function,
            arguments,
        } => {
            assert!(
                matches!(&function.kind, ExpressionKind::Var(name) if name == "f"),
                "expected a call to `f`, got {:?}",
                function.kind
            );
            assert_eq!(
                arguments.len(),
                2,
                "expected `f(1, 2)` to carry both arguments"
            );
            assert!(matches!(
                arguments[0].kind,
                ExpressionKind::Literal(ParsedLiteral::Int(1))
            ));
            assert!(matches!(
                arguments[1].kind,
                ExpressionKind::Literal(ParsedLiteral::Int(2))
            ));
        }
        other => panic!("expected `f(1, 2)` to parse as a call, got {other:?}"),
    }

    let errors = analyse_parsed(parsed).expect_err("over-application is an error");
    assert!(matches!(errors[0], TypeCheckError::TooManyArguments { .. }));
}

#[test]
fn mod_too_many_arguments_is_an_error() {
    too_many_arguments_is_an_error_body();
}

#[test]
fn type_check_too_many_arguments_is_an_error() {
    too_many_arguments_is_an_error_body();
}

fn int_arg() -> TypeCheckedExpression {
    TypeCheckedExpression {
        kind: TypedKind::Literal(TypeCheckedLiteral::Int(0)),
        span: SourceSpan::new(0, 0),
        ty: Type::Literal(Literal::Int),
    }
}

fn arguments_to_argumentless_function_is_an_error_body() {
    let fn_type = Type::Fn(None, Box::new(Type::Unit));
    let err = get_type_after_applying_arguments(
        &mut UnificationMap::new(),
        &fn_type,
        &vec![int_arg()],
        SourceSpan::new(0, 0),
    )
    .expect_err("applying an argument to a nullary function is an error");
    assert!(matches!(
        err,
        TypeCheckError::ArgumentsToArgumentlessFunction { .. }
    ));
}

#[test]
fn inference_arguments_to_argumentless_function_is_an_error() {
    arguments_to_argumentless_function_is_an_error_body();
}

#[test]
fn type_check_arguments_to_argumentless_function_is_an_error() {
    arguments_to_argumentless_function_is_an_error_body();
}

fn applying_correct_arguments_returns_result_type_body() {
    let fn_type = Type::Fn(
        Some(Box::new(Type::Literal(Literal::Int))),
        Box::new(Type::Literal(Literal::Int)),
    );
    let result = get_type_after_applying_arguments(
        &mut UnificationMap::new(),
        &fn_type,
        &vec![int_arg()],
        SourceSpan::new(0, 0),
    )
    .expect("applying a matching argument should succeed");
    assert_eq!(result, Type::Literal(Literal::Int));
}

#[test]
fn inference_applying_correct_arguments_returns_result_type() {
    applying_correct_arguments_returns_result_type_body();
}

#[test]
fn type_check_applying_correct_arguments_returns_result_type() {
    applying_correct_arguments_returns_result_type_body();
}

fn function_parameter_presence_mismatch_is_an_error_body() {
    let nullary = Type::Fn(None, Box::new(Type::Unit));
    let unary = Type::Fn(
        Some(Box::new(Type::Literal(Literal::Int))),
        Box::new(Type::Unit),
    );
    let mut map = UnificationMap::new();
    let err = map
        .unify(&nullary, &unary, SourceSpan::new(0, 0))
        .expect_err("param-presence mismatch is an error");
    assert!(matches!(
        err,
        TypeCheckError::FunctionParameterMismatch { .. }
    ));
}

#[test]
fn unification_function_parameter_presence_mismatch_is_an_error() {
    function_parameter_presence_mismatch_is_an_error_body();
}

#[test]
fn type_check_function_parameter_presence_mismatch_is_an_error() {
    function_parameter_presence_mismatch_is_an_error_body();
}

#[test]
fn a_solved_variable_unifies_structurally_with_a_compatible_function() {
    let mut unification_map = UnificationMap::new();
    let v0 = Type::Var(unification_map.mint_new_type_var());
    let v1 = Type::Var(unification_map.mint_new_type_var());
    let span = SourceSpan::new(0, 0);

    let partially_known = Type::Fn(
        Some(Box::new(clone_type(&v1))),
        Box::new(Type::Literal(Literal::Int)),
    );
    unification_map
        .unify(&partially_known, &v0, span)
        .expect("binding a fresh variable to a concrete type succeeds");

    let fully_known = Type::Fn(
        Some(Box::new(Type::Literal(Literal::Int))),
        Box::new(Type::Literal(Literal::Int)),
    );
    unification_map
        .unify(&fully_known, &v0, span)
        .expect("a solved variable unifies structurally with a compatible function");

    assert_eq!(
        unification_map.subsitute(&v1),
        Type::Literal(Literal::Int),
        "the partially known parameter should have been solved to Int"
    );
}

#[test]
fn binding_a_variable_into_a_type_that_contains_it_is_an_infinite_type() {
    let mut unification_map = UnificationMap::new();
    let v0 = Type::Var(unification_map.mint_new_type_var());
    let span = SourceSpan::new(0, 0);

    let recursive = Type::Fn(Some(Box::new(clone_type(&v0))), Box::new(Type::Unit));
    let err = unification_map
        .unify(&recursive, &v0, span)
        .expect_err("binding a variable into a type containing it is an infinite type");

    match err {
        TypeCheckError::InfiniteType {
            var,
            ty,
            span: err_span,
        } => {
            assert_eq!(Type::Var(var), v0, "the variable that would swallow itself");
            assert_eq!(ty, recursive, "the reported type keeps its real shape");
            assert_eq!(err_span, span, "the caller's span survives");
        }
        other => panic!("expected an infinite type error, got {other:?}"),
    }

    assert_eq!(unification_map.subsitute(&v0), v0);
}

#[test]
fn the_occurs_check_sees_through_an_equivalence_class() {
    let mut unification_map = UnificationMap::new();
    let v0 = Type::Var(unification_map.mint_new_type_var());
    let v1 = Type::Var(unification_map.mint_new_type_var());
    let span = SourceSpan::new(0, 0);

    unification_map
        .unify(&v0, &v1, span)
        .expect("unioning two free variables succeeds");

    let recursive = Type::Fn(Some(Box::new(clone_type(&v0))), Box::new(Type::Unit));
    let err = unification_map
        .unify(&recursive, &v1, span)
        .expect_err("v1 := Fn(v0, Unit) is a cycle because v0 and v1 share a root");

    match err {
        TypeCheckError::InfiniteType { var, .. } => assert_eq!(
            Type::Var(var),
            unification_map.subsitute(&v1),
            "the error names the class's canonical root"
        ),
        other => panic!("expected an infinite type error, got {other:?}"),
    }

    assert_eq!(
        unification_map.subsitute(&v0),
        unification_map.subsitute(&v1)
    );
}

#[test]
fn unifying_a_variable_with_itself_is_a_no_op() {
    let mut unification_map = UnificationMap::new();
    let v: Type = Type::Var(unification_map.mint_new_type_var());
    let span = SourceSpan::new(0, 0);

    unification_map
        .unify(&v, &v, span)
        .expect("unifying a variable with itself succeeds");

    assert_eq!(unification_map.subsitute(&v), v);
}

#[test]
fn an_if_condition_must_be_a_bool() {
    let errors = analyse_src("if (1) 2 else 3").expect_err("an Int condition is a type error");
    assert!(matches!(errors[0], TypeCheckError::TypeMismatch { .. }));
}

#[test]
fn the_branches_of_an_if_must_agree() {
    let errors =
        analyse_src("if (true) 1 else false").expect_err("branches of two types are a type error");
    assert!(matches!(errors[0], TypeCheckError::TypeMismatch { .. }));
}

#[test]
fn the_left_side_of_a_pipe_must_fit_the_parameter() {
    let errors = analyse_src("let f = (x: Int) => x\ntrue |> f")
        .expect_err("piping a Bool into an Int parameter is a type error");
    assert!(matches!(errors[0], TypeCheckError::TypeMismatch { .. }));
}

#[test]
fn an_unannotated_parameter_takes_the_type_its_use_demands() {
    let program = analyse_src("let inc = (x) => x + 1\ninc(2)").expect("the program type-checks");
    assert_eq!(program.expressions[1].ty, Type::Literal(Literal::Int));
    let inc = program
        .bindings
        .iter()
        .find(|binding| binding.name == "inc")
        .expect("`inc` is bound");
    assert_eq!(
        inc.ty,
        Type::Fn(
            Some(Box::new(Type::Literal(Literal::Int))),
            Box::new(Type::Literal(Literal::Int))
        )
    );
}

#[test]
fn unification_leaves_both_sides_standing_for_the_same_type() {
    let mut unification_map = UnificationMap::new();
    let v0 = Type::Var(unification_map.mint_new_type_var());
    let v1 = Type::Var(unification_map.mint_new_type_var());
    let span = SourceSpan::new(0, 0);
    let found = Type::Fn(Some(Box::new(clone_type(&v0))), Box::new(Type::Literal(Literal::Bool)));
    let expected = Type::Fn(Some(Box::new(Type::Literal(Literal::Int))), Box::new(clone_type(&v1)));
    unification_map
        .unify(&found, &expected, span)
        .expect("the two function types unify");
    assert_eq!(unification_map.subsitute(&found), unification_map.subsitute(&expected));
    assert_eq!(
        unification_map.subsitute(&found),
        Type::Fn(
            Some(Box::new(Type::Literal(Literal::Int))),
            Box::new(Type::Literal(Literal::Bool))
        )
    );
}

#[test]
fn inference_is_monomorphic() {
    let errors = analyse_src("let id = (x) => x\nid(1)\nid(true)")
        .expect_err("one unannotated parameter cannot take two types");
    assert!(matches!(errors[0], TypeCheckError::TypeMismatch { .. }));
}

#[test]
fn records_unify_only_on_equal_field_sets() {
    let errors = analyse_src("type P = { a: Int, b: Int }\nlet p: P = { a: 1 }")
        .expect_err("a record lacking a field is not the declared record");
    match &errors[0] {
        TypeCheckError::RecordFieldMismatch { missing, additional, .. } => {
            assert_eq!(missing, &vec!["b".to_string()]);
            assert!(additional.is_empty());
        }
        other => panic!("expected a field mismatch, got {other:?}"),
    }
}

#[test]
fn arithmetic_takes_ints_only() {
    let errors = analyse_src("1.5 + 2.5").expect_err("Float operands are a type error");
    assert!(matches!(errors[0], TypeCheckError::TypeMismatch { .. }));
}

#[test]
fn calling_a_non_function_is_an_error() {
    let errors = analyse_src("let n: Int = 1\nn(2)").expect_err("an Int cannot be called");
    let TypeCheckError::NotAFunction { found, .. } = &errors[0] else {
        panic!("expected NotAFunction, got {:?}", errors[0]);
    };
    assert!(matches!(found, Type::Literal(Literal::Int)));
}

#[test]
fn piping_into_an_argumentless_function_is_an_error() {
    let errors = analyse_src("1 |> (() => 2)").expect_err("nothing receives the piped value");
    assert!(matches!(errors[0], TypeCheckError::PipeIntoArgumentlessFunction { .. }));
}

#[test]
fn a_negated_bool_is_reported_at_its_operand() {
    let errors = analyse_src("-true").expect_err("negation takes an Int");
    let TypeCheckError::TypeMismatch { span, .. } = &errors[0] else {
        panic!("expected TypeMismatch, got {:?}", errors[0]);
    };
    assert_eq!(*span, SourceSpan::new(1, 4));
}

#[test]
fn every_failing_expression_is_reported_in_order() {
    let errors = analyse_src("let n: Int = 1\nn.x\nn(1)").expect_err("two failures");
    assert_eq!(errors.len(), 2);
    assert!(matches!(errors[0], TypeCheckError::NotARecord { .. }));
    assert!(matches!(errors[1], TypeCheckError::NotAFunction { .. }));
}

#[test]
fn substituting_twice_is_substituting_once() {
    let mut unification_map = UnificationMap::new();
    let v0 = Type::Var(unification_map.mint_new_type_var());
    let v1 = Type::Var(unification_map.mint_new_type_var());
    let v2 = Type::Var(unification_map.mint_new_type_var());
    let span = SourceSpan::new(0, 0);
    let function = Type::Fn(Some(Box::new(clone_type(&v1))), Box::new(clone_type(&v2)));
    unification_map.unify(&v0, &function, span).expect("a variable takes a function type");
    unification_map
        .unify(&v1, &Type::Literal(Literal::Int), span)
        .expect("the parameter takes Int");

    let once = unification_map.subsitute(&v0);
    assert_eq!(
        once,
        Type::Fn(Some(Box::new(Type::Literal(Literal::Int))), Box::new(clone_type(&v2)))
    );
    assert_eq!(unification_map.subsitute(&once), once);
    assert_eq!(unification_map.representative(&v2), v2);
}

#[test]
fn a_later_unification_keeps_an_earlier_one() {
    let mut unification_map = UnificationMap::new();
    let v0 = Type::Var(unification_map.mint_new_type_var());
    let v1 = Type::Var(unification_map.mint_new_type_var());
    let v2 = Type::Var(unification_map.mint_new_type_var());
    let span = SourceSpan::new(0, 0);
    let record = |first: &Type, second: &Type| {
        Type::Record(vec![
            ("a".to_string(), clone_type(first)),
            ("b".to_string(), clone_type(second)),
        ])
    };
    let found = record(&v0, &Type::Literal(Literal::Bool));
    let expected = record(&Type::Literal(Literal::Int), &v1);
    unification_map.unify(&found, &expected, span).expect("the records unify");
    assert_eq!(unification_map.subsitute(&found), unification_map.subsitute(&expected));

    unification_map
        .unify(&v2, &Type::Literal(Literal::String), span)
        .expect("an unrelated variable takes String");
    assert!(unification_map.unify(&v0, &Type::Literal(Literal::Bool), span).is_err());
    assert_eq!(unification_map.subsitute(&found), unification_map.subsitute(&expected));
    assert_eq!(
        unification_map.subsitute(&found),
        record(&Type::Literal(Literal::Int), &Type::Literal(Literal::Bool))
    );
}
