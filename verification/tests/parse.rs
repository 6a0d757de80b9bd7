use trestle::parse::ast::{BinaryOp, Expression, ExpressionKind, Literal, UnaryOp};
use trestle::parse::{BuildError, ParseError, parse};

fn program_kinds(source: &str) -> Vec<ExpressionKind> {
    parse(source)
        .expect("source parses")
        .expressions
        .into_iter()
        .map(|expr| expr.kind)
        .collect()
}

fn only_expr(source: &str) -> Expression {
    let mut expressions = parse(source).expect("source parses").expressions;
    assert_eq!(
        expressions.len(),
        1,
        "expected one top-level expression, got {expressions:?}"
    );
    expressions.pop().expect("one top-level expression")
}

fn only_kind(source: &str) -> ExpressionKind {
    only_expr(source).kind
}

fn expect_call(kind: ExpressionKind) -> (ExpressionKind, Vec<Expression>) {
    match kind {
        ExpressionKind::FunctionInvocation {
            function,
            arguments,
        } => (function.kind, arguments),
        other => panic!("expected a call, got {other:?}"),
    }
}

fn expect_field(kind: ExpressionKind) -> (ExpressionKind, String) {
    match kind {
        ExpressionKind::FieldAccess { target, identifier } => (target.kind, identifier),
        other => panic!("expected a field access, got {other:?}"),
    }
}

fn is_var(kind: &ExpressionKind, name: &str) -> bool {
    matches!(kind, ExpressionKind::Var(v) if v == name)
}

fn is_int(expr: &Expression, value: i64) -> bool {
    matches!(expr.kind, ExpressionKind::Literal(Literal::Int(n)) if n == value)
}

#[test]
fn a_call_builds_an_invocation() {
    let (callee, arguments) = expect_call(only_kind("f(1)"));
    assert!(
        is_var(&callee, "f"),
        "expected a call to `f`, got {callee:?}"
    );
    assert_eq!(arguments.len(), 1);
    assert!(is_int(&arguments[0], 1));
}

#[test]
fn a_call_spans_callee_through_closing_paren() {
    let expr = only_expr("f(1)");
    assert_eq!(expr.span.offset(), 0);
    assert_eq!(expr.span.len(), "f(1)".len());
}

#[test]
fn a_chained_postfix_spans_the_whole_chain() {
    let expr = only_expr("f(1)(2)");
    assert_eq!(expr.span.offset(), 0);
    assert_eq!(expr.span.len(), "f(1)(2)".len());

    let expr = only_expr("a.b.c");
    assert_eq!(expr.span.offset(), 0);
    assert_eq!(expr.span.len(), "a.b.c".len());
}

#[test]
fn multiple_arguments_stay_a_flat_list() {
    let (callee, arguments) = expect_call(only_kind("add(3, 4)"));
    assert!(is_var(&callee, "add"));
    assert_eq!(
        arguments.len(),
        2,
        "expected both arguments on one call, got {arguments:?}"
    );
    assert!(is_int(&arguments[0], 3));
    assert!(is_int(&arguments[1], 4));
}

#[test]
fn a_zero_argument_call_builds_an_empty_invocation() {
    let (callee, arguments) = expect_call(only_kind("f()"));
    assert!(is_var(&callee, "f"));
    assert!(
        arguments.is_empty(),
        "expected no arguments, got {arguments:?}"
    );
}

#[test]
fn a_paren_after_whitespace_is_not_a_call() {
    let program = parse("1\n\n() => 2").expect("source parses");
    assert_eq!(
        program.expressions.len(),
        2,
        "expected a literal and a lambda, got {:?}",
        program.expressions
    );
    assert!(matches!(
        program.expressions[0].kind,
        ExpressionKind::Literal(Literal::Int(1))
    ));
    assert!(matches!(
        program.expressions[1].kind,
        ExpressionKind::Lambda(_)
    ));
}

#[test]
fn a_field_access_builds_a_field_access() {
    let (target, field) = expect_field(only_kind("p.x"));
    assert!(
        is_var(&target, "p"),
        "expected a read off `p`, got {target:?}"
    );
    assert_eq!(field, "x");
}

#[test]
fn chained_calls_nest_left_to_right() {
    let (inner, outer_arguments) = expect_call(only_kind("f(1)(2)"));
    assert!(is_int(&outer_arguments[0], 2));

    let (callee, inner_arguments) = expect_call(inner);
    assert!(is_var(&callee, "f"));
    assert!(is_int(&inner_arguments[0], 1));
}

#[test]
fn chained_field_accesses_nest_left_to_right() {
    let (inner, outer_field) = expect_field(only_kind("a.b.c"));
    assert_eq!(outer_field, "c");

    let (target, inner_field) = expect_field(inner);
    assert!(is_var(&target, "a"));
    assert_eq!(inner_field, "b");
}

#[test]
fn a_field_access_on_a_call_result_chains() {
    let (call, field) = expect_field(only_kind("f(x).y"));
    assert_eq!(field, "y");

    let (callee, arguments) = expect_call(call);
    assert!(is_var(&callee, "f"));
    assert_eq!(arguments.len(), 1);
}

#[test]
fn postfix_binds_tighter_than_an_infix_operator() {
    match only_kind("p.x + p.y") {
        ExpressionKind::Binary(BinaryOp::Add, lhs, rhs) => {
            assert!(matches!(lhs.kind, ExpressionKind::FieldAccess { .. }));
            assert!(matches!(rhs.kind, ExpressionKind::FieldAccess { .. }));
        }
        other => panic!("expected Add over two field reads, got {other:?}"),
    }
}

#[test]
fn postfix_binds_tighter_than_a_prefix_operator() {
    match only_kind("-f(1)") {
        ExpressionKind::Unary(UnaryOp::Neg, operand) => {
            assert!(matches!(
                operand.kind,
                ExpressionKind::FunctionInvocation { .. }
            ));
        }
        other => panic!("expected a negated call, got {other:?}"),
    }
}

#[test]
fn a_parenthesized_base_takes_a_postfix() {
    let (callee, arguments) = expect_call(only_kind("(g)(1)"));
    assert!(is_var(&callee, "g"));
    assert!(is_int(&arguments[0], 1));
}

#[test]
fn each_top_level_call_is_its_own_expression() {
    let kinds = program_kinds("let d = (x: Int) => x\nd(2)");
    assert_eq!(kinds.len(), 2, "expected a `let` and a call, got {kinds:?}");
    assert!(matches!(kinds[0], ExpressionKind::Let { .. }));

    let mut kinds = kinds.into_iter();
    kinds.next();
    let (callee, arguments) = expect_call(kinds.next().expect("a second expression"));
    assert!(is_var(&callee, "d"));
    assert!(is_int(&arguments[0], 2));
}

#[test]
fn string_literal_escapes_are_unescaped() {
    match only_kind(r#""a\nb""#) {
        ExpressionKind::Literal(Literal::String(s)) => assert_eq!(s, "a\nb"),
        other => panic!("expected string literal, got {other:?}"),
    }
}

#[test]
fn invalid_string_escape_reports_diagnostic() {
    let error = parse(r#""a\xZZ""#).expect_err("invalid escape must be rejected");
    assert!(
        matches!(error, ParseError::Build(BuildError::InvalidStringEscape { .. })),
        "expected an invalid-escape diagnostic, got:\n{error:?}"
    );
}

#[test]
fn duplicate_record_field_reports_diagnostic() {
    let error =
        parse("type T = { x: Int, x: String }").expect_err("duplicate field must be rejected");
    assert!(
        matches!(&error, ParseError::Build(BuildError::DuplicateRecordField { name, .. }) if name == "x"),
        "expected a duplicate-field diagnostic, got:\n{error:?}"
    );
}

#[test]
fn record_literal_collects_all_fields() {
    match only_kind(r#"{ x: 1, y: "a" }"#) {
        ExpressionKind::Literal(Literal::Record(fields)) => {
            assert_eq!(fields.len(), 2, "expected two fields, got {fields:?}");
            let field = |name: &str| {
                &fields
                    .iter()
                    .find(|(n, _)| n == name)
                    .expect("field present")
                    .1
            };
            assert!(matches!(
                field("x").kind,
                ExpressionKind::Literal(Literal::Int(1))
            ));
            assert!(
                matches!(field("y").kind, ExpressionKind::Literal(Literal::String(ref s)) if s == "a")
            );
        }
        other => panic!("expected record literal, got {other:?}"),
    }
}

#[test]
fn duplicate_record_literal_field_reports_diagnostic() {
    let error = parse("{ x: 1, x: 2 }").expect_err("duplicate field must be rejected");
    assert!(
        matches!(&error, ParseError::Build(BuildError::DuplicateRecordField { name, .. }) if name == "x"),
        "expected a duplicate-field diagnostic, got:\n{error:?}"
    );
}

#[test]
fn if_with_else_maps_all_three_branches_positionally() {
    match only_kind("if (x) 1 else 2") {
        ExpressionKind::If {
            condition,
            true_pathway,
            false_pathway,
        } => {
            assert!(matches!(condition.kind, ExpressionKind::Var(ref v) if v == "x"));
            assert!(matches!(
                true_pathway.kind,
                ExpressionKind::Literal(Literal::Int(1))
            ));
            let else_expr = false_pathway.expect("else branch present");
            assert!(matches!(
                else_expr.kind,
                ExpressionKind::Literal(Literal::Int(2))
            ));
        }
        other => panic!("expected If, got {other:?}"),
    }
}

#[test]
fn if_without_else_has_no_else_branch() {
    match only_kind("if (x) 1") {
        ExpressionKind::If { false_pathway, .. } => {
            assert!(false_pathway.is_none(), "expected no else branch");
        }
        other => panic!("expected If, got {other:?}"),
    }
}

#[test]
fn logical_not_binds_tighter_than_and() {
    match only_kind("!a && b") {
        ExpressionKind::Binary(BinaryOp::And, lhs, rhs) => {
            assert!(matches!(lhs.kind, ExpressionKind::Unary(UnaryOp::Not, _)));
            assert!(matches!(rhs.kind, ExpressionKind::Var(ref v) if v == "b"));
        }
        other => panic!("expected And, got {other:?}"),
    }
}

#[test]
fn negation_binds_tighter_than_multiply() {
    match only_kind("-a * b") {
        ExpressionKind::Binary(BinaryOp::Mul, lhs, rhs) => {
            assert!(matches!(lhs.kind, ExpressionKind::Unary(UnaryOp::Neg, _)));
            assert!(matches!(rhs.kind, ExpressionKind::Var(ref v) if v == "b"));
        }
        other => panic!("expected Mul, got {other:?}"),
    }
}

#[test]
fn if_with_binary_condition_keeps_positional_mapping() {
    match only_kind("if (a < b) 1 else 2") {
        ExpressionKind::If {
            condition,
            false_pathway,
            ..
        } => {
            assert!(matches!(
                condition.kind,
                ExpressionKind::Binary(BinaryOp::Lt, _, _)
            ));
            assert!(false_pathway.is_some(), "else branch present");
        }
        other => panic!("expected If, got {other:?}"),
    }
}

#[test]
fn an_int_literal_above_the_largest_int_is_rejected() {
    let error = parse("9223372036854775808").expect_err("too large a literal must be rejected");
    match error {
        ParseError::Build(BuildError::IntLiteralOutOfRange { literal, span }) => {
            assert_eq!(literal, "9223372036854775808");
            assert_eq!((span.offset, span.len), (0, 19));
        }
        other => panic!("expected an out-of-range literal, got {other:?}"),
    }
}

#[test]
fn the_largest_int_literal_is_accepted() {
    let expr = only_expr("9223372036854775807");
    assert!(is_int(&expr, i64::MAX));
}

#[test]
fn a_syntax_error_points_into_the_source() {
    let source = "let = 1";
    match parse(source).expect_err("a let without a name must be rejected") {
        ParseError::Syntax(error) => {
            assert!(error.span.offset + error.span.len <= source.len());
        }
        other => panic!("expected a syntax error, got {other:?}"),
    }
}

#[test]
fn a_pipe_parses_as_a_binary_pipe() {
    match only_kind("3 |> f") {
        ExpressionKind::Binary(BinaryOp::Pipe, lhs, rhs) => {
            assert!(is_int(&lhs, 3));
            assert!(is_var(&rhs.kind, "f"));
        }
        other => panic!("expected a pipe, got {other:?}"),
    }
}

#[test]
fn an_operator_at_the_start_of_a_line_starts_a_new_expression() {
    let kinds = program_kinds("1\n-2");
    assert_eq!(kinds.len(), 2);
    assert!(matches!(kinds[1], ExpressionKind::Unary(UnaryOp::Neg, _)));
}

#[test]
fn a_pipe_at_the_start_of_a_line_continues_the_expression() {
    let kind = only_kind("x\n|> f");
    assert!(matches!(kind, ExpressionKind::Binary(BinaryOp::Pipe, _, _)));
}

#[test]
fn inside_parentheses_line_breaks_do_not_end_an_expression() {
    let kind = only_kind("(1\n+ 2)");
    assert!(matches!(kind, ExpressionKind::Binary(BinaryOp::Add, _, _)));
}

#[test]
fn expressions_on_one_line_need_a_semicolon() {
    let err = parse("1 2").expect_err("two expressions on one line");
    let ParseError::Syntax(syntax) = err else {
        panic!("expected a syntax error, got {err:?}");
    };
    assert_eq!(syntax.span.offset, 2);
    assert_eq!(program_kinds("1; 2").len(), 2);
}

#[test]
fn a_lambda_of_two_parameters_nests_two_lambdas() {
    let kind = only_kind("(a, b) => a");
    let ExpressionKind::Lambda(outer) = kind else {
        panic!("expected a lambda, got {kind:?}");
    };
    assert_eq!(outer.parameter.as_ref().map(|p| p.name.as_str()), Some("a"));
    let ExpressionKind::Lambda(inner) = outer.body.kind else {
        panic!("expected a nested lambda");
    };
    assert_eq!(inner.parameter.as_ref().map(|p| p.name.as_str()), Some("b"));
    assert!(is_var(&inner.body.kind, "a"));
}

#[test]
fn a_comment_runs_to_the_end_of_its_line() {
    let kinds = program_kinds("1 // one\n2");
    assert_eq!(kinds.len(), 2);
}

#[test]
fn an_unterminated_string_is_a_syntax_error_at_its_quote() {
    let err = parse("let s = \"abc").expect_err("unterminated string");
    let ParseError::Syntax(syntax) = err else {
        panic!("expected a syntax error, got {err:?}");
    };
    assert_eq!((syntax.span.offset, syntax.span.len), (8, 1));
}

#[test]
fn a_float_keeps_its_text() {
    let kind = only_kind("1.50");
    let ExpressionKind::Literal(Literal::Float(text)) = kind else {
        panic!("expected a float, got {kind:?}");
    };
    assert_eq!(text, "1.50");
}
