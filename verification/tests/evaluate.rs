use trestle::evaluate::{EvalError, Value, evaluate};
use trestle::parse::parse;
use trestle::{AnalysisError, analyse};

fn run(src: &str) -> Result<Value, EvalError> {
    let parsed = parse(src).expect("source parses");
    let checked = analyse(parsed).expect("source analyses");
    evaluate(checked)
}

fn run_int(src: &str) -> i64 {
    match run(src) {
        Ok(Value::Int(n)) => n,
        other => panic!("expected an Int, got {other:?}"),
    }
}

fn run_bool(src: &str) -> bool {
    match run(src) {
        Ok(Value::Bool(b)) => b,
        other => panic!("expected a Bool, got {other:?}"),
    }
}

#[test]
fn arithmetic_follows_precedence_and_grouping() {
    assert_eq!(run_int("1 + 2 * 3"), 7);
    assert_eq!(run_int("(1 + 2) * 3"), 9);
    assert_eq!(run_int("10 - 4 - 3"), 3);
    assert_eq!(run_int("-2 * 3"), -6);
}

#[test]
fn integer_division_rounds_toward_zero() {
    assert_eq!(run_int("7 / 2"), 3);
    assert_eq!(run_int("-7 / 2"), -3);
    assert_eq!(run_int("7 / -2"), -3);
    assert_eq!(run_int("-7 / -2"), 3);
}

#[test]
fn division_by_zero_is_an_error() {
    assert!(matches!(run("1 / 0"), Err(EvalError::DivisionByZero { .. })));
}

#[test]
fn overflow_is_an_error_naming_the_operator() {
    match run("9223372036854775807 + 1") {
        Err(EvalError::ArithmeticOverflow { operator, lhs, rhs, .. }) => {
            assert_eq!(operator, "+");
            assert_eq!(lhs, 9223372036854775807);
            assert_eq!(rhs, 1);
        }
        other => panic!("expected an overflow, got {other:?}"),
    }
    assert!(matches!(
        run("-9223372036854775807 - 2"),
        Err(EvalError::ArithmeticOverflow { operator: "-", .. })
    ));
    assert!(matches!(
        run("4611686018427387904 * 2"),
        Err(EvalError::ArithmeticOverflow { operator: "*", .. })
    ));
}

#[test]
fn negating_the_smallest_int_overflows() {
    match run("let m = -9223372036854775807 - 1\n-m") {
        Err(EvalError::ArithmeticOverflow { operator, lhs, rhs, .. }) => {
            assert_eq!(operator, "-");
            assert_eq!(lhs, 0);
            assert_eq!(rhs, i64::MIN);
        }
        other => panic!("expected an overflow, got {other:?}"),
    }
}

#[test]
fn comparisons_and_logic() {
    assert!(run_bool("1 < 2"));
    assert!(!run_bool("1 > 2"));
    assert!(run_bool("2 <= 2"));
    assert!(run_bool("3 >= 2"));
    assert!(run_bool("2 == 2"));
    assert!(run_bool("2 != 3"));
    assert!(run_bool("true && !false"));
    assert!(run_bool("false || true"));
    assert!(run_bool("1 < 2 && 3 > 2"));
}

#[test]
fn logical_operators_evaluate_both_operands() {
    assert!(matches!(
        run("false && (1 / 0 == 0)"),
        Err(EvalError::DivisionByZero { .. })
    ));
    assert!(matches!(
        run("true || (1 / 0 == 0)"),
        Err(EvalError::DivisionByZero { .. })
    ));
}

#[test]
fn lets_bind_for_later_expressions() {
    assert_eq!(run_int("let a = 2\nlet b: Int = a * 5\nb + 1"), 11);
    assert_eq!(run_int("let a = 2; a + 1"), 3);
}

#[test]
fn a_program_ends_with_its_last_value() {
    assert!(matches!(run(""), Ok(Value::Unit)));
    assert!(matches!(run("let x = 1"), Ok(Value::Unit)));
    assert!(matches!(run("()"), Ok(Value::Unit)));
}

#[test]
fn blocks_yield_their_last_value_and_scope_their_bindings() {
    assert_eq!(run_int("let y = {\n  let x = 4\n  x * x\n}\ny"), 16);
    assert_eq!(run_int("let x = 1\nlet y = {\n  let x = 10\n  x\n}\nx + y"), 11);
    assert!(matches!(run("{}"), Ok(Value::Unit)));
}

#[test]
fn if_picks_a_branch() {
    assert_eq!(run_int("if (1 < 2) 10 else 20"), 10);
    assert_eq!(run_int("if (1 > 2) 10 else 20"), 20);
    assert!(matches!(run("if (false) 1"), Ok(Value::Unit)));
    assert_eq!(run_int("if (true) { 1 } else { 2 }"), 1);
}

#[test]
fn functions_curry_and_close_over_their_environment() {
    assert_eq!(run_int("let add = (a: Int, b: Int) => a + b\nadd(3, 4)"), 7);
    assert_eq!(run_int("let add = (a: Int, b: Int) => a + b\nlet inc = add(1)\ninc(41)"), 42);
    assert_eq!(run_int("let k = 5\nlet f = (x: Int) => x + k\n{\n  let k = 100\n  f(1)\n}"), 6);
    assert_eq!(run_int("let seven = () => 7\nseven()"), 7);
    assert_eq!(run_int("let twice = (f, x: Int) => f(f(x))\ntwice((n: Int) => n * 3, 2)"), 18);
}

#[test]
fn a_pipe_applies_its_right_side_to_its_left() {
    assert_eq!(run_int("let double = (x: Int) => x * 2\n3 |> double"), 6);
    assert_eq!(
        run_int("let double = (x: Int) => x * 2\nlet inc = (x: Int) => x + 1\n3\n  |> double\n  |> inc"),
        7
    );
}

#[test]
fn records_hold_named_fields() {
    assert_eq!(run_int("let p = { y: 2, x: 1 }\np.x + p.y"), 3);
    assert_eq!(
        run_int("type Point = { x: Int, y: Int }\nlet p: Point = { x: 3, y: 4 }\np.y"),
        4
    );
    assert_eq!(run_int("let o = { inner: { v: 9 } }\no.inner.v"), 9);
    match run("{ b: true, a: 1 }") {
        Ok(Value::Record(fields)) => {
            let names: Vec<&str> = fields.iter().map(|(n, _)| n.as_str()).collect();
            assert_eq!(names, vec!["a", "b"]);
        }
        other => panic!("expected a record, got {other:?}"),
    }
}

#[test]
fn literals_evaluate_to_themselves() {
    assert!(matches!(run("\"hi\\tthere\""), Ok(Value::String(s)) if s == "hi\tthere"));
    assert!(matches!(run("2.50"), Ok(Value::Float(s)) if s == "2.50"));
    assert!(matches!(run("true"), Ok(Value::Bool(true))));
}

#[test]
fn comments_are_ignored() {
    assert_eq!(run_int("// a comment\nlet a = 1 // trailing\na + 1"), 2);
}

#[test]
fn unbound_names_fail_analysis() {
    let parsed = parse("nope").expect("source parses");
    assert!(matches!(analyse(parsed), Err(AnalysisError::BindingResolution(e)) if e.len() == 1));
}

#[test]
fn ill_typed_programs_fail_analysis() {
    let parsed = parse("1 + true").expect("source parses");
    assert!(matches!(analyse(parsed), Err(AnalysisError::TypeCheck(_))));
}

#[test]
fn piping_gives_what_calling_gives() {
    let prelude = "let sub = (a: Int, b: Int) => a - b\n";
    assert_eq!(run_int(&format!("{prelude}10 |> sub(3)")), run_int(&format!("{prelude}sub(3)(10)")));
    assert_eq!(run_int(&format!("{prelude}10 |> sub(3)")), -7);
    assert!(matches!(
        run(&format!("{prelude}(1 / 0) |> sub(3)")),
        Err(EvalError::DivisionByZero { .. })
    ));
    assert!(matches!(
        run(&format!("{prelude}sub(3)(1 / 0)")),
        Err(EvalError::DivisionByZero { .. })
    ));
}

#[test]
fn a_let_cannot_refer_to_itself() {
    let parsed = parse("let f = (n: Int) => f(n)").expect("source parses");
    assert!(matches!(analyse(parsed), Err(AnalysisError::BindingResolution(e)) if e.len() == 1));
}

#[test]
fn a_string_escape_is_unescaped_before_evaluation() {
    assert!(matches!(run("\"a\\nb\""), Ok(Value::String(s)) if s == "a\nb"));
}
