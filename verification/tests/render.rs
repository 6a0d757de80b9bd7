use trestle::render::{format_function_type, format_type};
use trestle::type_check::typed_ast::{Literal, Type, TypeVarId};

fn int_type() -> Type {
    Type::Literal(Literal::Int)
}

#[test]
fn curried_functions_need_no_parentheses() {
    let curried = Type::Fn(
        Some(Box::new(int_type())),
        Box::new(Type::Fn(Some(Box::new(int_type())), Box::new(int_type()))),
    );
    assert_eq!(format_type(&curried), "Int -> Int -> Int");
}

#[test]
fn a_function_parameter_is_parenthesised() {
    let higher_order = Type::Fn(
        Some(Box::new(Type::Fn(Some(Box::new(int_type())), Box::new(int_type())))),
        Box::new(int_type()),
    );
    assert_eq!(format_type(&higher_order), "(Int -> Int) -> Int");
}

#[test]
fn a_parameterless_function_prints_empty_parentheses() {
    assert_eq!(format_type(&Type::Fn(None, Box::new(int_type()))), "() -> Int");
}

#[test]
fn unsolved_variables_print_as_underscore_numbers() {
    assert_eq!(format_type(&Type::Var(TypeVarId(3))), "_3");
}

#[test]
fn records_print_their_fields() {
    let fields = vec![("x".to_owned(), int_type()), ("y".to_owned(), int_type())];
    assert_eq!(format_type(&Type::Record(fields)), "{ x: Int, y: Int }");
}

#[test]
fn every_builtin_type_prints_its_name() {
    assert_eq!(format_type(&Type::Unit), "Unit");
    assert_eq!(format_type(&Type::Literal(Literal::Unit)), "Unit");
    assert_eq!(format_type(&Type::Literal(Literal::Bool)), "Bool");
    assert_eq!(format_type(&Type::Literal(Literal::Float)), "Float");
    assert_eq!(format_type(&Type::Literal(Literal::String)), "String");
}

#[test]
fn an_empty_record_type_keeps_its_padding() {
    assert_eq!(format_type(&Type::Record(vec![])), "{  }");
}

#[test]
fn a_function_type_without_its_wrapper_has_no_parentheses() {
    let parameter = Some(Box::new(Type::Fn(Some(Box::new(int_type())), Box::new(int_type()))));
    assert_eq!(
        format_function_type(&parameter, &Box::new(int_type())),
        "(Int -> Int) -> Int"
    );
    assert_eq!(format_function_type(&None, &Box::new(int_type())), "() -> Int");
}

#[test]
fn large_type_variables_print_every_digit() {
    assert_eq!(format_type(&Type::Var(TypeVarId(1205))), "_1205");
}
