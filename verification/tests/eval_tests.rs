use libmal::builtins::binary_operation;
use libmal::errors::RuntimeError;
use libmal::eval::{eval, read, Environment};
use libmal::printer::print;
use libmal::types::{BuiltinOp, Heap};

fn arithmetic_env(heap: &mut Heap) -> Environment {
    let mut env = Environment::new();
    env.set(String::from("+"), binary_operation(BuiltinOp::Add, heap));
    env.set(String::from("-"), binary_operation(BuiltinOp::Sub, heap));
    env.set(String::from("*"), binary_operation(BuiltinOp::Mul, heap));
    env.set(String::from("/"), binary_operation(BuiltinOp::Div, heap));
    env
}

fn run(input: &str) -> Result<String, RuntimeError> {
    let mut heap = Heap::new();
    let mut env = arithmetic_env(&mut heap);
    let ast = read(String::from(input), &mut heap).expect("input should parse");
    let result = eval(ast, &mut env, &mut heap)?;
    Ok(print(&heap, result))
}

#[test]
fn addition_evaluates() {
    assert_eq!(run("(+ 1 2)").unwrap(), "3");
}

#[test]
fn subtraction_evaluates() {
    assert_eq!(run("(- 1 2)").unwrap(), "-1");
}

#[test]
fn multiplication_evaluates() {
    assert_eq!(run("(* 6 7)").unwrap(), "42");
}

#[test]
fn division_truncates() {
    assert_eq!(run("(/ 7 2)").unwrap(), "3");
    assert_eq!(run("(/ -7 2)").unwrap(), "-3");
}

#[test]
fn nested_calls_evaluate() {
    assert_eq!(run("(+ 1 (* 2 3))").unwrap(), "7");
}

#[test]
fn empty_list_evaluates_to_itself() {
    assert_eq!(run("()").unwrap(), "()");
}

#[test]
fn unbound_symbol_fails() {
    let err = run("x").unwrap_err();
    match err {
        RuntimeError::UnboundSymbol(name) => assert_eq!(name, "x"),
        other => panic!("expected an unbound symbol error, got {:?}", other),
    }
}

#[test]
fn non_callable_head_fails() {
    assert!(matches!(run("(1 2)").unwrap_err(), RuntimeError::NotCallable));
}

#[test]
fn wrong_argument_count_fails() {
    assert!(matches!(
        run("(+ 1)").unwrap_err(),
        RuntimeError::WrongArgumentCount
    ));
    assert!(matches!(
        run("(+ 1 2 3)").unwrap_err(),
        RuntimeError::WrongArgumentCount
    ));
}

#[test]
fn wrong_argument_type_fails() {
    assert!(matches!(
        run("(+ nil 2)").unwrap_err(),
        RuntimeError::WrongArgumentType
    ));
}

#[test]
fn division_by_zero_fails() {
    assert!(matches!(
        run("(/ 1 0)").unwrap_err(),
        RuntimeError::DivisionByZero
    ));
}

#[test]
fn overflow_fails() {
    assert!(matches!(
        run("(+ 9223372036854775807 1)").unwrap_err(),
        RuntimeError::Overflow
    ));
    assert!(matches!(
        run("(- -9223372036854775808 1)").unwrap_err(),
        RuntimeError::Overflow
    ));
    assert!(matches!(
        run("(/ -9223372036854775808 -1)").unwrap_err(),
        RuntimeError::Overflow
    ));
}

#[test]
fn vector_elements_evaluate() {
    assert_eq!(run("[(+ 1 2) 4]").unwrap(), "[3 4]");
}

#[test]
fn map_values_evaluate_keys_stay() {
    assert_eq!(run("{:a (+ 1 2)}").unwrap(), "{:a 3}");
}

#[test]
fn atoms_evaluate_to_themselves() {
    assert_eq!(run("42").unwrap(), "42");
    assert_eq!(run("\"s\"").unwrap(), "\"s\"");
    assert_eq!(run(":k").unwrap(), ":k");
    assert_eq!(run("nil").unwrap(), "nil");
}

#[test]
fn failed_eval_leaves_environment_usable() {
    let mut heap = Heap::new();
    let mut env = arithmetic_env(&mut heap);
    let ast = read(String::from("(+ x 1)"), &mut heap).unwrap();
    assert!(eval(ast, &mut env, &mut heap).is_err());
    let ast = read(String::from("(+ 2 3)"), &mut heap).unwrap();
    let result = eval(ast, &mut env, &mut heap).unwrap();
    assert_eq!(print(&heap, result), "5");
}

#[test]
fn errors_compare_by_value() {
    let a = run("(1 2)").unwrap_err();
    let b = run("(3)").unwrap_err();
    assert!(a.same_as(&b));
    let c = run("y").unwrap_err();
    let d = run("x").unwrap_err();
    assert!(!c.same_as(&d));
    assert!(c.same_as(&RuntimeError::UnboundSymbol(String::from("y"))));
}

#[test]
fn rebinding_a_name_replaces_it() {
    let mut heap = Heap::new();
    let mut env = Environment::new();
    env.set(String::from("+"), binary_operation(BuiltinOp::Sub, &mut heap));
    env.set(String::from("+"), binary_operation(BuiltinOp::Add, &mut heap));
    let ast = read(String::from("(+ 2 2)"), &mut heap).unwrap();
    let result = eval(ast, &mut env, &mut heap).unwrap();
    assert_eq!(print(&heap, result), "4");
}
