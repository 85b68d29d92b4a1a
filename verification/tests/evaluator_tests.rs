use fddl::env::Environment;
use fddl::evaluator::Evaluator;
use fddl::lexer::Lexer;
use fddl::parser::Parser;
use fddl::rat::Number;
use fddl::value::{FddlValue, RuntimeError};

fn run(source: &str) -> (Evaluator, Result<(), RuntimeError>) {
    let mut lexer = Lexer::new(String::from(source));
    let tokens = lexer.scan_tokens();
    let mut parser = Parser::new(tokens);
    let program = parser.parse_program();
    let mut evaluator = Evaluator::new();
    let result = evaluator.evaluate_program(program);
    (evaluator, result)
}

fn whole(n: u64) -> FddlValue {
    FddlValue::Number(Number::from_integer(n))
}

#[test]
fn test_print_arithmetic_precedence() {
    let (ev, res) = run("print 1 + 2 * 3;");
    assert!(res.is_ok());
    assert_eq!(ev.output, vec![whole(7)]);
}

#[test]
fn test_exact_fraction_division() {
    let (ev, res) = run("print 1 / 2;");
    assert!(res.is_ok());
    assert_eq!(
        ev.output,
        vec![FddlValue::Number(Number { negative: false, numer: 1, denom: 2 })]
    );
}

#[test]
fn test_exact_fraction_addition() {
    let (ev, res) = run("print 1.5 + 0.25;");
    assert!(res.is_ok());
    assert_eq!(
        ev.output,
        vec![FddlValue::Number(Number { negative: false, numer: 7, denom: 4 })]
    );
}

#[test]
fn test_modulus() {
    let (ev, res) = run("print 10 % 3;");
    assert!(res.is_ok());
    assert_eq!(ev.output, vec![whole(1)]);
}

#[test]
fn test_unary_negation() {
    let (ev, res) = run("print -2;");
    assert!(res.is_ok());
    assert_eq!(
        ev.output,
        vec![FddlValue::Number(Number { negative: true, numer: 2, denom: 1 })]
    );
}

#[test]
fn test_division_by_zero_fails() {
    let (_, res) = run("print 5 / 0;");
    assert_eq!(res, Err(RuntimeError::DivisionByZero));
}

#[test]
fn test_modulus_by_zero_fails() {
    let (_, res) = run("print 5 % 0;");
    assert_eq!(res, Err(RuntimeError::DivisionByZero));
}

#[test]
fn test_cross_type_equality_is_false() {
    let (ev, res) = run("print 5 == \"5\";");
    assert!(res.is_ok());
    assert_eq!(ev.output, vec![FddlValue::Boolean(false)]);
}

#[test]
fn test_equality_and_inequality() {
    let (ev, res) = run("print 2 + 2 == 4; print 1 != 1;");
    assert!(res.is_ok());
    assert_eq!(ev.output, vec![FddlValue::Boolean(true), FddlValue::Boolean(false)]);
}

#[test]
fn test_type_mismatch_on_plus() {
    let (_, res) = run("print 1 + \"a\";");
    assert_eq!(
        res,
        Err(RuntimeError::TypeMismatch(
            "Operands for '+' must be numbers.".to_string()
        ))
    );
}

#[test]
fn test_undefined_variable_read() {
    let (_, res) = run("print ghost_town;");
    assert_eq!(
        res,
        Err(RuntimeError::UndefinedVariable("ghost_town".to_string()))
    );
}

#[test]
fn test_assignment_to_undeclared_fails() {
    let (_, res) = run("b = 1;");
    assert_eq!(res, Err(RuntimeError::UndefinedVariable("b".to_string())));
}

#[test]
fn test_block_scope_does_not_leak() {
    let (_, res) = run("{ let y = 5; } print y;");
    assert_eq!(res, Err(RuntimeError::UndefinedVariable("y".to_string())));
}

#[test]
fn test_shadowing_preserves_outer_binding() {
    let (ev, res) = run("let x = 1; { let x = 2; } print x;");
    assert!(res.is_ok());
    assert_eq!(ev.output, vec![whole(1)]);
}

#[test]
fn test_assignment_mutates_enclosing_scope() {
    let (ev, res) = run("let a = 1; { a = 2; } print a;");
    assert!(res.is_ok());
    assert_eq!(ev.output, vec![whole(2)]);
}

#[test]
fn test_and_short_circuit_skips_right() {
    let (ev, res) = run("print false and missing_name;");
    assert!(res.is_ok());
    assert_eq!(ev.output, vec![FddlValue::Boolean(false)]);
}

#[test]
fn test_or_short_circuit_skips_right() {
    let (ev, res) = run("print true or missing_name;");
    assert!(res.is_ok());
    assert_eq!(ev.output, vec![FddlValue::Boolean(true)]);
}

#[test]
fn test_truthiness() {
    let (ev, res) = run("print not 0; print not nil; print not \"\";");
    assert!(res.is_ok());
    assert_eq!(
        ev.output,
        vec![
            FddlValue::Boolean(false),
            FddlValue::Boolean(true),
            FddlValue::Boolean(false)
        ]
    );
}

#[test]
fn test_some_operator() {
    let (ev, res) = run("print some nil; print some 0;");
    assert!(res.is_ok());
    assert_eq!(ev.output, vec![FddlValue::Boolean(false), FddlValue::Boolean(true)]);
}

#[test]
fn test_if_else_branches() {
    let (ev, res) = run("if (1 < 2) { print 1; } else { print 2; } if (2 < 1) { print 3; } else { print 4; }");
    assert!(res.is_ok());
    assert_eq!(ev.output, vec![whole(1), whole(4)]);
}

#[test]
fn test_while_loop_counts() {
    let (ev, res) = run("let i = 0; while (i < 3) { i = i + 1; } print i;");
    assert!(res.is_ok());
    assert_eq!(ev.output, vec![whole(3)]);
}

#[test]
fn test_error_stops_execution() {
    let (ev, res) = run("print 1; print 1 / 0; print 2;");
    assert_eq!(res, Err(RuntimeError::DivisionByZero));
    assert_eq!(ev.output, vec![whole(1)]);
}

#[test]
fn test_almost_is_deterministic() {
    let (ev, res) = run("print ~5; print ~5;");
    assert!(res.is_ok());
    assert_eq!(ev.output.len(), 2);
    assert_eq!(ev.output[0], ev.output[1]);
}

#[test]
fn test_almost_on_zero_boolean_text_nil() {
    let (ev, res) = run("print ~0; print ~true; print ~\"ab\"; print ~\"\"; print ~nil;");
    assert!(res.is_ok());
    assert_eq!(
        ev.output,
        vec![
            FddlValue::Number(Number { negative: false, numer: 1337, denom: 10000 }),
            FddlValue::Boolean(false),
            FddlValue::Text("ba~".to_string()),
            FddlValue::Text("?!~".to_string()),
            FddlValue::Text("almost nil?".to_string()),
        ]
    );
}

#[test]
fn test_unimplemented_statement_is_rejected() {
    let (_, res) = run("return 1;");
    assert_eq!(
        res,
        Err(RuntimeError::TypeMismatch(
            "Unimplemented statement kind.".to_string()
        ))
    );
}

#[test]
fn test_unimplemented_call_is_rejected() {
    let (_, res) = run("my_func();");
    assert_eq!(
        res,
        Err(RuntimeError::TypeMismatch(
            "Unimplemented expression kind.".to_string()
        ))
    );
}

#[test]
fn test_environment_define_get_assign() {
    let mut env = Environment::new();
    env.define("x".to_string(), whole(1));
    assert_eq!(env.get("x"), Ok(whole(1)));
    assert!(env.assign("x", whole(2)).is_ok());
    assert_eq!(env.get("x"), Ok(whole(2)));
    assert_eq!(env.get("y"), Err(RuntimeError::UndefinedVariable("y".to_string())));
    assert_eq!(
        env.assign("y", whole(3)),
        Err(RuntimeError::UndefinedVariable("y".to_string()))
    );

    let mut inner = Environment::new_enclosed(env);
    assert_eq!(inner.get("x"), Ok(whole(2)));
    inner.define("x".to_string(), whole(9));
    assert_eq!(inner.get("x"), Ok(whole(9)));
    inner.pop_scope();
    assert_eq!(inner.get("x"), Ok(whole(2)));
}

#[test]
fn test_number_checked_arithmetic_exact() {
    let half = Number::make(false, 1, 2);
    let third = Number::make(false, 1, 3);
    assert_eq!(half.checked_add(third), Some(Number::make(false, 5, 6)));
    assert_eq!(half.checked_sub(half), Some(Number::make(false, 0, 1)));
    assert_eq!(half.checked_mul(third), Some(Number::make(false, 1, 6)));
    assert_eq!(half.checked_div(third), Some(Number::make(false, 3, 2)));
    assert!(half.lt(Number::make(false, 2, 3)));
    assert!(half.value_eq(Number::make(false, 2, 4)));
}

#[test]
fn test_is_truthy_rule() {
    assert!(!Evaluator::is_truthy(&FddlValue::Boolean(false)));
    assert!(!Evaluator::is_truthy(&FddlValue::Nil));
    assert!(Evaluator::is_truthy(&whole(0)));
    assert!(Evaluator::is_truthy(&FddlValue::Text("".to_string())));
}
