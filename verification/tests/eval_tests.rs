use minilang::interpreter::{
    interpet, EvalError, Interpreter, NonVarLiteral, ValueKind,
};
use minilang::lex::lex;
use minilang::parse::{parse, BinaryOp, Expr, Literal};

fn run_src(src: &str) -> (Vec<String>, Result<(), EvalError>) {
    let tokens = lex(src).expect("expected the source to tokenize");
    let ast = parse(tokens).expect("expected the source to parse");
    interpet(ast)
}

#[test]
fn set_then_print_evaluates_the_sum() {
    let (out, res) = run_src("fn main(){ set x -> 1+2; print(x) }");
    assert_eq!(res, Ok(()));
    assert_eq!(out, vec![String::from("3")]);
}

#[test]
fn unbound_variable_fails_with_no_output() {
    let (out, res) = run_src("fn main(){ print(y) }");
    assert_eq!(res, Err(EvalError::UndefinedVariable(String::from("y"))));
    assert!(out.is_empty());
}

#[test]
fn missing_argument_names_the_expected_formal() {
    let (out, res) = run_src("fn add(a:int,b:int){ print(a) } fn main(){ add(1) }");
    assert_eq!(
        res,
        Err(EvalError::MissingArgument { index: 1, expected: String::from("b") })
    );
    assert!(out.is_empty());
}

#[test]
fn module_without_main_cannot_run() {
    let (out, res) = run_src("fn helper(){ print(1) }");
    assert_eq!(res, Err(EvalError::NoMainFunction));
    assert!(out.is_empty());
}

#[test]
fn printed_values_take_their_natural_form() {
    let (out, res) = run_src("fn main(){ print(42, true, false, \"raw\") }");
    assert_eq!(res, Ok(()));
    assert_eq!(
        out,
        vec![
            String::from("42"),
            String::from("true"),
            String::from("false"),
            String::from("raw"),
        ]
    );
}

#[test]
fn negative_results_render_with_a_sign() {
    let (out, res) = run_src("fn main(){ set x -> 0-5; print(x) }");
    assert_eq!(res, Ok(()));
    assert_eq!(out, vec![String::from("-5")]);
}

#[test]
fn division_truncates_toward_zero() {
    let (out, res) = run_src("fn main(){ set a -> 7/2; set b -> 0-7; set c -> b/2; print(a, c) }");
    assert_eq!(res, Ok(()));
    assert_eq!(out, vec![String::from("3"), String::from("-3")]);
}

#[test]
fn division_by_zero_is_fatal() {
    let (out, res) = run_src("fn main(){ set x -> 1/0; print(x) }");
    assert_eq!(res, Err(EvalError::DivisionByZero));
    assert!(out.is_empty());
}

#[test]
fn integer_overflow_is_fatal() {
    let (_, res) = run_src("fn main(){ set x -> 9223372036854775807 + 1 }");
    assert_eq!(res, Err(EvalError::IntegerOverflow));
}

#[test]
fn mixed_operand_kinds_are_invalid() {
    let (_, res) = run_src("fn main(){ set x -> \"a\" + 1 }");
    assert_eq!(
        res,
        Err(EvalError::InvalidOperation(ValueKind::Str, BinaryOp::Add, ValueKind::Integer))
    );
}

#[test]
fn unknown_callee_is_reported() {
    let (_, res) = run_src("fn main(){ missing() }");
    assert_eq!(res, Err(EvalError::FunctionNotFound(String::from("missing"))));
}

#[test]
fn unbounded_recursion_hits_the_depth_limit() {
    let (_, res) = run_src("fn main(){ main() }");
    assert_eq!(res, Err(EvalError::RecursionLimitExceeded));
}

#[test]
fn bindings_persist_across_calls() {
    let (out, res) = run_src("fn show(){ print(x) } fn main(){ set x -> 5; show() }");
    assert_eq!(res, Ok(()));
    assert_eq!(out, vec![String::from("5")]);
}

#[test]
fn duplicate_function_names_resolve_first_match() {
    let (out, res) = run_src("fn f(){ print(1) } fn f(){ print(2) } fn main(){ f() }");
    assert_eq!(res, Ok(()));
    assert_eq!(out, vec![String::from("1")]);
}

#[test]
fn surplus_arguments_are_ignored() {
    let (out, res) = run_src("fn f(a:int){ print(a) } fn main(){ f(1, 2) }");
    assert_eq!(res, Ok(()));
    assert_eq!(out, vec![String::from("1")]);
}

#[test]
fn print_is_recognized_ahead_of_user_functions() {
    let (out, res) = run_src("fn print(a:int){ } fn main(){ print(7) }");
    assert_eq!(res, Ok(()));
    assert_eq!(out, vec![String::from("7")]);
}

#[test]
fn output_before_a_failure_is_kept() {
    let (out, res) = run_src("fn main(){ print(1); print(z) }");
    assert_eq!(res, Err(EvalError::UndefinedVariable(String::from("z"))));
    assert_eq!(out, vec![String::from("1")]);
}

#[test]
fn actuals_resolve_in_the_callers_environment() {
    let (out, res) = run_src("fn f(a:int,b:int){ print(b) } fn main(){ set a -> 5; f(9, a) }");
    assert_eq!(res, Ok(()));
    assert_eq!(out, vec![String::from("5")]);
}

#[test]
fn unresolvable_actual_fails_the_call() {
    let (out, res) = run_src("fn f(a:int,b:int){ print(b) } fn main(){ f(9, a) }");
    assert_eq!(res, Err(EvalError::UndefinedVariable(String::from("a"))));
    assert!(out.is_empty());
}

#[test]
fn unresolvable_surplus_actual_fails_the_call() {
    let (out, res) = run_src("fn f(a:int){ print(a) } fn main(){ f(1, zz) }");
    assert_eq!(res, Err(EvalError::UndefinedVariable(String::from("zz"))));
    assert!(out.is_empty());
}

#[test]
fn failing_print_emits_nothing() {
    let (out, res) = run_src("fn main(){ set x -> 1; print(x, z) }");
    assert_eq!(res, Err(EvalError::UndefinedVariable(String::from("z"))));
    assert!(out.is_empty());
}

#[test]
fn interpreter_resolves_literals_directly() {
    let interp = Interpreter::new();
    assert_eq!(
        interp.to_nonvar_literal(&Literal::Integer(3)),
        Ok(NonVarLiteral::Integer(3))
    );
    assert_eq!(
        interp.to_nonvar_literal(&Literal::Variable(String::from("q"))),
        Err(EvalError::UndefinedVariable(String::from("q")))
    );
}

#[test]
fn interpreter_computes_binary_expressions() {
    let interp = Interpreter::new();
    let e = Expr::Binary(
        Literal::Integer(6),
        BinaryOp::Mul,
        Box::new(Expr::Literal(Literal::Integer(7))),
    );
    assert_eq!(interp.compute_expr(&e), Ok(NonVarLiteral::Integer(42)));
}
