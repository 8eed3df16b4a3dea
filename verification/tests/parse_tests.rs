use minilang::lex::lex;
use minilang::parse::{
    parse, parse_expr, parse_function, parse_literal, parse_module, parse_stmt, Arg, BinaryOp,
    Construct, Expr, Literal, Module, ModuleType, ParseError, Stmt,
};

fn parse_src(src: &str) -> Module {
    let tokens = lex(src).expect("expected the source to tokenize");
    parse(tokens).expect("expected the source to parse")
}

#[test]
fn hello_module_shape() {
    let m = parse_src("fn main() { print(\"hi\") }");
    assert_eq!(m.module_type, ModuleType::Bin);
    assert_eq!(m.functions.len(), 1);
    let f = &m.functions[0];
    assert_eq!(f.name, "main");
    assert!(f.args.is_empty());
    assert_eq!(f.body.len(), 1);
    match &f.body[0] {
        Stmt::FunctionCall(c) => {
            assert_eq!(c.name, "print");
            assert_eq!(c.args, vec![Literal::String(String::from("hi"))]);
        }
        Stmt::SetVariable(_) => panic!("expected a call statement"),
    }
}

#[test]
fn module_without_main_is_lib() {
    let m = parse_src("fn helper() { }");
    assert_eq!(m.module_type, ModuleType::Lib);
}

#[test]
fn declared_arguments_carry_name_and_type() {
    let m = parse_src("fn add(a:int,b:int){ print(a) }");
    assert_eq!(
        m.functions[0].args,
        vec![
            Arg { name: String::from("a"), ty_name: String::from("int") },
            Arg { name: String::from("b"), ty_name: String::from("int") },
        ]
    );
}

#[test]
fn binary_expressions_nest_to_the_right() {
    let m = parse_src("fn main(){ set x -> 1+2+3 }");
    match &m.functions[0].body[0] {
        Stmt::SetVariable(sv) => {
            assert_eq!(sv.name, "x");
            match &sv.value {
                Expr::Binary(l, op, rhs) => {
                    assert_eq!(*l, Literal::Integer(1));
                    assert_eq!(*op, BinaryOp::Add);
                    match rhs.as_ref() {
                        Expr::Binary(l2, op2, rhs2) => {
                            assert_eq!(*l2, Literal::Integer(2));
                            assert_eq!(*op2, BinaryOp::Add);
                            match rhs2.as_ref() {
                                Expr::Literal(l3) => assert_eq!(*l3, Literal::Integer(3)),
                                _ => panic!("expected the chain to end in a literal"),
                            }
                        }
                        _ => panic!("expected the right side to be a binary chain"),
                    }
                }
                Expr::Literal(_) => panic!("expected a binary expression"),
            }
        }
        Stmt::FunctionCall(_) => panic!("expected a binding statement"),
    }
}

#[test]
fn statements_separated_by_semicolons() {
    let m = parse_src("fn main(){ set x -> 1; print(x) }");
    assert_eq!(m.functions[0].body.len(), 2);
}

#[test]
fn several_functions_in_order() {
    let m = parse_src("fn one(){} fn two(){} fn main(){}");
    assert_eq!(m.functions.len(), 3);
    assert_eq!(m.functions[0].name, "one");
    assert_eq!(m.functions[1].name, "two");
    assert_eq!(m.functions[2].name, "main");
    assert_eq!(m.module_type, ModuleType::Bin);
}

#[test]
fn leftover_tokens_fail_with_position() {
    let tokens = lex("fn main(){} )").unwrap();
    let r = parse_module(&tokens);
    assert_eq!(
        r.unwrap_err(),
        ParseError { construct: Construct::Function, pos: 6 }
    );
}

#[test]
fn malformed_function_fails_at_its_start() {
    let tokens = lex("fn main( {}").unwrap();
    let r = parse_module(&tokens);
    assert_eq!(
        r.unwrap_err(),
        ParseError { construct: Construct::Function, pos: 0 }
    );
}

#[test]
fn empty_token_stream_is_an_empty_lib() {
    let m = parse_src("");
    assert!(m.functions.is_empty());
    assert_eq!(m.module_type, ModuleType::Lib);
}

#[test]
fn call_arguments_accept_all_literal_kinds() {
    let m = parse_src("fn main(){ report(1, true, \"s\", x) }");
    match &m.functions[0].body[0] {
        Stmt::FunctionCall(c) => {
            assert_eq!(
                c.args,
                vec![
                    Literal::Integer(1),
                    Literal::Bool(true),
                    Literal::String(String::from("s")),
                    Literal::Variable(String::from("x")),
                ]
            );
        }
        Stmt::SetVariable(_) => panic!("expected a call statement"),
    }
}

#[test]
fn productions_advance_the_cursor() {
    let tokens = lex("1+2").unwrap();
    assert_eq!(parse_literal(&tokens, 0), Some((Literal::Integer(1), 1)));
    let (e, pos) = parse_expr(&tokens, 0).expect("expected an expression");
    assert_eq!(pos, 3);
    match e {
        Expr::Binary(l, op, rhs) => {
            assert_eq!(l, Literal::Integer(1));
            assert_eq!(op, BinaryOp::Add);
            match *rhs {
                Expr::Literal(r) => assert_eq!(r, Literal::Integer(2)),
                _ => panic!("expected the chain to end in a literal"),
            }
        }
        Expr::Literal(_) => panic!("expected a binary expression"),
    }
}

#[test]
fn failed_binary_alternative_rewinds_to_the_literal() {
    let tokens = lex("1 + )").unwrap();
    let (e, pos) = parse_expr(&tokens, 0).expect("expected the literal alternative");
    assert_eq!(pos, 1);
    match e {
        Expr::Literal(l) => assert_eq!(l, Literal::Integer(1)),
        _ => panic!("expected a bare literal"),
    }
}

#[test]
fn statement_production_distinguishes_calls_and_bindings() {
    let call_tokens = lex("go(1)").unwrap();
    match parse_stmt(&call_tokens, 0) {
        Some((Stmt::FunctionCall(c), pos)) => {
            assert_eq!(c.name, "go");
            assert_eq!(pos, 4);
        }
        _ => panic!("expected a call statement"),
    }
    let set_tokens = lex("set x -> 1").unwrap();
    match parse_stmt(&set_tokens, 0) {
        Some((Stmt::SetVariable(sv), pos)) => {
            assert_eq!(sv.name, "x");
            assert_eq!(pos, 4);
        }
        _ => panic!("expected a binding statement"),
    }
}

#[test]
fn function_production_reads_one_definition() {
    let tokens = lex("fn f(){} fn g(){}").unwrap();
    let (f, pos) = parse_function(&tokens, 0).expect("expected a function");
    assert_eq!(f.name, "f");
    assert_eq!(pos, 6);
    let (g, end) = parse_function(&tokens, pos).expect("expected a second function");
    assert_eq!(g.name, "g");
    assert_eq!(end, tokens.len());
}

#[test]
fn differently_formatted_sources_parse_equal() {
    assert_eq!(
        parse_src("fn main(){set x -> 1+2;print(x)}"),
        parse_src("fn main ( ) { set x -> 1 + 2 ; print ( x ) }")
    );
}
