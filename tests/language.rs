use lang_lib::ast::{Expr, Infix, Literal, Precedence, Stmt, precedences};
use lang_lib::environment::Environment;
use lang_lib::evaluator::Evaluator;
use lang_lib::lexer::{LexError, Lexer, lex_tokens, stringliteral};
use lang_lib::object::{BuiltinFunction, Object, int_string};
use lang_lib::parser::{Parser, parse_expr, parse_infix, parse_infix_expr, parse_program};
use lang_lib::token::{Token, Tokens};

fn run(src: &str) -> Object {
    let tokens = Lexer::lexing(src.as_bytes()).unwrap();
    let program = Parser::parsing(Tokens::new(&tokens)).unwrap();
    let mut evaluator = Evaluator::new();
    evaluator.evaluation(program)
}

fn int_array(xs: &[i64]) -> Object {
    Object::Array(xs.iter().map(|x| Object::Integer(*x)).collect())
}

fn error(m: &str) -> Object {
    Object::Error(m.to_string())
}

#[test]
fn scenario_sum_chain() {
    assert_eq!(run("5 + 5 + 5 + 5 - 10"), Object::Integer(10));
}

#[test]
fn scenario_mixed_precedence() {
    assert_eq!(run("(5 + 10 * 2 + 15 / 3) * 2 + -10"), Object::Integer(50));
}

#[test]
fn scenario_nested_return() {
    assert_eq!(run("if (10 > 1) { if (10 > 1) { return 10; } return 1; }"), Object::Integer(10));
}

#[test]
fn scenario_closure_adder() {
    assert_eq!(
        run("let newAdder = fn(x) { fn(n) { x + n } }; let addTwo = newAdder(2); addTwo(2);"),
        Object::Integer(4)
    );
}

#[test]
fn scenario_factorial() {
    assert_eq!(
        run("let factorial = fn(n) { if (n == 0) { 1 } else { n * factorial(n - 1) } }; factorial(5)"),
        Object::Integer(120)
    );
}

#[test]
fn scenario_hash_keys() {
    let h = "let h = {\"one\": 1, true: 2, 3: 3}; ";
    assert_eq!(run(&(h.to_string() + "h[\"one\"] + h[true] + h[3]")), Object::Integer(6));
    assert_eq!(run(&(h.to_string() + "h[[]]")), error("[] is not hashable"));
}

#[test]
fn scenario_builtins() {
    assert_eq!(run("len([1,2,3,4])"), Object::Integer(4));
    assert_eq!(run("head([])"), error("empty array"));
    assert_eq!(run("cons(1,[2,3])"), int_array(&[1, 2, 3]));
}

#[test]
fn scenario_strings() {
    assert_eq!(run("\"foo\" + \"bar\""), Object::String("foobar".to_string()));
    assert_eq!(run("\"foo\" - \"bar\""), error("foo is not an integer"));
}

#[test]
fn scenario_out_of_range_index() {
    assert_eq!(run("[1,2,3][-1]"), Object::NULL);
    assert_eq!(run("[1,2,3][5]"), Object::NULL);
}

#[test]
fn lexer_ends_with_eof() {
    for src in ["", "   ", "let", "1 + 2", "@#", "\"a\"", "x;\n\ty"] {
        let tokens = Lexer::lexing(src.as_bytes()).unwrap();
        assert_eq!(tokens.last(), Some(&Token::EOF));
    }
}

#[test]
fn lexer_empty_input() {
    assert_eq!(Lexer::lexing(b"").unwrap(), vec![Token::EOF]);
    assert_eq!(lex_tokens(b" \t\r\n").unwrap(), vec![]);
}

#[test]
fn lexer_two_byte_operators() {
    assert_eq!(
        Lexer::lexing(b"== != <= >= = ! < >").unwrap(),
        vec![
            Token::Equal,
            Token::NotEqual,
            Token::LessThanEqual,
            Token::GreaterThanEqual,
            Token::Assign,
            Token::Not,
            Token::LessThan,
            Token::GreaterThan,
            Token::EOF,
        ]
    );
}

#[test]
fn lexer_illegal_byte() {
    assert_eq!(
        Lexer::lexing(b"1 @ 2").unwrap(),
        vec![Token::IntLiteral(1), Token::Illegal, Token::IntLiteral(2), Token::EOF]
    );
}

#[test]
fn lexer_unclosed_string() {
    assert_eq!(Lexer::lexing(b"let s = \"abc"), Err(LexError::UnclosedString(8)));
    assert_eq!(Lexer::lexing(b"\"abc\\"), Err(LexError::UnclosedString(0)));
}

#[test]
fn lexer_integer_bounds() {
    assert_eq!(
        Lexer::lexing(b"9223372036854775807").unwrap(),
        vec![Token::IntLiteral(i64::MAX), Token::EOF]
    );
    assert_eq!(Lexer::lexing(b"1 9223372036854775808"), Err(LexError::IntegerOverflow(2)));
}

#[test]
fn lexer_keywords_and_identifiers() {
    assert_eq!(
        Lexer::lexing(b"fn if else return true false _a1").unwrap(),
        vec![
            Token::Function,
            Token::If,
            Token::Else,
            Token::Return,
            Token::BoolLiteral(true),
            Token::BoolLiteral(false),
            Token::Ident("_a1".to_string()),
            Token::EOF,
        ]
    );
}

#[test]
fn string_literal_reader() {
    assert_eq!(stringliteral(b"\"a\\\"b\" rest"), Some(("a\"b".to_string(), 6)));
    assert_eq!(stringliteral(b"abc"), None);
    assert_eq!(stringliteral(b"\"abc"), None);
}

#[test]
fn parse_error_names_token() {
    let tokens = Lexer::lexing(b"let = 5;").unwrap();
    let err = Parser::parsing(Tokens::new(&tokens)).unwrap_err();
    assert_eq!(err.position, 1);
    assert_eq!(err.token, Token::Assign);
    let tokens = Lexer::lexing(b"1 +").unwrap();
    let err = parse_program(Tokens::new(&tokens)).unwrap_err();
    assert_eq!(err.position, 2);
    assert_eq!(err.token, Token::EOF);
}

#[test]
fn parse_postfix_chain() {
    let tokens = Lexer::lexing(b"f(x)[y](z)").unwrap();
    let program = Parser::parsing(Tokens::new(&tokens)).unwrap();
    let tokens2 = Lexer::lexing(b"((f(x))[y])(z)").unwrap();
    let program2 = Parser::parsing(Tokens::new(&tokens2)).unwrap();
    assert_eq!(program, program2);
    match &program[0] {
        Stmt::ExprStmt(Expr::CallExpr { .. }) => {}
        other => panic!("unexpected {:?}", other),
    }
}

#[test]
fn parse_expression_pieces() {
    let tokens = Lexer::lexing(b"1 + 2 * 3 == 7").unwrap();
    let t = Tokens::new(&tokens);
    let (e, end) = parse_expr(t, 0).unwrap();
    assert_eq!(end, 7);
    match e {
        Expr::InfixExpr(Infix::Equal, _, _) => {}
        other => panic!("unexpected {:?}", other),
    }
    let (e, end) = parse_infix(t, 1, Precedence::PEquals, Expr::LiteralExpr(Literal::IntLiteral(1))).unwrap();
    assert_eq!(end, 5);
    match e {
        Expr::InfixExpr(Infix::Plus, _, _) => {}
        other => panic!("unexpected {:?}", other),
    }
    let (e, end) = parse_infix_expr(t, 1, Expr::LiteralExpr(Literal::IntLiteral(1))).unwrap();
    assert_eq!(end, 5);
    match e {
        Expr::InfixExpr(Infix::Plus, _, r) => match *r {
            Expr::InfixExpr(Infix::Multiply, _, _) => {}
            other => panic!("unexpected {:?}", other),
        },
        other => panic!("unexpected {:?}", other),
    }
}

#[test]
fn precedence_table() {
    assert_eq!(precedences(&Token::Plus), (Precedence::PSum, Some(Infix::Plus)));
    assert_eq!(precedences(&Token::LParen), (Precedence::PCall, None));
    assert_eq!(precedences(&Token::LBracket), (Precedence::PIndex, None));
    assert_eq!(precedences(&Token::Comma), (Precedence::PLowest, None));
}

#[test]
fn precedence_law_examples() {
    assert_eq!(run("2 + 3 * 4"), run("2 + (3 * 4)"));
    assert_eq!(run("2 + 3 * 4"), Object::Integer(14));
    assert_eq!(run("10 - 3 - 2"), Object::Integer(5));
    assert_eq!(run("1 + 2 + 3"), run("(1 + 2) + 3"));
}

#[test]
fn closure_survives_rebinding() {
    assert_eq!(
        run("let f = fn(x) { fn(y) { x + y } }; let g = f(3); let x = 100; let y = 200; g(4)"),
        Object::Integer(7)
    );
    assert_eq!(run("let f = fn(x) { fn(y) { x + y } }; let x = 9; f(-2)(5)"), Object::Integer(3));
}

#[test]
fn return_escapes_nested_ifs() {
    assert_eq!(
        run("let f = fn() { if (true) { if (true) { if (true) { return 7; } 1 } 2 } 3 }; f()"),
        Object::Integer(7)
    );
}

#[test]
fn errors_poison_arithmetic() {
    assert_eq!(run("missing + 1"), error("identifier not found: missing"));
    assert_eq!(run("1 + missing"), error("identifier not found: missing"));
    assert_eq!(run("a * b"), error("identifier not found: a"));
    assert_eq!(run("1 < true"), error("true is not an integer"));
    assert_eq!(run("-true + 1"), error("true is not an integer"));
}

#[test]
fn error_is_not_caught_by_calls() {
    assert_eq!(run("let f = fn() { missing; 5 }; f()"), error("identifier not found: missing"));
}

#[test]
fn hash_key_kinds() {
    assert_eq!(run("{1: 2}[fn(x) { x }]"), error("[function] is not hashable"));
    assert_eq!(run("{1: 2}[{}]"), error("{} is not hashable"));
    assert_eq!(run("{1: 2, 1: 3}[1]"), Object::Integer(3));
    assert_eq!(run("{\"a\": 2}[\"b\"]"), Object::NULL);
}

#[test]
fn division_rules() {
    assert_eq!(run("7 / 2"), Object::Integer(3));
    assert_eq!(run("-7 / 2"), Object::Integer(-3));
    assert_eq!(run("1 / 0"), error("division by zero"));
}

#[test]
fn integer_arithmetic_wraps() {
    assert_eq!(run("9223372036854775807 + 1"), Object::Integer(i64::MIN));
    assert_eq!(run("-9223372036854775807 - 2"), Object::Integer(i64::MAX));
}

#[test]
fn equality_is_structural() {
    assert_eq!(run("[1, [2]] == [1, [2]]"), Object::Boolean(true));
    assert_eq!(run("{1: 2, 3: 4} == {3: 4, 1: 2}"), Object::Boolean(true));
    assert_eq!(run("1 == true"), Object::Boolean(false));
    assert_eq!(run("1 != true"), Object::Boolean(true));
    assert_eq!(run("if (false) { 1 } == if (false) { 2 }"), Object::Boolean(true));
    assert_eq!(run("\"a\" == \"a\""), Object::Boolean(true));
}

#[test]
fn non_boolean_condition() {
    assert_eq!(run("if (0) { 1 } else { 2 }"), error("0 is not a bool"));
}

#[test]
fn not_addable_pair() {
    assert_eq!(run("1 + \"a\""), error("1 and a are not addable"));
}

#[test]
fn builtin_errors() {
    assert_eq!(run("tail(1)"), error("invalid arguments for tail"));
    assert_eq!(run("cons(1, 2)"), error("invalid arguments for cons"));
    assert_eq!(run("head(1, 2)"), error("wrong number of arguments: 1 expected but 2 given"));
    assert_eq!(run("len(\"héllo\")"), Object::Integer(5));
}

#[test]
fn index_errors() {
    assert_eq!(run("[1][true]"), error("true is not an integer"));
    assert_eq!(run("true[0]"), error("unexpected index target: true"));
}

#[test]
fn deep_recursion_stops() {
    assert_eq!(run("let f = fn(n) { f(n + 1) }; f(0)"), error("evaluation depth exceeded"));
}

#[test]
fn bindings_persist_between_programs() {
    let mut evaluator = Evaluator::new();
    let tokens = Lexer::lexing(b"let a = 40;").unwrap();
    evaluator.evaluation(Parser::parsing(Tokens::new(&tokens)).unwrap());
    let tokens = Lexer::lexing(b"a + 2").unwrap();
    let r = evaluator.evaluation(Parser::parsing(Tokens::new(&tokens)).unwrap());
    assert_eq!(r, Object::Integer(42));
}

#[test]
fn top_level_return_unwraps() {
    assert_eq!(run("return 3; 4"), Object::Integer(3));
}

#[test]
fn value_display() {
    assert_eq!(run("[1, \"a\", true]").display_text(), "[1, a, true]");
    assert_eq!(run("{1: [2]}").display_text(), "{1 : [2]}");
    assert_eq!(run("len").display_text(), "[built-in function: len]");
    assert_eq!(run("fn(x) { x }").display_text(), "[function]");
    assert_eq!(run("if (false) { 1 }").display_text(), "null");
    assert_eq!(run("nope").display_text(), "Error: identifier not found: nope");
    assert_eq!(int_string(i64::MIN), "-9223372036854775808");
}

#[test]
fn environment_frames() {
    let mut env = Environment::new();
    assert_eq!(env.get(0, "len"), Some(Object::Builtin(BuiltinFunction::Len)));
    env.set(0, "a", Object::Integer(1));
    let inner = env.new_with_outer(0);
    assert_eq!(inner, 1);
    env.set(inner, "b", Object::Integer(2));
    assert_eq!(env.get(inner, "a"), Some(Object::Integer(1)));
    assert_eq!(env.get(0, "b"), None);
    env.set(inner, "a", Object::Integer(3));
    assert_eq!(env.get(inner, "a"), Some(Object::Integer(3)));
    assert_eq!(env.get(0, "a"), Some(Object::Integer(1)));
}

#[test]
fn conversions() {
    let evaluator = Evaluator::new();
    assert_eq!(evaluator.otb(Object::Boolean(true)), Ok(true));
    assert_eq!(evaluator.otb(Object::Integer(1)), Err(error("1 is not a bool")));
    assert_eq!(evaluator.oti(Object::Integer(4)), Ok(4));
    assert_eq!(evaluator.oti(error("x")), Err(error("x")));
    assert_eq!(evaluator.otfn(Object::NULL), error("null is not a valid function"));
    assert_eq!(evaluator.othash(Object::String("k".to_string())), Object::String("k".to_string()));
    assert_eq!(evaluator.othash(Object::NULL), error("null is not hashable"));
}
