use lang_lib::ast::{Expr, Identifier, Literal, Program, Stmt};
use lang_lib::lexer::Lexer;
use lang_lib::parser::Parser;
use lang_lib::round_trip::{canonical_tokens, print_program};
use lang_lib::token::{Token, Tokens};

fn parse(src: &[u8]) -> Program {
    let tokens = Lexer::lexing(src).unwrap();
    Parser::parsing(Tokens::new(&tokens)).unwrap()
}

#[test]
fn printed_programs_parse_back() {
    let sources: [&[u8]; 9] = [
        b"a + b * c == d; !-a; f(x)[y](z)",
        b"let add = fn(x, y) { x + y; }; add(5 + 5, add(5, 5));",
        b"if (x < y) { x } else { y }",
        b"let h = {\"one\": 1, true: 2, 3: 3}; h[\"one\"] + h[true] + h[3]",
        b"[1, 2 * 2, 3 + 3][1 + 1]; {}; []",
        b"let s = \"a\\\"b\\\\c \xf0\x9f\x92\x96\"; s",
        b"fn() { return fn(x) { if (x) { return 1; } 2 }; }",
        b"let map = fn(f, arr) { if (len(arr) == 0) { [] } else { let h = head(arr); cons(f(h), map(f, tail(arr))); } };",
        b"",
    ];
    for src in sources {
        let program = parse(src);
        let printed = print_program(&program).unwrap();
        assert_eq!(parse(&printed), program, "printed form: {}", String::from_utf8_lossy(&printed));
    }
}

#[test]
fn printed_form_is_canonical() {
    let program = parse(b"1 + 2 * x");
    let printed = print_program(&program).unwrap();
    assert_eq!(String::from_utf8(printed).unwrap(), "( 1 + ( 2 * x ) ) ; ");
    let program = parse(b"let s = \"q\\\"\"; f(s)[0]");
    let printed = print_program(&program).unwrap();
    assert_eq!(String::from_utf8(printed).unwrap(), "let s = \"q\\\"\" ; ( ( f ( s ) ) [ 0 ] ) ; ");
}

#[test]
fn canonical_token_form() {
    let program = parse(b"-a");
    assert_eq!(
        canonical_tokens(&program),
        vec![
            Token::LParen,
            Token::Minus,
            Token::Ident("a".to_string()),
            Token::RParen,
            Token::SemiColon,
        ]
    );
}

#[test]
fn unprintable_programs() {
    let negative: Program = vec![Stmt::ExprStmt(Expr::LiteralExpr(Literal::IntLiteral(-1)))];
    assert_eq!(print_program(&negative), None);
    let keyword_name: Program = vec![Stmt::ExprStmt(Expr::IdentExpr(Identifier("letter".to_string())))];
    assert_eq!(print_program(&keyword_name), None);
    let digit_name: Program = vec![Stmt::ExprStmt(Expr::IdentExpr(Identifier("1a".to_string())))];
    assert_eq!(print_program(&digit_name), None);
    let fine: Program = vec![Stmt::ExprStmt(Expr::IdentExpr(Identifier("tru".to_string())))];
    assert_eq!(print_program(&fine), Some(b"tru ; ".to_vec()));
}
