use lang_lib::ast::{Expr, Identifier, Infix, Literal, Prefix, Program, Stmt};
use lang_lib::lexer::Lexer;
use lang_lib::parser::Parser;
use lang_lib::token::Tokens;

fn assert_input_with_program(input: &[u8], expected_results: Program) {
    let r = Lexer::lexing(input).unwrap();
    let tokens = Tokens::new(&r);
    let result = Parser::parsing(tokens).unwrap();
    assert_eq!(result, expected_results);
}

fn compare_inputs(input: &[u8], input2: &[u8]) {
    let r = Lexer::lexing(input).unwrap();
    let tokens = Tokens::new(&r);
    let result = Parser::parsing(tokens).unwrap();

    let r = Lexer::lexing(input2).unwrap();
    let tokens = Tokens::new(&r);
    let expected_results = Parser::parsing(tokens).unwrap();

    assert_eq!(result, expected_results);
}

#[test]
fn empty() {
    assert_input_with_program(&b""[..], vec![]);
}

#[test]
fn let_statements() {
    let input = "let x = 5;\
         let y = 10;\
         let foobar = 838383;\
         let boo = true;\
        "
        .as_bytes();

    let program: Program = vec![
        Stmt::LetStmt(Identifier("x".to_owned()), Expr::LiteralExpr(Literal::IntLiteral(5))),
        Stmt::LetStmt(
            Identifier("y".to_owned()),
            Expr::LiteralExpr(Literal::IntLiteral(10)),
        ),
        Stmt::LetStmt(
            Identifier("foobar".to_owned()),
            Expr::LiteralExpr(Literal::IntLiteral(838383)),
        ),
        Stmt::LetStmt(
            Identifier("boo".to_owned()),
            Expr::LiteralExpr(Literal::BoolLiteral(true)),
        ),
    ];

    assert_input_with_program(input, program);
}

#[test]
fn return_statements() {
    let input = "return 5;\
         return 10;\
         return 838383;\
         return true;\
        "
        .as_bytes();

    let program: Program = vec![
        Stmt::ReturnStmt(Expr::LiteralExpr(Literal::IntLiteral(5))),
        Stmt::ReturnStmt(Expr::LiteralExpr(Literal::IntLiteral(10))),
        Stmt::ReturnStmt(Expr::LiteralExpr(Literal::IntLiteral(838383))),
        Stmt::ReturnStmt(Expr::LiteralExpr(Literal::BoolLiteral(true))),
    ];

    assert_input_with_program(input, program);
}

#[test]
fn some_statements() {
    let input = "let x = 5;\
         return 10;\
         15;\
         let y = 20;\
         return false;\
        "
        .as_bytes();

    let program: Program = vec![
        Stmt::LetStmt(Identifier("x".to_owned()), Expr::LiteralExpr(Literal::IntLiteral(5))),
        Stmt::ReturnStmt(Expr::LiteralExpr(Literal::IntLiteral(10))),
        Stmt::ExprStmt(Expr::LiteralExpr(Literal::IntLiteral(15))),
        Stmt::LetStmt(
            Identifier("y".to_owned()),
            Expr::LiteralExpr(Literal::IntLiteral(20)),
        ),
        Stmt::ReturnStmt(Expr::LiteralExpr(Literal::BoolLiteral(false))),
    ];

    assert_input_with_program(input, program);
}

#[test]
fn test_identifier() {
    let input = "foobar;\
         foobar\
        "
        .as_bytes();

    let program: Program = vec![
        Stmt::ExprStmt(Expr::IdentExpr(Identifier("foobar".to_owned()))),
        Stmt::ExprStmt(Expr::IdentExpr(Identifier("foobar".to_owned()))),
    ];

    assert_input_with_program(input, program);
}

#[test]
fn prefix_expr() {
    let input = "-foobar;\
         +10\
         !true\
        "
        .as_bytes();

    let program: Program = vec![
        Stmt::ExprStmt(Expr::PrefixExpr(
            Prefix::Minus,
            Box::new(Expr::IdentExpr(Identifier("foobar".to_owned()))),
        )),
        Stmt::ExprStmt(Expr::PrefixExpr(
            Prefix::Plus,
            Box::new(Expr::LiteralExpr(Literal::IntLiteral(10))),
        )),
        Stmt::ExprStmt(Expr::PrefixExpr(
            Prefix::Not,
            Box::new(Expr::LiteralExpr(Literal::BoolLiteral(true))),
        )),
    ];

    assert_input_with_program(input, program);
}

#[test]
fn prefix_expr2() {
    let input = "-(foobar);\
         (+(10));\
         (((!true)));\
        "
        .as_bytes();

    let program: Program = vec![
        Stmt::ExprStmt(Expr::PrefixExpr(
            Prefix::Minus,
            Box::new(Expr::IdentExpr(Identifier("foobar".to_owned()))),
        )),
        Stmt::ExprStmt(Expr::PrefixExpr(
            Prefix::Plus,
            Box::new(Expr::LiteralExpr(Literal::IntLiteral(10))),
        )),
        Stmt::ExprStmt(Expr::PrefixExpr(
            Prefix::Not,
            Box::new(Expr::LiteralExpr(Literal::BoolLiteral(true))),
        )),
    ];

    assert_input_with_program(input, program);
}

#[test]
fn infix_expr() {
    let input = "10 + 20".as_bytes();

    let program: Program = vec![Stmt::ExprStmt(Expr::InfixExpr(
        Infix::Plus,
        Box::new(Expr::LiteralExpr(Literal::IntLiteral(10))),
        Box::new(Expr::LiteralExpr(Literal::IntLiteral(20))),
    ))];

    assert_input_with_program(input, program);

    let input = "10 * 20".as_bytes();

    let program: Program = vec![Stmt::ExprStmt(Expr::InfixExpr(
        Infix::Multiply,
        Box::new(Expr::LiteralExpr(Literal::IntLiteral(10))),
        Box::new(Expr::LiteralExpr(Literal::IntLiteral(20))),
    ))];

    assert_input_with_program(input, program);

    let input = "10 + 5 / -20 - (x + x)".as_bytes();

    let input2 = "10 + (5 / (-20)) - (x + x)".as_bytes();

    compare_inputs(input, input2);

    let input = "10 + 5 / -20 - (x + x)".as_bytes();

    let program: Program = vec![Stmt::ExprStmt(Expr::InfixExpr(
        Infix::Minus,
        Box::new(Expr::InfixExpr(
            Infix::Plus,
            Box::new(Expr::LiteralExpr(Literal::IntLiteral(10))),
            Box::new(Expr::InfixExpr(
                Infix::Divide,
                Box::new(Expr::LiteralExpr(Literal::IntLiteral(5))),
                Box::new(Expr::PrefixExpr(
                    Prefix::Minus,
                    Box::new(Expr::LiteralExpr(Literal::IntLiteral(20))),
                )),
            )),
        )),
        Box::new(Expr::InfixExpr(
            Infix::Plus,
            Box::new(Expr::IdentExpr(Identifier("x".to_owned()))),
            Box::new(Expr::IdentExpr(Identifier("x".to_owned()))),
        )),
    ))];

    assert_input_with_program(input, program);
}

#[test]
fn op_precedence() {
    let input = "!-a".as_bytes();

    let input2 = "(!(-a))".as_bytes();

    compare_inputs(input, input2);

    let input = "a + b + c".as_bytes();

    let input2 = "((a + b) + c)".as_bytes();

    compare_inputs(input, input2);

    let input = "a + b - c".as_bytes();

    let input2 = "((a + b) - c)".as_bytes();

    compare_inputs(input, input2);

    let input = "a * b * c".as_bytes();

    let input2 = "((a * b) * c)".as_bytes();

    compare_inputs(input, input2);

    let input = "a * b / c".as_bytes();

    let input2 = "((a * b) / c)".as_bytes();

    compare_inputs(input, input2);

    let input = "a + b / c".as_bytes();

    let input2 = "(a + (b / c))".as_bytes();

    compare_inputs(input, input2);

    let input = "a + b * c + d / e - f".as_bytes();

    let input2 = "(((a + (b * c)) + (d / e)) - f)".as_bytes();

    compare_inputs(input, input2);

    let input = "3 + 4; -5 * 5".as_bytes();

    let input2 = "(3 + 4);((-5) * 5)".as_bytes();

    compare_inputs(input, input2);

    let input = "5 > 4 == 3 < 4".as_bytes();

    let input2 = "((5 > 4) == (3 < 4))".as_bytes();

    compare_inputs(input, input2);

    let input = "5 < 4 != 3 > 4".as_bytes();

    let input2 = "((5 < 4) != (3 > 4))".as_bytes();

    compare_inputs(input, input2);

    let input = "3 + 4 * 5 == 3 * 1 + 4 * 5".as_bytes();

    let input2 = "((3 + (4 * 5)) == ((3 * 1) + (4 * 5)))".as_bytes();

    compare_inputs(input, input2);
}

#[test]
fn if_expr() {
    let input = "if (x < y) { x }".as_bytes();

    let program: Program = vec![Stmt::ExprStmt(Expr::IfExpr {
        cond: Box::new(Expr::InfixExpr(
            Infix::LessThan,
            Box::new(Expr::IdentExpr(Identifier("x".to_owned()))),
            Box::new(Expr::IdentExpr(Identifier("y".to_owned()))),
        )),
        consequence: vec![Stmt::ExprStmt(Expr::IdentExpr(Identifier("x".to_owned())))],
        alternative: None,
    })];

    assert_input_with_program(input, program);

    let input = "if (x < y) { x } else { y }".as_bytes();

    let program: Program = vec![Stmt::ExprStmt(Expr::IfExpr {
        cond: Box::new(Expr::InfixExpr(
            Infix::LessThan,
            Box::new(Expr::IdentExpr(Identifier("x".to_owned()))),
            Box::new(Expr::IdentExpr(Identifier("y".to_owned()))),
        )),
        consequence: vec![Stmt::ExprStmt(Expr::IdentExpr(Identifier("x".to_owned())))],
        alternative: Some(vec![Stmt::ExprStmt(Expr::IdentExpr(Identifier("y".to_owned())))]),
    })];

    assert_input_with_program(input, program);
}

#[test]
fn function_expr() {
    let input = "fn() {\
            return foobar + barfoo;\
        }\
        "
        .as_bytes();

    let program: Program = vec![Stmt::ExprStmt(Expr::FnExpr {
        parameters: vec![],
        body: vec![Stmt::ReturnStmt(Expr::InfixExpr(
            Infix::Plus,
            Box::new(Expr::IdentExpr(Identifier("foobar".to_owned()))),
            Box::new(Expr::IdentExpr(Identifier("barfoo".to_owned()))),
        ))],
    })];

    assert_input_with_program(input, program);

    let input = "fn(x, y) {\
            return x + y;\
        }\
        "
        .as_bytes();

    let program: Program = vec![Stmt::ExprStmt(Expr::FnExpr {
        parameters: vec![Identifier("x".to_owned()), Identifier("y".to_owned())],
        body: vec![Stmt::ReturnStmt(Expr::InfixExpr(
            Infix::Plus,
            Box::new(Expr::IdentExpr(Identifier("x".to_owned()))),
            Box::new(Expr::IdentExpr(Identifier("y".to_owned()))),
        ))],
    })];

    assert_input_with_program(input, program);

    let input = "fn() {
            return fn (x, y, z, zz) { return x >= y; };
         }
        "
        .as_bytes();

    let program: Program = vec![Stmt::ExprStmt(Expr::FnExpr {
        parameters: vec![],
        body: vec![Stmt::ReturnStmt(Expr::FnExpr {
            parameters: vec![
                Identifier("x".to_owned()),
                Identifier("y".to_owned()),
                Identifier("z".to_owned()),
                Identifier("zz".to_owned()),
            ],
            body: vec![Stmt::ReturnStmt(Expr::InfixExpr(
                Infix::GreaterThanEqual,
                Box::new(Expr::IdentExpr(Identifier("x".to_owned()))),
                Box::new(Expr::IdentExpr(Identifier("y".to_owned()))),
            ))],
        })],
    })];

    assert_input_with_program(input, program);
}

#[test]
fn function_call_expr() {
    let input = "add(2, 3);\
         add(a, b, 1, 2 * 3, other(4 + 5), add(6, 7 * 8));\
         fn(a, b) { return a + b; }(1, 2);\
        "
        .as_bytes();

    let program: Program = vec![
        Stmt::ExprStmt(Expr::CallExpr {
            function: Box::new(Expr::IdentExpr(Identifier("add".to_owned()))),
            arguments: vec![
                Expr::LiteralExpr(Literal::IntLiteral(2)),
                Expr::LiteralExpr(Literal::IntLiteral(3)),
            ],
        }),
        Stmt::ExprStmt(Expr::CallExpr {
            function: Box::new(Expr::IdentExpr(Identifier("add".to_owned()))),
            arguments: vec![
                Expr::IdentExpr(Identifier("a".to_owned())),
                Expr::IdentExpr(Identifier("b".to_owned())),
                Expr::LiteralExpr(Literal::IntLiteral(1)),
                Expr::InfixExpr(
                    Infix::Multiply,
                    Box::new(Expr::LiteralExpr(Literal::IntLiteral(2))),
                    Box::new(Expr::LiteralExpr(Literal::IntLiteral(3))),
                ),
                Expr::CallExpr {
                    function: Box::new(Expr::IdentExpr(Identifier("other".to_owned()))),
                    arguments: vec![Expr::InfixExpr(
                        Infix::Plus,
                        Box::new(Expr::LiteralExpr(Literal::IntLiteral(4))),
                        Box::new(Expr::LiteralExpr(Literal::IntLiteral(5))),
                    )],
                },
                Expr::CallExpr {
                    function: Box::new(Expr::IdentExpr(Identifier("add".to_owned()))),
                    arguments: vec![
                        Expr::LiteralExpr(Literal::IntLiteral(6)),
                        Expr::InfixExpr(
                            Infix::Multiply,
                            Box::new(Expr::LiteralExpr(Literal::IntLiteral(7))),
                            Box::new(Expr::LiteralExpr(Literal::IntLiteral(8))),
                        ),
                    ],
                },
            ],
        }),
        Stmt::ExprStmt(Expr::CallExpr {
            function: Box::new(Expr::FnExpr {
                parameters: vec![Identifier("a".to_owned()), Identifier("b".to_owned())],
                body: vec![Stmt::ReturnStmt(Expr::InfixExpr(
                    Infix::Plus,
                    Box::new(Expr::IdentExpr(Identifier("a".to_owned()))),
                    Box::new(Expr::IdentExpr(Identifier("b".to_owned()))),
                ))],
            }),
            arguments: vec![
                Expr::LiteralExpr(Literal::IntLiteral(1)),
                Expr::LiteralExpr(Literal::IntLiteral(2)),
            ],
        }),
    ];

    assert_input_with_program(input, program);
}

#[test]
fn strings() {
    let input = &b"\"foobar\""[..];

    let program: Program = vec![Stmt::ExprStmt(Expr::LiteralExpr(Literal::StringLiteral(
        "foobar".to_owned(),
    )))];

    assert_input_with_program(input, program);

    let input = &b"\"foo bar\""[..];

    let program: Program = vec![Stmt::ExprStmt(Expr::LiteralExpr(Literal::StringLiteral(
        "foo bar".to_owned(),
    )))];

    assert_input_with_program(input, program);

    let input = &b"\"foo\nbar\""[..];

    let program: Program = vec![Stmt::ExprStmt(Expr::LiteralExpr(Literal::StringLiteral(
        "foo\nbar".to_owned(),
    )))];

    assert_input_with_program(input, program);

    let input = &b"\"foo\tbar\""[..];

    let program: Program = vec![Stmt::ExprStmt(Expr::LiteralExpr(Literal::StringLiteral(
        "foo\tbar".to_owned(),
    )))];

    assert_input_with_program(input, program);

    let input = &b"\"foo\\\"bar\""[..];

    let program: Program = vec![Stmt::ExprStmt(Expr::LiteralExpr(Literal::StringLiteral(
        "foo\"bar".to_owned(),
    )))];

    assert_input_with_program(input, program);
}

#[test]
fn arrays() {
    let input = &b"[1, 2 * 2, 3 + 3]"[..];

    let program: Program = vec![Stmt::ExprStmt(Expr::ArrayExpr(vec![
        Expr::LiteralExpr(Literal::IntLiteral(1)),
        Expr::InfixExpr(
            Infix::Multiply,
            Box::new(Expr::LiteralExpr(Literal::IntLiteral(2))),
            Box::new(Expr::LiteralExpr(Literal::IntLiteral(2))),
        ),
        Expr::InfixExpr(
            Infix::Plus,
            Box::new(Expr::LiteralExpr(Literal::IntLiteral(3))),
            Box::new(Expr::LiteralExpr(Literal::IntLiteral(3))),
        ),
    ]))];

    assert_input_with_program(input, program);

    let input = &b"myArray[1 + 1]"[..];

    let program: Program = vec![Stmt::ExprStmt(Expr::IndexExpr {
        left: Box::new(Expr::IdentExpr(Identifier("myArray".to_owned()))),
        index: Box::new(Expr::InfixExpr(
            Infix::Plus,
            Box::new(Expr::LiteralExpr(Literal::IntLiteral(1))),
            Box::new(Expr::LiteralExpr(Literal::IntLiteral(1))),
        )),
    })];

    assert_input_with_program(input, program);
}

#[test]
fn array_precedence() {
    let input = "a * [1, 2, 3, 4][b * c] * d".as_bytes();

    let input2 = "((a * ([1, 2, 3, 4][b * c])) * d)".as_bytes();

    compare_inputs(input, input2);

    let input = "add(a * b[2], b[1], 2 * [1, 2][1])".as_bytes();

    let input2 = "add((a * (b[2])), (b[1]), (2 * ([1, 2][1])))".as_bytes();

    compare_inputs(input, input2);
}

#[test]
fn hash() {
    let input = &b"{}"[..];

    let program: Program = vec![Stmt::ExprStmt(Expr::HashExpr(vec![]))];

    assert_input_with_program(input, program);

    let input = &b"{\"one\": 1, \"two\": 2, \"three\": 3}"[..];

    let program: Program = vec![Stmt::ExprStmt(Expr::HashExpr(vec![
        (
            Literal::StringLiteral("one".to_owned()),
            Expr::LiteralExpr(Literal::IntLiteral(1)),
        ),
        (
            Literal::StringLiteral("two".to_owned()),
            Expr::LiteralExpr(Literal::IntLiteral(2)),
        ),
        (
            Literal::StringLiteral("three".to_owned()),
            Expr::LiteralExpr(Literal::IntLiteral(3)),
        ),
    ]))];

    assert_input_with_program(input, program);

    let input = &b"{4: 1, 5: 2, 6: 3}"[..];

    let program: Program = vec![Stmt::ExprStmt(Expr::HashExpr(vec![
        (
            Literal::IntLiteral(4),
            Expr::LiteralExpr(Literal::IntLiteral(1)),
        ),
        (
            Literal::IntLiteral(5),
            Expr::LiteralExpr(Literal::IntLiteral(2)),
        ),
        (
            Literal::IntLiteral(6),
            Expr::LiteralExpr(Literal::IntLiteral(3)),
        ),
    ]))];

    assert_input_with_program(input, program);

    let input = &b"{true: 1, false: 2}"[..];

    let program: Program = vec![Stmt::ExprStmt(Expr::HashExpr(vec![
        (
            Literal::BoolLiteral(true),
            Expr::LiteralExpr(Literal::IntLiteral(1)),
        ),
        (
            Literal::BoolLiteral(false),
            Expr::LiteralExpr(Literal::IntLiteral(2)),
        ),
    ]))];

    assert_input_with_program(input, program);

    let input = &b"{\"one\": 0 + 1, \"two\": 10 - 8, \"three\": 15/5}"[..];

    let program: Program = vec![Stmt::ExprStmt(Expr::HashExpr(vec![
        (
            Literal::StringLiteral("one".to_owned()),
            Expr::InfixExpr(
                Infix::Plus,
                Box::new(Expr::LiteralExpr(Literal::IntLiteral(0))),
                Box::new(Expr::LiteralExpr(Literal::IntLiteral(1))),
            ),
        ),
        (
            Literal::StringLiteral("two".to_owned()),
            Expr::InfixExpr(
                Infix::Minus,
                Box::new(Expr::LiteralExpr(Literal::IntLiteral(10))),
                Box::new(Expr::LiteralExpr(Literal::IntLiteral(8))),
            ),
        ),
        (
            Literal::StringLiteral("three".to_owned()),
            Expr::InfixExpr(
                Infix::Divide,
                Box::new(Expr::LiteralExpr(Literal::IntLiteral(15))),
                Box::new(Expr::LiteralExpr(Literal::IntLiteral(5))),
            ),
        ),
    ]))];

    assert_input_with_program(input, program);
}
