use lang_lib::evaluator::Evaluator;
use lang_lib::lexer::Lexer;
use lang_lib::object::Object;
use lang_lib::parser::Parser;
use lang_lib::token::Tokens;

fn compare(input: &[u8], object: Object) {
    let r = Lexer::lexing(input).unwrap();
    let tokens = Tokens::new(&r);
    let result_parse = Parser::parsing(tokens).unwrap();
    let mut evaluator = Evaluator::new();
    let eval = evaluator.evaluation(result_parse);
    assert_eq!(eval, object);
}

#[test]
fn test_simple() {
    // ints
    compare("5".as_bytes(), Object::Integer(5));
    compare("10".as_bytes(), Object::Integer(10));
    // bools
    compare("true".as_bytes(), Object::Boolean(true));
    compare("false".as_bytes(), Object::Boolean(false));
}

#[test]
fn test_prefix() {
    // bang operator
    compare("!false".as_bytes(), Object::Boolean(true));
    compare("!true".as_bytes(), Object::Boolean(false));
    compare("!!false".as_bytes(), Object::Boolean(false));
    compare("!!true".as_bytes(), Object::Boolean(true));

    compare(
        "!5".as_bytes(),
        Object::Error("5 is not a bool".to_string()),
    );
    compare(
        "!1".as_bytes(),
        Object::Error("1 is not a bool".to_string()),
    );
    compare(
        "!0".as_bytes(),
        Object::Error("0 is not a bool".to_string()),
    );
    compare(
        "!!1".as_bytes(),
        Object::Error("1 is not a bool".to_string()),
    );
    compare(
        "!!0".as_bytes(),
        Object::Error("0 is not a bool".to_string()),
    );
    // the prefix +
    compare("+1".as_bytes(), Object::Integer(1));
    compare("+5".as_bytes(), Object::Integer(5));
    compare("+20".as_bytes(), Object::Integer(20));
    compare(
        "+true".as_bytes(),
        Object::Error("true is not an integer".to_string()),
    );
    compare(
        "+false".as_bytes(),
        Object::Error("false is not an integer".to_string()),
    );
    // the prefix -
    compare("-1".as_bytes(), Object::Integer(-1));
    compare("-5".as_bytes(), Object::Integer(-5));
    compare("-20".as_bytes(), Object::Integer(-20));
    compare(
        "-true".as_bytes(),
        Object::Error("true is not an integer".to_string()),
    );
    compare(
        "-false".as_bytes(),
        Object::Error("false is not an integer".to_string()),
    );
}

#[test]
fn test_infix_op() {
    // algebra
    compare("5 + 5 + 5 + 5 - 10".as_bytes(), Object::Integer(10));
    compare("2 * 2 * 2 * 2 * 2".as_bytes(), Object::Integer(32));
    compare("-50 + 100 + -50".as_bytes(), Object::Integer(0));
    compare("5 * 2 + 10".as_bytes(), Object::Integer(20));
    compare("5 + 2 * 10".as_bytes(), Object::Integer(25));
    compare("20 + 2 * -10".as_bytes(), Object::Integer(0));
    compare("50 / 2 * 2 + 10".as_bytes(), Object::Integer(60));
    compare("2 * (5 + 10)".as_bytes(), Object::Integer(30));
    compare("3 * 3 * 3 + 10".as_bytes(), Object::Integer(37));
    compare("3 * (3 * 3) + 10".as_bytes(), Object::Integer(37));
    compare(
        "(5 + 10 * 2 + 15 / 3) * 2 + -10".as_bytes(),
        Object::Integer(50),
    );
    // logic algebra
    compare("1 < 2".as_bytes(), Object::Boolean(true));
    compare("1 > 2".as_bytes(), Object::Boolean(false));
    compare("1 < 1".as_bytes(), Object::Boolean(false));
    compare("1 > 1".as_bytes(), Object::Boolean(false));
    compare("1 <= 2".as_bytes(), Object::Boolean(true));
    compare("1 >= 2".as_bytes(), Object::Boolean(false));
    compare("1 <= 1".as_bytes(), Object::Boolean(true));
    compare("1 >= 1".as_bytes(), Object::Boolean(true));
    compare("1 == 1".as_bytes(), Object::Boolean(true));
    compare("1 != 1".as_bytes(), Object::Boolean(false));
    compare("1 == 2".as_bytes(), Object::Boolean(false));
    compare("1 != 2".as_bytes(), Object::Boolean(true));
    // combination
    compare("(1 < 2) == true".as_bytes(), Object::Boolean(true));
    compare("(1 < 2) == false".as_bytes(), Object::Boolean(false));
    compare("(1 > 2) == true".as_bytes(), Object::Boolean(false));
    compare("(1 > 2) == false".as_bytes(), Object::Boolean(true));
}

#[test]
fn test_conditional() {
    compare("if (true) { 10 }".as_bytes(), Object::Integer(10));
    compare("if (false) { 10 }".as_bytes(), Object::NULL);
    compare(
        "if (1) { 10 }".as_bytes(),
        Object::Error("1 is not a bool".to_string()),
    );
    compare("if (1 < 2) { 10 }".as_bytes(), Object::Integer(10));
    compare("if (1 > 2) { 10 }".as_bytes(), Object::NULL);
    compare(
        "if (1 < 2) { 10 } else { 20 }".as_bytes(),
        Object::Integer(10),
    );
    compare(
        "if (1 > 2) { 10 } else { 20 }".as_bytes(),
        Object::Integer(20),
    );
}

#[test]
fn test_return() {
    // compare("return 10".as_bytes(), Object::Integer(10));
    // compare("return 10; 9".as_bytes(), Object::Integer(10));
    // compare("return 2 * 5; 9".as_bytes(), Object::Integer(10));
    // compare("9; return 2 * 5; 9".as_bytes(), Object::Integer(10));

    let input = "if (10 > 1) {\
             if (10 > 1) {\
                 return 10;\
             }\
             return 1;\
         }\
        "
        .as_bytes();
    compare(input, Object::Integer(10));
}

#[test]
fn test_bindings() {
    compare("let a = 5; a;".as_bytes(), Object::Integer(5));
    compare("let a = 5 * 5; a;".as_bytes(), Object::Integer(25));
    compare("let a = 5; let b = a; b;".as_bytes(), Object::Integer(5));
    compare(
        "let a = 5; let b = a; let c = a + b + 5; c;".as_bytes(),
        Object::Integer(15),
    );
    compare(
        "foobar".as_bytes(),
        Object::Error("identifier not found: foobar".to_string()),
    );
}

#[test]
fn test_strings() {
    compare(
        "\"foobar\"".as_bytes(),
        Object::String("foobar".to_string()),
    );
    compare(
        "\"foo\" + \"bar\"".as_bytes(),
        Object::String("foobar".to_string()),
    );
    compare(
        "\"foo\" + \" \" + \"bar\"".as_bytes(),
        Object::String("foo bar".to_string()),
    );
    compare(
        "\"foo\" - \"bar\"".as_bytes(),
        Object::Error("foo is not an integer".to_string()),
    );
}

#[test]
fn test_fn() {
    compare(
        "let identity = fn(x) { x; }; identity(5);".as_bytes(),
        Object::Integer(5),
    );
    compare(
        "let identity = fn(x) { return x; }; identity(5);".as_bytes(),
        Object::Integer(5),
    );
    compare(
        "let double = fn(x) { x * 2; }; double(5);".as_bytes(),
        Object::Integer(10),
    );
    compare(
        "let add = fn(x, y) { x + y; }; add(5, 5);".as_bytes(),
        Object::Integer(10),
    );
    compare(
        "let add = fn(x, y) { x + y; }; add(5 + 5, add(5, 5));".as_bytes(),
        Object::Integer(20),
    );
    compare("fn(x) { x; }(5)".as_bytes(), Object::Integer(5));
    compare(
        "5();".as_bytes(),
        Object::Error("5 is not a valid function".to_string()),
    );
    compare(
        "false();".as_bytes(),
        Object::Error("false is not a valid function".to_string()),
    );
    compare(
        "let add = fn(x, y) { x + y; }; add(1);".as_bytes(),
        Object::Error("wrong number of arguments: 2 expected but 1 given".to_string()),
    );
    compare(
        "let a = 10; let x = fn () { a; }; x();".as_bytes(),
        Object::Integer(10),
    );
    compare(
        "let x = fn () { a; }; let a = 10; x();".as_bytes(),
        Object::Integer(10),
    );

    let fn_input1 = "let add = fn(a, b, c, d) { return a + b + c + d; };\
         add(1, 2, 3, 4);\
        "
        .as_bytes();

    let fn_input2 = "let addThree = fn(x) { return x + 3 };\
         addThree(3);\
        "
        .as_bytes();

    let fn_input3 = "let max = fn(x, y) { if (x > y) { x } else { y } };\
         max(5, 10)\
        "
        .as_bytes();

    let fn_input4 = "let factorial = fn(n) {\
            if (n == 0) {\
                1\
            } else {\
                n * factorial(n - 1)\
            }\
         }\
         factorial(5)\
        "
        .as_bytes();

    let fn_input5 = "let addThree = fn(x) { return x + 3 };\
         let callTwoTimes = fn(x, f) { f(f(x)) }\
         callTwoTimes(3, addThree);\
        "
        .as_bytes();

    let fn_input6 = "let callTwoTimes = fn(x, f) { f(f(x)) }\
         callTwoTimes(3, fn(x) { x + 1 });\
        "
        .as_bytes();

    let fn_input7 = "let newAdder = fn(x) { fn(n) { x + n } };\
         let addTwo = newAdder(2);\
         addTwo(2);\
        "
        .as_bytes();

    compare(fn_input1, Object::Integer(10));
    compare(fn_input2, Object::Integer(6));
    compare(fn_input3, Object::Integer(10));
    compare(fn_input4, Object::Integer(120));
    compare(fn_input5, Object::Integer(9));
    compare(fn_input6, Object::Integer(5));
    compare(fn_input7, Object::Integer(4));
}

#[test]
fn test_array() {
    compare(
        "[1, 2, 3, 4]".as_bytes(),
        Object::Array(vec![
            Object::Integer(1),
            Object::Integer(2),
            Object::Integer(3),
            Object::Integer(4),
        ]),
    );

    compare(
        "let double = fn(x) { x * 2 };[1, double(2), 3 * 3, 4 - 3]".as_bytes(),
        Object::Array(vec![
            Object::Integer(1),
            Object::Integer(4),
            Object::Integer(9),
            Object::Integer(1),
        ]),
    );

    compare("[1, 2, 3][0]".as_bytes(), Object::Integer(1));
    compare("[1, 2, 3][1]".as_bytes(), Object::Integer(2));
    compare("[1, 2, 3][2]".as_bytes(), Object::Integer(3));
    compare("let i = 0; [1][i];".as_bytes(), Object::Integer(1));
    compare("[1, 2, 3][1 + 1];".as_bytes(), Object::Integer(3));
    compare(
        "let myArray = [1, 2, 3]; myArray[2];".as_bytes(),
        Object::Integer(3),
    );
    compare(
        "let myArray = [1, 2, 3]; myArray[0] + myArray[1] + myArray[2];".as_bytes(),
        Object::Integer(6),
    );
    compare(
        "let myArray = [1, 2, 3]; let i = myArray[0]; myArray[i];".as_bytes(),
        Object::Integer(2),
    );
    compare("[1, 2, 3][3]".as_bytes(), Object::NULL);
    compare("[1, 2, 3][-1]".as_bytes(), Object::NULL);
}

#[test]
fn test_hash() {
    let input_beg = "let double = fn(x) {
       x * 2;
     };
     let arr = [1, 2, 3, 4];
     let h = {
       \"one\": 10 - 9,
       \"two\": 8 / 4,
       3: arr[2],
       4: double(2),
       true: if (10 > 8) { true } else { false },
       false: \"hello\" == \"world\"
     };
    "
        .to_string();

    compare(
        (input_beg.clone() + "h[\"one\"]").as_bytes(),
        Object::Integer(1),
    );
    compare(
        (input_beg.clone() + "let s = \"two\"; h[s]").as_bytes(),
        Object::Integer(2),
    );
    compare(
        (input_beg.clone() + "h[3]").as_bytes(),
        Object::Integer(3),
    );
    compare(
        (input_beg.clone() + "h[2 + 2]").as_bytes(),
        Object::Integer(4),
    );
    compare(
        (input_beg.clone() + "h[true]").as_bytes(),
        Object::Boolean(true),
    );
    compare(
        (input_beg.clone() + "h[5 < 1]").as_bytes(),
        Object::Boolean(false),
    );
    compare(
        (input_beg.clone() + "h[100]").as_bytes(),
        Object::NULL,
    );
    compare(
        (input_beg.clone() + "h[[]]").as_bytes(),
        Object::Error("[] is not hashable".to_string()),
    );
    compare(
        (input_beg + "3[true];").as_bytes(),
        Object::Error("unexpected index target: 3".to_string()),
    );
}

#[test]
fn test_builtins() {
    // len
    compare("len(\"hello world!\")".as_bytes(), Object::Integer(12));
    compare("len(\"\")".as_bytes(), Object::Integer(0));
    compare(
        "len(\"Hey Bob, how ya doin?\")".as_bytes(),
        Object::Integer(21),
    );
    compare(
        "len(3)".as_bytes(),
        Object::Error("invalid arguments for len".to_string()),
    );
    compare(
        "len(\"hello\", \"world\")".as_bytes(),
        Object::Error("wrong number of arguments: 1 expected but 2 given".to_string()),
    );
    compare("len([])".as_bytes(), Object::Integer(0));
    compare("len([1, 2, 3, 4])".as_bytes(), Object::Integer(4));
    // head
    compare("head([1])".as_bytes(), Object::Integer(1));
    compare("head([1, 2, 3, 4])".as_bytes(), Object::Integer(1));
    compare(
        "head([])".as_bytes(),
        Object::Error("empty array".to_string()),
    );
    // tail
    compare("tail([1])".as_bytes(), Object::Array(vec![]));
    compare(
        "tail([1, 2, 3, 4])".as_bytes(),
        Object::Array(vec![
            Object::Integer(2),
            Object::Integer(3),
            Object::Integer(4),
        ]),
    );
    compare(
        "tail([])".as_bytes(),
        Object::Error("empty array".to_string()),
    );
    // cons
    compare(
        "cons(1, [])".as_bytes(),
        Object::Array(vec![Object::Integer(1)]),
    );
    compare(
        "cons(1, [2, 3, 4])".as_bytes(),
        Object::Array(vec![
            Object::Integer(1),
            Object::Integer(2),
            Object::Integer(3),
            Object::Integer(4),
        ]),
    );
    // map reduce
    let map_decl = "let map = fn(f, arr) {\
          if (len(arr) == 0) {\
            []\
          } else {\
            let h = head(arr);\
            cons(f(h), map(f, tail(arr)));\
          }\
        };\
        "
        .to_string();

    let reduce_decl = "let reduce = fn(f, init, arr) {\
            if (len(arr) == 0) {\
                init\
            } else {\
                let newInit = f(init, head(arr));\
                reduce(f, newInit, tail(arr));\
            }\
        };\
        "
        .to_string();

    compare(
        (map_decl + "let double = fn(x) { x * 2 }; map(double, [1, 2, 3, 4])").as_bytes(),
        Object::Array(vec![
            Object::Integer(2),
            Object::Integer(4),
            Object::Integer(6),
            Object::Integer(8),
        ]),
    );

    compare(
        (reduce_decl + "let add = fn(x, y) { x + y }; reduce(add, 0, [1, 2, 3, 4, 5])")
            .as_bytes(),
        Object::Integer(15),
    );
}
