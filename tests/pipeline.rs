use minicalc::interpret::divide;
use minicalc::TokenType::{
    Equal, Identifier, LeftParen, Minus, NewLine, NumberLiteral, Plus, RightParen, Slash, Star,
};
use minicalc::parser::{
    expect, parse_assignment, require, parse_expr, parse_factor, parse_primary, parse_term, parse_variable,
};
use minicalc::{
    interpret, is_valid_identifier_char, parse, tokenize, Env, EvalError, Expr, LexError,
    ParseError, Token, TokenType,
};

#[derive(Debug, PartialEq)]
enum Failure {
    Lex(LexError),
    Parse(ParseError),
    Eval(EvalError),
}

struct Outcome {
    result: Result<Option<i32>, Failure>,
    output: Vec<i32>,
    env: Env,
}

fn run(src: &str) -> Outcome {
    let mut env = Env::new();
    let mut output = Vec::new();
    let result = match tokenize(src) {
        Err(e) => Err(Failure::Lex(e)),
        Ok(tokens) => match parse(tokens) {
            Err(e) => Err(Failure::Parse(e)),
            Ok(exprs) => interpret(&exprs, &mut env, &mut output).map_err(Failure::Eval),
        },
    };
    Outcome { result, output, env }
}

fn tok(token_type: TokenType, lexeme: &str) -> Token {
    Token { token_type, lexeme: lexeme.to_string() }
}

fn kinds(src: &str) -> Vec<TokenType> {
    tokenize(src).unwrap().iter().map(|t| t.token_type).collect()
}

#[test]
fn round_trip_program() {
    let src = "a_number = (123 - 3)/40 -2\nx = a_number + 4\nprint(a_number)\nprint(x)\ny = x *2\nprint(y)\n";
    let tokens = tokenize(src).unwrap();
    let got: Vec<TokenType> = tokens.iter().map(|t| t.token_type).collect();
    let expected = vec![
        Identifier, Equal, LeftParen, NumberLiteral, Minus, NumberLiteral, RightParen, Slash,
        NumberLiteral, Minus, NumberLiteral, NewLine, Identifier, Equal, Identifier, Plus,
        NumberLiteral, NewLine, Identifier, LeftParen, Identifier, RightParen, NewLine,
        Identifier, LeftParen, Identifier, RightParen, NewLine, Identifier, Equal, Identifier,
        Star, NumberLiteral, NewLine, Identifier, LeftParen, Identifier, RightParen, NewLine,
    ];
    assert_eq!(got, expected);
    assert_eq!(tokens[0].lexeme, "a_number");
    assert_eq!(tokens[3].lexeme, "123");
    let exprs = parse(tokens).unwrap();
    assert_eq!(exprs.len(), 6);
    let mut env = Env::new();
    let mut output = Vec::new();
    assert_eq!(interpret(&exprs, &mut env, &mut output), Ok(Some(10)));
    assert_eq!(output, vec![1, 5, 10]);
}

#[test]
fn indented_source_as_in_the_demo() {
    let src = "a_number = (123 - 3)/40 -2
        x = a_number + 4
        print(a_number)
        print(x)
        y = x *2
        print(y)
        ";
    let out = run(src);
    assert_eq!(out.result, Ok(Some(10)));
    assert_eq!(out.output, vec![1, 5, 10]);
}

#[test]
fn multiplication_binds_tighter() {
    assert_eq!(run("2 + 3 * 4\n").result, Ok(Some(14)));
    assert_eq!(run("(2 + 3) * 4\n").result, Ok(Some(20)));
}

#[test]
fn subtraction_is_left_associative() {
    assert_eq!(run("10 - 3 - 2\n").result, Ok(Some(5)));
    assert_eq!(run("100 / 10 / 5\n").result, Ok(Some(2)));
}

#[test]
fn chained_assignment_binds_both() {
    let out = run("a = b = 5\nprint(a)\nprint(b)\n");
    assert_eq!(out.result, Ok(Some(5)));
    assert_eq!(out.output, vec![5, 5]);
    assert_eq!(out.env.get(&"a".to_string()), Some(5));
    assert_eq!(out.env.get(&"b".to_string()), Some(5));
}

#[test]
fn print_of_assignment() {
    let out = run("print(x = 7)\n");
    assert_eq!(out.result, Ok(Some(7)));
    assert_eq!(out.output, vec![7]);
    assert_eq!(out.env.get(&"x".to_string()), Some(7));
}

#[test]
fn undefined_variable_fails() {
    let out = run("z\n");
    assert_eq!(out.result, Err(Failure::Eval(EvalError::UndefinedVariable("z".to_string()))));
    assert!(out.output.is_empty());
}

#[test]
fn division_by_zero_fails() {
    assert_eq!(run("5 / 0\n").result, Err(Failure::Eval(EvalError::DivisionByZero)));
    let tokens = vec![
        tok(TokenType::NumberLiteral, "5"),
        tok(TokenType::Slash, "/"),
        tok(TokenType::NumberLiteral, "0"),
    ];
    let exprs = parse(tokens).unwrap();
    let mut env = Env::new();
    let mut output = Vec::new();
    assert_eq!(interpret(&exprs, &mut env, &mut output), Err(EvalError::DivisionByZero));
}

#[test]
fn digit_followed_by_operator_is_a_lexical_error() {
    assert_eq!(run("5/0\n").result, Err(Failure::Lex(LexError::InvalidCharacter('/'))));
}

#[test]
fn unknown_function_fails() {
    assert_eq!(run("foo(1)\n").result, Err(Failure::Eval(EvalError::UndefinedFunction("foo".to_string()))));
    let out = run("foo(z)\n");
    assert_eq!(out.result, Err(Failure::Eval(EvalError::UndefinedFunction("foo".to_string()))));
    assert_eq!(run("Print(1)\n").result, Err(Failure::Eval(EvalError::UndefinedFunction("Print".to_string()))));
}

#[test]
fn malformed_number_fails_in_lexer() {
    assert!(matches!(tokenize("12a\n"), Err(LexError::InvalidCharacter('a'))));
    assert_eq!(run("x = 12a\n").result, Err(Failure::Lex(LexError::InvalidCharacter('a'))));
}

#[test]
fn single_operations() {
    assert_eq!(run("7 + 2\n").result, Ok(Some(9)));
    assert_eq!(run("7 - 9\n").result, Ok(Some(-2)));
    assert_eq!(run("7 * 6\n").result, Ok(Some(42)));
    assert_eq!(run("7 / 2\n").result, Ok(Some(3)));
    assert_eq!(run("(0 - 7) / 2\n").result, Ok(Some(-3)));
    assert_eq!(run("7 / (0 - 2)\n").result, Ok(Some(-3)));
    assert_eq!(run("(0 - 7) / (0 - 2)\n").result, Ok(Some(3)));
}

#[test]
fn divide_rounds_toward_zero() {
    assert_eq!(divide(-7, 2), Ok(-3));
    assert_eq!(divide(7, -2), Ok(-3));
    assert_eq!(divide(9, 3), Ok(3));
    assert_eq!(divide(1, 0), Err(EvalError::DivisionByZero));
    assert_eq!(divide(i32::MIN, -1), Err(EvalError::Overflow));
}

#[test]
fn arithmetic_overflow_is_an_error() {
    assert_eq!(run("2147483647 + 1\n").result, Err(Failure::Eval(EvalError::Overflow)));
    assert_eq!(run("65536 * 65536\n").result, Err(Failure::Eval(EvalError::Overflow)));
    assert_eq!(run("0 - 2147483647 - 2\n").result, Err(Failure::Eval(EvalError::Overflow)));
}

#[test]
fn number_literal_range() {
    assert_eq!(run("2147483647\n").result, Ok(Some(2147483647)));
    assert_eq!(run("2147483648\n").result, Err(Failure::Parse(ParseError::InvalidNumber)));
    assert_eq!(run("007\n").result, Ok(Some(7)));
}

#[test]
fn empty_source() {
    assert!(tokenize("").unwrap().is_empty());
    let out = run("");
    assert_eq!(out.result, Ok(None));
    assert!(out.output.is_empty());
    assert_eq!(run("   \n").result, Err(Failure::Parse(ParseError::UnexpectedToken(TokenType::NewLine))));
}

#[test]
fn last_newline_may_be_missing() {
    assert_eq!(run("1 + 2").result, Ok(Some(3)));
}

#[test]
fn statement_must_end_with_newline() {
    assert_eq!(
        run("1 2\n").result,
        Err(Failure::Parse(ParseError::Expected {
            expected: TokenType::NewLine,
            found: TokenType::NumberLiteral,
        }))
    );
    assert_eq!(
        run("2 *").result,
        Err(Failure::Parse(ParseError::Expected {
            expected: TokenType::NewLine,
            found: TokenType::Star,
        }))
    );
}

#[test]
fn missing_right_paren() {
    assert_eq!(
        run("(1 + 2\n").result,
        Err(Failure::Parse(ParseError::Expected {
            expected: TokenType::RightParen,
            found: TokenType::NewLine,
        }))
    );
}

#[test]
fn unexpected_token_and_end() {
    assert_eq!(run("+ 1\n").result, Err(Failure::Parse(ParseError::UnexpectedToken(TokenType::Plus))));
    assert_eq!(run("1 +").result, Err(Failure::Parse(ParseError::UnexpectedEnd)));
}

#[test]
fn assignment_target_must_be_identifier() {
    assert_eq!(
        run("1 = 2\n").result,
        Err(Failure::Parse(ParseError::Expected {
            expected: TokenType::Identifier,
            found: TokenType::NumberLiteral,
        }))
    );
}

#[test]
fn reassignment_overwrites() {
    let out = run("x = 1\nx = x + 1\nprint(x)\n");
    assert_eq!(out.output, vec![2]);
    assert_eq!(out.env.get(&"x".to_string()), Some(2));
}

#[test]
fn output_before_an_error_stays() {
    let out = run("print(1)\nz\nprint(2)\n");
    assert_eq!(out.result, Err(Failure::Eval(EvalError::UndefinedVariable("z".to_string()))));
    assert_eq!(out.output, vec![1]);
}

#[test]
fn operands_evaluate_left_to_right() {
    let out = run("print(1) + print(2)\n");
    assert_eq!(out.result, Ok(Some(3)));
    assert_eq!(out.output, vec![1, 2]);
}

#[test]
fn number_terminators_are_kept() {
    assert_eq!(kinds("(12)\n"), vec![LeftParen, NumberLiteral, RightParen, NewLine]);
    assert_eq!(kinds("12 3"), vec![NumberLiteral, NumberLiteral]);
    let tokens = tokenize("(12)\n").unwrap();
    assert_eq!(tokens[1].lexeme, "12");
    assert_eq!(tokens[2].lexeme, ")");
}

#[test]
fn identifiers_take_letters_digits_underscores() {
    let tokens = tokenize("a_1+b2").unwrap();
    assert_eq!(tokens.len(), 3);
    assert_eq!(tokens[0].lexeme, "a_1");
    assert_eq!(tokens[1].token_type, Plus);
    assert_eq!(tokens[2].lexeme, "b2");
    let tokens = tokenize("été").unwrap();
    assert_eq!(tokens.len(), 1);
    assert_eq!(tokens[0].lexeme, "été");
}

#[test]
fn identifier_char_class() {
    assert!(is_valid_identifier_char('a'));
    assert!(is_valid_identifier_char('Z'));
    assert!(is_valid_identifier_char('7'));
    assert!(is_valid_identifier_char('_'));
    assert!(is_valid_identifier_char('é'));
    assert!(!is_valid_identifier_char('+'));
    assert!(!is_valid_identifier_char(' '));
}

#[test]
fn parser_pieces() {
    let tokens = tokenize("x = 1 + 2 * 3\n").unwrap();
    let mut pos: usize = 0;
    let e = parse_expr(&tokens, &mut pos).unwrap();
    assert_eq!(pos, 7);
    assert!(matches!(e, Expr::Assignment(_)));

    let mut pos: usize = 0;
    let v = parse_variable(&tokens, &mut pos).unwrap();
    assert_eq!(v.name.lexeme, "x");
    assert_eq!(pos, 1);

    let mut pos: usize = 0;
    assert!(matches!(parse_assignment(&tokens, &mut pos), Ok(Expr::Assignment(_))));

    let mut pos: usize = 2;
    assert!(matches!(parse_term(&tokens, &mut pos), Ok(Expr::BinaryOperation(_))));
    assert_eq!(pos, 7);

    let mut pos: usize = 4;
    assert!(matches!(parse_factor(&tokens, &mut pos), Ok(Expr::BinaryOperation(_))));
    assert_eq!(pos, 7);

    let mut pos: usize = 2;
    match parse_primary(&tokens, &mut pos) {
        Ok(Expr::Number(n)) => assert_eq!(n.value, 1),
        _ => panic!("expected a number"),
    }
    assert_eq!(pos, 3);

    let mut pos: usize = 7;
    assert_eq!(expect(TokenType::NewLine, &tokens, &mut pos), Ok(()));
    assert_eq!(pos, 8);
    assert_eq!(expect(TokenType::NewLine, &tokens, &mut pos), Ok(()));
    assert_eq!(pos, 8);
    let mut pos: usize = 0;
    assert_eq!(
        expect(TokenType::NewLine, &tokens, &mut pos),
        Err(ParseError::Expected { expected: TokenType::NewLine, found: TokenType::Identifier })
    );
}

#[test]
fn env_bindings() {
    let mut env = Env::new();
    assert_eq!(env.get(&"a".to_string()), None);
    env.insert("a".to_string(), 3);
    env.insert("b".to_string(), 4);
    env.insert("a".to_string(), 5);
    assert_eq!(env.get(&"a".to_string()), Some(5));
    assert_eq!(env.get(&"b".to_string()), Some(4));
}

#[test]
fn unclosed_paren_at_end_of_input() {
    assert_eq!(run("(1 + 2").result, Err(Failure::Parse(ParseError::UnexpectedEnd)));
    assert_eq!(run("(2 + 3").result, Err(Failure::Parse(ParseError::UnexpectedEnd)));
    let out = run("print(1");
    assert_eq!(out.result, Err(Failure::Parse(ParseError::UnexpectedEnd)));
    assert!(out.output.is_empty());
    assert_eq!(run("(1 + 2)").result, Ok(Some(3)));
}

#[test]
fn require_needs_the_token() {
    let tokens = tokenize("(1)").unwrap();
    let mut pos: usize = 2;
    assert_eq!(require(TokenType::RightParen, &tokens, &mut pos), Ok(()));
    assert_eq!(pos, 3);
    assert_eq!(require(TokenType::RightParen, &tokens, &mut pos), Err(ParseError::UnexpectedEnd));
    assert_eq!(pos, 3);
    let mut pos: usize = 1;
    assert_eq!(
        require(TokenType::RightParen, &tokens, &mut pos),
        Err(ParseError::Expected { expected: TokenType::RightParen, found: TokenType::NumberLiteral })
    );
}

#[test]
fn parse_variable_at_end_or_on_other_kind() {
    let tokens = tokenize("x 1").unwrap();
    assert_eq!(tokens.len(), 2);
    let mut pos: usize = 1;
    assert!(matches!(
        parse_variable(&tokens, &mut pos),
        Err(ParseError::Expected { expected: TokenType::Identifier, found: TokenType::NumberLiteral })
    ));
    let mut pos: usize = 2;
    assert!(matches!(parse_variable(&tokens, &mut pos), Err(ParseError::UnexpectedEnd)));
    assert_eq!(pos, 2);
}
