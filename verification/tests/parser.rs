use monkey_parser::ast::{Expression, ParseError, Program, Statement};
use monkey_parser::grammar::{infix_precedence, Precedence};
use monkey_parser::lexer::{Lexer, LimiterToken, Token};
use monkey_parser::parser::Parser;

fn parse(text: &str) -> Program {
    let lexer = Lexer::from(String::from(text));
    let mut parser = Parser::new(lexer);
    parser.parse_program()
}

fn name(spelling: &str) -> Expression {
    Expression::Identifier(Token::Identifier(String::from(spelling)))
}

fn number(digits: &str) -> Expression {
    Expression::Literal(Token::Literal(String::from(digits)))
}

fn infix(left: Expression, operator: Token, right: Expression) -> Expression {
    Expression::Infix(Box::new(left), operator, Box::new(right))
}

fn prefix(operator: Token, operand: Expression) -> Expression {
    Expression::Prefix(operator, Box::new(operand))
}

fn call(function: Expression, arguments: Vec<Expression>) -> Expression {
    Expression::Call(Box::new(function), arguments)
}

fn function(parameters: &[&str], body: Vec<Statement>) -> Expression {
    Expression::Function(
        parameters.iter().map(|p| Token::Identifier(String::from(*p))).collect(),
        body,
    )
}

fn conditional(
    condition: Expression,
    consequence: Vec<Statement>,
    alternative: Option<Vec<Statement>>,
) -> Expression {
    Expression::If(Box::new(condition), consequence, alternative)
}

fn unexpected(expected: Token, found: Token) -> ParseError {
    ParseError::UnexpectedToken { expected, found }
}

fn lparen() -> Token {
    Token::Limiter(LimiterToken::LParen)
}

fn rparen() -> Token {
    Token::Limiter(LimiterToken::RParen)
}

fn lbrace() -> Token {
    Token::Limiter(LimiterToken::LBrace)
}

fn rbrace() -> Token {
    Token::Limiter(LimiterToken::RBrace)
}

#[test]
fn let_statement_test() {
    let input = "let five = 5;
    let ten = 10;
    let foobar = 8080;
    ";
    let lex = Lexer::from(String::from(input));
    let mut pars = Parser::new(lex);
    let prog = pars.parse_program();
    assert_eq!(prog.statements.len(), 3);

    let tests: [Statement; 3] = [
        Statement::Let(
            Expression::Identifier(Token::Identifier(String::from("five"))),
            Expression::Literal(Token::Literal(String::from("5"))),
        ),
        Statement::Let(
            Expression::Identifier(Token::Identifier(String::from("ten"))),
            Expression::Literal(Token::Literal(String::from("10"))),
        ),
        Statement::Let(
            Expression::Identifier(Token::Identifier(String::from("foobar"))),
            Expression::Literal(Token::Literal(String::from("8080"))),
        ),
    ];
    for (stmt, test_stmt) in prog.statements.into_iter().zip(tests.into_iter()) {
        assert_eq!(stmt, test_stmt);
    }
    assert_eq!(prog.diagnostics, vec![]);
}

#[test]
fn return_statement_test() {
    let input = "return 5;
    return 10;
    return 8080;
    ";
    let lex = Lexer::from(String::from(input));
    let mut pars = Parser::new(lex);
    let prog = pars.parse_program();
    assert_eq!(prog.statements.len(), 3);

    let tests: [Statement; 3] = [
        Statement::Return(Expression::Literal(Token::Literal(String::from("5")))),
        Statement::Return(Expression::Literal(Token::Literal(String::from("10")))),
        Statement::Return(Expression::Literal(Token::Literal(String::from("8080")))),
    ];
    for (stmt, test_stmt) in prog.statements.into_iter().zip(tests.into_iter()) {
        assert_eq!(stmt, test_stmt);
    }
    assert_eq!(prog.diagnostics, vec![]);
}

#[test]
fn identifier_expression_test() {
    let input = "foobar;";

    let lex = Lexer::from(String::from(input));
    let mut pars = Parser::new(lex);
    let prog = pars.parse_program();
    assert_eq!(prog.statements.len(), 1);

    let s = prog.statements[0].clone();
    assert!(match s {
        Statement::Expression(e) => {
            if let Expression::Identifier(Token::Identifier(s)) = e {
                assert_eq!(s, String::from("foobar"));
                true
            } else {
                false
            }
        }
        _ => false,
    });
    assert_eq!(prog.diagnostics, vec![]);
}

#[test]
fn new_program_is_empty() {
    let program = Program::new();
    assert_eq!(program.statements, vec![]);
    assert_eq!(program.diagnostics, vec![]);
}

#[test]
fn empty_and_blank_inputs_give_the_empty_program() {
    for text in ["", "   ", "\n\t\r\n"] {
        let program = parse(text);
        assert_eq!(program.statements, vec![]);
        assert_eq!(program.diagnostics, vec![]);
    }
}

#[test]
fn parsing_uses_up_the_tokens() {
    let mut parser = Parser::new(Lexer::from(String::from("let a = 1; b;")));
    let first = parser.parse_program();
    assert_eq!(first.statements.len(), 2);
    let second = parser.parse_program();
    assert_eq!(second.statements, vec![]);
    assert_eq!(second.diagnostics, vec![]);
}

#[test]
fn one_let_statement_binds_its_name_to_its_value() {
    let program = parse("let x = y;");
    assert_eq!(program.statements, vec![Statement::Let(name("x"), name("y"))]);
    assert_eq!(program.diagnostics, vec![]);
    let program = parse("let answer = 6 * 7;");
    assert_eq!(
        program.statements,
        vec![Statement::Let(name("answer"), infix(number("6"), Token::Asterisk, number("7")))]
    );
    assert_eq!(program.diagnostics, vec![]);
    let program = parse("let x=-(a+b)*true;");
    assert_eq!(
        program.statements,
        vec![Statement::Let(
            name("x"),
            infix(
                prefix(Token::Minus, infix(name("a"), Token::Plus, name("b"))),
                Token::Asterisk,
                Expression::Boolean(true),
            ),
        )]
    );
    assert_eq!(program.diagnostics, vec![]);
}

#[test]
fn one_return_statement_hands_back_its_value() {
    let program = parse("return y;");
    assert_eq!(program.statements, vec![Statement::Return(name("y"))]);
    assert_eq!(program.diagnostics, vec![]);
    let program = parse("return a + b;");
    assert_eq!(
        program.statements,
        vec![Statement::Return(infix(name("a"), Token::Plus, name("b")))]
    );
    assert_eq!(program.diagnostics, vec![]);
}

#[test]
fn value_that_is_no_expression() {
    let program = parse("return;");
    assert_eq!(program.statements, vec![]);
    assert_eq!(
        program.diagnostics,
        vec![ParseError::NoPrefixRule(Token::Limiter(LimiterToken::Semicolon))]
    );
    let program = parse("let f = else; g;");
    assert_eq!(program.statements, vec![Statement::Expression(name("g"))]);
    assert_eq!(program.diagnostics, vec![ParseError::NoPrefixRule(Token::Else)]);
    let program = parse("let x = ;");
    assert_eq!(program.statements, vec![]);
    assert_eq!(
        program.diagnostics,
        vec![ParseError::NoPrefixRule(Token::Limiter(LimiterToken::Semicolon))]
    );
    let program = parse("let x = (1 + 2; y;");
    assert_eq!(program.statements, vec![Statement::Expression(name("y"))]);
    assert_eq!(
        program.diagnostics,
        vec![ParseError::UnexpectedToken {
            expected: Token::Limiter(LimiterToken::RParen),
            found: Token::Limiter(LimiterToken::Semicolon),
        }]
    );
}

#[test]
fn value_that_no_semicolon_follows() {
    let program = parse("let x = a b; c;");
    assert_eq!(program.statements, vec![Statement::Expression(name("c"))]);
    assert_eq!(program.diagnostics, vec![ParseError::MissingSemicolon]);
    let program = parse("let result = five, ten; d");
    assert_eq!(program.statements, vec![Statement::Expression(name("d"))]);
    assert_eq!(program.diagnostics, vec![ParseError::MissingSemicolon]);
    let program = parse("return 1 return 2;");
    assert_eq!(program.statements, vec![Statement::Return(number("2"))]);
    assert_eq!(program.diagnostics, vec![ParseError::MissingSemicolon]);
}

#[test]
fn expression_statement_with_and_without_semicolon() {
    assert_eq!(parse("foobar;").statements, vec![Statement::Expression(name("foobar"))]);
    assert_eq!(parse("foobar").statements, vec![Statement::Expression(name("foobar"))]);
    assert_eq!(parse("foobar").diagnostics, vec![]);
    let program = parse("a b; c");
    assert_eq!(
        program.statements,
        vec![
            Statement::Expression(name("a")),
            Statement::Expression(name("b")),
            Statement::Expression(name("c")),
        ]
    );
    assert_eq!(program.diagnostics, vec![]);
}

#[test]
fn leaf_expressions() {
    assert_eq!(parse("42;").statements, vec![Statement::Expression(number("42"))]);
    assert_eq!(parse("true;").statements, vec![Statement::Expression(Expression::Boolean(true))]);
    assert_eq!(
        parse("false;").statements,
        vec![Statement::Expression(Expression::Boolean(false))]
    );
}

#[test]
fn product_binds_tighter_than_sum() {
    let program = parse("a + b * c");
    assert_eq!(
        program.statements,
        vec![Statement::Expression(infix(
            name("a"),
            Token::Plus,
            infix(name("b"), Token::Asterisk, name("c")),
        ))]
    );
    assert_eq!(program.diagnostics, vec![]);
    let program = parse("a * b + c;");
    assert_eq!(
        program.statements,
        vec![Statement::Expression(infix(
            infix(name("a"), Token::Asterisk, name("b")),
            Token::Plus,
            name("c"),
        ))]
    );
}

#[test]
fn equal_precedence_associates_to_the_left() {
    let program = parse("a + b + c");
    assert_eq!(
        program.statements,
        vec![Statement::Expression(infix(
            infix(name("a"), Token::Plus, name("b")),
            Token::Plus,
            name("c"),
        ))]
    );
    assert_eq!(program.diagnostics, vec![]);
    let program = parse("a - b + c / d * e;");
    assert_eq!(
        program.statements,
        vec![Statement::Expression(infix(
            infix(name("a"), Token::Minus, name("b")),
            Token::Plus,
            infix(infix(name("c"), Token::Slash, name("d")), Token::Asterisk, name("e")),
        ))]
    );
}

#[test]
fn the_whole_ladder() {
    let program = parse("a == b < c + d * -e;");
    assert_eq!(
        program.statements,
        vec![Statement::Expression(infix(
            name("a"),
            Token::EQ,
            infix(
                name("b"),
                Token::LT,
                infix(
                    name("c"),
                    Token::Plus,
                    infix(name("d"), Token::Asterisk, prefix(Token::Minus, name("e"))),
                ),
            ),
        ))]
    );
    let program = parse("5 < 10 > 5 != true;");
    assert_eq!(
        program.statements,
        vec![Statement::Expression(infix(
            infix(infix(number("5"), Token::LT, number("10")), Token::GT, number("5")),
            Token::NotEq,
            Expression::Boolean(true),
        ))]
    );
}

#[test]
fn prefix_operators() {
    assert_eq!(
        parse("-a;").statements,
        vec![Statement::Expression(prefix(Token::Minus, name("a")))]
    );
    assert_eq!(
        parse("!true").statements,
        vec![Statement::Expression(prefix(Token::Bang, Expression::Boolean(true)))]
    );
    assert_eq!(
        parse("!-a").statements,
        vec![Statement::Expression(prefix(Token::Bang, prefix(Token::Minus, name("a"))))]
    );
    assert_eq!(
        parse("-a * b").statements,
        vec![Statement::Expression(infix(
            prefix(Token::Minus, name("a")),
            Token::Asterisk,
            name("b"),
        ))]
    );
    assert_eq!(
        parse("a - -b").statements,
        vec![Statement::Expression(infix(
            name("a"),
            Token::Minus,
            prefix(Token::Minus, name("b")),
        ))]
    );
}

#[test]
fn parentheses_group() {
    let program = parse("(a + b) * c;");
    assert_eq!(
        program.statements,
        vec![Statement::Expression(infix(
            infix(name("a"), Token::Plus, name("b")),
            Token::Asterisk,
            name("c"),
        ))]
    );
    assert_eq!(program.diagnostics, vec![]);
    assert_eq!(parse("((a))").statements, vec![Statement::Expression(name("a"))]);
    assert_eq!(
        parse("-(a + b)").statements,
        vec![Statement::Expression(prefix(
            Token::Minus,
            infix(name("a"), Token::Plus, name("b")),
        ))]
    );
}

#[test]
fn let_without_a_name() {
    let program = parse("let 5 = 3;");
    assert_eq!(program.statements, vec![]);
    assert_eq!(
        program.diagnostics,
        vec![ParseError::ExpectedIdentifier(Token::Literal(String::from("5")))]
    );
    let program = parse("let");
    assert_eq!(program.statements, vec![]);
    assert_eq!(program.diagnostics, vec![ParseError::ExpectedIdentifier(Token::Eof)]);
    let program = parse("let let = 1;");
    assert_eq!(program.diagnostics.len(), 2);
    assert_eq!(program.diagnostics[0], ParseError::ExpectedIdentifier(Token::Let));
    assert_eq!(program.diagnostics[1], ParseError::ExpectedIdentifier(Token::Assign));
}

#[test]
fn let_without_the_assignment_sign() {
    let program = parse("let x 5;");
    assert_eq!(program.statements, vec![]);
    assert_eq!(
        program.diagnostics,
        vec![ParseError::UnexpectedToken {
            expected: Token::Assign,
            found: Token::Literal(String::from("5")),
        }]
    );
    let program = parse("let x == 5;");
    assert_eq!(
        program.diagnostics,
        vec![ParseError::UnexpectedToken { expected: Token::Assign, found: Token::EQ }]
    );
    let program = parse("let x");
    assert_eq!(
        program.diagnostics,
        vec![ParseError::UnexpectedToken { expected: Token::Assign, found: Token::Eof }]
    );
}

#[test]
fn statement_without_its_semicolon() {
    let program = parse("let x = 5");
    assert_eq!(program.statements, vec![]);
    assert_eq!(program.diagnostics, vec![ParseError::MissingSemicolon]);
    let program = parse("return 5");
    assert_eq!(program.statements, vec![]);
    assert_eq!(program.diagnostics, vec![ParseError::MissingSemicolon]);
    let program = parse("let a = 1; return b");
    assert_eq!(program.statements, vec![Statement::Let(name("a"), number("1"))]);
    assert_eq!(program.diagnostics, vec![ParseError::MissingSemicolon]);
    let program = parse("let a = 1; return");
    assert_eq!(program.statements, vec![Statement::Let(name("a"), number("1"))]);
    assert_eq!(program.diagnostics, vec![ParseError::NoPrefixRule(Token::Eof)]);
}

#[test]
fn token_that_starts_no_expression() {
    let program = parse("}");
    assert_eq!(program.statements, vec![]);
    assert_eq!(
        program.diagnostics,
        vec![ParseError::NoPrefixRule(Token::Limiter(LimiterToken::RBrace))]
    );
    let program = parse("a + ;");
    assert_eq!(program.statements, vec![]);
    assert_eq!(
        program.diagnostics,
        vec![ParseError::NoPrefixRule(Token::Limiter(LimiterToken::Semicolon))]
    );
    let program = parse("-");
    assert_eq!(program.diagnostics, vec![ParseError::NoPrefixRule(Token::Eof)]);
    let program = parse("@;");
    assert_eq!(program.diagnostics, vec![ParseError::NoPrefixRule(Token::Illegal)]);
    let program = parse(";");
    assert_eq!(
        program.diagnostics,
        vec![ParseError::NoPrefixRule(Token::Limiter(LimiterToken::Semicolon))]
    );
}

#[test]
fn parenthesis_that_is_not_closed() {
    let program = parse("(a + b;");
    assert_eq!(program.statements, vec![]);
    assert_eq!(
        program.diagnostics,
        vec![ParseError::UnexpectedToken {
            expected: Token::Limiter(LimiterToken::RParen),
            found: Token::Limiter(LimiterToken::Semicolon),
        }]
    );
    let program = parse("(a");
    assert_eq!(
        program.diagnostics,
        vec![ParseError::UnexpectedToken {
            expected: Token::Limiter(LimiterToken::RParen),
            found: Token::Eof,
        }]
    );
}

#[test]
fn parsing_goes_on_after_a_bad_statement() {
    let program = parse("let = 5; let y = 1; return 2;");
    assert_eq!(
        program.statements,
        vec![Statement::Let(name("y"), number("1")), Statement::Return(number("2"))]
    );
    assert_eq!(program.diagnostics, vec![ParseError::ExpectedIdentifier(Token::Assign)]);

    let program = parse("let x 5 let y = 1; a");
    assert_eq!(
        program.statements,
        vec![Statement::Let(name("y"), number("1")), Statement::Expression(name("a"))]
    );
    assert_eq!(
        program.diagnostics,
        vec![ParseError::UnexpectedToken {
            expected: Token::Assign,
            found: Token::Literal(String::from("5")),
        }]
    );

    let program = parse("} b c; d; * e return 1;");
    assert_eq!(
        program.statements,
        vec![Statement::Expression(name("d")), Statement::Return(number("1"))]
    );
    assert_eq!(
        program.diagnostics,
        vec![
            ParseError::NoPrefixRule(Token::Limiter(LimiterToken::RBrace)),
            ParseError::NoPrefixRule(Token::Asterisk),
        ]
    );
}

#[test]
fn precedence_ladder() {
    let ladder = [
        Precedence::Lowest,
        Precedence::Equals,
        Precedence::LessGreater,
        Precedence::Sum,
        Precedence::Product,
        Precedence::Prefix,
        Precedence::Call,
    ];
    for i in 0..ladder.len() {
        assert_eq!(ladder[i].rank() as usize, i);
    }
    assert_eq!(infix_precedence(&Token::EQ), Precedence::Equals);
    assert_eq!(infix_precedence(&Token::NotEq), Precedence::Equals);
    assert_eq!(infix_precedence(&Token::LT), Precedence::LessGreater);
    assert_eq!(infix_precedence(&Token::GT), Precedence::LessGreater);
    assert_eq!(infix_precedence(&Token::Plus), Precedence::Sum);
    assert_eq!(infix_precedence(&Token::Minus), Precedence::Sum);
    assert_eq!(infix_precedence(&Token::Asterisk), Precedence::Product);
    assert_eq!(infix_precedence(&Token::Slash), Precedence::Product);
    assert_eq!(infix_precedence(&Token::Limiter(LimiterToken::LParen)), Precedence::Call);
    assert_eq!(infix_precedence(&Token::Limiter(LimiterToken::RParen)), Precedence::Lowest);
    assert_eq!(infix_precedence(&Token::Bang), Precedence::Lowest);
    assert_eq!(infix_precedence(&Token::Assign), Precedence::Lowest);
    assert_eq!(infix_precedence(&Token::Eof), Precedence::Lowest);
    assert_eq!(
        infix_precedence(&Token::Identifier(String::from("a"))),
        Precedence::Lowest
    );
}

#[test]
fn calls() {
    let program = parse("add(five, ten);");
    assert_eq!(
        program.statements,
        vec![Statement::Expression(call(name("add"), vec![name("five"), name("ten")]))]
    );
    assert_eq!(program.diagnostics, vec![]);
    assert_eq!(parse("f()").statements, vec![Statement::Expression(call(name("f"), vec![]))]);
    assert_eq!(
        parse("f(a + b, -c, g(d));").statements,
        vec![Statement::Expression(call(
            name("f"),
            vec![
                infix(name("a"), Token::Plus, name("b")),
                prefix(Token::Minus, name("c")),
                call(name("g"), vec![name("d")]),
            ],
        ))]
    );
    assert_eq!(
        parse("f(a)(b)").statements,
        vec![Statement::Expression(call(call(name("f"), vec![name("a")]), vec![name("b")]))]
    );
}

#[test]
fn a_call_binds_more_strongly_than_any_operator() {
    assert_eq!(
        parse("a + f(b) * c").statements,
        vec![Statement::Expression(infix(
            name("a"),
            Token::Plus,
            infix(call(name("f"), vec![name("b")]), Token::Asterisk, name("c")),
        ))]
    );
    assert_eq!(
        parse("-f(x)").statements,
        vec![Statement::Expression(prefix(Token::Minus, call(name("f"), vec![name("x")])))]
    );
    assert_eq!(
        parse("a * b(c)").statements,
        vec![Statement::Expression(infix(
            name("a"),
            Token::Asterisk,
            call(name("b"), vec![name("c")]),
        ))]
    );
}

#[test]
fn statements_whose_value_is_a_call() {
    let program = parse("let x = f(y);");
    assert_eq!(
        program.statements,
        vec![Statement::Let(name("x"), call(name("f"), vec![name("y")]))]
    );
    assert_eq!(program.diagnostics, vec![]);
    let program = parse("return f(y);");
    assert_eq!(program.statements, vec![Statement::Return(call(name("f"), vec![name("y")]))]);
    assert_eq!(program.diagnostics, vec![]);
    let program = parse("let result = add(five, ten); d");
    assert_eq!(
        program.statements,
        vec![
            Statement::Let(name("result"), call(name("add"), vec![name("five"), name("ten")])),
            Statement::Expression(name("d")),
        ]
    );
    assert_eq!(program.diagnostics, vec![]);
}

#[test]
fn function_literals() {
    let program = parse("fn(x, y) { x + y; }");
    assert_eq!(
        program.statements,
        vec![Statement::Expression(function(
            &["x", "y"],
            vec![Statement::Expression(infix(name("x"), Token::Plus, name("y")))],
        ))]
    );
    assert_eq!(program.diagnostics, vec![]);
    assert_eq!(
        parse("fn() {}").statements,
        vec![Statement::Expression(function(&[], vec![]))]
    );
    assert_eq!(
        parse("fn(x) { x }(1);").statements,
        vec![Statement::Expression(call(
            function(&["x"], vec![Statement::Expression(name("x"))]),
            vec![number("1")],
        ))]
    );
    let program = parse("let f = fn(a, b) { let c = a; return c * b; }; g;");
    assert_eq!(
        program.statements,
        vec![
            Statement::Let(
                name("f"),
                function(
                    &["a", "b"],
                    vec![
                        Statement::Let(name("c"), name("a")),
                        Statement::Return(infix(name("c"), Token::Asterisk, name("b"))),
                    ],
                ),
            ),
            Statement::Expression(name("g")),
        ]
    );
    assert_eq!(program.diagnostics, vec![]);
    let program = parse("return fn(a) { a };");
    assert_eq!(
        program.statements,
        vec![Statement::Return(function(&["a"], vec![Statement::Expression(name("a"))]))]
    );
    assert_eq!(program.diagnostics, vec![]);
}

#[test]
fn conditionals() {
    let program = parse("if (x < y) { x }");
    assert_eq!(
        program.statements,
        vec![Statement::Expression(conditional(
            infix(name("x"), Token::LT, name("y")),
            vec![Statement::Expression(name("x"))],
            None,
        ))]
    );
    assert_eq!(program.diagnostics, vec![]);
    let program = parse("if (x) { return a; } else { return b; }");
    assert_eq!(
        program.statements,
        vec![Statement::Expression(conditional(
            name("x"),
            vec![Statement::Return(name("a"))],
            Some(vec![Statement::Return(name("b"))]),
        ))]
    );
    assert_eq!(program.diagnostics, vec![]);
    let program = parse("let m = if (a) { b } else { if (c) { d } };");
    assert_eq!(
        program.statements,
        vec![Statement::Let(
            name("m"),
            conditional(
                name("a"),
                vec![Statement::Expression(name("b"))],
                Some(vec![Statement::Expression(conditional(
                    name("c"),
                    vec![Statement::Expression(name("d"))],
                    None,
                ))]),
            ),
        )]
    );
    assert_eq!(program.diagnostics, vec![]);
    assert_eq!(
        parse("if (a) {} else {}").statements,
        vec![Statement::Expression(conditional(name("a"), vec![], Some(vec![])))]
    );
}

#[test]
fn a_whole_program() {
    let program = parse(
        "let five = 5;
    let ten = 10;
    let add = fn(x, y) {
        x + y;
    };
    let result = add(five, ten);
    !-/*5;
    5 < 10 > 5;
    if (5 < 10) {
        return true;
    } else {
        return false;
    }

    10 == 10;
    10 != 9;
    ",
    );
    assert_eq!(
        program.statements,
        vec![
            Statement::Let(name("five"), number("5")),
            Statement::Let(name("ten"), number("10")),
            Statement::Let(
                name("add"),
                function(
                    &["x", "y"],
                    vec![Statement::Expression(infix(name("x"), Token::Plus, name("y")))],
                ),
            ),
            Statement::Let(name("result"), call(name("add"), vec![name("five"), name("ten")])),
            Statement::Expression(infix(
                infix(number("5"), Token::LT, number("10")),
                Token::GT,
                number("5"),
            )),
            Statement::Expression(conditional(
                infix(number("5"), Token::LT, number("10")),
                vec![Statement::Return(Expression::Boolean(true))],
                Some(vec![Statement::Return(Expression::Boolean(false))]),
            )),
            Statement::Expression(infix(number("10"), Token::EQ, number("10"))),
            Statement::Expression(infix(number("10"), Token::NotEq, number("9"))),
        ]
    );
    assert_eq!(program.diagnostics, vec![ParseError::NoPrefixRule(Token::Slash)]);
}

#[test]
fn call_that_is_not_well_formed() {
    assert_eq!(parse("f(a, b").diagnostics, vec![unexpected(rparen(), Token::Eof)]);
    assert_eq!(parse("f(a, b").statements, vec![]);
    assert_eq!(parse("f(a b)").diagnostics, vec![unexpected(rparen(), Token::Identifier(String::from("b")))]);
    assert_eq!(
        parse("f(,a)").diagnostics,
        vec![ParseError::NoPrefixRule(Token::Limiter(LimiterToken::Comma))]
    );
    assert_eq!(parse("f(a,)").diagnostics, vec![ParseError::NoPrefixRule(rparen())]);
    assert_eq!(parse("f(").diagnostics, vec![ParseError::NoPrefixRule(Token::Eof)]);
}

#[test]
fn conditional_that_is_not_well_formed() {
    assert_eq!(
        parse("if x { y }").diagnostics,
        vec![unexpected(lparen(), Token::Identifier(String::from("x")))]
    );
    assert_eq!(parse("if (x { y }").diagnostics, vec![unexpected(rparen(), lbrace())]);
    assert_eq!(
        parse("if (x) y").diagnostics,
        vec![unexpected(lbrace(), Token::Identifier(String::from("y")))]
    );
    assert_eq!(parse("if (x) { y").diagnostics, vec![unexpected(rbrace(), Token::Eof)]);
    assert_eq!(
        parse("if (x) { y } else z").diagnostics,
        vec![unexpected(lbrace(), Token::Identifier(String::from("z")))]
    );
    assert_eq!(parse("if (x) { return a }").diagnostics, vec![ParseError::MissingSemicolon]);
    assert_eq!(parse("if (x) { return a }").statements, vec![]);
    assert_eq!(parse("if").diagnostics, vec![unexpected(lparen(), Token::Eof)]);
}

#[test]
fn function_literal_that_is_not_well_formed() {
    assert_eq!(
        parse("fn x").diagnostics,
        vec![unexpected(lparen(), Token::Identifier(String::from("x")))]
    );
    assert_eq!(
        parse("fn(1) {}").diagnostics,
        vec![ParseError::ExpectedIdentifier(Token::Literal(String::from("1")))]
    );
    assert_eq!(
        parse("fn(a b) {}").diagnostics,
        vec![unexpected(rparen(), Token::Identifier(String::from("b")))]
    );
    assert_eq!(parse("fn(a,) {}").diagnostics, vec![ParseError::ExpectedIdentifier(rparen())]);
    assert_eq!(parse("fn(a)").diagnostics, vec![unexpected(lbrace(), Token::Eof)]);
    assert_eq!(parse("fn(a) { let }").diagnostics, vec![ParseError::ExpectedIdentifier(rbrace())]);
    assert_eq!(parse("fn(a) { b").diagnostics, vec![unexpected(rbrace(), Token::Eof)]);
}

#[test]
fn clones_are_equal() {
    let program = parse("let f = fn(a) { if (a) { g(a, 1) } else { -a } };");
    assert_eq!(program.statements.len(), 1);
    assert_eq!(program.diagnostics, vec![]);
    let copy = program.statements[0].clone();
    assert_eq!(copy, program.statements[0]);
}
