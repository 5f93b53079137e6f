use frontend::ast::{Expression, Identifier, Literal, Statement};
use frontend::lexer::Lexer;
use frontend::parser::{ParseError, Parser};
use frontend::token::Token;

fn lit(v: &str) -> Box<Expression> {
    Box::new(Expression::Literal(Literal { value: v.to_string() }))
}

fn ident(n: &str) -> Box<Expression> {
    Box::new(Expression::Identifier(Identifier { name: n.to_string() }))
}

fn parse(input: &str) -> (Vec<Statement>, Vec<ParseError>, Vec<String>) {
    let mut p = Parser::new(Lexer::new(input.to_string()));
    let program = p.parse_program().unwrap();
    let messages = p.messages();
    (program.statements, p.errors().clone(), messages)
}

#[test]
fn test_let_statements() {
    let input = String::from("
            let x = 5;
            let y = 10;
            let foobar = 838383;
        ");

    let l = Lexer::new(input);
    let mut p = Parser::new(l);

    let program = p.parse_program();
    assert!(program.is_some(), "ParseProgram() returned None");

    assert!(p.errors().is_empty(), "Parser has errors: {:?}", p.errors());

    let program = program.unwrap();
    assert_eq!(
        program.statements.len(),
        3,
        "program.Statements does not contain 3 statements. got={}",
        program.statements.len()
    );

    let tests = vec![("x", "5"), ("y", "10"), ("foobar", "838383")];

    for (i, (ident_name, literal_value)) in tests.iter().enumerate() {
        match &program.statements[i] {
            Statement::Let(let_stmt) => {
                assert_eq!(let_stmt.ident.name, *ident_name);
                match &let_stmt.value {
                    Expression::Literal(literal) => {
                        assert_eq!(literal.value, *literal_value);
                    }
                    _ => panic!("Expected Literal"),
                }
            }
            _ => panic!("Expected LetStatement"),
        }
    }
}

#[test]
fn test_parser_errors() {
    let input = String::from("let x 5;");

    let l = Lexer::new(input);
    let mut p = Parser::new(l);

    let _program = p.parse_program();

    let program = p.parse_program();
    assert!(program.is_some(), "ParseProgram() returned None");

    assert!(!p.errors().is_empty(), "Parser has no errors");

    assert_eq!(
        p.errors().len(),
        1,
        "parser has wrong number of errors. got={}",
        p.errors().len()
    );
}

#[test]
fn test_return_statements() {
    let input = String::from("
            return 5;
            return 10;
            return 9933322;
        ");

    let l = Lexer::new(input);
    let mut p = Parser::new(l);

    let program = p.parse_program().unwrap();

    let stmt_len = program.statements.len();
    assert_eq!(
        stmt_len, 3,
        "program.statements does not contain 3 statements. got {}",
        stmt_len
    );

    let tests = vec![("5"), ("10"), ("9933322")];

    for (i, literal_value) in tests.iter().enumerate() {
        match &program.statements[i] {
            Statement::Return(return_stmt) => match &return_stmt.value {
                Expression::Literal(literal) => {
                    assert_eq!(literal.value, *literal_value);
                }
                _ => panic!("Expected Literal"),
            },
            _ => panic!("Expected ReturnStatement"),
        }
    }
}

#[test]
fn test_identifier_expressions() {
    let input = String::from("
            foobar;
            barbaz;
            quux;
        ");

    let l = Lexer::new(input);
    let mut p = Parser::new(l);

    let program = p.parse_program().unwrap();

    let stmt_len = program.statements.len();
    assert_eq!(
        stmt_len, 3,
        "program.statements does not contain 3 statements. got {}",
        stmt_len
    );

    let tests = vec![("foobar"), ("barbaz"), ("quux")];

    for (i, literal_value) in tests.iter().enumerate() {
        match &program.statements[i] {
            Statement::Expression(expression_stmt) => match &expression_stmt {
                Expression::Identifier(ident) => {
                    assert_eq!(ident.name, *literal_value);
                }
                _ => panic!("Expected IdentifierExpression"),
            },
            _ => panic!("Expected ExpressionStatement"),
        }
    }
}

#[test]
fn three_identifier_statements_on_one_line() {
    let (stmts, errors, _) = parse("foobar; barbaz; quux;");
    assert!(errors.is_empty());
    assert_eq!(
        stmts,
        vec![
            Statement::Expression(*ident("foobar")),
            Statement::Expression(*ident("barbaz")),
            Statement::Expression(*ident("quux")),
        ]
    );
}

#[test]
fn missing_assign_reports_expected_token() {
    let (stmts, errors, messages) = parse("let x 5;");
    assert!(stmts.is_empty());
    assert_eq!(errors, vec![ParseError::ExpectedAssign(Token::Int("5".to_string()))]);
    assert_eq!(messages, vec!["expected next token to be '=', got Int(5)".to_string()]);
}

#[test]
fn missing_identifier_is_reported() {
    let (stmts, errors, messages) = parse("let = 5;");
    assert_eq!(stmts, vec![Statement::Expression(*lit("5"))]);
    assert_eq!(errors, vec![ParseError::ExpectedIdent(Token::Assign)]);
    assert_eq!(messages, vec!["expected next token to be IDENT, got =".to_string()]);
}

#[test]
fn missing_value_is_reported() {
    let (stmts, errors, messages) = parse("return ;");
    assert!(stmts.is_empty());
    assert_eq!(errors, vec![ParseError::ExpectedExpression(Token::Semicolon)]);
    assert_eq!(
        messages,
        vec!["expected next token to be an expression, got Semicolon".to_string()]
    );
}

#[test]
fn product_binds_tighter_than_sum() {
    let (stmts, errors, _) = parse("1 + 2 * 3;");
    assert!(errors.is_empty());
    assert_eq!(
        stmts,
        vec![Statement::Expression(Expression::Sum(
            lit("1"),
            Box::new(Expression::Product(lit("2"), lit("3")))
        ))]
    );
}

#[test]
fn sums_associate_to_the_left() {
    let (stmts, errors, _) = parse("1 + 2 + 3;");
    assert!(errors.is_empty());
    assert_eq!(
        stmts,
        vec![Statement::Expression(Expression::Sum(
            Box::new(Expression::Sum(lit("1"), lit("2"))),
            lit("3")
        ))]
    );
}

#[test]
fn comparison_and_prefix_operators() {
    let (stmts, errors, _) = parse("-a * b == !c;");
    assert!(errors.is_empty());
    assert_eq!(
        stmts,
        vec![Statement::Expression(Expression::Equal(
            Box::new(Expression::Product(
                Box::new(Expression::UnaryMinus(ident("a"))),
                ident("b")
            )),
            Box::new(Expression::Not(ident("c")))
        ))]
    );
}

#[test]
fn every_infix_operator_builds_its_node() {
    let (stmts, errors, _) = parse("a - b / c < d; e > f != g;");
    assert!(errors.is_empty());
    assert_eq!(
        stmts,
        vec![
            Statement::Expression(Expression::LessThan(
                Box::new(Expression::Difference(
                    ident("a"),
                    Box::new(Expression::Quotient(ident("b"), ident("c")))
                )),
                ident("d")
            )),
            Statement::Expression(Expression::NotEqual(
                Box::new(Expression::GreaterThan(ident("e"), ident("f"))),
                ident("g")
            )),
        ]
    );
}

#[test]
fn let_takes_a_whole_expression() {
    let (stmts, errors, _) = parse("let total = x + 2;");
    assert!(errors.is_empty());
    match &stmts[..] {
        [Statement::Let(l)] => {
            assert_eq!(l.ident.name, "total");
            assert_eq!(l.value, Expression::Sum(ident("x"), lit("2")));
        }
        _ => panic!("expected one let statement"),
    }
}

#[test]
fn illegal_byte_is_reported_not_fatal() {
    let (stmts, errors, _) = parse("let x = @;");
    assert!(stmts.is_empty());
    assert_eq!(errors, vec![ParseError::ExpectedExpression(Token::Illegal(b'@', 8))]);
}

#[test]
fn illegal_byte_at_statement_start() {
    let (stmts, errors, messages) = parse("# let y = 1;");
    assert_eq!(errors, vec![ParseError::IllegalByte(b'#', 0)]);
    assert_eq!(messages, vec!["illegal byte 35 at offset 0".to_string()]);
    assert_eq!(stmts.len(), 1);
}

#[test]
fn stray_tokens_are_skipped_silently() {
    let (stmts, errors, _) = parse(";;) 7;");
    assert!(errors.is_empty());
    assert_eq!(stmts, vec![Statement::Expression(*lit("7"))]);
}

#[test]
fn empty_program() {
    let (stmts, errors, _) = parse("");
    assert!(stmts.is_empty());
    assert!(errors.is_empty());
}
