use fddl::ast::{Expression, Literal, Operator, Statement};
use fddl::lexer::Lexer;
use fddl::parser::Parser;
use fddl::rat::Number;

fn numlit(n: u64) -> Expression {
    Expression::Literal(Literal::Number(Number::from_integer(n)))
}

#[test]
fn test_simple_print_statement_number() {
    let source = String::from("print 123;");

    let mut lexer = Lexer::new(source);
    let tokens = lexer.scan_tokens();

    let mut parser = Parser::new(tokens);
    let program_ast = parser.parse_program();

    let expected_ast = vec![Statement::PrintStatement(numlit(123))];

    assert_eq!(program_ast, expected_ast, "AST for 'print 123;' did not match.");
}

#[test]
fn test_variable_declaration_with_initializer() {
    let source = String::from("let x = 10;");

    let mut lexer = Lexer::new(source);
    let tokens = lexer.scan_tokens();
    let mut parser = Parser::new(tokens);
    let program_ast = parser.parse_program();

    let expected_ast = vec![Statement::VariableDeclaration(
        "x".to_string(),
        Some(numlit(10)),
    )];
    assert_eq!(program_ast, expected_ast, "AST for 'let x = 10;' did not match.");
}

#[test]
fn test_unary_not_expression() {
    let source = String::from("print not true;");
    let mut lexer = Lexer::new(source);
    let tokens = lexer.scan_tokens();
    let mut parser = Parser::new(tokens);
    let program_ast = parser.parse_program();

    let expected_ast = vec![Statement::PrintStatement(Expression::Unary(
        Operator::Not,
        Box::new(Expression::Literal(Literal::Boolean(true))),
    ))];
    assert_eq!(program_ast, expected_ast, "AST for 'print not true;' did not match.");
}

#[test]
fn test_binary_precedence() {
    let source = String::from("print 1 + 2 * 3;");
    let mut lexer = Lexer::new(source);
    let tokens = lexer.scan_tokens();
    let mut parser = Parser::new(tokens);
    let program_ast = parser.parse_program();

    let expected_ast = vec![Statement::PrintStatement(Expression::Binary(
        Box::new(numlit(1)),
        Operator::Plus,
        Box::new(Expression::Binary(
            Box::new(numlit(2)),
            Operator::Multiply,
            Box::new(numlit(3)),
        )),
    ))];
    assert_eq!(program_ast, expected_ast, "AST for 'print 1 + 2 * 3;' did not match.");
}

#[test]
fn test_simple_function_call_statement() {
    let source = String::from("my_func();");
    let mut lexer = Lexer::new(source);
    let tokens = lexer.scan_tokens();
    let mut parser = Parser::new(tokens);
    let program_ast = parser.parse_program();

    let expected_ast = vec![Statement::ExpressionStatement(Expression::FunctionCall(
        Box::new(Expression::Variable("my_func".to_string())),
        Vec::new(),
    ))];
    assert_eq!(program_ast, expected_ast, "AST for 'my_func();' did not match.");
}

#[test]
fn test_assignment_statement() {
    let source = String::from("count = count + 1;");
    let mut lexer = Lexer::new(source);
    let tokens = lexer.scan_tokens();
    let mut parser = Parser::new(tokens);
    let program_ast = parser.parse_program();

    let expected_ast = vec![Statement::Assignment {
        target_name: "count".to_string(),
        value: Expression::Binary(
            Box::new(Expression::Variable("count".to_string())),
            Operator::Plus,
            Box::new(numlit(1)),
        ),
    }];
    assert_eq!(program_ast, expected_ast, "AST for 'count = count + 1;' did not match.");
}

#[test]
fn test_if_else_statement_with_blocks() {
    let source = String::from("if (x < 10) { print \"small\"; } else { print \"large\"; }");
    let mut lexer = Lexer::new(source);
    let tokens = lexer.scan_tokens();
    let mut parser = Parser::new(tokens);
    let program_ast = parser.parse_program();

    let expected_ast = vec![Statement::IfStatement(
        Expression::Binary(
            Box::new(Expression::Variable("x".to_string())),
            Operator::Less,
            Box::new(numlit(10)),
        ),
        Box::new(Statement::Block(vec![Statement::PrintStatement(
            Expression::Literal(Literal::Text("small".to_string())),
        )])),
        Some(Box::new(Statement::Block(vec![Statement::PrintStatement(
            Expression::Literal(Literal::Text("large".to_string())),
        )]))),
    )];
    assert_eq!(program_ast, expected_ast, "AST for if-else statement did not match.");
}

#[test]
fn test_grouping_preserved() {
    let mut lexer = Lexer::new(String::from("print (1 + 2) * 3;"));
    let tokens = lexer.scan_tokens();
    let mut parser = Parser::new(tokens);
    let program_ast = parser.parse_program();

    let expected_ast = vec![Statement::PrintStatement(Expression::Binary(
        Box::new(Expression::Grouping(Box::new(Expression::Binary(
            Box::new(numlit(1)),
            Operator::Plus,
            Box::new(numlit(2)),
        )))),
        Operator::Multiply,
        Box::new(numlit(3)),
    ))];
    assert_eq!(program_ast, expected_ast);
}

#[test]
fn test_while_statement() {
    let mut lexer = Lexer::new(String::from("while (x < 3) { x = x + 1; }"));
    let tokens = lexer.scan_tokens();
    let mut parser = Parser::new(tokens);
    let program_ast = parser.parse_program();

    let expected_ast = vec![Statement::WhileStatement(
        Expression::Binary(
            Box::new(Expression::Variable("x".to_string())),
            Operator::Less,
            Box::new(numlit(3)),
        ),
        Box::new(Statement::Block(vec![Statement::Assignment {
            target_name: "x".to_string(),
            value: Expression::Binary(
                Box::new(Expression::Variable("x".to_string())),
                Operator::Plus,
                Box::new(numlit(1)),
            ),
        }])),
    )];
    assert_eq!(program_ast, expected_ast);
}

#[test]
fn test_missing_semicolon_stops_parse() {
    let mut lexer = Lexer::new(String::from("print 1"));
    let tokens = lexer.scan_tokens();
    let mut parser = Parser::new(tokens);
    let program_ast = parser.parse_program();
    assert_eq!(program_ast, Vec::<Statement>::new());
}

#[test]
fn test_unmatched_paren_stops_parse() {
    let mut lexer = Lexer::new(String::from("print (1 + 2;"));
    let tokens = lexer.scan_tokens();
    let mut parser = Parser::new(tokens);
    let program_ast = parser.parse_program();
    assert_eq!(program_ast, Vec::<Statement>::new());
}

#[test]
fn test_invalid_assignment_target_stops_parse() {
    let mut lexer = Lexer::new(String::from("1 = 2;"));
    let tokens = lexer.scan_tokens();
    let mut parser = Parser::new(tokens);
    let program_ast = parser.parse_program();
    assert_eq!(program_ast, Vec::<Statement>::new());
}

#[test]
fn test_prefix_kept_before_failure() {
    let mut lexer = Lexer::new(String::from("print 1; print ;"));
    let tokens = lexer.scan_tokens();
    let mut parser = Parser::new(tokens);
    let program_ast = parser.parse_program();
    assert_eq!(program_ast, vec![Statement::PrintStatement(numlit(1))]);
}

#[test]
fn test_function_declaration_parses() {
    let mut lexer = Lexer::new(String::from("func add2(a, b) { print a; }"));
    let tokens = lexer.scan_tokens();
    let mut parser = Parser::new(tokens);
    let program_ast = parser.parse_program();

    let expected_ast = vec![Statement::FunctionDeclaration {
        name: "add2".to_string(),
        params: vec!["a".to_string(), "b".to_string()],
        body: vec![Statement::PrintStatement(Expression::Variable("a".to_string()))],
    }];
    assert_eq!(program_ast, expected_ast);
}

#[test]
fn test_for_statement_parses() {
    let mut lexer = Lexer::new(String::from("for (let i = 0; i < 3; i + 1) { print i; }"));
    let tokens = lexer.scan_tokens();
    let mut parser = Parser::new(tokens);
    let program_ast = parser.parse_program();

    let expected_ast = vec![Statement::ForStatement(
        Box::new(Statement::VariableDeclaration("i".to_string(), Some(numlit(0)))),
        Expression::Binary(
            Box::new(Expression::Variable("i".to_string())),
            Operator::Less,
            Box::new(numlit(3)),
        ),
        Box::new(Statement::ExpressionStatement(Expression::Binary(
            Box::new(Expression::Variable("i".to_string())),
            Operator::Plus,
            Box::new(numlit(1)),
        ))),
        Box::new(Statement::Block(vec![Statement::PrintStatement(
            Expression::Variable("i".to_string()),
        )])),
    )];
    assert_eq!(program_ast, expected_ast);
}

#[test]
fn test_return_statement_parses() {
    let mut lexer = Lexer::new(String::from("return 42;"));
    let tokens = lexer.scan_tokens();
    let mut parser = Parser::new(tokens);
    let program_ast = parser.parse_program();

    let expected_ast = vec![Statement::ReturnStatement(Some(numlit(42)))];
    assert_eq!(program_ast, expected_ast);
}

#[test]
fn test_parse_statement_and_is_at_end() {
    let mut lexer = Lexer::new(String::from("print 7;"));
    let tokens = lexer.scan_tokens();
    let mut parser = Parser::new(tokens);
    assert!(!parser.is_at_end());
    let stmt = parser.parse_statement();
    assert_eq!(stmt, Some(Statement::PrintStatement(numlit(7))));
    assert!(parser.is_at_end());
}

#[test]
fn test_comments_skipped_between_statements() {
    let mut lexer = Lexer::new(String::from("# note\nprint 1; /* more */ print 2;"));
    let tokens = lexer.scan_tokens();
    let mut parser = Parser::new(tokens);
    let program_ast = parser.parse_program();
    assert_eq!(
        program_ast,
        vec![
            Statement::PrintStatement(numlit(1)),
            Statement::PrintStatement(numlit(2))
        ]
    );
}
