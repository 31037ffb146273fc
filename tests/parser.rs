use primal::error::{CompileError, Expectation};
use primal::lexer::{Lexer, Token};
use primal::parser::{Operand, Parser, Statement, Term};

fn parse(source: &str) -> Result<Vec<Statement>, CompileError> {
    let tokens = Lexer::tokenize(source.to_string())?;
    Parser::new(tokens).parse()
}

fn ident(name: &str) -> Token {
    Token::Identifier(name.to_string())
}

#[test]
fn use_before_declaration_is_a_semantic_error() {
    assert_eq!(parse("PRINT x\n").unwrap_err(), CompileError::Semantic { identifier: "x".to_string() });
    assert_eq!(
        parse("LET y = 1\nIF y > x THEN\nENDIF\n").unwrap_err(),
        CompileError::Semantic { identifier: "x".to_string() }
    );
}

#[test]
fn declared_names_are_accepted() {
    let statements = parse("LET x = 1\nPRINT x\nINPUT \"n?\" n\nLET y = n * x\n").unwrap();
    assert_eq!(statements.len(), 4);
    assert!(matches!(&statements[1], Statement::Print { value } if *value == ident("x")));
    assert!(matches!(&statements[2], Statement::Input { message, identifier }
        if *message == Token::String("\"n?\"".to_string()) && *identifier == ident("n")));
}

#[test]
fn if_while_let_nest_three_levels() {
    let source = "LET i = 0\nIF i < 10 THEN\nWHILE i < 10\nDO\nLET i = i + 1\nENDWHILE\nENDIF\n";
    let statements = parse(source).unwrap();
    assert_eq!(statements.len(), 2);
    match &statements[1] {
        Statement::If { condition_tree, if_body } => {
            assert_eq!(condition_tree.get_tokens_from(), vec![ident("i"), Token::LessThan, Token::Number(10)]);
            assert_eq!(if_body.len(), 1);
            match &if_body[0] {
                Statement::While { condition_tree, while_body } => {
                    assert_eq!(
                        condition_tree.get_tokens_from(),
                        vec![ident("i"), Token::LessThan, Token::Number(10)]
                    );
                    assert_eq!(while_body.len(), 1);
                    match &while_body[0] {
                        Statement::Let { identifier, expression_tree } => {
                            assert_eq!(*identifier, ident("i"));
                            assert_eq!(
                                expression_tree.get_tokens_from(),
                                vec![ident("i"), Token::Plus, Token::Number(1)]
                            );
                        }
                        other => panic!("expected LET, got {:?}", other),
                    }
                }
                other => panic!("expected WHILE, got {:?}", other),
            }
        }
        other => panic!("expected IF, got {:?}", other),
    }
}

#[test]
fn syntax_errors_name_what_was_expected() {
    assert_eq!(
        parse("LET 5 = 3\n").unwrap_err(),
        CompileError::Syntax { expected: Expectation::Identifier, found: Some(Token::Number(5)) }
    );
    assert_eq!(
        parse("LET x 3\n").unwrap_err(),
        CompileError::Syntax { expected: Expectation::Assign, found: Some(Token::Number(3)) }
    );
    assert_eq!(
        parse("LET x = 1\nIF x THEN\nENDIF\n").unwrap_err(),
        CompileError::Syntax { expected: Expectation::ComparisonOperator, found: Some(Token::Then) }
    );
    assert_eq!(
        parse("LET x = 1\nIF x > 0 THEN\nPRINT x\n").unwrap_err(),
        CompileError::Syntax { expected: Expectation::Statement, found: None }
    );
    assert_eq!(
        parse("THEN\n").unwrap_err(),
        CompileError::Syntax { expected: Expectation::Statement, found: Some(Token::Then) }
    );
    assert_eq!(
        parse("LET x = 1 +\n").unwrap_err(),
        CompileError::Syntax { expected: Expectation::Primary, found: Some(Token::Newline) }
    );
    assert_eq!(
        parse("PRINT\n").unwrap_err(),
        CompileError::Syntax { expected: Expectation::Value, found: Some(Token::Newline) }
    );
    assert_eq!(
        parse("INPUT x\n").unwrap_err(),
        CompileError::Syntax { expected: Expectation::StringLiteral, found: Some(ident("x")) }
    );
}

#[test]
fn lexical_errors_stop_the_compilation() {
    assert_eq!(parse("LET x = 1.5\n").unwrap_err(), CompileError::Lexical { lexeme: "1.5".to_string() });
}

#[test]
fn conditions_join_comparisons_with_and_or() {
    let statements = parse("LET a = 1\nWHILE a < 3 AND true == true\nDO\nLET a = a + 1\nENDWHILE\n").unwrap();
    match &statements[1] {
        Statement::While { condition_tree, .. } => assert_eq!(
            condition_tree.get_tokens_from(),
            vec![
                ident("a"),
                Token::LessThan,
                Token::Number(3),
                Token::And,
                Token::Bool(true),
                Token::Equals,
                Token::Bool(true)
            ]
        ),
        other => panic!("expected WHILE, got {:?}", other),
    }
}

#[test]
fn blank_token_runs_become_one_empty_statement() {
    let tokens = vec![Token::Newline, Token::Newline, Token::Print, Token::Number(1), Token::Newline];
    let statements = Parser::new(tokens).parse().unwrap();
    assert_eq!(statements.len(), 2);
    assert!(matches!(statements[0], Statement::Empty));
    assert!(matches!(&statements[1], Statement::Print { value } if *value == Token::Number(1)));
}

#[test]
fn expression_tree_flattens_to_its_slice() {
    let slice = vec![
        Token::Minus,
        ident("a"),
        Token::Plus,
        ident("b"),
        Token::Times,
        Token::Minus,
        Token::Number(3),
        Token::Modulo,
        Token::Number(4),
    ];
    let tree = Parser::expression_tree(&slice);
    assert_eq!(tree.get_tokens_from(), slice);
    assert_eq!(tree.left, Some(Term::Value { sign: Some(Token::Minus), value: ident("a") }));
    assert_eq!(tree.numeric_operator, Some(Token::Plus));
    assert!(matches!(tree.right, Some(Term::Operation { .. })));
}

#[test]
fn two_term_expression_has_value_leaves() {
    let slice = vec![ident("a"), Token::Minus, Token::Minus, Token::Number(2)];
    let tree = Parser::expression_tree(&slice);
    assert_eq!(tree.left, Some(Term::Value { sign: None, value: ident("a") }));
    assert_eq!(tree.right, Some(Term::Value { sign: Some(Token::Minus), value: Token::Number(2) }));
    assert_eq!(tree.get_tokens_from(), slice);
}

#[test]
fn condition_tree_flattens_to_its_slice() {
    let slice = vec![
        ident("a"),
        Token::MoreThan,
        Token::Number(1),
        Token::Or,
        ident("b"),
        Token::LessThanEquals,
        Token::Number(2),
    ];
    let tree = Parser::condition_tree(&slice);
    assert_eq!(tree.get_tokens_from(), slice);
    assert_eq!(tree.operation.operand_left, Some(Operand::Value { value: ident("a") }));
    assert!(matches!(tree.operation.operand_right, Some(Operand::Operation { .. })));
}
