use primal::error::CompileError;
use primal::lexer::{Lexer, Token};

#[test]
fn identify_string() {
    let x = "\"Hello\"with quotes\'in between\"";
    let result = Lexer::identify_token(x);

    assert_eq!(result, Ok(Token::String(x.to_string())), "Couldn't identify a string");
}

#[test]
fn not_a_string() {
    let x = "\"I dont have an end quote..";

    let result = Lexer::identify_token(x);

    assert_eq!(result, Err(CompileError::Lexical { lexeme: x.to_string() }));
}

#[test]
fn identify_number() {
    let x: &str = "000345";

    let result = Lexer::identify_token(x);

    assert_eq!(result, Ok(Token::Number(x.parse().unwrap())), "Couldn't identify a normal number");
}

#[test]
fn identify_a_float() {
    let x = "-10923,10293";
    let y = "999,420";

    let result1 = Lexer::identify_token(x);
    let result2 = Lexer::identify_token(y);

    assert_eq!(result1, Err(CompileError::Lexical { lexeme: x.to_string() }), "a signed float is no number");
    assert_eq!(result2, Err(CompileError::Lexical { lexeme: y.to_string() }), "a float is no number");
}

#[test]
fn identify_identifier() {
    let x = "abcdefghijkmnlopqrstuvwxyzABCDEFGHIJKMNLOPQRSTUVWXYZ1234567890_";
    let result = Lexer::identify_token(x);

    assert_eq!(result, Ok(Token::Identifier(x.to_string())), "Identifier was not found");
}

#[test]
fn dont_identify_identifier() {
    // number at the start
    let x = "9_number";
    // wrong characters
    let y = "abc!this-is-bad+=!@#$%^&*";

    assert_eq!(Lexer::identify_token(x), Err(CompileError::Lexical { lexeme: x.to_string() }));
    assert_eq!(Lexer::identify_token(y), Err(CompileError::Lexical { lexeme: y.to_string() }));
}

#[test]
fn identify_a_line() {
    let line = "LET x = 15 \n";
    let result = Lexer::tokenize_line(line);

    assert_eq!(
        result,
        Ok(vec![Token::Let, Token::Identifier("x".to_string()), Token::Assign, Token::Number(15), Token::Newline])
    );
}

#[test]
fn identify_lines() {
    let lines = "LET x == IF \n WHILE PRINT = true \n";
    let result = Lexer::tokenize(lines.to_string());

    assert_eq!(
        result,
        Ok(vec![
            Token::Let,
            Token::Identifier("x".to_string()),
            Token::Equals,
            Token::If,
            Token::Newline,
            Token::While,
            Token::Print,
            Token::Assign,
            Token::Bool(true),
            Token::Newline
        ])
    );
}

#[test]
fn accepts_a_plain_identifier() {
    assert_eq!(Lexer::identify_token("abc123_XYZ"), Ok(Token::Identifier("abc123_XYZ".to_string())));
    assert_eq!(Lexer::identify_token("abc!bad"), Err(CompileError::Lexical { lexeme: "abc!bad".to_string() }));
}

#[test]
fn comment_is_stripped() {
    let with_comment = Lexer::tokenize_line("PRINT \"hi\" # comment");
    let without = Lexer::tokenize_line("PRINT \"hi\"");
    assert_eq!(with_comment, without);
    assert_eq!(with_comment, Ok(vec![Token::Print, Token::String("\"hi\"".to_string()), Token::Newline]));
}

#[test]
fn comment_sign_inside_a_string_is_kept() {
    let result = Lexer::tokenize_line("PRINT \"a # b\" # note");
    assert_eq!(result, Ok(vec![Token::Print, Token::String("\"a # b\"".to_string()), Token::Newline]));
}

#[test]
fn comment_right_after_a_lexeme() {
    assert_eq!(
        Lexer::tokenize_line("PRINT x# note"),
        Ok(vec![Token::Print, Token::Identifier("x".to_string()), Token::Newline])
    );
}

#[test]
fn rendering_a_line_tokenizes_back() {
    let line = "LET  total =   -7 + count * 000345 ";
    let tokens = Lexer::tokenize_line(line).unwrap();
    let words: Vec<String> = tokens[..tokens.len() - 1]
        .iter()
        .map(|t| Lexer::convert_token_to_string(t.clone()))
        .collect();
    let again = Lexer::tokenize_line(&words.join(" ")).unwrap();
    assert_eq!(again, tokens);
    assert_eq!(words.join(" "), "LET total = -7 + count * 345");
}

#[test]
fn blank_and_comment_lines_give_nothing() {
    assert_eq!(Lexer::tokenize("".to_string()), Ok(vec![]));
    assert_eq!(Lexer::tokenize("\n   \n# only a comment\n".to_string()), Ok(vec![]));
    assert_eq!(Lexer::tokenize_line("   "), Ok(vec![]));
    assert_eq!(
        Lexer::tokenize("PRINT 1\r\n\r\nPRINT 2".to_string()),
        Ok(vec![Token::Print, Token::Number(1), Token::Newline, Token::Print, Token::Number(2), Token::Newline])
    );
}

#[test]
fn unterminated_string_spanning_spaces() {
    assert_eq!(
        Lexer::tokenize_line("PRINT \"abc def"),
        Err(CompileError::Lexical { lexeme: "\"abc def".to_string() })
    );
    assert_eq!(
        Lexer::tokenize("PRINT 1\nPRINT \"open".to_string()),
        Err(CompileError::Lexical { lexeme: "\"open".to_string() })
    );
}

#[test]
fn numbers_at_the_edges_of_32_bits() {
    assert_eq!(Lexer::identify_token("2147483647"), Ok(Token::Number(i32::MAX)));
    assert_eq!(Lexer::identify_token("-2147483648"), Ok(Token::Number(i32::MIN)));
    assert_eq!(Lexer::identify_token("+12"), Ok(Token::Number(12)));
    assert_eq!(
        Lexer::identify_token("2147483648"),
        Err(CompileError::Lexical { lexeme: "2147483648".to_string() })
    );
    assert_eq!(Lexer::identify_token("-"), Ok(Token::Minus));
    assert_eq!(Lexer::identify_token("+-3"), Err(CompileError::Lexical { lexeme: "+-3".to_string() }));
}

#[test]
fn keywords_operators_and_booleans() {
    assert_eq!(Lexer::identify_token("ENDWHILE"), Ok(Token::Endwhile));
    assert_eq!(Lexer::identify_token(">="), Ok(Token::MoreThanEquals));
    assert_eq!(Lexer::identify_token("!="), Ok(Token::NotEquals));
    assert_eq!(Lexer::identify_token("false"), Ok(Token::Bool(false)));
    assert_eq!(Lexer::identify_token("True"), Ok(Token::Identifier("True".to_string())));
    assert_eq!(Lexer::identify_token("\""), Ok(Token::String("\"".to_string())));
}

#[test]
fn tokens_render_as_rust_text() {
    assert_eq!(Lexer::convert_token_to_string(Token::And), "&&");
    assert_eq!(Lexer::convert_token_to_string(Token::Or), "||");
    assert_eq!(Lexer::convert_token_to_string(Token::Not), "!");
    assert_eq!(Lexer::convert_token_to_string(Token::MoreThanEquals), ">=");
    assert_eq!(Lexer::convert_token_to_string(Token::Number(-42)), "-42");
    assert_eq!(Lexer::convert_token_to_string(Token::Number(0)), "0");
    assert_eq!(Lexer::convert_token_to_string(Token::Number(i32::MIN)), "-2147483648");
    assert_eq!(Lexer::convert_token_to_string(Token::Newline), "\n");
}

#[test]
fn token_classes() {
    assert!(Lexer::is_operator(&Token::And));
    assert!(Lexer::is_operator(&Token::Modulo));
    assert!(!Lexer::is_operator(&Token::Assign));
    assert!(Lexer::is_some_equality_operator(Some(&Token::LessThanEquals)));
    assert!(!Lexer::is_some_equality_operator(None));
    assert!(Lexer::is_some_logic_condition_operator(Some(&Token::Or)));
    assert!(!Lexer::is_some_logic_condition_operator(Some(&Token::Not)));
    assert!(Lexer::is_numeric_operator(&Token::Divide));
    assert!(Lexer::is_operand(&Token::Bool(true)));
    assert!(!Lexer::is_operand(&Token::Newline));
    assert!(Lexer::is_sign(&Token::Minus));
    assert!(!Lexer::is_sign(&Token::Times));
}
