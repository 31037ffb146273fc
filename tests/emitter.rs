use primal::emitter::Emitter;
use primal::lexer::Lexer;
use primal::parser::Parser;

fn compile(source: &str) -> Vec<String> {
    let tokens = Lexer::tokenize(source.to_string()).unwrap();
    let statements = Parser::new(tokens).parse().unwrap();
    Emitter::new(statements).emit()
}

#[test]
fn first_let_declares_and_second_reassigns() {
    assert_eq!(
        compile("LET x = 1\nLET x = 2\n"),
        vec!["#[allow(unused_mut)]", "fn main() {", "let mut x = 1;", "x = 2;", "}"]
    );
}

#[test]
fn nested_blocks_open_and_close_in_order() {
    let source = "LET i = 0\nIF i < 10 THEN\nWHILE i < 10\nDO\nLET i = i + 1\nENDWHILE\nENDIF\n";
    assert_eq!(
        compile(source),
        vec![
            "#[allow(unused_mut)]",
            "fn main() {",
            "let mut i = 0;",
            "if i < 10 {",
            "while i < 10 {",
            "i = i + 1;",
            "}",
            "}",
            "}"
        ]
    );
}

#[test]
fn print_and_logical_operators() {
    assert_eq!(
        compile("LET a = -3 * 2\nIF a < 0 OR a >= 10 THEN\nPRINT \"out\"\nENDIF\nPRINT a\n"),
        vec![
            "#[allow(unused_mut)]",
            "fn main() {",
            "let mut a = -3 * 2;",
            "if a < 0 || a >= 10 {",
            "println!(\"{}\", \"out\" );",
            "}",
            "println!(\"{}\", a );",
            "}"
        ]
    );
}

#[test]
fn input_declares_then_reads_and_parses() {
    assert_eq!(
        compile("INPUT \"age?\" age\nLET age = age + 1\n"),
        vec![
            "#[allow(unused_mut)]",
            "fn main() {",
            "let mut age = Default::default();",
            "println!(\"{}\", \"age?\");",
            "std::io::stdin().read_line(&mut age).expect(\"Failed to read user input\");",
            "let mut age = age.trim().parse().unwrap();",
            "age = age + 1;",
            "}"
        ]
    );
}

#[test]
fn empty_program_is_an_empty_main() {
    assert_eq!(compile("# nothing\n\n"), vec!["#[allow(unused_mut)]", "fn main() {", "}"]);
}
