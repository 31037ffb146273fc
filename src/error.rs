use vstd::prelude::*;

use crate::lexer::{Token, TokenView};

verus! {

/// What the parser was looking for when it met a token it could not accept.
#[derive(Clone, Copy, Debug, PartialEq, Eq, Structural)]
pub enum Expectation {
    Then,
    Do,
    Assign,
    Newline,
    Endif,
    Endwhile,
    Identifier,
    StringLiteral,
    /// An identifier, string, number or boolean.
    Value,
    /// An identifier or a number.
    Primary,
    /// One of `==`, `!=`, `>`, `>=`, `<`, `<=`.
    ComparisonOperator,
    /// The first token of a statement.
    Statement,
}

/// The three fatal errors of a compilation.
#[derive(Debug, PartialEq)]
pub enum CompileError {
    /// A lexeme that is neither a keyword, an operator, a literal nor an identifier.
    Lexical { lexeme: String },
    /// A token that the grammar does not allow where it stands; `None` is the end of input.
    Syntax { expected: Expectation, found: Option<Token> },
    /// An identifier used before any `LET` or `INPUT` declared it.
    Semantic { identifier: String },
}

/// The mathematical value of a `CompileError`.
pub enum ErrorView {
    Lexical { lexeme: Seq<char> },
    Syntax { expected: Expectation, found: Option<TokenView> },
    Semantic { identifier: Seq<char> },
}

pub open spec fn option_token_view(t: Option<Token>) -> Option<TokenView> {
    match t {
        Some(t) => Some(t@),
        None => None,
    }
}

impl View for CompileError {
    type V = ErrorView;

    open spec fn view(&self) -> ErrorView {
        match self {
            CompileError::Lexical { lexeme } => ErrorView::Lexical { lexeme: lexeme@ },
            CompileError::Syntax { expected, found } => ErrorView::Syntax {
                expected: *expected,
                found: option_token_view(*found),
            },
            CompileError::Semantic { identifier } => ErrorView::Semantic { identifier: identifier@ },
        }
    }
}

} // verus!
