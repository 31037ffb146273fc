use vstd::prelude::*;

use crate::error::{CompileError, ErrorView};

verus! {

/// A classified lexeme, or the marker that ends a line.
#[derive(Debug, PartialEq)]
pub enum Token {
    Print,
    Input,
    Let,
    If,
    Then,
    While,
    Do,
    End,
    Endif,
    Endwhile,
    Assign,
    Equals,
    NotEquals,
    MoreThanEquals,
    LessThanEquals,
    MoreThan,
    LessThan,
    And,
    Or,
    Not,
    Plus,
    Minus,
    Times,
    Divide,
    Modulo,
    Bool(bool),
    String(String),
    Number(i32),
    Identifier(String),
    Newline,
}

/// The mathematical value of a `Token`: text payloads become character sequences.
pub enum TokenView {
    Print,
    Input,
    Let,
    If,
    Then,
    While,
    Do,
    End,
    Endif,
    Endwhile,
    Assign,
    Equals,
    NotEquals,
    MoreThanEquals,
    LessThanEquals,
    MoreThan,
    LessThan,
    And,
    Or,
    Not,
    Plus,
    Minus,
    Times,
    Divide,
    Modulo,
    Bool(bool),
    String(Seq<char>),
    Number(i32),
    Identifier(Seq<char>),
    Newline,
}

impl View for Token {
    type V = TokenView;

    open spec fn view(&self) -> TokenView {
        match self {
            Token::Print => TokenView::Print,
            Token::Input => TokenView::Input,
            Token::Let => TokenView::Let,
            Token::If => TokenView::If,
            Token::Then => TokenView::Then,
            Token::While => TokenView::While,
            Token::Do => TokenView::Do,
            Token::End => TokenView::End,
            Token::Endif => TokenView::Endif,
            Token::Endwhile => TokenView::Endwhile,
            Token::Assign => TokenView::Assign,
            Token::Equals => TokenView::Equals,
            Token::NotEquals => TokenView::NotEquals,
            Token::MoreThanEquals => TokenView::MoreThanEquals,
            Token::LessThanEquals => TokenView::LessThanEquals,
            Token::MoreThan => TokenView::MoreThan,
            Token::LessThan => TokenView::LessThan,
            Token::And => TokenView::And,
            Token::Or => TokenView::Or,
            Token::Not => TokenView::Not,
            Token::Plus => TokenView::Plus,
            Token::Minus => TokenView::Minus,
            Token::Times => TokenView::Times,
            Token::Divide => TokenView::Divide,
            Token::Modulo => TokenView::Modulo,
            Token::Bool(b) => TokenView::Bool(*b),
            Token::String(s) => TokenView::String(s@),
            Token::Number(n) => TokenView::Number(*n),
            Token::Identifier(s) => TokenView::Identifier(s@),
            Token::Newline => TokenView::Newline,
        }
    }
}

impl Clone for Token {
    fn clone(&self) -> (r: Token)
        ensures
            r == *self,
    {
        match self {
            Token::Print => Token::Print,
            Token::Input => Token::Input,
            Token::Let => Token::Let,
            Token::If => Token::If,
            Token::Then => Token::Then,
            Token::While => Token::While,
            Token::Do => Token::Do,
            Token::End => Token::End,
            Token::Endif => Token::Endif,
            Token::Endwhile => Token::Endwhile,
            Token::Assign => Token::Assign,
            Token::Equals => Token::Equals,
            Token::NotEquals => Token::NotEquals,
            Token::MoreThanEquals => Token::MoreThanEquals,
            Token::LessThanEquals => Token::LessThanEquals,
            Token::MoreThan => Token::MoreThan,
            Token::LessThan => Token::LessThan,
            Token::And => Token::And,
            Token::Or => Token::Or,
            Token::Not => Token::Not,
            Token::Plus => Token::Plus,
            Token::Minus => Token::Minus,
            Token::Times => Token::Times,
            Token::Divide => Token::Divide,
            Token::Modulo => Token::Modulo,
            Token::Bool(b) => Token::Bool(*b),
            Token::String(s) => Token::String(s.clone()),
            Token::Number(n) => Token::Number(*n),
            Token::Identifier(s) => Token::Identifier(s.clone()),
            Token::Newline => Token::Newline,
        }
    }
}

pub open spec fn tokens_view(ts: Seq<Token>) -> Seq<TokenView> {
    ts.map_values(|t: Token| t@)
}

// ---------------------------------------------------------------------------
// Classes of tokens used by the parser and the tree builders.

pub open spec fn is_operator_spec(t: TokenView) -> bool {
    is_equality_operator_spec(t) || is_logic_condition_operator_spec(t) || is_numeric_operator_spec(t)
}

pub open spec fn is_equality_operator_spec(t: TokenView) -> bool {
    t is Equals || t is NotEquals || t is MoreThanEquals || t is MoreThan || t is LessThanEquals
        || t is LessThan
}

pub open spec fn is_logic_condition_operator_spec(t: TokenView) -> bool {
    t is And || t is Or
}

pub open spec fn is_numeric_operator_spec(t: TokenView) -> bool {
    t is Plus || t is Minus || t is Times || t is Divide || t is Modulo
}

pub open spec fn is_operand_spec(t: TokenView) -> bool {
    t is Bool || t is String || t is Number || t is Identifier
}

pub open spec fn is_sign_spec(t: TokenView) -> bool {
    t is Plus || t is Minus
}

// ---------------------------------------------------------------------------
// Spelling of tokens.

/// The tokens written as a fixed word or symbol, keyed by their spelling.
pub open spec fn word_token(lex: Seq<char>) -> Option<TokenView> {
    if lex == "\n"@ {
        Some(TokenView::Newline)
    } else if lex == "PRINT"@ {
        Some(TokenView::Print)
    } else if lex == "INPUT"@ {
        Some(TokenView::Input)
    } else if lex == "LET"@ {
        Some(TokenView::Let)
    } else if lex == "IF"@ {
        Some(TokenView::If)
    } else if lex == "THEN"@ {
        Some(TokenView::Then)
    } else if lex == "WHILE"@ {
        Some(TokenView::While)
    } else if lex == "DO"@ {
        Some(TokenView::Do)
    } else if lex == "END"@ {
        Some(TokenView::End)
    } else if lex == "ENDIF"@ {
        Some(TokenView::Endif)
    } else if lex == "ENDWHILE"@ {
        Some(TokenView::Endwhile)
    } else if lex == "AND"@ {
        Some(TokenView::And)
    } else if lex == "OR"@ {
        Some(TokenView::Or)
    } else if lex == "NOT"@ {
        Some(TokenView::Not)
    } else if lex == "="@ {
        Some(TokenView::Assign)
    } else if lex == "=="@ {
        Some(TokenView::Equals)
    } else if lex == "!="@ {
        Some(TokenView::NotEquals)
    } else if lex == ">="@ {
        Some(TokenView::MoreThanEquals)
    } else if lex == ">"@ {
        Some(TokenView::MoreThan)
    } else if lex == "<="@ {
        Some(TokenView::LessThanEquals)
    } else if lex == "<"@ {
        Some(TokenView::LessThan)
    } else if lex == "+"@ {
        Some(TokenView::Plus)
    } else if lex == "-"@ {
        Some(TokenView::Minus)
    } else if lex == "*"@ {
        Some(TokenView::Times)
    } else if lex == "/"@ {
        Some(TokenView::Divide)
    } else if lex == "%"@ {
        Some(TokenView::Modulo)
    } else {
        None
    }
}

pub open spec fn digit_char(d: int) -> char {
    if d == 0 {
        '0'
    } else if d == 1 {
        '1'
    } else if d == 2 {
        '2'
    } else if d == 3 {
        '3'
    } else if d == 4 {
        '4'
    } else if d == 5 {
        '5'
    } else if d == 6 {
        '6'
    } else if d == 7 {
        '7'
    } else if d == 8 {
        '8'
    } else {
        '9'
    }
}

/// Decimal digits of a natural number, most significant first, without leading zeros.
pub open spec fn digits_of(m: nat) -> Seq<char>
    decreases m,
{
    if m < 10 {
        seq![digit_char(m as int)]
    } else {
        digits_of(m / 10).push(digit_char((m % 10) as int))
    }
}

/// An integer written in decimal, with a leading `-` when it is negative.
pub open spec fn decimal(n: int) -> Seq<char> {
    if n < 0 {
        seq!['-'] + digits_of((-n) as nat)
    } else {
        digits_of(n as nat)
    }
}

/// How a token is written in source text.
pub open spec fn spelling(t: TokenView) -> Seq<char> {
    match t {
        TokenView::Newline => "\n"@,
        TokenView::Print => "PRINT"@,
        TokenView::Input => "INPUT"@,
        TokenView::Let => "LET"@,
        TokenView::If => "IF"@,
        TokenView::Then => "THEN"@,
        TokenView::While => "WHILE"@,
        TokenView::Do => "DO"@,
        TokenView::End => "END"@,
        TokenView::Endif => "ENDIF"@,
        TokenView::Endwhile => "ENDWHILE"@,
        TokenView::And => "AND"@,
        TokenView::Or => "OR"@,
        TokenView::Not => "NOT"@,
        TokenView::Assign => "="@,
        TokenView::Equals => "=="@,
        TokenView::NotEquals => "!="@,
        TokenView::MoreThanEquals => ">="@,
        TokenView::MoreThan => ">"@,
        TokenView::LessThanEquals => "<="@,
        TokenView::LessThan => "<"@,
        TokenView::Plus => "+"@,
        TokenView::Minus => "-"@,
        TokenView::Times => "*"@,
        TokenView::Divide => "/"@,
        TokenView::Modulo => "%"@,
        TokenView::Bool(b) => if b { "true"@ } else { "false"@ },
        TokenView::String(s) => s,
        TokenView::Number(n) => decimal(n as int),
        TokenView::Identifier(s) => s,
    }
}

/// How a token is written in the generated Rust text: as in source text, but
/// for the logical keywords, which become Rust's operators.
pub open spec fn host_text(t: TokenView) -> Seq<char> {
    match t {
        TokenView::And => "&&"@,
        TokenView::Or => "||"@,
        TokenView::Not => "!"@,
        _ => spelling(t),
    }
}

// ---------------------------------------------------------------------------
// Classification of lexemes.

pub open spec fn is_digit(c: char) -> bool {
    '0' <= c && c <= '9'
}

pub open spec fn is_letter_or_underscore(c: char) -> bool {
    ('a' <= c && c <= 'z') || ('A' <= c && c <= 'Z') || c == '_'
}

/// `[A-Za-z_][A-Za-z_0-9]*`
pub open spec fn is_identifier(lex: Seq<char>) -> bool {
    &&& lex.len() > 0
    &&& is_letter_or_underscore(lex[0])
    &&& forall|i: int| 1 <= i < lex.len() ==> is_letter_or_underscore(#[trigger] lex[i]) || is_digit(lex[i])
}

/// A string literal keeps its bounding quotes.
pub open spec fn is_string_literal(lex: Seq<char>) -> bool {
    lex.len() > 0 && lex[0] == '"' && lex.last() == '"'
}

pub open spec fn all_digits(d: Seq<char>) -> bool {
    d.len() > 0 && forall|i: int| 0 <= i < d.len() ==> is_digit(#[trigger] d[i])
}

pub open spec fn digits_value(d: Seq<char>) -> int
    decreases d.len(),
{
    if d.len() == 0 {
        0
    } else {
        10 * digits_value(d.drop_last()) + (d.last() as int - '0' as int)
    }
}

/// The value of a base-10 integer literal: an optional sign, then at least one digit.
pub open spec fn literal_value(lex: Seq<char>) -> Option<int> {
    if lex.len() > 0 && (lex[0] == '+' || lex[0] == '-') {
        if all_digits(lex.drop_first()) {
            if lex[0] == '-' {
                Some(-digits_value(lex.drop_first()))
            } else {
                Some(digits_value(lex.drop_first()))
            }
        } else {
            None
        }
    } else if all_digits(lex) {
        Some(digits_value(lex))
    } else {
        None
    }
}

pub open spec fn is_number_literal(lex: Seq<char>) -> bool {
    &&& literal_value(lex) is Some
    &&& i32::MIN <= literal_value(lex)->0 <= i32::MAX
}

/// The token that a lexeme stands for, tried in a fixed order: keywords and
/// operators, booleans, string literals, 32-bit integers, identifiers.
pub open spec fn classify(lex: Seq<char>) -> Result<TokenView, ErrorView> {
    if word_token(lex) is Some {
        Ok(word_token(lex)->0)
    } else if lex == "true"@ {
        Ok(TokenView::Bool(true))
    } else if lex == "false"@ {
        Ok(TokenView::Bool(false))
    } else if is_string_literal(lex) {
        Ok(TokenView::String(lex))
    } else if is_number_literal(lex) {
        Ok(TokenView::Number(literal_value(lex)->0 as i32))
    } else if is_identifier(lex) {
        Ok(TokenView::Identifier(lex))
    } else {
        Err(ErrorView::Lexical { lexeme: lex })
    }
}

pub open spec fn token_result_view(r: Result<Token, CompileError>) -> Result<TokenView, ErrorView> {
    match r {
        Ok(t) => Ok(t@),
        Err(e) => Err(e@),
    }
}

pub open spec fn tokens_result_view(r: Result<Vec<Token>, CompileError>) -> Result<
    Seq<TokenView>,
    ErrorView,
> {
    match r {
        Ok(ts) => Ok(tokens_view(ts@)),
        Err(e) => Err(e@),
    }
}

// ---------------------------------------------------------------------------
// Scanning a line into lexemes.

pub open spec fn is_separator(c: char) -> bool {
    c == ' ' || c == '\n'
}

/// The lexemes of `s` from position `i` on, in a scanner state: `open` when a
/// lexeme began at `start`, `quoted` when that lexeme is inside a string
/// literal. Outside a string, a space or newline closes a lexeme and `#` ends
/// the line; inside one, every character but `"` belongs to the literal.
pub open spec fn scan(s: Seq<char>, i: int, start: int, open: bool, quoted: bool) -> Seq<Seq<char>>
    decreases s.len() - i,
{
    if i >= s.len() {
        if open {
            seq![s.subrange(start, s.len() as int)]
        } else {
            seq![]
        }
    } else {
        let c = s[i];
        if open && quoted {
            scan(s, i + 1, start, true, c != '"')
        } else if is_separator(c) {
            if open {
                seq![s.subrange(start, i)] + scan(s, i + 1, i + 1, false, false)
            } else {
                scan(s, i + 1, start, false, false)
            }
        } else if c == '#' {
            if open {
                seq![s.subrange(start, i)]
            } else {
                seq![]
            }
        } else if open {
            scan(s, i + 1, start, true, c == '"')
        } else {
            scan(s, i + 1, i, true, c == '"')
        }
    }
}

pub open spec fn lexemes(line: Seq<char>) -> Seq<Seq<char>> {
    scan(line, 0, 0, false, false)
}

/// Classifies lexemes in order; the first that fails decides the error.
pub open spec fn classify_all(ls: Seq<Seq<char>>) -> Result<Seq<TokenView>, ErrorView>
    decreases ls.len(),
{
    if ls.len() == 0 {
        Ok(seq![])
    } else {
        match classify_all(ls.drop_last()) {
            Ok(ts) => match classify(ls.last()) {
                Ok(t) => Ok(ts.push(t)),
                Err(e) => Err(e),
            },
            Err(e) => Err(e),
        }
    }
}

/// The tokens of one line: its lexemes' tokens and a closing `Newline`, or
/// nothing at all for a line without lexemes.
pub open spec fn line_tokens(line: Seq<char>) -> Result<Seq<TokenView>, ErrorView> {
    if lexemes(line).len() == 0 {
        Ok(seq![])
    } else {
        match classify_all(lexemes(line)) {
            Ok(ts) => Ok(ts.push(TokenView::Newline)),
            Err(e) => Err(e),
        }
    }
}

/// A line as `str::lines` yields it: a `\r` before the `\n` is dropped.
pub open spec fn strip_cr(l: Seq<char>) -> Seq<char> {
    if l.len() > 0 && l.last() == '\r' {
        l.drop_last()
    } else {
        l
    }
}

/// The lines of `text` that begin at `start`, with `i` the position reached in the current one.
pub open spec fn lines_from(text: Seq<char>, start: int, i: int) -> Seq<Seq<char>>
    decreases text.len() - i,
{
    if i >= text.len() {
        if start < text.len() {
            seq![text.subrange(start, text.len() as int)]
        } else {
            seq![]
        }
    } else if text[i] == '\n' {
        seq![strip_cr(text.subrange(start, i))] + lines_from(text, i + 1, i + 1)
    } else {
        lines_from(text, start, i + 1)
    }
}

pub open spec fn lines(text: Seq<char>) -> Seq<Seq<char>> {
    lines_from(text, 0, 0)
}

pub open spec fn tokens_of_lines(ls: Seq<Seq<char>>) -> Result<Seq<TokenView>, ErrorView>
    decreases ls.len(),
{
    if ls.len() == 0 {
        Ok(seq![])
    } else {
        match tokens_of_lines(ls.drop_last()) {
            Ok(ts) => match line_tokens(ls.last()) {
                Ok(more) => Ok(ts + more),
                Err(e) => Err(e),
            },
            Err(e) => Err(e),
        }
    }
}

/// The tokens of a whole source text, line after line.
pub open spec fn text_tokens(text: Seq<char>) -> Result<Seq<TokenView>, ErrorView> {
    tokens_of_lines(lines(text))
}

/// The characters of the fixed words and symbols.
proof fn lemma_word_chars()
    ensures
        "\n"@ == seq!['\n'],
        "PRINT"@ == seq!['P', 'R', 'I', 'N', 'T'],
        "INPUT"@ == seq!['I', 'N', 'P', 'U', 'T'],
        "LET"@ == seq!['L', 'E', 'T'],
        "IF"@ == seq!['I', 'F'],
        "THEN"@ == seq!['T', 'H', 'E', 'N'],
        "WHILE"@ == seq!['W', 'H', 'I', 'L', 'E'],
        "DO"@ == seq!['D', 'O'],
        "END"@ == seq!['E', 'N', 'D'],
        "ENDIF"@ == seq!['E', 'N', 'D', 'I', 'F'],
        "ENDWHILE"@ == seq!['E', 'N', 'D', 'W', 'H', 'I', 'L', 'E'],
        "AND"@ == seq!['A', 'N', 'D'],
        "OR"@ == seq!['O', 'R'],
        "NOT"@ == seq!['N', 'O', 'T'],
        "="@ == seq!['='],
        "=="@ == seq!['=', '='],
        "!="@ == seq!['!', '='],
        ">="@ == seq!['>', '='],
        ">"@ == seq!['>'],
        "<="@ == seq!['<', '='],
        "<"@ == seq!['<'],
        "+"@ == seq!['+'],
        "-"@ == seq!['-'],
        "*"@ == seq!['*'],
        "/"@ == seq!['/'],
        "%"@ == seq!['%'],
        "true"@ == seq!['t', 'r', 'u', 'e'],
        "false"@ == seq!['f', 'a', 'l', 's', 'e'],
{
    reveal_strlit("\n");
    assert("\n"@ =~= seq!['\n']);
    reveal_strlit("PRINT");
    assert("PRINT"@ =~= seq!['P', 'R', 'I', 'N', 'T']);
    reveal_strlit("INPUT");
    assert("INPUT"@ =~= seq!['I', 'N', 'P', 'U', 'T']);
    reveal_strlit("LET");
    assert("LET"@ =~= seq!['L', 'E', 'T']);
    reveal_strlit("IF");
    assert("IF"@ =~= seq!['I', 'F']);
    reveal_strlit("THEN");
    assert("THEN"@ =~= seq!['T', 'H', 'E', 'N']);
    reveal_strlit("WHILE");
    assert("WHILE"@ =~= seq!['W', 'H', 'I', 'L', 'E']);
    reveal_strlit("DO");
    assert("DO"@ =~= seq!['D', 'O']);
    reveal_strlit("END");
    assert("END"@ =~= seq!['E', 'N', 'D']);
    reveal_strlit("ENDIF");
    assert("ENDIF"@ =~= seq!['E', 'N', 'D', 'I', 'F']);
    reveal_strlit("ENDWHILE");
    assert("ENDWHILE"@ =~= seq!['E', 'N', 'D', 'W', 'H', 'I', 'L', 'E']);
    reveal_strlit("AND");
    assert("AND"@ =~= seq!['A', 'N', 'D']);
    reveal_strlit("OR");
    assert("OR"@ =~= seq!['O', 'R']);
    reveal_strlit("NOT");
    assert("NOT"@ =~= seq!['N', 'O', 'T']);
    reveal_strlit("=");
    assert("="@ =~= seq!['=']);
    reveal_strlit("==");
    assert("=="@ =~= seq!['=', '=']);
    reveal_strlit("!=");
    assert("!="@ =~= seq!['!', '=']);
    reveal_strlit(">=");
    assert(">="@ =~= seq!['>', '=']);
    reveal_strlit(">");
    assert(">"@ =~= seq!['>']);
    reveal_strlit("<=");
    assert("<="@ =~= seq!['<', '=']);
    reveal_strlit("<");
    assert("<"@ =~= seq!['<']);
    reveal_strlit("+");
    assert("+"@ =~= seq!['+']);
    reveal_strlit("-");
    assert("-"@ =~= seq!['-']);
    reveal_strlit("*");
    assert("*"@ =~= seq!['*']);
    reveal_strlit("/");
    assert("/"@ =~= seq!['/']);
    reveal_strlit("%");
    assert("%"@ =~= seq!['%']);
    reveal_strlit("true");
    assert("true"@ =~= seq!['t', 'r', 'u', 'e']);
    reveal_strlit("false");
    assert("false"@ =~= seq!['f', 'a', 'l', 's', 'e']);
}

/// A lexeme bounded by double quotes is a string literal, whatever it holds between them.
pub proof fn lemma_quoted_lexeme_is_string(lex: Seq<char>)
    requires
        lex.len() > 0,
        lex[0] == '"',
        lex.last() == '"',
    ensures
        classify(lex) == Ok::<TokenView, ErrorView>(TokenView::String(lex)),
{
    lemma_word_chars();
    assert(word_token(lex) is None);
    assert(lex != "true"@);
    assert(lex != "false"@);
}

/// A lexeme that opens a string literal without closing it is a lexical error.
pub proof fn lemma_unterminated_string_is_rejected(lex: Seq<char>)
    requires
        lex.len() > 0,
        lex[0] == '"',
        lex.last() != '"',
    ensures
        classify(lex) == Err::<TokenView, ErrorView>(ErrorView::Lexical { lexeme: lex }),
{
    lemma_word_chars();
    assert(word_token(lex) is None);
    assert(lex != "true"@);
    assert(lex != "false"@);
    assert(!all_digits(lex));
}

// ---------------------------------------------------------------------------
// Writing tokens back as text.

pub open spec fn is_stop(c: char) -> bool {
    is_separator(c) || c == '#'
}

/// Whether `w` holds an odd number of double quotes.
pub open spec fn odd_quotes(w: Seq<char>) -> bool
    decreases w.len(),
{
    if w.len() == 0 {
        false
    } else {
        odd_quotes(w.drop_last()) != (w.last() == '"')
    }
}

/// A lexeme as the scanner cuts one: its first character opens a lexeme, and
/// each later space, newline or `#` stands inside quotes.
pub open spec fn is_lexeme(w: Seq<char>) -> bool {
    &&& w.len() > 0
    &&& !is_stop(w[0])
    &&& forall|j: int| 1 <= j < w.len() ==> odd_quotes(w.take(j)) || !is_stop(#[trigger] w[j])
}

/// Lexemes that a line can hold side by side: only the last may leave a quote open.
pub open spec fn lexeme_list(ls: Seq<Seq<char>>) -> bool {
    forall|k: int|
        0 <= k < ls.len() ==> is_lexeme(#[trigger] ls[k]) && (k + 1 < ls.len() ==> !odd_quotes(ls[k]))
}

/// Texts joined by single spaces.
pub open spec fn spaced(ws: Seq<Seq<char>>) -> Seq<char>
    decreases ws.len(),
{
    if ws.len() == 0 {
        seq![]
    } else if ws.len() == 1 {
        ws[0]
    } else {
        ws[0] + seq![' '] + spaced(ws.drop_first())
    }
}

/// Tokens written as they are spelled, with single spaces between them.
pub open spec fn rendered(ts: Seq<TokenView>) -> Seq<char> {
    spaced(ts.map_values(|t: TokenView| spelling(t)))
}

proof fn lemma_odd_quotes_push(w: Seq<char>, c: char)
    ensures
        odd_quotes(w.push(c)) == (odd_quotes(w) != (c == '"')),
{
    assert(w.push(c).drop_last() =~= w);
}

proof fn lemma_no_quotes(w: Seq<char>)
    requires
        forall|j: int| 0 <= j < w.len() ==> #[trigger] w[j] != '"',
    ensures
        !odd_quotes(w),
    decreases w.len(),
{
    if w.len() > 0 {
        lemma_no_quotes(w.drop_last());
    }
}

proof fn lemma_is_lexeme_push(w: Seq<char>, c: char)
    requires
        is_lexeme(w),
        odd_quotes(w) || !is_stop(c),
    ensures
        is_lexeme(w.push(c)),
{
    let v = w.push(c);
    assert forall|j: int| 1 <= j < v.len() implies odd_quotes(v.take(j)) || !is_stop(#[trigger] v[j]) by {
        if j < w.len() {
            assert(v.take(j) =~= w.take(j));
        } else {
            assert(v.take(j) =~= w);
        }
    }
}

/// Moving the start of the text forward does not change what is scanned after it.
proof fn lemma_scan_shift(s: Seq<char>, i: int, start: int, open: bool, quoted: bool, d: int)
    requires
        0 <= d <= start <= i <= s.len(),
    ensures
        scan(s, i, start, open, quoted) == scan(s.skip(d), i - d, start - d, open, quoted),
    decreases s.len() - i,
{
    let t = s.skip(d);
    if i < s.len() {
        let c = s[i];
        assert(t[i - d] == c);
        assert(s.subrange(start, i) =~= t.subrange(start - d, i - d));
        if open && quoted {
            lemma_scan_shift(s, i + 1, start, true, c != '"', d);
        } else if is_separator(c) {
            if open {
                lemma_scan_shift(s, i + 1, i + 1, false, false, d);
            } else {
                lemma_scan_shift(s, i + 1, start, false, false, d);
            }
        } else if c == '#' {
        } else if open {
            lemma_scan_shift(s, i + 1, start, true, c == '"', d);
        } else {
            lemma_scan_shift(s, i + 1, i, true, c == '"', d);
        }
    } else {
        assert(s.subrange(start, s.len() as int) =~= t.subrange(start - d, t.len() as int));
    }
}

/// Every lexeme the scanner cuts is a lexeme in the sense of `is_lexeme`, and
/// only the last of a line may leave a quote open.
proof fn lemma_scan_lexemes(s: Seq<char>, i: int, start: int, open: bool, quoted: bool)
    requires
        0 <= start <= i <= s.len(),
        open ==> start < i && is_lexeme(s.subrange(start, i)) && quoted == odd_quotes(
            s.subrange(start, i),
        ),
    ensures
        lexeme_list(scan(s, i, start, open, quoted)),
    decreases s.len() - i,
{
    if i < s.len() {
        let c = s[i];
        assert(s.subrange(start, i + 1) =~= s.subrange(start, i).push(c));
        if open && quoted {
            lemma_is_lexeme_push(s.subrange(start, i), c);
            lemma_odd_quotes_push(s.subrange(start, i), c);
            lemma_scan_lexemes(s, i + 1, start, true, c != '"');
        } else if is_separator(c) {
            if open {
                lemma_scan_lexemes(s, i + 1, i + 1, false, false);
                let rest = scan(s, i + 1, i + 1, false, false);
                let all = seq![s.subrange(start, i)] + rest;
                assert forall|k: int| 0 <= k < all.len() implies is_lexeme(#[trigger] all[k]) && (k + 1
                    < all.len() ==> !odd_quotes(all[k])) by {
                    if k > 0 {
                        assert(all[k] == rest[k - 1]);
                    }
                }
            } else {
                lemma_scan_lexemes(s, i + 1, start, false, false);
            }
        } else if c == '#' {
        } else if open {
            lemma_is_lexeme_push(s.subrange(start, i), c);
            lemma_odd_quotes_push(s.subrange(start, i), c);
            lemma_scan_lexemes(s, i + 1, start, true, c == '"');
        } else {
            assert(s.subrange(i, i + 1) =~= seq![c]);
            assert(seq![c].drop_last() =~= Seq::<char>::empty());
            assert(!is_stop(c));
            assert(is_lexeme(seq![c]));
            assert(seq![c] =~= Seq::<char>::empty().push(c));
            lemma_odd_quotes_push(Seq::<char>::empty(), c);
            lemma_scan_lexemes(s, i + 1, i, true, c == '"');
        }
    }
}

/// Scanning through the inside of a lexeme placed at `p` keeps it open, with
/// the quote state of the characters read so far.
proof fn lemma_scan_inside(s: Seq<char>, w: Seq<char>, p: int, j: int)
    requires
        is_lexeme(w),
        0 <= p,
        p + w.len() <= s.len(),
        s.subrange(p, p + w.len()) == w,
        1 <= j <= w.len(),
    ensures
        scan(s, p + 1, p, true, w[0] == '"') == scan(s, p + j, p, true, odd_quotes(w.take(j))),
    decreases j,
{
    if j == 1 {
        assert(w.take(1).drop_last() =~= Seq::<char>::empty());
        assert(w.take(1) =~= Seq::<char>::empty().push(w[0]));
        lemma_odd_quotes_push(Seq::<char>::empty(), w[0]);
    } else {
        lemma_scan_inside(s, w, p, j - 1);
        let c = w[j - 1];
        assert(s.subrange(p, p + w.len())[j - 1] == s[p + j - 1]);
        assert(s[p + j - 1] == c);
        assert(w.take(j) =~= w.take(j - 1).push(c));
        lemma_odd_quotes_push(w.take(j - 1), c);
        let q = odd_quotes(w.take(j - 1));
        assert(q || !is_stop(w[j - 1]));
        assert(scan(s, p + j - 1, p, true, q) == scan(s, p + j, p, true, odd_quotes(w.take(j))));
    }
}

/// Lexemes joined by spaces scan back into the same lexemes.
proof fn lemma_scan_spaced(ws: Seq<Seq<char>>)
    requires
        lexeme_list(ws),
    ensures
        lexemes(spaced(ws)) == ws,
    decreases ws.len(),
{
    if ws.len() == 0 {
        assert(lexemes(spaced(ws)) =~= ws);
    } else {
        let w = ws[0];
        let s = spaced(ws);
        assert(is_lexeme(w));
        if ws.len() == 1 {
            assert(s.subrange(0, w.len() as int) =~= w);
            lemma_scan_inside(s, w, 0, w.len() as int);
            assert(w.take(w.len() as int) =~= w);
            assert(s.subrange(0, s.len() as int) =~= w);
            assert(lexemes(s) =~= ws);
        } else {
            let rest = ws.drop_first();
            let t = spaced(rest);
            assert(s == w + seq![' '] + t);
            assert(s.subrange(0, w.len() as int) =~= w);
            lemma_scan_inside(s, w, 0, w.len() as int);
            assert(w.take(w.len() as int) =~= w);
            assert(!odd_quotes(w));
            assert(s[w.len() as int] == ' ');
            let n = w.len() + 1;
            lemma_scan_shift(s, n as int, n as int, false, false, n as int);
            assert(s.skip(n as int) =~= t);
            assert forall|k: int| 0 <= k < rest.len() implies is_lexeme(#[trigger] rest[k]) && (k + 1
                < rest.len() ==> !odd_quotes(rest[k])) by {
                assert(rest[k] == ws[k + 1]);
            }
            lemma_scan_spaced(rest);
            assert(lexemes(s) =~= ws);
        }
    }
}

proof fn lemma_digit_char(d: int)
    requires
        0 <= d < 10,
    ensures
        is_digit(digit_char(d)),
        digit_char(d) as int - '0' as int == d,
{
}

proof fn lemma_digits_of(m: nat)
    ensures
        digits_of(m).len() > 0,
        all_digits(digits_of(m)),
        digits_value(digits_of(m)) == m,
    decreases m,
{
    lemma_digit_char((m % 10) as int);
    if m >= 10 {
        lemma_digits_of(m / 10);
        let d = digits_of(m / 10);
        assert(digits_of(m).drop_last() =~= d);
        assert(digits_of(m) == d.push(digit_char((m % 10) as int)));
        assert forall|j: int| 0 <= j < digits_of(m).len() implies is_digit(#[trigger] digits_of(m)[j]) by {
            if j < d.len() {
                assert(digits_of(m)[j] == d[j]);
            }
        }
    } else {
        assert(digits_of(m).drop_last() =~= Seq::<char>::empty());
        assert(digits_value(Seq::<char>::empty()) == 0);
        assert(m % 10 == m);
    }
}

/// A number written in decimal reads back as the same number.
proof fn lemma_decimal(v: i32)
    ensures
        is_lexeme(decimal(v as int)),
        !odd_quotes(decimal(v as int)),
        classify(decimal(v as int)) == Ok::<TokenView, ErrorView>(TokenView::Number(v)),
{
    let w = decimal(v as int);
    if v < 0 {
        lemma_digits_of((-v) as nat);
        assert(w.drop_first() =~= digits_of((-v) as nat));
        assert(forall|j: int| 1 <= j < w.len() ==> #[trigger] w[j] == w.drop_first()[j - 1]);
    } else {
        lemma_digits_of(v as nat);
    }
    assert(forall|j: int| 0 <= j < w.len() ==> #[trigger] w[j] == '-' || is_digit(w[j]));
    lemma_no_quotes(w);
    lemma_word_chars();
    assert(word_token(w) is None);
    assert(w != "true"@);
    assert(w != "false"@);
}

/// The spelling of a token that a lexeme stands for is itself a lexeme for the same token.
proof fn lemma_spelling_of_lexeme(lx: Seq<char>)
    requires
        is_lexeme(lx),
        classify(lx) is Ok,
    ensures
        is_lexeme(spelling(classify(lx)->Ok_0)),
        odd_quotes(spelling(classify(lx)->Ok_0)) ==> odd_quotes(lx),
        classify(spelling(classify(lx)->Ok_0)) == classify(lx),
{
    let t = classify(lx)->Ok_0;
    if word_token(lx) is Some {
        assert(spelling(t) == lx);
    } else if lx == "true"@ || lx == "false"@ {
        assert(spelling(t) == lx);
    } else if is_string_literal(lx) {
    } else if is_number_literal(lx) {
        lemma_decimal(t->Number_0);
    } else {
    }
}

proof fn lemma_classify_all_parts(ls: Seq<Seq<char>>)
    requires
        classify_all(ls) is Ok,
    ensures
        classify_all(ls)->Ok_0.len() == ls.len(),
        forall|k: int|
            0 <= k < ls.len() ==> classify(#[trigger] ls[k]) == Ok::<TokenView, ErrorView>(
                classify_all(ls)->Ok_0[k],
            ),
    decreases ls.len(),
{
    if ls.len() > 0 {
        let front = ls.drop_last();
        lemma_classify_all_parts(front);
        assert forall|k: int| 0 <= k < ls.len() implies classify(#[trigger] ls[k]) == Ok::<
            TokenView,
            ErrorView,
        >(classify_all(ls)->Ok_0[k]) by {
            if k < ls.len() - 1 {
                assert(front[k] == ls[k]);
            }
        }
    }
}

proof fn lemma_classify_all_from_parts(ls: Seq<Seq<char>>, ts: Seq<TokenView>)
    requires
        ls.len() == ts.len(),
        forall|k: int| 0 <= k < ls.len() ==> classify(#[trigger] ls[k]) == Ok::<TokenView, ErrorView>(ts[k]),
    ensures
        classify_all(ls) == Ok::<Seq<TokenView>, ErrorView>(ts),
    decreases ls.len(),
{
    if ls.len() == 0 {
        assert(ts =~= seq![]);
    } else {
        let front = ls.drop_last();
        assert forall|k: int| 0 <= k < front.len() implies classify(#[trigger] front[k]) == Ok::<
            TokenView,
            ErrorView,
        >(ts.drop_last()[k]) by {
            assert(front[k] == ls[k]);
        }
        lemma_classify_all_from_parts(front, ts.drop_last());
        assert(ts.drop_last().push(ts.last()) =~= ts);
    }
}

/// Writing the tokens of a line as they are spelled, with single spaces
/// between them, gives a line with the same tokens.
pub proof fn lemma_line_round_trip(line: Seq<char>)
    requires
        line_tokens(line) is Ok,
    ensures
        line_tokens(rendered(classify_all(lexemes(line))->Ok_0)) == line_tokens(line),
{
    let ls = lexemes(line);
    if ls.len() == 0 {
        assert(classify_all(ls) == Ok::<Seq<TokenView>, ErrorView>(seq![]));
    }
    lemma_scan_lexemes(line, 0, 0, false, false);
    lemma_classify_all_parts(ls);
    let ts = classify_all(ls)->Ok_0;
    let ms = ts.map_values(|t: TokenView| spelling(t));
    assert forall|k: int| 0 <= k < ls.len() implies #[trigger] ms[k] == spelling(ts[k]) && is_lexeme(ms[k])
        && (odd_quotes(ms[k]) ==> odd_quotes(ls[k])) && classify(ms[k]) == Ok::<TokenView, ErrorView>(ts[k]) by {
        assert(is_lexeme(ls[k]));
        lemma_spelling_of_lexeme(ls[k]);
    }
    assert forall|k: int| 0 <= k < ms.len() implies is_lexeme(#[trigger] ms[k]) && (k + 1 < ms.len()
        ==> !odd_quotes(ms[k])) by {
        assert(is_lexeme(ls[k]));
    }
    lemma_scan_spaced(ms);
    lemma_classify_all_from_parts(ms, ts);
}

proof fn lemma_scan_comment(code: Seq<char>, comment: Seq<char>, i: int, start: int, open: bool, quoted: bool)
    requires
        forall|j: int| 0 <= j < code.len() ==> #[trigger] code[j] != '#',
        !odd_quotes(code),
        0 <= start <= i <= code.len(),
        odd_quotes(code.take(i)) == (open && quoted),
    ensures
        scan(code + seq!['#'] + comment, i, start, open, quoted) == scan(code, i, start, open, quoted),
    decreases code.len() - i,
{
    let s = code + seq!['#'] + comment;
    if i < code.len() {
        let c = code[i];
        assert(s[i] == c);
        assert(s.subrange(start, i) =~= code.subrange(start, i));
        assert(code.take(i + 1) =~= code.take(i).push(c));
        lemma_odd_quotes_push(code.take(i), c);
        if open && quoted {
            lemma_scan_comment(code, comment, i + 1, start, true, c != '"');
        } else if is_separator(c) {
            if open {
                lemma_scan_comment(code, comment, i + 1, i + 1, false, false);
            } else {
                lemma_scan_comment(code, comment, i + 1, start, false, false);
            }
        } else if open {
            lemma_scan_comment(code, comment, i + 1, start, true, c == '"');
        } else {
            lemma_scan_comment(code, comment, i + 1, i, true, c == '"');
        }
    } else {
        assert(code.take(i) =~= code);
        assert(s[i] == '#');
        assert(s.subrange(start, i) =~= code.subrange(start, code.len() as int));
    }
}

/// Whatever follows a `#` that stands outside quotes leaves a line's tokens unchanged.
pub proof fn lemma_comment_is_ignored(code: Seq<char>, comment: Seq<char>)
    requires
        forall|j: int| 0 <= j < code.len() ==> #[trigger] code[j] != '#',
        !odd_quotes(code),
    ensures
        line_tokens(code + seq!['#'] + comment) == line_tokens(code),
{
    assert(code.take(0) =~= Seq::<char>::empty());
    lemma_scan_comment(code, comment, 0, 0, false, false);
}

// ---------------------------------------------------------------------------
// Executable part.

fn chars_of(s: &str) -> (r: Vec<char>)
    ensures
        r@ == s@,
{
    let mut out: Vec<char> = Vec::new();
    for c in it: s.chars()
        invariant
            out@ == it.seq().take(it.index() as int),
    {
        out.push(c);
    }
    out
}

fn same_text(chars: &Vec<char>, word: &str) -> (r: bool)
    ensures
        r == (chars@ == word@),
{
    let n = word.unicode_len();
    if chars.len() != n {
        return false;
    }
    let mut i: usize = 0;
    while i < n
        invariant
            n == word@.len(),
            chars@.len() == n,
            i <= n,
            forall|j: int| 0 <= j < i ==> chars@[j] == word@[j],
        decreases n - i,
    {
        if chars[i] != word.get_char(i) {
            return false;
        }
        i += 1;
    }
    assert(chars@ =~= word@);
    true
}

proof fn lemma_digits_prefix(d: Seq<char>, j: int)
    requires
        0 < j <= d.len(),
    ensures
        digits_value(d.take(j)) == 10 * digits_value(d.take(j - 1)) + (d[j - 1] as int - '0' as int),
{
    assert(d.take(j).drop_last() =~= d.take(j - 1));
}

proof fn lemma_digits_value_nonnegative(d: Seq<char>)
    requires
        forall|i: int| 0 <= i < d.len() ==> is_digit(#[trigger] d[i]),
    ensures
        0 <= digits_value(d),
    decreases d.len(),
{
    if d.len() > 0 {
        lemma_digits_value_nonnegative(d.drop_last());
        assert(is_digit(d[d.len() - 1]));
    }
}

proof fn lemma_digits_value_grows(d: Seq<char>, j: int)
    requires
        forall|i: int| 0 <= i < d.len() ==> is_digit(#[trigger] d[i]),
        0 <= j <= d.len(),
    ensures
        digits_value(d.take(j)) <= digits_value(d),
    decreases d.len() - j,
{
    if j == d.len() {
        assert(d.take(j) =~= d);
    } else {
        lemma_digits_value_grows(d, j + 1);
        lemma_digits_prefix(d, j + 1);
        lemma_digits_value_nonnegative(d.take(j));
        assert(is_digit(d[j]));
    }
}

fn digit_text(d: u32) -> (r: &'static str)
    requires
        d < 10,
    ensures
        r@ == seq![digit_char(d as int)],
{
    proof {
        reveal_strlit("0");
        reveal_strlit("1");
        reveal_strlit("2");
        reveal_strlit("3");
        reveal_strlit("4");
        reveal_strlit("5");
        reveal_strlit("6");
        reveal_strlit("7");
        reveal_strlit("8");
        reveal_strlit("9");
    }
    let r = if d == 0 {
        "0"
    } else if d == 1 {
        "1"
    } else if d == 2 {
        "2"
    } else if d == 3 {
        "3"
    } else if d == 4 {
        "4"
    } else if d == 5 {
        "5"
    } else if d == 6 {
        "6"
    } else if d == 7 {
        "7"
    } else if d == 8 {
        "8"
    } else {
        "9"
    };
    assert(r@ =~= seq![digit_char(d as int)]);
    r
}

fn append_digits(out: &mut String, m: u32)
    ensures
        final(out)@ == old(out)@ + digits_of(m as nat),
    decreases m,
{
    if m >= 10 {
        append_digits(out, m / 10);
    }
    out.append(digit_text(m % 10));
    proof {
        if m >= 10 {
            assert(digits_of(m as nat) == digits_of((m / 10) as nat).push(digit_char((m % 10) as int)));
        }
    }
    assert(out@ =~= old(out)@ + digits_of(m as nat));
}

fn decimal_string(n: i32) -> (r: String)
    ensures
        r@ == decimal(n as int),
{
    let mut out = String::new();
    if n < 0 {
        proof {
            reveal_strlit("-");
        }
        out.append("-");
        let m: u32 = (0i64 - n as i64) as u32;
        append_digits(&mut out, m);
        assert(out@ =~= decimal(n as int));
    } else {
        append_digits(&mut out, n as u32);
        assert(out@ =~= decimal(n as int));
    }
    out
}

/// Unit struct that groups the tokenizer's functions.
pub struct Lexer {}

impl Lexer {
    /// Tokenizes a whole source text, line by line. Lines without lexemes
    /// contribute nothing; every other line ends with a `Newline` token.
    pub fn tokenize(contents: String) -> (r: Result<Vec<Token>, CompileError>)
        ensures
            tokens_result_view(r) == text_tokens(contents@),
    {
        let text = contents.as_str();
        let chars = chars_of(text);
        let n = chars.len();
        let mut out: Vec<Token> = Vec::new();
        let ghost mut done: Seq<Seq<char>> = seq![];
        let mut start: usize = 0;
        let mut i: usize = 0;
        assert(tokens_view(out@) =~= seq![]);
        assert(done + lines_from(text@, 0, 0) =~= lines(text@));
        while i < n
            invariant
                chars@ == text@,
                text@ == contents@,
                n == chars@.len(),
                start <= i <= n,
                done + lines_from(text@, start as int, i as int) == lines(text@),
                tokens_of_lines(done) == Ok::<Seq<TokenView>, ErrorView>(tokens_view(out@)),
            decreases n - i,
        {
            if chars[i] == '\n' {
                let end = if i > start && chars[i - 1] == '\r' {
                    i - 1
                } else {
                    i
                };
                let line = text.substring_char(start, end);
                proof {
                    assert(line@ =~= strip_cr(text@.subrange(start as int, i as int)));
                }
                let more = Self::tokenize_line(line);
                proof {
                    assert((done + seq![line@]).drop_last() =~= done);
                    assert(done + lines_from(text@, start as int, i as int) =~= (done + seq![line@])
                        + lines_from(text@, i + 1, i + 1));
                }
                match more {
                    Ok(ts) => {
                        let ghost before = out@;
                        let ghost added = ts@;
                        let mut ts = ts;
                        out.append(&mut ts);
                        proof {
                            assert(tokens_view(out@) =~= tokens_view(before) + tokens_view(added));
                        }
                        proof {
                            done = done + seq![line@];
                        }
                    },
                    Err(e) => {
                        proof {
                            lemma_tokens_of_lines_error(done, seq![line@], lines_from(text@, i + 1, i + 1));
                        }
                        return Err(e);
                    },
                }
                start = i + 1;
            }
            i += 1;
        }
        if start < n {
            let line = text.substring_char(start, n);
            let more = Self::tokenize_line(line);
            proof {
                assert((done + seq![line@]).drop_last() =~= done);
                assert(lines_from(text@, start as int, n as int) =~= seq![line@]);
            }
            match more {
                Ok(ts) => {
                    let ghost before = out@;
                    let ghost added = ts@;
                    let mut ts = ts;
                    out.append(&mut ts);
                    proof {
                        assert(tokens_view(out@) =~= tokens_view(before) + tokens_view(added));
                    }
                },
                Err(e) => {
                    return Err(e);
                },
            }
        } else {
            assert(done =~= lines(text@));
        }
        Ok(out)
    }

    /// Tokenizes one line.
    pub fn tokenize_line(line: &str) -> (r: Result<Vec<Token>, CompileError>)
        ensures
            tokens_result_view(r) == line_tokens(line@),
    {
        let chars = chars_of(line);
        let n = chars.len();
        let mut spans: Vec<(usize, usize)> = Vec::new();
        let mut i: usize = 0;
        let mut start: usize = 0;
        let mut open = false;
        let mut quoted = false;
        let mut comment = false;
        while i < n && !comment
            invariant
                chars@ == line@,
                n == chars@.len(),
                i <= n,
                start <= i,
                open || !quoted,
                forall|k: int| 0 <= k < spans@.len() ==> (#[trigger] spans@[k]).0 <= spans@[k].1 <= n,
                spans_text(line@, spans@) + (if comment {
                    seq![]
                } else {
                    scan(line@, i as int, start as int, open, quoted)
                }) == lexemes(line@),
            decreases n - i,
        {
            let c = chars[i];
            if open && quoted {
                quoted = c != '"';
            } else if c == ' ' || c == '\n' {
                if open {
                    proof {
                        lemma_spans_push(line@, spans@, start as int, i as int);
                    }
                    spans.push((start, i));
                    open = false;
                    start = i + 1;
                }
            } else if c == '#' {
                if open {
                    proof {
                        lemma_spans_push(line@, spans@, start as int, i as int);
                    }
                    spans.push((start, i));
                    open = false;
                }
                comment = true;
            } else if !open {
                open = true;
                start = i;
                quoted = c == '"';
            } else {
                quoted = c == '"';
            }
            i += 1;
        }
        if !comment && open {
            proof {
                lemma_spans_push(line@, spans@, start as int, n as int);
            }
            spans.push((start, n));
        }
        proof {
            if !comment {
                assert(scan(line@, i as int, start as int, false, quoted) == Seq::<Seq<char>>::empty());
            }
        }
        let ghost ls = spans_text(line@, spans@);
        assert(ls =~= lexemes(line@));
        let mut out: Vec<Token> = Vec::new();
        assert(tokens_view(out@) =~= seq![]);
        if spans.len() == 0 {
            return Ok(out);
        }
        assert(ls.take(0) =~= seq![]);
        let mut k: usize = 0;
        while k < spans.len()
            invariant
                chars@ == line@,
                ls == spans_text(line@, spans@),
                ls == lexemes(line@),
                k <= spans@.len(),
                forall|j: int| 0 <= j < spans@.len() ==> (#[trigger] spans@[j]).0 <= spans@[j].1 <= line@.len(),
                classify_all(ls.take(k as int)) == Ok::<Seq<TokenView>, ErrorView>(tokens_view(out@)),
            decreases spans@.len() - k,
        {
            let (a, b) = spans[k];
            let lexeme = line.substring_char(a, b);
            let t = Self::identify_token(lexeme);
            proof {
                assert(ls.take(k + 1).drop_last() =~= ls.take(k as int));
                assert(ls[k as int] == lexeme@);
            }
            match t {
                Ok(t) => {
                    let ghost before = out@;
                    let ghost tv = t@;
                    out.push(t);
                    proof {
                        assert(tokens_view(out@) =~= tokens_view(before).push(tv));
                    }
                },
                Err(e) => {
                    proof {
                        lemma_classify_all_error(ls, k as int);
                    }
                    return Err(e);
                },
            }
            k += 1;
        }
        assert(ls.take(k as int) =~= ls);
        let ghost before = out@;
        out.push(Token::Newline);
        proof {
            assert(tokens_view(out@) =~= tokens_view(before).push(TokenView::Newline));
        }
        Ok(out)
    }

    /// Recognizes a fixed word or symbol.
    fn identify_word(chars: &Vec<char>) -> (r: Option<Token>)
        ensures
            option_view(r) == word_token(chars@),
    {
        if same_text(chars, "\n") {
            Some(Token::Newline)
        } else if same_text(chars, "PRINT") {
            Some(Token::Print)
        } else if same_text(chars, "INPUT") {
            Some(Token::Input)
        } else if same_text(chars, "LET") {
            Some(Token::Let)
        } else if same_text(chars, "IF") {
            Some(Token::If)
        } else if same_text(chars, "THEN") {
            Some(Token::Then)
        } else if same_text(chars, "WHILE") {
            Some(Token::While)
        } else if same_text(chars, "DO") {
            Some(Token::Do)
        } else if same_text(chars, "END") {
            Some(Token::End)
        } else if same_text(chars, "ENDIF") {
            Some(Token::Endif)
        } else if same_text(chars, "ENDWHILE") {
            Some(Token::Endwhile)
        } else if same_text(chars, "AND") {
            Some(Token::And)
        } else if same_text(chars, "OR") {
            Some(Token::Or)
        } else if same_text(chars, "NOT") {
            Some(Token::Not)
        } else if same_text(chars, "=") {
            Some(Token::Assign)
        } else if same_text(chars, "==") {
            Some(Token::Equals)
        } else if same_text(chars, "!=") {
            Some(Token::NotEquals)
        } else if same_text(chars, ">=") {
            Some(Token::MoreThanEquals)
        } else if same_text(chars, ">") {
            Some(Token::MoreThan)
        } else if same_text(chars, "<=") {
            Some(Token::LessThanEquals)
        } else if same_text(chars, "<") {
            Some(Token::LessThan)
        } else if same_text(chars, "+") {
            Some(Token::Plus)
        } else if same_text(chars, "-") {
            Some(Token::Minus)
        } else if same_text(chars, "*") {
            Some(Token::Times)
        } else if same_text(chars, "/") {
            Some(Token::Divide)
        } else if same_text(chars, "%") {
            Some(Token::Modulo)
        } else {
            None
        }
    }

    fn is_valid_identifier(chars: &Vec<char>) -> (r: bool)
        ensures
            r == is_identifier(chars@),
    {
        if chars.len() == 0 {
            return false;
        }
        let first = chars[0];
        if !(('a' <= first && first <= 'z') || ('A' <= first && first <= 'Z') || first == '_') {
            return false;
        }
        let mut i: usize = 1;
        while i < chars.len()
            invariant
                1 <= i <= chars@.len(),
                forall|j: int|
                    1 <= j < i ==> is_letter_or_underscore(#[trigger] chars@[j]) || is_digit(chars@[j]),
            decreases chars@.len() - i,
        {
            let c = chars[i];
            if !(('a' <= c && c <= 'z') || ('A' <= c && c <= 'Z') || c == '_' || ('0' <= c && c
                <= '9')) {
                return false;
            }
            i += 1;
        }
        true
    }

    /// The value of a base-10 integer literal that fits in 32 bits.
    fn number_value(chars: &Vec<char>) -> (r: Option<i32>)
        ensures
            r is Some <==> is_number_literal(chars@),
            r is Some ==> r->0 as int == literal_value(chars@)->0,
    {
        let n = chars.len();
        if n == 0 {
            return None;
        }
        let signed = chars[0] == '+' || chars[0] == '-';
        let negative = chars[0] == '-';
        let first: usize = if signed {
            1
        } else {
            0
        };
        if first == n {
            return None;
        }
        let ghost d = chars@.skip(first as int);
        assert(signed ==> d =~= chars@.drop_first());
        assert(!signed ==> d =~= chars@);
        let mut value: u64 = 0;
        let mut i: usize = first;
        while i < n
            invariant
                first <= i <= n,
                0 < n,
                first < n,
                signed == (chars@[0] == '+' || chars@[0] == '-'),
                negative == (chars@[0] == '-'),
                first == (if signed { 1usize } else { 0usize }),
                signed ==> d == chars@.drop_first(),
                !signed ==> d == chars@,
                d == chars@.skip(first as int),
                n == chars@.len(),
                forall|j: int| 0 <= j < i - first ==> is_digit(#[trigger] d[j]),
                value == digits_value(d.take(i - first)),
                value <= 2147483648,
            decreases n - i,
        {
            let c = chars[i];
            assert(d[i - first] == c);
            if !('0' <= c && c <= '9') {
                assert(!is_digit(d[i - first]));
                assert(!all_digits(d));
                assert(literal_value(chars@) is None);
                return None;
            }
            proof {
                lemma_digits_prefix(d, i - first + 1);
            }
            let next: u64 = value * 10 + (c as u64 - '0' as u64);
            if next > 2147483648 {
                proof {
                    assert forall|j: int| 0 <= j < i - first + 1 implies is_digit(#[trigger] d[j]) by {
                        if j == i - first {
                            assert(d[j] == c);
                        }
                    }
                    if all_digits(d) {
                        lemma_digits_value_grows(d, i - first + 1);
                        assert(digits_value(d) > 2147483648);
                    }
                    assert(!is_number_literal(chars@));
                }
                return None;
            }
            value = next;
            i += 1;
        }
        assert(d.take(n - first) =~= d);
        if negative {
            Some((0i64 - value as i64) as i32)
        } else if value <= 2147483647 {
            Some(value as i32)
        } else {
            None
        }
    }

    fn is_valid_string_literal(chars: &Vec<char>) -> (r: bool)
        ensures
            r == is_string_literal(chars@),
    {
        chars.len() > 0 && chars[0] == '"' && chars[chars.len() - 1] == '"'
    }

    /// Classifies one lexeme.
    pub fn identify_token(lexeme: &str) -> (r: Result<Token, CompileError>)
        ensures
            token_result_view(r) == classify(lexeme@),
    {
        let chars = chars_of(lexeme);
        if let Some(t) = Self::identify_word(&chars) {
            return Ok(t);
        }
        if same_text(&chars, "true") {
            return Ok(Token::Bool(true));
        }
        if same_text(&chars, "false") {
            return Ok(Token::Bool(false));
        }
        if Self::is_valid_string_literal(&chars) {
            return Ok(Token::String(lexeme.to_owned()));
        }
        if let Some(v) = Self::number_value(&chars) {
            return Ok(Token::Number(v));
        }
        if Self::is_valid_identifier(&chars) {
            return Ok(Token::Identifier(lexeme.to_owned()));
        }
        Err(CompileError::Lexical { lexeme: lexeme.to_owned() })
    }

    /// The token's text in the generated Rust program.
    pub fn convert_token_to_string(token: Token) -> (r: String)
        ensures
            r@ == host_text(token@),
    {
        match token {
            Token::Newline => String::from_str("\n"),
            Token::Print => String::from_str("PRINT"),
            Token::Input => String::from_str("INPUT"),
            Token::Let => String::from_str("LET"),
            Token::If => String::from_str("IF"),
            Token::Then => String::from_str("THEN"),
            Token::While => String::from_str("WHILE"),
            Token::Do => String::from_str("DO"),
            Token::End => String::from_str("END"),
            Token::Endif => String::from_str("ENDIF"),
            Token::Endwhile => String::from_str("ENDWHILE"),
            Token::And => String::from_str("&&"),
            Token::Or => String::from_str("||"),
            Token::Not => String::from_str("!"),
            Token::Assign => String::from_str("="),
            Token::Equals => String::from_str("=="),
            Token::NotEquals => String::from_str("!="),
            Token::MoreThanEquals => String::from_str(">="),
            Token::MoreThan => String::from_str(">"),
            Token::LessThanEquals => String::from_str("<="),
            Token::LessThan => String::from_str("<"),
            Token::Plus => String::from_str("+"),
            Token::Minus => String::from_str("-"),
            Token::Times => String::from_str("*"),
            Token::Divide => String::from_str("/"),
            Token::Modulo => String::from_str("%"),
            Token::Bool(true) => String::from_str("true"),
            Token::Bool(false) => String::from_str("false"),
            Token::String(value) => value,
            Token::Number(value) => decimal_string(value),
            Token::Identifier(value) => value,
        }
    }

    pub fn is_operator(token: &Token) -> (r: bool)
        ensures
            r == is_operator_spec(token@),
    {
        Self::is_equality_operator(token) || Self::is_logic_condition_operator(token)
            || Self::is_numeric_operator(token)
    }

    pub fn is_some_equality_operator(token: Option<&Token>) -> (r: bool)
        ensures
            r == (token is Some && is_equality_operator_spec(token->0@)),
    {
        match token {
            Some(t) => Self::is_equality_operator(t),
            None => false,
        }
    }

    pub fn is_equality_operator(token: &Token) -> (r: bool)
        ensures
            r == is_equality_operator_spec(token@),
    {
        matches!(token, Token::Equals | Token::NotEquals | Token::MoreThanEquals | Token::MoreThan | Token::LessThanEquals | Token::LessThan)
    }

    pub fn is_some_logic_condition_operator(token: Option<&Token>) -> (r: bool)
        ensures
            r == (token is Some && is_logic_condition_operator_spec(token->0@)),
    {
        match token {
            Some(t) => Self::is_logic_condition_operator(t),
            None => false,
        }
    }

    pub fn is_logic_condition_operator(token: &Token) -> (r: bool)
        ensures
            r == is_logic_condition_operator_spec(token@),
    {
        matches!(token, Token::And | Token::Or)
    }

    pub fn is_numeric_operator(token: &Token) -> (r: bool)
        ensures
            r == is_numeric_operator_spec(token@),
    {
        matches!(token, Token::Plus | Token::Minus | Token::Times | Token::Divide | Token::Modulo)
    }

    pub fn is_operand(token: &Token) -> (r: bool)
        ensures
            r == is_operand_spec(token@),
    {
        matches!(token, Token::Bool(_) | Token::String(_) | Token::Number(_) | Token::Identifier(_))
    }

    pub fn is_sign(token: &Token) -> (r: bool)
        ensures
            r == is_sign_spec(token@),
    {
        matches!(token, Token::Plus | Token::Minus)
    }
}

pub open spec fn option_view(t: Option<Token>) -> Option<TokenView> {
    match t {
        Some(t) => Some(t@),
        None => None,
    }
}

/// The texts of a list of spans of `s`.
pub open spec fn spans_text(s: Seq<char>, spans: Seq<(usize, usize)>) -> Seq<Seq<char>> {
    spans.map_values(|p: (usize, usize)| s.subrange(p.0 as int, p.1 as int))
}

proof fn lemma_spans_push(s: Seq<char>, spans: Seq<(usize, usize)>, a: int, b: int)
    requires
        0 <= a <= b <= usize::MAX,
    ensures
        spans_text(s, spans.push((a as usize, b as usize))) == spans_text(s, spans).push(
            s.subrange(a, b),
        ),
{
    assert(spans_text(s, spans.push((a as usize, b as usize))) =~= spans_text(s, spans).push(
        s.subrange(a, b),
    ));
}

proof fn lemma_classify_all_error(ls: Seq<Seq<char>>, k: int)
    requires
        0 <= k < ls.len(),
        classify_all(ls.take(k)) is Ok,
        classify(ls[k]) is Err,
    ensures
        classify_all(ls) == Err::<Seq<TokenView>, ErrorView>(classify(ls[k])->Err_0),
    decreases ls.len() - k,
{
    assert(ls.take(k + 1).drop_last() =~= ls.take(k));
    if k + 1 == ls.len() {
        assert(ls.take(k + 1) =~= ls);
    } else {
        lemma_classify_all_error_extends(ls, k + 1);
    }
}

/// Once a prefix of the lexemes fails, every longer prefix fails the same way.
proof fn lemma_classify_all_error_extends(ls: Seq<Seq<char>>, k: int)
    requires
        0 < k <= ls.len(),
        classify_all(ls.take(k)) is Err,
    ensures
        classify_all(ls) == classify_all(ls.take(k)),
    decreases ls.len() - k,
{
    if k == ls.len() {
        assert(ls.take(k) =~= ls);
    } else {
        assert(ls.take(k + 1).drop_last() =~= ls.take(k));
        lemma_classify_all_error_extends(ls, k + 1);
    }
}

proof fn lemma_tokens_of_lines_error(done: Seq<Seq<char>>, line: Seq<Seq<char>>, rest: Seq<Seq<char>>)
    requires
        line.len() == 1,
        tokens_of_lines(done) is Ok,
        line_tokens(line[0]) is Err,
    ensures
        tokens_of_lines(done + line + rest) == Err::<Seq<TokenView>, ErrorView>(
            line_tokens(line[0])->Err_0,
        ),
    decreases rest.len(),
{
    if rest.len() == 0 {
        assert(done + line + rest =~= done + line);
        assert((done + line).drop_last() =~= done);
    } else {
        assert((done + line + rest).drop_last() =~= done + line + rest.drop_last());
        lemma_tokens_of_lines_error(done, line, rest.drop_last());
    }
}

} // verus!
