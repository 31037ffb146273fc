use vstd::prelude::*;

use crate::error::{CompileError, ErrorView, Expectation, option_token_view};
use crate::lexer::{
    Lexer,
    Token,
    is_equality_operator_spec,
    is_logic_condition_operator_spec,
    is_numeric_operator_spec,
    is_sign_spec,
};

verus! {

// ---------------------------------------------------------------------------
// Trees.

/// A side of a condition: a single token, or a nested operation.
#[derive(PartialEq, Debug)]
pub enum Operand {
    Value { value: Token },
    Operation { operation: Box<Operation> },
}

/// A condition node: left operand, operator, right operand, each optional.
#[derive(PartialEq, Debug)]
pub struct Operation {
    pub operand_left: Option<Operand>,
    pub operator: Option<Token>,
    pub operand_right: Option<Operand>,
}

#[derive(PartialEq, Debug)]
pub struct Condition {
    pub operation: Operation,
}

/// A side of an arithmetic expression: a value with an optional sign, or a
/// nested expression.
#[derive(PartialEq, Debug)]
pub enum Term {
    Value { sign: Option<Token>, value: Token },
    Operation { operation: Box<Expression> },
}

/// An expression node: left term, operator, right term, each optional.
#[derive(PartialEq, Debug)]
pub struct Expression {
    pub left: Option<Term>,
    pub numeric_operator: Option<Token>,
    pub right: Option<Term>,
}

pub open spec fn optional_token(t: Option<Token>) -> Seq<Token> {
    match t {
        Some(t) => seq![t],
        None => seq![],
    }
}

/// The tokens of an operation, left to right.
pub open spec fn operation_tokens(o: Operation) -> Seq<Token>
    decreases o,
{
    operand_tokens(o.operand_left) + optional_token(o.operator) + operand_tokens(o.operand_right)
}

pub open spec fn operand_tokens(o: Option<Operand>) -> Seq<Token>
    decreases o,
{
    match o {
        None => seq![],
        Some(Operand::Value { value }) => seq![value],
        Some(Operand::Operation { operation }) => operation_tokens(*operation),
    }
}

/// The tokens of an expression, left to right.
pub open spec fn expression_tokens(e: Expression) -> Seq<Token>
    decreases e,
{
    term_tokens(e.left) + optional_token(e.numeric_operator) + term_tokens(e.right)
}

pub open spec fn term_tokens(t: Option<Term>) -> Seq<Token>
    decreases t,
{
    match t {
        None => seq![],
        Some(Term::Value { sign, value }) => optional_token(sign) + seq![value],
        Some(Term::Operation { operation }) => expression_tokens(*operation),
    }
}

/// The condition tree of a token slice: its first token on the left, its
/// second as the operator, and on the right its third token when nothing
/// follows, or the tree of the rest.
pub open spec fn operation_of(s: Seq<Token>) -> Operation
    decreases s.len(),
{
    if s.len() == 0 {
        Operation { operand_left: None, operator: None, operand_right: None }
    } else if s.len() == 1 {
        Operation { operand_left: Some(Operand::Value { value: s[0] }), operator: None, operand_right: None }
    } else if s.len() == 2 {
        Operation {
            operand_left: Some(Operand::Value { value: s[0] }),
            operator: Some(s[1]),
            operand_right: None,
        }
    } else if s.len() == 3 {
        Operation {
            operand_left: Some(Operand::Value { value: s[0] }),
            operator: Some(s[1]),
            operand_right: Some(Operand::Value { value: s[2] }),
        }
    } else {
        Operation {
            operand_left: Some(Operand::Value { value: s[0] }),
            operator: Some(s[1]),
            operand_right: Some(Operand::Operation { operation: Box::new(operation_of(s.skip(2))) }),
        }
    }
}

/// How many tokens the leading term of a non-empty slice takes: two when a
/// sign stands before a value, else one.
pub open spec fn leading_term_len(s: Seq<Token>) -> int {
    if s.len() >= 2 && is_sign_spec(s[0]@) {
        2
    } else {
        1
    }
}

pub open spec fn term_of(s: Seq<Token>) -> Term {
    if leading_term_len(s) == 2 {
        Term::Value { sign: Some(s[0]), value: s[1] }
    } else {
        Term::Value { sign: None, value: s[0] }
    }
}

/// The expression tree of a token slice: its leading (signed) term on the
/// left, then the operator, and on the right the last (signed) term, or the
/// tree of the rest when more than one term follows.
pub open spec fn expression_of(s: Seq<Token>) -> Expression
    decreases s.len(),
{
    if s.len() == 0 {
        Expression { left: None, numeric_operator: None, right: None }
    } else {
        let k = leading_term_len(s);
        let left = Some(term_of(s));
        if k >= s.len() {
            Expression { left, numeric_operator: None, right: None }
        } else {
            let rest = s.skip(k + 1);
            if rest.len() == 0 {
                Expression { left, numeric_operator: Some(s[k]), right: None }
            } else if leading_term_len(rest) >= rest.len() {
                Expression { left, numeric_operator: Some(s[k]), right: Some(term_of(rest)) }
            } else {
                Expression {
                    left,
                    numeric_operator: Some(s[k]),
                    right: Some(Term::Operation { operation: Box::new(expression_of(rest)) }),
                }
            }
        }
    }
}

/// Flattening the condition tree of any token slice gives the slice back.
pub proof fn lemma_condition_round_trip(s: Seq<Token>)
    ensures
        operation_tokens(operation_of(s)) == s,
    decreases s.len(),
{
    if s.len() > 3 {
        lemma_condition_round_trip(s.skip(2));
    }
    assert(operation_tokens(operation_of(s)) =~= s);
}

/// Flattening the expression tree of any token slice gives the slice back.
pub proof fn lemma_expression_round_trip(s: Seq<Token>)
    ensures
        expression_tokens(expression_of(s)) == s,
    decreases s.len(),
{
    if s.len() > 0 {
        let k = leading_term_len(s);
        if k < s.len() {
            let rest = s.skip(k + 1);
            if rest.len() > 0 && leading_term_len(rest) < rest.len() {
                lemma_expression_round_trip(rest);
            }
            assert(s =~= s.take(k) + seq![s[k]] + rest);
        }
    }
    assert(expression_tokens(expression_of(s)) =~= s);
}

fn optional_token_clone(t: &Option<Token>) -> (r: Option<Token>)
    ensures
        r == *t,
{
    match t {
        Some(t) => Some(t.clone()),
        None => None,
    }
}

impl Condition {
    /// The condition's tokens, left to right.
    pub fn get_tokens_from(&self) -> (r: Vec<Token>)
        ensures
            r@ == operation_tokens(self.operation),
    {
        Condition::get_tokens_from_operation(&self.operation)
    }

    fn get_tokens_from_operation(o: &Operation) -> (r: Vec<Token>)
        ensures
            r@ == operation_tokens(*o),
        decreases o,
    {
        let mut tokens = Condition::get_tokens_from_operand(&o.operand_left);
        if let Some(operator) = &o.operator {
            tokens.push(operator.clone());
        }
        let mut right = Condition::get_tokens_from_operand(&o.operand_right);
        let ghost before = tokens@;
        let ghost added = right@;
        tokens.append(&mut right);
        assert(tokens@ =~= operation_tokens(*o));
        tokens
    }

    fn get_tokens_from_operand(o: &Option<Operand>) -> (r: Vec<Token>)
        ensures
            r@ == operand_tokens(*o),
        decreases o,
    {
        match o {
            None => Vec::new(),
            Some(Operand::Value { value }) => {
                let mut v = Vec::new();
                v.push(value.clone());
                assert(v@ =~= operand_tokens(*o));
                v
            },
            Some(Operand::Operation { operation }) => Condition::get_tokens_from_operation(operation),
        }
    }
}

impl Expression {
    /// The expression's tokens, left to right.
    pub fn get_tokens_from(&self) -> (r: Vec<Token>)
        ensures
            r@ == expression_tokens(*self),
        decreases self,
    {
        let mut tokens = Expression::get_tokens_from_term(&self.left);
        if let Some(operator) = &self.numeric_operator {
            tokens.push(operator.clone());
        }
        let mut right = Expression::get_tokens_from_term(&self.right);
        tokens.append(&mut right);
        assert(tokens@ =~= expression_tokens(*self));
        tokens
    }

    fn get_tokens_from_term(t: &Option<Term>) -> (r: Vec<Token>)
        ensures
            r@ == term_tokens(*t),
        decreases t,
    {
        match t {
            None => Vec::new(),
            Some(Term::Value { sign, value }) => {
                let mut v = Vec::new();
                if let Some(sign) = sign {
                    v.push(sign.clone());
                }
                v.push(value.clone());
                assert(v@ =~= term_tokens(*t));
                v
            },
            Some(Term::Operation { operation }) => operation.get_tokens_from(),
        }
    }
}

// ---------------------------------------------------------------------------
// Statements.

/// A statement of the program; `Empty` stands for a run of blank lines.
#[derive(Debug)]
pub enum Statement {
    Print { value: Token },
    Let { identifier: Token, expression_tree: Expression },
    If { condition_tree: Condition, if_body: Vec<Statement> },
    While { condition_tree: Condition, while_body: Vec<Statement> },
    Input { message: Token, identifier: Token },
    Empty,
}

/// A `Statement` with its nested bodies as sequences.
pub enum StatementView {
    Print { value: Token },
    Let { identifier: Token, expression_tree: Expression },
    If { condition_tree: Condition, if_body: Seq<StatementView> },
    While { condition_tree: Condition, while_body: Seq<StatementView> },
    Input { message: Token, identifier: Token },
    Empty,
}

pub open spec fn statement_view(s: Statement) -> StatementView
    decreases s,
{
    match s {
        Statement::Print { value } => StatementView::Print { value },
        Statement::Let { identifier, expression_tree } => StatementView::Let {
            identifier,
            expression_tree,
        },
        Statement::If { condition_tree, if_body } => StatementView::If {
            condition_tree,
            if_body: body_view(if_body@),
        },
        Statement::While { condition_tree, while_body } => StatementView::While {
            condition_tree,
            while_body: body_view(while_body@),
        },
        Statement::Input { message, identifier } => StatementView::Input { message, identifier },
        Statement::Empty => StatementView::Empty,
    }
}

pub open spec fn body_view(b: Seq<Statement>) -> Seq<StatementView>
    decreases b,
{
    if b.len() == 0 {
        seq![]
    } else {
        body_view(b.subrange(0, b.len() - 1)).push(statement_view(b[b.len() - 1]))
    }
}

// ---------------------------------------------------------------------------
// The grammar, over a token sequence and the set of declared names. Each rule
// gives the position after what it accepted, or the error it meets.

pub open spec fn token_at(toks: Seq<Token>, p: int) -> Option<Token> {
    if 0 <= p < toks.len() {
        Some(toks[p])
    } else {
        None
    }
}

pub open spec fn syntax_at(expected: Expectation, toks: Seq<Token>, p: int) -> ErrorView {
    ErrorView::Syntax { expected, found: option_token_view(token_at(toks, p)) }
}

/// Whether a token is one that an expectation accepts.
pub open spec fn expects(t: Token, e: Expectation) -> bool {
    match e {
        Expectation::Then => t is Then,
        Expectation::Do => t is Do,
        Expectation::Assign => t is Assign,
        Expectation::Newline => t is Newline,
        Expectation::Endif => t is Endif,
        Expectation::Endwhile => t is Endwhile,
        Expectation::Identifier => t is Identifier,
        Expectation::StringLiteral => t is String,
        Expectation::Value => t is Identifier || t is String || t is Number || t is Bool,
        Expectation::Primary => t is Identifier || t is Number,
        Expectation::ComparisonOperator => is_equality_operator_spec(t@),
        Expectation::Statement => t is Print || t is Let || t is If || t is While || t is Input
            || t is Newline,
    }
}

pub open spec fn expect_end(toks: Seq<Token>, p: int, e: Expectation) -> Result<int, ErrorView> {
    if token_at(toks, p) is Some && expects(toks[p], e) {
        Ok(p + 1)
    } else {
        Err(syntax_at(e, toks, p))
    }
}

/// The end of the run of `Newline` tokens that starts at `p`.
pub open spec fn newline_run_end(toks: Seq<Token>, p: int) -> int
    decreases toks.len() - p,
{
    if 0 <= p < toks.len() && toks[p] is Newline {
        newline_run_end(toks, p + 1)
    } else {
        p
    }
}

/// nl ::= '\n'+
pub open spec fn newline_end(toks: Seq<Token>, p: int) -> Result<int, ErrorView> {
    if token_at(toks, p) is Some && toks[p] is Newline {
        Ok(newline_run_end(toks, p + 1))
    } else {
        Err(syntax_at(Expectation::Newline, toks, p))
    }
}

/// An identifier is accepted where a value is read only once it is declared.
pub open spec fn declared_end(toks: Seq<Token>, p: int, decl: Set<Seq<char>>) -> Result<int, ErrorView>
    recommends
        0 <= p < toks.len(),
        toks[p] is Identifier,
{
    if decl.contains(toks[p]->Identifier_0@) {
        Ok(p + 1)
    } else {
        Err(ErrorView::Semantic { identifier: toks[p]->Identifier_0@ })
    }
}

/// value ::= identifier | string | number | bool
pub open spec fn value_end(toks: Seq<Token>, p: int, decl: Set<Seq<char>>) -> Result<int, ErrorView> {
    if token_at(toks, p) is Some && toks[p] is Identifier {
        declared_end(toks, p, decl)
    } else if token_at(toks, p) is Some && expects(toks[p], Expectation::Value) {
        Ok(p + 1)
    } else {
        Err(syntax_at(Expectation::Value, toks, p))
    }
}

/// primary ::= identifier | number
pub open spec fn primary_end(toks: Seq<Token>, p: int, decl: Set<Seq<char>>) -> Result<int, ErrorView> {
    if token_at(toks, p) is Some && toks[p] is Identifier {
        declared_end(toks, p, decl)
    } else if token_at(toks, p) is Some && toks[p] is Number {
        Ok(p + 1)
    } else {
        Err(syntax_at(Expectation::Primary, toks, p))
    }
}

/// unary ::= ["+" | "-"] primary
pub open spec fn unary_end(toks: Seq<Token>, p: int, decl: Set<Seq<char>>) -> Result<int, ErrorView> {
    if token_at(toks, p) is Some && is_sign_spec(toks[p]@) {
        primary_end(toks, p + 1, decl)
    } else {
        primary_end(toks, p, decl)
    }
}

/// expression ::= term {("+" | "-") term}, with term ::= unary {("*" | "/" | "%") unary}.
/// Both levels accept the same chains: unary operands joined by numeric
/// operators. Precedence is not recorded here, since trees are built from the
/// accepted slice.
pub open spec fn expression_end(toks: Seq<Token>, p: int, decl: Set<Seq<char>>) -> Result<
    int,
    ErrorView,
>
    decreases toks.len() - p,
{
    match unary_end(toks, p, decl) {
        Err(e) => Err(e),
        Ok(q) => if 0 <= q < toks.len() && q >= p && is_numeric_operator_spec(toks[q]@) {
            expression_end(toks, q + 1, decl)
        } else {
            Ok(q)
        },
    }
}

/// comparison_branch ::= bool | expression
pub open spec fn branch_end(toks: Seq<Token>, p: int, decl: Set<Seq<char>>) -> Result<int, ErrorView> {
    if token_at(toks, p) is Some && toks[p] is Bool {
        Ok(p + 1)
    } else {
        expression_end(toks, p, decl)
    }
}

/// comparison ::= comparison_branch equality_operator comparison_branch
pub open spec fn comparison_end(toks: Seq<Token>, p: int, decl: Set<Seq<char>>) -> Result<
    int,
    ErrorView,
> {
    match branch_end(toks, p, decl) {
        Err(e) => Err(e),
        Ok(q) => match expect_end(toks, q, Expectation::ComparisonOperator) {
            Err(e) => Err(e),
            Ok(r) => branch_end(toks, r, decl),
        },
    }
}

/// comparisons ::= comparison {("AND" | "OR") comparison}
pub open spec fn comparisons_end(toks: Seq<Token>, p: int, decl: Set<Seq<char>>) -> Result<
    int,
    ErrorView,
>
    decreases toks.len() - p,
{
    match comparison_end(toks, p, decl) {
        Err(e) => Err(e),
        Ok(q) => if 0 <= q < toks.len() && q >= p && is_logic_condition_operator_spec(toks[q]@) {
            comparisons_end(toks, q + 1, decl)
        } else {
            Ok(q)
        },
    }
}

/// A run of newlines ends between its start and the end of input.
pub proof fn lemma_newline_run_bounds(toks: Seq<Token>, p: int)
    requires
        0 <= p <= toks.len(),
    ensures
        p <= newline_run_end(toks, p) <= toks.len(),
    decreases toks.len() - p,
{
    if p < toks.len() && toks[p] is Newline {
        lemma_newline_run_bounds(toks, p + 1);
    }
}

/// An accepted expression takes at least one token and ends within the input.
proof fn lemma_expression_bounds(toks: Seq<Token>, p: int, decl: Set<Seq<char>>)
    requires
        0 <= p,
    ensures
        expression_end(toks, p, decl) matches Ok(q) ==> p < q <= toks.len(),
    decreases toks.len() - p,
{
    if let Ok(q) = unary_end(toks, p, decl) {
        if 0 <= q < toks.len() && q >= p && is_numeric_operator_spec(toks[q]@) {
            lemma_expression_bounds(toks, q + 1, decl);
        }
    }
}

/// An accepted comparison takes at least one token and ends within the input.
proof fn lemma_comparison_bounds(toks: Seq<Token>, p: int, decl: Set<Seq<char>>)
    requires
        0 <= p,
    ensures
        comparison_end(toks, p, decl) matches Ok(q) ==> p < q <= toks.len(),
{
    lemma_expression_bounds(toks, p, decl);
    if let Ok(q) = branch_end(toks, p, decl) {
        if let Ok(r) = expect_end(toks, q, Expectation::ComparisonOperator) {
            lemma_expression_bounds(toks, r, decl);
        }
    }
}

/// Accepted comparisons take at least one token and end within the input.
pub proof fn lemma_comparisons_bounds(toks: Seq<Token>, p: int, decl: Set<Seq<char>>)
    requires
        0 <= p,
    ensures
        comparisons_end(toks, p, decl) matches Ok(q) ==> p < q <= toks.len(),
    decreases toks.len() - p,
{
    lemma_comparison_bounds(toks, p, decl);
    if let Ok(q) = comparison_end(toks, p, decl) {
        if 0 <= q < toks.len() && q >= p && is_logic_condition_operator_spec(toks[q]@) {
            lemma_comparisons_bounds(toks, q + 1, decl);
        }
    }
}

pub open spec fn condition_of(toks: Seq<Token>, p: int, q: int) -> Condition {
    Condition { operation: operation_of(toks.subrange(p, q)) }
}

/// What a rule that reads a statement produces: the statement, the position
/// after it, and the declared names after it.
pub type StatementOutcome = Result<(StatementView, int, Set<Seq<char>>), ErrorView>;

pub type BlockOutcome = Result<(Seq<StatementView>, int, Set<Seq<char>>), ErrorView>;

/// statement ::= "PRINT" value nl
///             | "LET" identifier "=" (value | expression) nl
///             | "IF" comparisons "THEN" nl {statement} "ENDIF" nl
///             | "WHILE" comparisons nl "DO" nl {statement} "ENDWHILE" nl
///             | "INPUT" string identifier nl
///             | nl
pub open spec fn statement_spec(toks: Seq<Token>, p: int, decl: Set<Seq<char>>) -> StatementOutcome
    decreases toks.len() - p, 0int,
{
    match token_at(toks, p) {
        Some(Token::Print) => match value_end(toks, p + 1, decl) {
            Err(e) => Err(e),
            Ok(q) => match newline_end(toks, q) {
                Err(e) => Err(e),
                Ok(r) => Ok((StatementView::Print { value: toks[p + 1] }, r, decl)),
            },
        },
        Some(Token::Let) => if token_at(toks, p + 1) is Some && toks[p + 1] is Identifier {
            let d = decl.insert(toks[p + 1]->Identifier_0@);
            match expect_end(toks, p + 2, Expectation::Assign) {
                Err(e) => Err(e),
                Ok(_) => {
                    let rhs = if token_at(toks, p + 4) is Some && toks[p + 4] is Newline {
                        value_end(toks, p + 3, d)
                    } else {
                        expression_end(toks, p + 3, d)
                    };
                    match rhs {
                        Err(e) => Err(e),
                        Ok(q) => match newline_end(toks, q) {
                            Err(e) => Err(e),
                            Ok(r) => Ok(
                                (
                                    StatementView::Let {
                                        identifier: toks[p + 1],
                                        expression_tree: expression_of(toks.subrange(p + 3, q)),
                                    },
                                    r,
                                    d,
                                ),
                            ),
                        },
                    }
                },
            }
        } else {
            Err(syntax_at(Expectation::Identifier, toks, p + 1))
        },
        Some(Token::If) => match comparisons_end(toks, p + 1, decl) {
            Err(e) => Err(e),
            Ok(q) => match expect_end(toks, q, Expectation::Then) {
                Err(e) => Err(e),
                Ok(_) => match expect_end(toks, q + 1, Expectation::Newline) {
                    Err(e) => Err(e),
                    Ok(_) => {
                        proof {
                            lemma_comparisons_bounds(toks, p + 1, decl);
                        }
                        match block_spec(toks, q + 2, decl, Some(Expectation::Endif)) {
                            Err(e) => Err(e),
                            Ok((body, r, d)) => match newline_end(toks, r + 1) {
                                Err(e) => Err(e),
                                Ok(t) => Ok(
                                    (
                                        StatementView::If {
                                            condition_tree: condition_of(toks, p + 1, q),
                                            if_body: body,
                                        },
                                        t,
                                        d,
                                    ),
                                ),
                            },
                        }
                    },
                },
            },
        },
        Some(Token::While) => match comparisons_end(toks, p + 1, decl) {
            Err(e) => Err(e),
            Ok(q) => match newline_end(toks, q) {
                Err(e) => Err(e),
                Ok(q2) => match expect_end(toks, q2, Expectation::Do) {
                    Err(e) => Err(e),
                    Ok(_) => match expect_end(toks, q2 + 1, Expectation::Newline) {
                        Err(e) => Err(e),
                        Ok(_) => {
                            proof {
                                lemma_comparisons_bounds(toks, p + 1, decl);
                                lemma_newline_run_bounds(toks, q + 1);
                            }
                            match block_spec(toks, q2 + 2, decl, Some(Expectation::Endwhile)) {
                                Err(e) => Err(e),
                                Ok((body, r, d)) => match newline_end(toks, r + 1) {
                                    Err(e) => Err(e),
                                    Ok(t) => Ok(
                                        (
                                            StatementView::While {
                                                condition_tree: condition_of(toks, p + 1, q),
                                                while_body: body,
                                            },
                                            t,
                                            d,
                                        ),
                                    ),
                                },
                            }
                        },
                    },
                },
            },
        },
        Some(Token::Input) => match expect_end(toks, p + 1, Expectation::StringLiteral) {
            Err(e) => Err(e),
            Ok(_) => if token_at(toks, p + 2) is Some && toks[p + 2] is Identifier {
                let d = decl.insert(toks[p + 2]->Identifier_0@);
                match newline_end(toks, p + 3) {
                    Err(e) => Err(e),
                    Ok(r) => Ok(
                        (StatementView::Input { message: toks[p + 1], identifier: toks[p + 2] }, r, d),
                    ),
                }
            } else {
                Err(syntax_at(Expectation::Identifier, toks, p + 2))
            },
        },
        Some(Token::Newline) => Ok((StatementView::Empty, newline_run_end(toks, p + 1), decl)),
        _ => Err(syntax_at(Expectation::Statement, toks, p)),
    }
}

/// Whether a block ends at `p`: at the given keyword, or at the end of input
/// for the program itself.
pub open spec fn at_closing(toks: Seq<Token>, p: int, closing: Option<Expectation>) -> bool {
    match closing {
        None => p >= toks.len(),
        Some(e) => token_at(toks, p) is Some && expects(toks[p], e),
    }
}

/// Statements up to the closing keyword, which is left unread.
pub open spec fn block_spec(
    toks: Seq<Token>,
    p: int,
    decl: Set<Seq<char>>,
    closing: Option<Expectation>,
) -> BlockOutcome
    decreases toks.len() - p, 1int,
{
    if at_closing(toks, p, closing) {
        Ok((seq![], p, decl))
    } else {
        match statement_spec(toks, p, decl) {
            Err(e) => Err(e),
            Ok((s, q, d)) => if p < q <= toks.len() {
                match block_spec(toks, q, d, closing) {
                    Err(e) => Err(e),
                    Ok((rest, r, d2)) => Ok((seq![s] + rest, r, d2)),
                }
            } else {
                // Unreachable: every statement reads at least its first token.
                Err(syntax_at(Expectation::Statement, toks, p))
            },
        }
    }
}

/// The statements of a whole program.
pub open spec fn parse_spec(toks: Seq<Token>) -> Result<Seq<StatementView>, ErrorView> {
    match block_spec(toks, 0, Set::empty(), None) {
        Ok((ss, _, _)) => Ok(ss),
        Err(e) => Err(e),
    }
}

/// A program that opens by printing a name fails with a semantic error that
/// names it: nothing was declared before.
pub proof fn lemma_print_before_declaration(toks: Seq<Token>)
    requires
        toks.len() >= 2,
        toks[0] is Print,
        toks[1] is Identifier,
    ensures
        parse_spec(toks) == Err::<Seq<StatementView>, ErrorView>(
            ErrorView::Semantic { identifier: toks[1]->Identifier_0@ },
        ),
{
    let e = Set::<Seq<char>>::empty();
    let err = ErrorView::Semantic { identifier: toks[1]->Identifier_0@ };
    assert(!e.contains(toks[1]->Identifier_0@));
    assert(value_end(toks, 1, e) == Err::<int, ErrorView>(err));
    assert(statement_spec(toks, 0, e) == Err::<(StatementView, int, Set<Seq<char>>), ErrorView>(err));
    assert(!at_closing(toks, 0, None));
    assert(block_spec(toks, 0, e, None) == Err::<(Seq<StatementView>, int, Set<Seq<char>>), ErrorView>(err));
}

pub open spec fn outcome(r: Result<(), CompileError>, p: int) -> Result<int, ErrorView> {
    match r {
        Ok(_) => Ok(p),
        Err(e) => Err(e@),
    }
}

pub open spec fn statements_result_view(r: Result<Vec<Statement>, CompileError>) -> Result<
    Seq<StatementView>,
    ErrorView,
> {
    match r {
        Ok(ss) => Ok(body_view(ss@)),
        Err(e) => Err(e@),
    }
}

pub open spec fn prepend(ss: Seq<StatementView>, r: BlockOutcome) -> BlockOutcome {
    match r {
        Ok((rest, q, d)) => Ok((ss + rest, q, d)),
        Err(e) => Err(e),
    }
}

proof fn lemma_prepend_empty(r: BlockOutcome)
    ensures
        prepend(seq![], r) == r,
{
    if let Ok((rest, q, d)) = r {
        assert(Seq::<StatementView>::empty() + rest =~= rest);
    }
}

proof fn lemma_prepend_push(ss: Seq<StatementView>, s: StatementView, r: BlockOutcome)
    ensures
        prepend(ss, prepend(seq![s], r)) == prepend(ss.push(s), r),
{
    if let Ok((rest, q, d)) = r {
        assert(ss + (seq![s] + rest) =~= ss.push(s) + rest);
    }
}

/// Reads a token sequence into statements, keeping the names declared so far.
pub struct Parser {
    tokens: Vec<Token>,
    counter: usize,
    used_identifiers: Vec<String>,
}

impl View for Parser {
    type V = Seq<Token>;

    closed spec fn view(&self) -> Seq<Token> {
        self.tokens@
    }
}

impl Parser {
    /// The index of the next token to read.
    pub closed spec fn position(&self) -> int {
        self.counter as int
    }

    /// The names declared so far by `LET` and `INPUT`.
    pub closed spec fn declared(&self) -> Set<Seq<char>> {
        Set::new(
            |n: Seq<char>|
                exists|i: int| 0 <= i < self.used_identifiers@.len() && #[trigger] self.used_identifiers@[i]@ == n,
        )
    }

    /// The position never passes the end of the tokens.
    pub closed spec fn wf(&self) -> bool {
        self.counter <= self.tokens@.len() <= usize::MAX
    }

    /// A statement read, with the parser's state after it.
    pub closed spec fn statement_outcome(&self, r: Result<Statement, CompileError>) -> StatementOutcome {
        match r {
            Ok(s) => Ok((statement_view(s), self.counter as int, self.declared())),
            Err(e) => Err(e@),
        }
    }

    /// Statements read, with the parser's state after them.
    pub closed spec fn block_outcome(&self, r: Result<Vec<Statement>, CompileError>) -> BlockOutcome {
        match r {
            Ok(ss) => Ok((body_view(ss@), self.counter as int, self.declared())),
            Err(e) => Err(e@),
        }
    }

    pub fn new(tokens: Vec<Token>) -> (r: Parser)
        ensures
            r@ == tokens@,
    {
        let ghost n = tokens.len();
        Parser { tokens, counter: 0, used_identifiers: Vec::new() }
    }

    /// Parses the whole token sequence.
    pub fn parse(&mut self) -> (r: Result<Vec<Statement>, CompileError>)
        ensures
            final(self)@ == old(self)@,
            statements_result_view(r) == parse_spec(old(self)@),
    {
        let ghost n = self.tokens.len();
        self.counter = 0;
        self.used_identifiers = Vec::new();
        proof {
            assert(self.declared() =~= Set::<Seq<char>>::empty());
        }
        self.statements(None)
    }

    fn syntax_error(&self, expected: Expectation) -> (e: CompileError)
        ensures
            e@ == syntax_at(expected, self@, self.position()),
    {
        let found = if self.counter < self.tokens.len() {
            Some(self.tokens[self.counter].clone())
        } else {
            None
        };
        CompileError::Syntax { expected, found }
    }

    fn expects(token: &Token, e: Expectation) -> (r: bool)
        ensures
            r == expects(*token, e),
    {
        match e {
            Expectation::Then => matches!(token, Token::Then),
            Expectation::Do => matches!(token, Token::Do),
            Expectation::Assign => matches!(token, Token::Assign),
            Expectation::Newline => matches!(token, Token::Newline),
            Expectation::Endif => matches!(token, Token::Endif),
            Expectation::Endwhile => matches!(token, Token::Endwhile),
            Expectation::Identifier => matches!(token, Token::Identifier(_)),
            Expectation::StringLiteral => matches!(token, Token::String(_)),
            Expectation::Value => matches!(token, Token::Identifier(_) | Token::String(_) | Token::Number(_) | Token::Bool(_)),
            Expectation::Primary => matches!(token, Token::Identifier(_) | Token::Number(_)),
            Expectation::ComparisonOperator => Lexer::is_equality_operator(token),
            Expectation::Statement => matches!(token, Token::Print | Token::Let | Token::If | Token::While | Token::Input | Token::Newline),
        }
    }

    fn at_closing(&self, closing: Option<Expectation>) -> (r: bool)
        ensures
            r == at_closing(self@, self.position(), closing),
    {
        match closing {
            None => self.counter >= self.tokens.len(),
            Some(e) => self.counter < self.tokens.len() && Self::expects(&self.tokens[self.counter], e),
        }
    }

    /// Fails with a semantic error unless the name was declared.
    fn check_identifier_from_string(&self, identifier: &String) -> (r: Result<(), CompileError>)
        ensures
            r is Ok <==> self.declared().contains(identifier@),
            r matches Err(e) ==> e@ == (ErrorView::Semantic { identifier: identifier@ }),
    {
        let mut i: usize = 0;
        while i < self.used_identifiers.len()
            invariant
                i <= self.used_identifiers@.len(),
                forall|j: int| 0 <= j < i ==> (#[trigger] self.used_identifiers@[j])@ != identifier@,
            decreases self.used_identifiers@.len() - i,
        {
            if self.used_identifiers[i] == *identifier {
                return Ok(());
            }
            i += 1;
        }
        Err(CompileError::Semantic { identifier: identifier.clone() })
    }

    fn add_identifier(&mut self, identifier: &Token)
        ensures
            final(self)@ == old(self)@,
            final(self).position() == old(self).position(),
            final(self).declared() == (match identifier {
                Token::Identifier(name) => old(self).declared().insert(name@),
                _ => old(self).declared(),
            }),
    {
        if let Token::Identifier(variable) = identifier {
            if self.check_identifier_from_string(variable).is_err() {
                self.used_identifiers.push(variable.clone());
            }
            proof {
                assert(self.declared() =~= old(self).declared().insert(variable@)) by {
                    let n = self.used_identifiers@.len();
                    if n > old(self).used_identifiers@.len() {
                        assert(self.used_identifiers@[n - 1]@ == variable@);
                    }
                    assert forall|x: Seq<char>| old(self).declared().contains(x) implies self.declared().contains(x) by {
                        let i = choose|i: int| 0 <= i < old(self).used_identifiers@.len() && #[trigger] old(self).used_identifiers@[i]@ == x;
                        assert(self.used_identifiers@[i] == old(self).used_identifiers@[i]);
                    }
                }
            }
        }
    }

    /// Copies the tokens in `[start, end)`.
    fn get_range_of_tokens(&self, start: usize, end: usize) -> (r: Vec<Token>)
        requires
            start <= end <= self@.len(),
        ensures
            r@ == self@.subrange(start as int, end as int),
    {
        let mut out: Vec<Token> = Vec::new();
        let mut i = start;
        while i < end
            invariant
                start <= i <= end,
                end <= self.tokens@.len(),
                out@ == self.tokens@.subrange(start as int, i as int),
            decreases end - i,
        {
            out.push(self.tokens[i].clone());
            i += 1;
            assert(out@ =~= self.tokens@.subrange(start as int, i as int));
        }
        out
    }

    /// Requires the current token to be one the expectation accepts, and reads it.
    fn match_token(&mut self, expected: Expectation) -> (r: Result<(), CompileError>)
        requires
            old(self).wf(),
        ensures
            final(self).wf(),
            final(self)@ == old(self)@,
            final(self).declared() == old(self).declared(),
            outcome(r, final(self).position()) == expect_end(old(self)@, old(self).position(), expected),
            r is Ok ==> old(self).position() < final(self).position(),
    {
        if self.counter < self.tokens.len() && Self::expects(&self.tokens[self.counter], expected) {
            self.counter = self.counter + 1;
            Ok(())
        } else {
            Err(self.syntax_error(expected))
        }
    }

    fn skip_newlines(&mut self)
        requires
            old(self).wf(),
        ensures
            final(self).wf(),
            final(self)@ == old(self)@,
            final(self).declared() == old(self).declared(),
            final(self).position() == newline_run_end(old(self)@, old(self).position()),
            old(self).position() <= final(self).position(),
    {
        while self.counter < self.tokens.len() && matches!(self.tokens[self.counter], Token::Newline)
            invariant
                self.wf(),
                self@ == old(self)@,
                self.declared() == old(self).declared(),
                newline_run_end(self@, self.position()) == newline_run_end(old(self)@, old(self).position()),
                old(self).position() <= self.position(),
            decreases self@.len() - self.position(),
        {
            self.counter = self.counter + 1;
        }
    }

    /// nl ::= '\n'+
    fn newline(&mut self) -> (r: Result<(), CompileError>)
        requires
            old(self).wf(),
        ensures
            final(self).wf(),
            final(self)@ == old(self)@,
            final(self).declared() == old(self).declared(),
            outcome(r, final(self).position()) == newline_end(old(self)@, old(self).position()),
            r is Ok ==> old(self).position() < final(self).position(),
    {
        match self.match_token(Expectation::Newline) {
            Err(e) => Err(e),
            Ok(()) => {
                self.skip_newlines();
                Ok(())
            },
        }
    }

    /// Reads an identifier that must have been declared.
    fn declared_identifier(&mut self) -> (r: Result<(), CompileError>)
        requires
            old(self).wf(),
            old(self).position() < old(self)@.len(),
            old(self)@[old(self).position()] is Identifier,
        ensures
            final(self).wf(),
            final(self)@ == old(self)@,
            final(self).declared() == old(self).declared(),
            outcome(r, final(self).position()) == declared_end(old(self)@, old(self).position(), old(self).declared()),
            r is Ok ==> old(self).position() < final(self).position(),
    {
        let p = self.counter;
        let checked = match &self.tokens[p] {
            Token::Identifier(name) => self.check_identifier_from_string(name),
            _ => Ok(()),
        };
        match checked {
            Err(e) => Err(e),
            Ok(()) => {
                self.counter = p + 1;
                Ok(())
            },
        }
    }

    /// value ::= identifier | string | number | bool
    fn value(&mut self) -> (r: Result<(), CompileError>)
        requires
            old(self).wf(),
        ensures
            final(self).wf(),
            final(self)@ == old(self)@,
            final(self).declared() == old(self).declared(),
            outcome(r, final(self).position()) == value_end(old(self)@, old(self).position(), old(self).declared()),
            r is Ok ==> old(self).position() < final(self).position(),
    {
        if self.counter < self.tokens.len() && matches!(self.tokens[self.counter], Token::Identifier(_)) {
            self.declared_identifier()
        } else {
            self.match_token(Expectation::Value)
        }
    }

    /// primary ::= identifier | number
    fn primary(&mut self) -> (r: Result<(), CompileError>)
        requires
            old(self).wf(),
        ensures
            final(self).wf(),
            final(self)@ == old(self)@,
            final(self).declared() == old(self).declared(),
            outcome(r, final(self).position()) == primary_end(old(self)@, old(self).position(), old(self).declared()),
            r is Ok ==> old(self).position() < final(self).position(),
    {
        if self.counter < self.tokens.len() && matches!(self.tokens[self.counter], Token::Identifier(_)) {
            self.declared_identifier()
        } else {
            self.match_token(Expectation::Primary)
        }
    }

    /// unary ::= ["+" | "-"] primary
    fn unary(&mut self) -> (r: Result<(), CompileError>)
        requires
            old(self).wf(),
        ensures
            final(self).wf(),
            final(self)@ == old(self)@,
            final(self).declared() == old(self).declared(),
            outcome(r, final(self).position()) == unary_end(old(self)@, old(self).position(), old(self).declared()),
            r is Ok ==> old(self).position() < final(self).position(),
    {
        if self.counter < self.tokens.len() && Lexer::is_sign(&self.tokens[self.counter]) {
            self.counter = self.counter + 1;
        }
        self.primary()
    }

    /// expression ::= term {("+" | "-") term}; term ::= unary {("*" | "/" | "%") unary}
    fn expression(&mut self) -> (r: Result<(), CompileError>)
        requires
            old(self).wf(),
        ensures
            final(self).wf(),
            final(self)@ == old(self)@,
            final(self).declared() == old(self).declared(),
            outcome(r, final(self).position()) == expression_end(old(self)@, old(self).position(), old(self).declared()),
            r is Ok ==> old(self).position() < final(self).position(),
    {
        loop
            invariant
                self.wf(),
                self@ == old(self)@,
                self.declared() == old(self).declared(),
                expression_end(self@, self.position(), self.declared()) == expression_end(
                    old(self)@,
                    old(self).position(),
                    old(self).declared(),
                ),
                old(self).position() <= self.position(),
            decreases self@.len() - self.position(),
        {
            match self.unary() {
                Err(e) => return Err(e),
                Ok(()) => {},
            }
            if self.counter < self.tokens.len() && Lexer::is_numeric_operator(&self.tokens[self.counter]) {
                self.counter = self.counter + 1;
            } else {
                return Ok(());
            }
        }
    }

    /// comparison_branch ::= bool | expression
    fn comparison_branch(&mut self) -> (r: Result<(), CompileError>)
        requires
            old(self).wf(),
        ensures
            final(self).wf(),
            final(self)@ == old(self)@,
            final(self).declared() == old(self).declared(),
            outcome(r, final(self).position()) == branch_end(old(self)@, old(self).position(), old(self).declared()),
            r is Ok ==> old(self).position() < final(self).position(),
    {
        if self.counter < self.tokens.len() && matches!(self.tokens[self.counter], Token::Bool(_)) {
            self.counter = self.counter + 1;
            Ok(())
        } else {
            self.expression()
        }
    }

    /// equals ::= "==" | "!=" | ">" | ">=" | "<" | "<="
    fn equals(&mut self) -> (r: Result<(), CompileError>)
        requires
            old(self).wf(),
        ensures
            final(self).wf(),
            final(self)@ == old(self)@,
            final(self).declared() == old(self).declared(),
            outcome(r, final(self).position()) == expect_end(old(self)@, old(self).position(), Expectation::ComparisonOperator),
            r is Ok ==> old(self).position() < final(self).position(),
    {
        self.match_token(Expectation::ComparisonOperator)
    }

    /// comparison ::= comparison_branch equals comparison_branch
    fn comparison(&mut self) -> (r: Result<(), CompileError>)
        requires
            old(self).wf(),
        ensures
            final(self).wf(),
            final(self)@ == old(self)@,
            final(self).declared() == old(self).declared(),
            outcome(r, final(self).position()) == comparison_end(old(self)@, old(self).position(), old(self).declared()),
            r is Ok ==> old(self).position() < final(self).position(),
    {
        match self.comparison_branch() {
            Err(e) => return Err(e),
            Ok(()) => {},
        }
        match self.equals() {
            Err(e) => return Err(e),
            Ok(()) => {},
        }
        self.comparison_branch()
    }

    /// comparisons ::= comparison {("AND" | "OR") comparison}
    fn comparisons(&mut self) -> (r: Result<(), CompileError>)
        requires
            old(self).wf(),
        ensures
            final(self).wf(),
            final(self)@ == old(self)@,
            final(self).declared() == old(self).declared(),
            outcome(r, final(self).position()) == comparisons_end(old(self)@, old(self).position(), old(self).declared()),
            r is Ok ==> old(self).position() < final(self).position(),
    {
        loop
            invariant
                self.wf(),
                self@ == old(self)@,
                self.declared() == old(self).declared(),
                comparisons_end(self@, self.position(), self.declared()) == comparisons_end(
                    old(self)@,
                    old(self).position(),
                    old(self).declared(),
                ),
                old(self).position() <= self.position(),
            decreases self@.len() - self.position(),
        {
            let ghost p = self.position();
            proof {
                lemma_comparison_bounds(self@, p, self.declared());
            }
            match self.comparison() {
                Err(e) => return Err(e),
                Ok(()) => {},
            }
            if self.counter < self.tokens.len() && Lexer::is_logic_condition_operator(&self.tokens[self.counter]) {
                self.counter = self.counter + 1;
            } else {
                return Ok(());
            }
        }
    }

    /// Statements up to the closing keyword (left unread), or to the end of
    /// input when there is none.
    fn statements(&mut self, closing: Option<Expectation>) -> (r: Result<Vec<Statement>, CompileError>)
        requires
            old(self).wf(),
        ensures
            final(self).wf(),
            final(self)@ == old(self)@,
            final(self).block_outcome(r) == block_spec(old(self)@, old(self).position(), old(self).declared(), closing),
            r is Ok ==> old(self).position() <= final(self).position(),
            r is Ok ==> at_closing(final(self)@, final(self).position(), closing),
        decreases old(self)@.len() - old(self).position(), 2int,
    {
        let mut statements: Vec<Statement> = Vec::new();
        let ghost p0 = self.position();
        proof {
            assert(body_view(statements@) =~= seq![]);
            lemma_prepend_empty(block_spec(self@, p0, self.declared(), closing));
        }
        while !self.at_closing(closing)
            invariant
                self.wf(),
                self@ == old(self)@,
                p0 == old(self).position(),
                p0 <= self.position(),
                block_spec(old(self)@, p0, old(self).declared(), closing) == prepend(
                    body_view(statements@),
                    block_spec(self@, self.position(), self.declared(), closing),
                ),
            decreases self@.len() - self.position(),
        {
            let ghost p = self.position();
            let ghost d = self.declared();
            let ghost before = statements@;
            match self.recognize_statement() {
                Err(e) => return Err(e),
                Ok(s) => {
                    proof {
                        let sv = statement_view(s);
                        lemma_prepend_push(body_view(before), sv, block_spec(self@, self.position(), self.declared(), closing));
                    }
                    statements.push(s);
                    proof {
                        assert(statements@.subrange(0, statements@.len() - 1) =~= before);
                    }
                },
            }
        }
        proof {
            assert(body_view(statements@) + seq![] =~= body_view(statements@));
        }
        Ok(statements)
    }

    /// Reads one statement.
    fn recognize_statement(&mut self) -> (r: Result<Statement, CompileError>)
        requires
            old(self).wf(),
        ensures
            final(self).wf(),
            final(self)@ == old(self)@,
            final(self).statement_outcome(r) == statement_spec(old(self)@, old(self).position(), old(self).declared()),
            r is Ok ==> old(self).position() < final(self).position(),
        decreases old(self)@.len() - old(self).position(), 1int,
    {
        let p = self.counter;
        if p >= self.tokens.len() {
            return Err(self.syntax_error(Expectation::Statement));
        }
        match &self.tokens[p] {
            Token::Print => self.print_statement(),
            Token::Let => self.let_statement(),
            Token::If => self.if_statement(),
            Token::While => self.while_statement(),
            Token::Input => self.input_statement(),
            Token::Newline => {
                self.counter = p + 1;
                self.skip_newlines();
                proof {
                    lemma_newline_run_bounds(self@, p + 1);
                }
                Ok(Statement::Empty)
            },
            _ => Err(self.syntax_error(Expectation::Statement)),
        }
    }

    /// "PRINT" value nl
    fn print_statement(&mut self) -> (r: Result<Statement, CompileError>)
        requires
            old(self).wf(),
            old(self).position() < old(self)@.len(),
            old(self)@[old(self).position()] is Print,
        ensures
            final(self).wf(),
            final(self)@ == old(self)@,
            final(self).statement_outcome(r) == statement_spec(old(self)@, old(self).position(), old(self).declared()),
            r is Ok ==> old(self).position() < final(self).position(),
        decreases old(self)@.len() - old(self).position(), 0int,
    {
        let p = self.counter;
        self.counter = p + 1;
        match self.value() {
            Err(e) => return Err(e),
            Ok(()) => {},
        }
        let value = self.tokens[p + 1].clone();
        match self.newline() {
            Err(e) => Err(e),
            Ok(()) => Ok(Statement::Print { value }),
        }
    }

    /// "LET" identifier "=" (value | expression) nl
    fn let_statement(&mut self) -> (r: Result<Statement, CompileError>)
        requires
            old(self).wf(),
            old(self).position() < old(self)@.len(),
            old(self)@[old(self).position()] is Let,
        ensures
            final(self).wf(),
            final(self)@ == old(self)@,
            final(self).statement_outcome(r) == statement_spec(old(self)@, old(self).position(), old(self).declared()),
            r is Ok ==> old(self).position() < final(self).position(),
        decreases old(self)@.len() - old(self).position(), 0int,
    {
        let p = self.counter;
        self.counter = p + 1;
        match self.match_token(Expectation::Identifier) {
            Err(e) => return Err(e),
            Ok(()) => {},
        }
        let identifier = self.tokens[p + 1].clone();
        self.add_identifier(&identifier);
        match self.match_token(Expectation::Assign) {
            Err(e) => return Err(e),
            Ok(()) => {},
        }
        let start = self.counter;
        let single = self.tokens.len() > 1 && start < self.tokens.len() - 1 && matches!(self.tokens[start + 1], Token::Newline);
        let rhs = if single {
            self.value()
        } else {
            self.expression()
        };
        match rhs {
            Err(e) => return Err(e),
            Ok(()) => {},
        }
        proof {
            if !single {
                lemma_expression_bounds(self@, start as int, self.declared());
            }
        }
        let expression = self.get_range_of_tokens(start, self.counter);
        let expression_tree = Self::expression_tree(expression.as_slice());
        match self.newline() {
            Err(e) => Err(e),
            Ok(()) => Ok(Statement::Let { identifier, expression_tree }),
        }
    }

    /// "IF" comparisons "THEN" nl {statement} "ENDIF" nl
    fn if_statement(&mut self) -> (r: Result<Statement, CompileError>)
        requires
            old(self).wf(),
            old(self).position() < old(self)@.len(),
            old(self)@[old(self).position()] is If,
        ensures
            final(self).wf(),
            final(self)@ == old(self)@,
            final(self).statement_outcome(r) == statement_spec(old(self)@, old(self).position(), old(self).declared()),
            r is Ok ==> old(self).position() < final(self).position(),
        decreases old(self)@.len() - old(self).position(), 0int,
    {
        let p = self.counter;
        self.counter = p + 1;
        match self.comparisons() {
            Err(e) => return Err(e),
            Ok(()) => {},
        }
        proof {
            lemma_comparisons_bounds(self@, p + 1, self.declared());
        }
        let end = self.counter;
        match self.match_token(Expectation::Then) {
            Err(e) => return Err(e),
            Ok(()) => {},
        }
        let condition = self.get_range_of_tokens(p + 1, end);
        let condition_tree = Self::condition_tree(condition.as_slice());
        match self.match_token(Expectation::Newline) {
            Err(e) => return Err(e),
            Ok(()) => {},
        }
        let if_body = match self.statements(Some(Expectation::Endif)) {
            Err(e) => return Err(e),
            Ok(body) => body,
        };
        self.counter = self.counter + 1;
        match self.newline() {
            Err(e) => Err(e),
            Ok(()) => Ok(Statement::If { condition_tree, if_body }),
        }
    }

    /// "WHILE" comparisons nl "DO" nl {statement} "ENDWHILE" nl
    fn while_statement(&mut self) -> (r: Result<Statement, CompileError>)
        requires
            old(self).wf(),
            old(self).position() < old(self)@.len(),
            old(self)@[old(self).position()] is While,
        ensures
            final(self).wf(),
            final(self)@ == old(self)@,
            final(self).statement_outcome(r) == statement_spec(old(self)@, old(self).position(), old(self).declared()),
            r is Ok ==> old(self).position() < final(self).position(),
        decreases old(self)@.len() - old(self).position(), 0int,
    {
        let p = self.counter;
        self.counter = p + 1;
        match self.comparisons() {
            Err(e) => return Err(e),
            Ok(()) => {},
        }
        proof {
            lemma_comparisons_bounds(self@, p + 1, self.declared());
        }
        let end = self.counter;
        match self.newline() {
            Err(e) => return Err(e),
            Ok(()) => {},
        }
        let condition = self.get_range_of_tokens(p + 1, end);
        let condition_tree = Self::condition_tree(condition.as_slice());
        match self.match_token(Expectation::Do) {
            Err(e) => return Err(e),
            Ok(()) => {},
        }
        match self.match_token(Expectation::Newline) {
            Err(e) => return Err(e),
            Ok(()) => {},
        }
        let while_body = match self.statements(Some(Expectation::Endwhile)) {
            Err(e) => return Err(e),
            Ok(body) => body,
        };
        self.counter = self.counter + 1;
        match self.newline() {
            Err(e) => Err(e),
            Ok(()) => Ok(Statement::While { condition_tree, while_body }),
        }
    }

    /// "INPUT" string identifier nl
    fn input_statement(&mut self) -> (r: Result<Statement, CompileError>)
        requires
            old(self).wf(),
            old(self).position() < old(self)@.len(),
            old(self)@[old(self).position()] is Input,
        ensures
            final(self).wf(),
            final(self)@ == old(self)@,
            final(self).statement_outcome(r) == statement_spec(old(self)@, old(self).position(), old(self).declared()),
            r is Ok ==> old(self).position() < final(self).position(),
        decreases old(self)@.len() - old(self).position(), 0int,
    {
        let p = self.counter;
        self.counter = p + 1;
        match self.match_token(Expectation::StringLiteral) {
            Err(e) => return Err(e),
            Ok(()) => {},
        }
        let message = self.tokens[p + 1].clone();
        match self.match_token(Expectation::Identifier) {
            Err(e) => return Err(e),
            Ok(()) => {},
        }
        let identifier = self.tokens[p + 2].clone();
        self.add_identifier(&identifier);
        match self.newline() {
            Err(e) => Err(e),
            Ok(()) => Ok(Statement::Input { message, identifier }),
        }
    }

    /// Builds the condition tree of a token slice.
    pub fn condition_tree(condition: &[Token]) -> (r: Condition)
        ensures
            r.operation == operation_of(condition@),
            operation_tokens(r.operation) == condition@,
    {
        proof {
            lemma_condition_round_trip(condition@);
        }
        assert(condition@.skip(0) =~= condition@);
        Condition { operation: Self::operation_tree(condition, 0) }
    }

    fn operation_tree(condition: &[Token], start: usize) -> (r: Operation)
        requires
            start <= condition@.len(),
        ensures
            r == operation_of(condition@.skip(start as int)),
        decreases condition@.len() - start,
    {
        let ghost s = condition@.skip(start as int);
        let n = condition.len() - start;
        if n == 0 {
            Operation { operand_left: None, operator: None, operand_right: None }
        } else if n == 1 {
            Operation {
                operand_left: Some(Operand::Value { value: condition[start].clone() }),
                operator: None,
                operand_right: None,
            }
        } else if n == 2 {
            Operation {
                operand_left: Some(Operand::Value { value: condition[start].clone() }),
                operator: Some(condition[start + 1].clone()),
                operand_right: None,
            }
        } else if n == 3 {
            Operation {
                operand_left: Some(Operand::Value { value: condition[start].clone() }),
                operator: Some(condition[start + 1].clone()),
                operand_right: Some(Operand::Value { value: condition[start + 2].clone() }),
            }
        } else {
            let right = Self::operation_tree(condition, start + 2);
            assert(condition@.skip(start + 2) =~= s.skip(2));
            Operation {
                operand_left: Some(Operand::Value { value: condition[start].clone() }),
                operator: Some(condition[start + 1].clone()),
                operand_right: Some(Operand::Operation { operation: Box::new(right) }),
            }
        }
    }

    /// Builds the expression tree of a token slice.
    pub fn expression_tree(expression: &[Token]) -> (r: Expression)
        ensures
            r == expression_of(expression@),
            expression_tokens(r) == expression@,
    {
        proof {
            lemma_expression_round_trip(expression@);
        }
        assert(expression@.skip(0) =~= expression@);
        Self::expression_tree_from(expression, 0)
    }

    fn term_at(expression: &[Token], start: usize) -> (r: (Term, usize))
        requires
            start < expression@.len(),
        ensures
            r.0 == term_of(expression@.skip(start as int)),
            r.1 == leading_term_len(expression@.skip(start as int)),
    {
        if start < expression.len() - 1 && Lexer::is_sign(&expression[start]) {
            (Term::Value { sign: Some(expression[start].clone()), value: expression[start + 1].clone() }, 2)
        } else {
            (Term::Value { sign: None, value: expression[start].clone() }, 1)
        }
    }

    fn expression_tree_from(expression: &[Token], start: usize) -> (r: Expression)
        requires
            start <= expression@.len(),
        ensures
            r == expression_of(expression@.skip(start as int)),
        decreases expression@.len() - start,
    {
        let ghost s = expression@.skip(start as int);
        let n = expression.len();
        if start == n {
            return Expression { left: None, numeric_operator: None, right: None };
        }
        let (left, k) = Self::term_at(expression, start);
        if start + k >= n {
            return Expression { left: Some(left), numeric_operator: None, right: None };
        }
        let operator = expression[start + k].clone();
        let rest = start + k + 1;
        assert(expression@.skip(rest as int) =~= s.skip(k + 1));
        if rest == n {
            return Expression { left: Some(left), numeric_operator: Some(operator), right: None };
        }
        let (right, k2) = Self::term_at(expression, rest);
        if rest + k2 >= n {
            Expression { left: Some(left), numeric_operator: Some(operator), right: Some(right) }
        } else {
            let nested = Self::expression_tree_from(expression, rest);
            Expression {
                left: Some(left),
                numeric_operator: Some(operator),
                right: Some(Term::Operation { operation: Box::new(nested) }),
            }
        }
    }
}

} // verus!
