use vstd::prelude::*;

use crate::lexer::{Lexer, Token, host_text};
use crate::parser::{
    Condition,
    Expression,
    Statement,
    StatementView,
    body_view,
    expression_tokens,
    operation_tokens,
    statement_view,
};

verus! {

/// The names in a list of strings.
pub open spec fn names_of(v: Seq<String>) -> Set<Seq<char>> {
    Set::new(|n: Seq<char>| exists|i: int| 0 <= i < v.len() && #[trigger] v[i]@ == n)
}

pub open spec fn lines_view(v: Seq<String>) -> Seq<Seq<char>> {
    v.map_values(|s: String| s@)
}

/// Token texts joined by single spaces.
pub open spec fn joined(ts: Seq<Token>) -> Seq<char>
    decreases ts.len(),
{
    if ts.len() == 0 {
        seq![]
    } else if ts.len() == 1 {
        host_text(ts[0]@)
    } else {
        joined(ts.drop_last()) + " "@ + host_text(ts.last()@)
    }
}

/// The text of a value token: its spelling in the generated program.
pub open spec fn value_text(t: Token) -> Seq<char> {
    host_text(t@)
}

pub open spec fn print_line(text: Seq<char>) -> Seq<char> {
    "println!(\"{}\", "@ + text + " );"@
}

pub open spec fn prompt_line(text: Seq<char>) -> Seq<char> {
    "println!(\"{}\", "@ + text + ");"@
}

pub open spec fn declare_line(name: Seq<char>, expr: Seq<char>) -> Seq<char> {
    "let mut "@ + name + " = "@ + expr + ";"@
}

pub open spec fn assign_line(name: Seq<char>, expr: Seq<char>) -> Seq<char> {
    name + " = "@ + expr + ";"@
}

pub open spec fn default_line(name: Seq<char>) -> Seq<char> {
    "let mut "@ + name + " = Default::default();"@
}

pub open spec fn read_line(name: Seq<char>) -> Seq<char> {
    "std::io::stdin().read_line(&mut "@ + name + ").expect(\"Failed to read user input\");"@
}

pub open spec fn parse_line(name: Seq<char>) -> Seq<char> {
    "let mut "@ + name + " = "@ + name + ".trim().parse().unwrap();"@
}

/// The lines of one statement, given the names already declared in the
/// output, and the names declared after it.
pub open spec fn statement_lines(s: StatementView, used: Set<Seq<char>>) -> (Seq<Seq<char>>, Set<Seq<char>>)
    decreases s,
{
    match s {
        StatementView::Print { value } => (seq![print_line(value_text(value))], used),
        StatementView::Let { identifier, expression_tree } => {
            let name = value_text(identifier);
            let expr = joined(expression_tokens(expression_tree));
            if used.contains(name) {
                (seq![assign_line(name, expr)], used)
            } else {
                (seq![declare_line(name, expr)], used.insert(name))
            }
        },
        StatementView::If { condition_tree, if_body } => {
            let inner = body_lines(if_body, used);
            (
                seq!["if "@ + joined(operation_tokens(condition_tree.operation)) + " {"@] + inner.0
                    + seq!["}"@],
                inner.1,
            )
        },
        StatementView::While { condition_tree, while_body } => {
            let inner = body_lines(while_body, used);
            (
                seq!["while "@ + joined(operation_tokens(condition_tree.operation)) + " {"@]
                    + inner.0 + seq!["}"@],
                inner.1,
            )
        },
        StatementView::Input { message, identifier } => {
            let name = value_text(identifier);
            let rest = seq![prompt_line(value_text(message)), read_line(name), parse_line(name)];
            if used.contains(name) {
                (rest, used)
            } else {
                (seq![default_line(name)] + rest, used.insert(name))
            }
        },
        StatementView::Empty => (seq![], used),
    }
}

/// The lines of a sequence of statements, in order.
pub open spec fn body_lines(b: Seq<StatementView>, used: Set<Seq<char>>) -> (Seq<Seq<char>>, Set<Seq<char>>)
    decreases b,
{
    if b.len() == 0 {
        (seq![], used)
    } else {
        let front = body_lines(b.subrange(0, b.len() - 1), used);
        let last = statement_lines(b[b.len() - 1], front.1);
        (front.0 + last.0, last.1)
    }
}

/// The whole generated program.
pub open spec fn program_lines(b: Seq<StatementView>) -> Seq<Seq<char>> {
    seq!["#[allow(unused_mut)]"@, "fn main() {"@] + body_lines(b, Set::empty()).0 + seq!["}"@]
}

/// A name's first `LET` emits a declaration; a second `LET` of the same name
/// emits a bare reassignment.
pub proof fn lemma_declaration_then_reassignment(identifier: Token, first: Expression, second: Expression)
    ensures
        program_lines(
            seq![
                StatementView::Let { identifier, expression_tree: first },
                StatementView::Let { identifier, expression_tree: second },
            ],
        ) == seq![
            "#[allow(unused_mut)]"@,
            "fn main() {"@,
            declare_line(value_text(identifier), joined(expression_tokens(first))),
            assign_line(value_text(identifier), joined(expression_tokens(second))),
            "}"@,
        ],
{
    let b = seq![
        StatementView::Let { identifier, expression_tree: first },
        StatementView::Let { identifier, expression_tree: second },
    ];
    assert(b.subrange(0, 1).subrange(0, 0) =~= Seq::<StatementView>::empty());
    assert(b.subrange(0, 1)[0] == b[0]);
    let name = value_text(identifier);
    let e = Set::<Seq<char>>::empty();
    assert(e.insert(name).contains(name));
    let x = b.subrange(0, 1);
    let one = body_lines(x, e);
    assert(x.len() == 1);
    assert(x.subrange(0, x.len() - 1) =~= Seq::<StatementView>::empty());
    assert(body_lines(x.subrange(0, x.len() - 1), e) == (Seq::<Seq<char>>::empty(), e));
    assert(!e.contains(name));
    assert(statement_lines(x[0], e) == (seq![declare_line(name, joined(expression_tokens(first)))], e.insert(name)));
    assert(one.0 =~= seq![declare_line(name, joined(expression_tokens(first)))]);
    assert(one.1 == e.insert(name));
    assert(b.subrange(0, b.len() - 1) == x);
    assert(one.1.contains(name));
    assert(statement_lines(b[1], one.1) == (seq![assign_line(name, joined(expression_tokens(second)))], one.1));
    assert(body_lines(b, e).0 =~= one.0 + seq![assign_line(name, joined(expression_tokens(second)))]);
    assert(program_lines(b) =~= seq![
        "#[allow(unused_mut)]"@,
        "fn main() {"@,
        declare_line(name, joined(expression_tokens(first))),
        assign_line(name, joined(expression_tokens(second))),
        "}"@,
    ]);
}

/// Holds a statement tree until it is turned into program text.
pub struct Emitter {
    statements: Vec<Statement>,
}

impl View for Emitter {
    type V = Seq<StatementView>;

    closed spec fn view(&self) -> Seq<StatementView> {
        body_view(self.statements@)
    }
}

fn contains_name(names: &Vec<String>, name: &String) -> (r: bool)
    ensures
        r == names_of(names@).contains(name@),
{
    let mut i: usize = 0;
    while i < names.len()
        invariant
            i <= names@.len(),
            forall|j: int| 0 <= j < i ==> (#[trigger] names@[j])@ != name@,
        decreases names@.len() - i,
    {
        if names[i] == *name {
            return true;
        }
        i += 1;
    }
    false
}

fn add_name(names: &mut Vec<String>, name: String)
    ensures
        names_of(final(names)@) == names_of(old(names)@).insert(name@),
{
    let ghost n = name@;
    names.push(name);
    assert(names_of(names@) =~= names_of(old(names)@).insert(n)) by {
        assert(names@[names@.len() - 1]@ == n);
        assert forall|x: Seq<char>| names_of(old(names)@).contains(x) implies names_of(names@).contains(x) by {
            let i = choose|i: int| 0 <= i < old(names)@.len() && #[trigger] old(names)@[i]@ == x;
            assert(names@[i] == old(names)@[i]);
        }
    }
}

fn push_line(lines: &mut Vec<String>, line: String)
    ensures
        lines_view(final(lines)@) == lines_view(old(lines)@).push(line@),
{
    lines.push(line);
    assert(lines_view(lines@) =~= lines_view(old(lines)@).push(line@));
}

fn append_lines(lines: &mut Vec<String>, more: Vec<String>)
    ensures
        lines_view(final(lines)@) == lines_view(old(lines)@) + lines_view(more@),
{
    let ghost added = more@;
    let mut more = more;
    lines.append(&mut more);
    assert(lines_view(lines@) =~= lines_view(old(lines)@) + lines_view(added));
}

impl Emitter {
    pub fn new(statements: Vec<Statement>) -> (r: Emitter)
        ensures
            r@ == body_view(statements@),
    {
        Emitter { statements }
    }

    /// The lines of the generated program: the statements' lines inside `main`.
    pub fn emit(&mut self) -> (r: Vec<String>)
        ensures
            final(self)@ == old(self)@,
            lines_view(r@) == program_lines(old(self)@),
    {
        let mut used_variables: Vec<String> = Vec::new();
        let mut lines: Vec<String> = Vec::new();
        assert(names_of(used_variables@) =~= Set::<Seq<char>>::empty());
        push_line(&mut lines, String::from_str("#[allow(unused_mut)]"));
        push_line(&mut lines, String::from_str("fn main() {"));
        let body = Self::evaluate_body(&self.statements, &mut used_variables);
        append_lines(&mut lines, body);
        push_line(&mut lines, String::from_str("}"));
        assert(lines_view(lines@) =~= program_lines(old(self)@));
        lines
    }

    fn evaluate_body(body: &Vec<Statement>, used_variables: &mut Vec<String>) -> (r: Vec<String>)
        ensures
            (lines_view(r@), names_of(final(used_variables)@)) == body_lines(
                body_view(body@),
                names_of(old(used_variables)@),
            ),
        decreases body,
    {
        let mut out: Vec<String> = Vec::new();
        let mut i: usize = 0;
        assert(body@.subrange(0, 0) =~= Seq::<Statement>::empty());
        assert(lines_view(out@) =~= seq![]);
        while i < body.len()
            invariant
                i <= body@.len(),
                (lines_view(out@), names_of(used_variables@)) == body_lines(
                    body_view(body@.subrange(0, i as int)),
                    names_of(old(used_variables)@),
                ),
            decreases body@.len() - i,
        {
            let more = Self::evaluate(&body[i], used_variables);
            append_lines(&mut out, more);
            proof {
                let b = body@.subrange(0, i + 1);
                assert(b.subrange(0, b.len() - 1) =~= body@.subrange(0, i as int));
                assert(b[b.len() - 1] == body@[i as int]);
                let bv = body_view(b);
                let front = body_view(body@.subrange(0, i as int));
                assert(bv == front.push(statement_view(body@[i as int])));
                assert(bv.subrange(0, bv.len() - 1) =~= front);
            }
            i += 1;
        }
        assert(body@.subrange(0, body@.len() as int) =~= body@);
        out
    }

    /// The lines of one statement; records the names it declares.
    fn evaluate(statement: &Statement, used_variables: &mut Vec<String>) -> (r: Vec<String>)
        ensures
            (lines_view(r@), names_of(final(used_variables)@)) == statement_lines(
                statement_view(*statement),
                names_of(old(used_variables)@),
            ),
        decreases statement,
    {
        let mut output: Vec<String> = Vec::new();
        assert(lines_view(output@) =~= seq![]);
        match statement {
            Statement::Print { value } => {
                let variable_value = Self::unwrap_value_token(value);
                let mut line = String::from_str("println!(\"{}\", ");
                line.append(variable_value.as_str());
                line.append(" );");
                push_line(&mut output, line);
            },
            Statement::Let { identifier, expression_tree } => {
                let variable = Self::unwrap_value_token(identifier);
                let expr = Self::convert_expression_to_string(expression_tree);
                if contains_name(used_variables, &variable) {
                    let mut line = variable.clone();
                    line.append(" = ");
                    line.append(expr.as_str());
                    line.append(";");
                    push_line(&mut output, line);
                } else {
                    let mut line = String::from_str("let mut ");
                    line.append(variable.as_str());
                    line.append(" = ");
                    line.append(expr.as_str());
                    line.append(";");
                    push_line(&mut output, line);
                    add_name(used_variables, variable);
                }
            },
            Statement::If { condition_tree, if_body } => {
                let expr = Self::convert_condition_to_string(condition_tree);
                let mut line = String::from_str("if ");
                line.append(expr.as_str());
                line.append(" {");
                push_line(&mut output, line);
                let inner = Self::evaluate_body(if_body, used_variables);
                append_lines(&mut output, inner);
                push_line(&mut output, String::from_str("}"));
            },
            Statement::While { condition_tree, while_body } => {
                let expr = Self::convert_condition_to_string(condition_tree);
                let mut line = String::from_str("while ");
                line.append(expr.as_str());
                line.append(" {");
                push_line(&mut output, line);
                let inner = Self::evaluate_body(while_body, used_variables);
                append_lines(&mut output, inner);
                push_line(&mut output, String::from_str("}"));
            },
            Statement::Input { message, identifier } => {
                let text = Self::unwrap_value_token(message);
                let variable = Self::unwrap_value_token(identifier);
                let declared = contains_name(used_variables, &variable);
                if !declared {
                    let mut line = String::from_str("let mut ");
                    line.append(variable.as_str());
                    line.append(" = Default::default();");
                    push_line(&mut output, line);
                }
                let mut prompt = String::from_str("println!(\"{}\", ");
                prompt.append(text.as_str());
                prompt.append(");");
                push_line(&mut output, prompt);
                let mut read = String::from_str("std::io::stdin().read_line(&mut ");
                read.append(variable.as_str());
                read.append(").expect(\"Failed to read user input\");");
                push_line(&mut output, read);
                let mut parse = String::from_str("let mut ");
                parse.append(variable.as_str());
                parse.append(" = ");
                parse.append(variable.as_str());
                parse.append(".trim().parse().unwrap();");
                push_line(&mut output, parse);
                if !declared {
                    add_name(used_variables, variable);
                }
            },
            Statement::Empty => {},
        }
        assert(lines_view(output@) =~= statement_lines(statement_view(*statement), names_of(old(used_variables)@)).0);
        output
    }

    fn convert_condition_to_string(condition: &Condition) -> (r: String)
        ensures
            r@ == joined(operation_tokens(condition.operation)),
    {
        let tokens = condition.get_tokens_from();
        Self::convert_expr_to_string(tokens)
    }

    fn convert_expression_to_string(expression: &Expression) -> (r: String)
        ensures
            r@ == joined(expression_tokens(*expression)),
    {
        let tokens = expression.get_tokens_from();
        Self::convert_expr_to_string(tokens)
    }

    /// Token texts joined by single spaces.
    fn convert_expr_to_string(expression: Vec<Token>) -> (r: String)
        ensures
            r@ == joined(expression@),
    {
        let mut out = String::new();
        let mut i: usize = 0;
        assert(expression@.subrange(0, 0) =~= Seq::<Token>::empty());
        while i < expression.len()
            invariant
                i <= expression@.len(),
                out@ == joined(expression@.subrange(0, i as int)),
            decreases expression@.len() - i,
        {
            let text = Lexer::convert_token_to_string(expression[i].clone());
            if i > 0 {
                out.append(" ");
            }
            out.append(text.as_str());
            proof {
                let b = expression@.subrange(0, i + 1);
                assert(b.drop_last() =~= expression@.subrange(0, i as int));
                if i == 0 {
                    assert(out@ =~= joined(b));
                }
            }
            i += 1;
        }
        assert(expression@.subrange(0, expression@.len() as int) =~= expression@);
        out
    }

    /// The text of a value token.
    fn unwrap_value_token(token: &Token) -> (r: String)
        ensures
            r@ == value_text(*token),
    {
        Lexer::convert_token_to_string(token.clone())
    }
}

} // verus!
